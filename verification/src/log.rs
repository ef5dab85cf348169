//! The replicated log: an ordered sequence of entries indexed from 1.

use vstd::prelude::*;

verus! {

/// Mathematical image of one log entry.
#[verifier::ext_equal]
pub struct EntryView {
    pub term: u64,
    pub index: u64,
    pub data: Seq<u8>,
    pub entry_type: Seq<char>,
    pub key: Seq<char>,
}

/// One record of the replicated log, immutable once appended.
#[derive(Debug)]
pub struct LogEntry {
    /// Term in which a leader created the entry.
    pub term: u64,
    /// 1-based position in the log.
    pub index: u64,
    /// Payload bytes; for a configuration change, `key:value`.
    pub data: Vec<u8>,
    /// Kind of entry, such as a no-op or a configuration change.
    pub entry_type: String,
    /// Key touched by a configuration change, empty otherwise.
    pub key: String,
}

impl View for LogEntry {
    type V = EntryView;

    open spec fn view(&self) -> EntryView {
        EntryView {
            term: self.term,
            index: self.index,
            data: self.data@,
            entry_type: self.entry_type@,
            key: self.key@,
        }
    }
}

impl DeepView for LogEntry {
    type V = EntryView;

    open spec fn deep_view(&self) -> EntryView {
        self@
    }
}

impl Clone for LogEntry {
    fn clone(&self) -> (r: Self)
        ensures
            r@ == self@,
    {
        let r = LogEntry {
            term: self.term,
            index: self.index,
            data: vstd::slice::slice_to_vec(self.data.as_slice()),
            entry_type: self.entry_type.clone(),
            key: self.key.clone(),
        };
        proof {
            assert(r@ =~= self@);
        }
        r
    }
}

/// The index the log assigns to its last entry; 0 for an empty log.
pub open spec fn last_index_of(s: Seq<EntryView>) -> u64 {
    if s.len() == 0 {
        0
    } else {
        s.last().index
    }
}

/// The term of the last entry; 0 for an empty log.
pub open spec fn last_term_of(s: Seq<EntryView>) -> u64 {
    if s.len() == 0 {
        0
    } else {
        s.last().term
    }
}

/// The first entry carrying the given index, scanning from the front.
pub open spec fn entry_with_index(s: Seq<EntryView>, index: u64) -> Option<EntryView>
    decreases s.len(),
{
    if s.len() == 0 {
        None
    } else if s.first().index == index {
        Some(s.first())
    } else {
        entry_with_index(s.drop_first(), index)
    }
}

/// The term recorded at an index; index 0 carries term 0 by convention.
pub open spec fn term_at_index(s: Seq<EntryView>, index: u64) -> Option<u64> {
    if index == 0 {
        Some(0u64)
    } else {
        match entry_with_index(s, index) {
            Some(e) => Some(e.term),
            None => None,
        }
    }
}

/// A log laid out as the protocol keeps it: the entry at position `i`
/// carries index `i + 1`, and terms never decrease along the log.
pub open spec fn wf_entries(s: Seq<EntryView>) -> bool {
    &&& forall|i: int| 0 <= i < s.len() ==> (#[trigger] s[i]).index == i + 1
    &&& forall|i: int, j: int| 0 <= i <= j < s.len() ==> s[i].term <= s[j].term
}

/// Scanning for an index skips any prefix free of it.
pub proof fn lemma_entry_with_index_skip(s: Seq<EntryView>, index: u64, k: int)
    requires
        0 <= k <= s.len(),
        forall|j: int| 0 <= j < k ==> (#[trigger] s[j]).index != index,
    ensures
        entry_with_index(s, index) == entry_with_index(s.skip(k), index),
    decreases k,
{
    if k > 0 {
        assert(s.first() == s[0]);
        assert(forall|j: int|
            0 <= j < s.drop_first().len() ==> (#[trigger] s.drop_first()[j]) == s[j + 1]);
        lemma_entry_with_index_skip(s.drop_first(), index, k - 1);
        assert(s.drop_first().skip(k - 1) =~= s.skip(k));
    } else {
        assert(s.skip(0) =~= s);
    }
}

/// In a well-formed log the first (and only) entry with index `i`
/// sits at position `i - 1`.
pub proof fn lemma_wf_entry_with_index(s: Seq<EntryView>, index: u64)
    requires
        wf_entries(s),
    ensures
        1 <= index <= s.len() ==> entry_with_index(s, index) == Some(s[index - 1]),
        (index == 0 || index > s.len()) ==> entry_with_index(s, index) is None,
{
    if 1 <= index && index <= s.len() {
        lemma_entry_with_index_skip(s, index, index - 1);
        assert(s.skip(index - 1).first() == s[index - 1]);
    } else {
        lemma_entry_with_index_skip(s, index, s.len() as int);
        assert(s.skip(s.len() as int).len() == 0);
    }
}

/// The ordered entry sequence together with the indices the node tracks
/// over it: the highest entry known committed and the highest applied.
#[derive(Debug)]
pub struct RaftLog {
    pub entities: Vec<LogEntry>,
    pub commit_index: u64,
    pub last_applied: u64,
}

impl RaftLog {
    /// The mathematical contents of the log.
    pub open spec fn entries(&self) -> Seq<EntryView> {
        self.entities.deep_view()
    }

    /// An empty log with nothing committed or applied.
    pub fn new() -> (r: Self)
        ensures
            r.entries() == Seq::<EntryView>::empty(),
            r.commit_index == 0,
            r.last_applied == 0,
    {
        let r = RaftLog { entities: Vec::new(), commit_index: 0, last_applied: 0 };
        proof {
            assert(r.entries() =~= Seq::<EntryView>::empty());
        }
        r
    }

    /// Index of the last entry, or 0 when the log is empty.
    pub fn last_log_index(&self) -> (r: u64)
        ensures
            r == last_index_of(self.entries()),
    {
        if self.entities.len() == 0 {
            0
        } else {
            self.entities[self.entities.len() - 1].index
        }
    }

    /// Term of the last entry, or 0 when the log is empty.
    pub fn last_log_term(&self) -> (r: u64)
        ensures
            r == last_term_of(self.entries()),
    {
        if self.entities.len() == 0 {
            0
        } else {
            self.entities[self.entities.len() - 1].term
        }
    }

    /// Appends the given entries at the end, in order.
    pub fn append_entries(&mut self, entries: Vec<LogEntry>)
        ensures
            final(self).entries() == old(self).entries() + entries.deep_view(),
            final(self).commit_index == old(self).commit_index,
            final(self).last_applied == old(self).last_applied,
    {
        let ghost extra = entries.deep_view();
        let mut entries = entries;
        self.entities.append(&mut entries);
        proof {
            assert(self.entries() =~= old(self).entries() + extra);
        }
    }

    /// Appends one entry at the end.
    pub fn append_entry(&mut self, entry: LogEntry)
        ensures
            final(self).entries() == old(self).entries().push(entry@),
            final(self).commit_index == old(self).commit_index,
            final(self).last_applied == old(self).last_applied,
    {
        let ghost ev = entry@;
        self.entities.push(entry);
        proof {
            assert(self.entries() =~= old(self).entries().push(ev));
        }
    }

    /// All entries whose index is at least `start_index`, kept in order.
    pub fn get_entries_from(&self, start_index: u64) -> (r: Vec<LogEntry>)
        ensures
            r.deep_view() == self.entries().filter(|e: EntryView| e.index >= start_index),
    {
        let mut out: Vec<LogEntry> = Vec::new();
        let n = self.entities.len();
        let mut i: usize = 0;
        while i < n
            invariant
                i <= n,
                n == self.entities@.len(),
                out.deep_view() == self.entries().take(i as int).filter(
                    |e: EntryView| e.index >= start_index,
                ),
            decreases n - i,
        {
            proof {
                reveal(Seq::filter);
                assert(self.entries().take(i + 1).drop_last() =~= self.entries().take(i as int));
                assert(self.entries().take(i + 1).last() == self.entities@[i as int]@);
            }
            if self.entities[i].index >= start_index {
                let ghost prev = out.deep_view();
                out.push(self.entities[i].clone());
                proof {
                    assert(out.deep_view() =~= prev.push(self.entities@[i as int]@));
                }
            }
            i += 1;
        }
        proof {
            assert(self.entries().take(n as int) =~= self.entries());
        }
        out
    }

    /// The term of the entry at `index`; `Some(0)` for index 0, `None`
    /// where the log has no such entry.
    pub fn get_term_at(&self, index: u64) -> (r: Option<u64>)
        ensures
            r == term_at_index(self.entries(), index),
    {
        if index == 0 {
            return Some(0);
        }
        let n = self.entities.len();
        let mut i: usize = 0;
        proof {
            assert(self.entries().skip(0) =~= self.entries());
        }
        while i < n
            invariant
                i <= n,
                index >= 1,
                n == self.entities@.len(),
                entry_with_index(self.entries(), index) == entry_with_index(
                    self.entries().skip(i as int),
                    index,
                ),
            decreases n - i,
        {
            proof {
                assert(self.entries().skip(i as int).first() == self.entities@[i as int]@);
                assert(self.entries().skip(i as int).drop_first() =~= self.entries().skip(i + 1));
            }
            if self.entities[i].index == index {
                proof {
                    assert(entry_with_index(self.entries().skip(i as int), index) == Some(
                        self.entities@[i as int]@,
                    ));
                }
                return Some(self.entities[i].term);
            }
            i += 1;
        }
        None
    }

    /// The first entry at `index`, where the log holds one.
    pub fn get_entry_at(&self, index: u64) -> (r: Option<&LogEntry>)
        ensures
            match r {
                Some(e) => entry_with_index(self.entries(), index) == Some(e@),
                None => entry_with_index(self.entries(), index) is None,
            },
    {
        let n = self.entities.len();
        let mut i: usize = 0;
        proof {
            assert(self.entries().skip(0) =~= self.entries());
        }
        while i < n
            invariant
                i <= n,
                n == self.entities@.len(),
                entry_with_index(self.entries(), index) == entry_with_index(
                    self.entries().skip(i as int),
                    index,
                ),
            decreases n - i,
        {
            proof {
                assert(self.entries().skip(i as int).first() == self.entities@[i as int]@);
                assert(self.entries().skip(i as int).drop_first() =~= self.entries().skip(i + 1));
            }
            if self.entities[i].index == index {
                proof {
                    assert(entry_with_index(self.entries().skip(i as int), index) == Some(
                        self.entities@[i as int]@,
                    ));
                }
                return Some(&self.entities[i]);
            }
            i += 1;
        }
        None
    }

    /// Whether the log holds an entry with this index and term.
    pub fn contains_entry(&self, index: u64, term: u64) -> (r: bool)
        ensures
            r == exists|i: int|
                0 <= i < self.entries().len() && (#[trigger] self.entries()[i]).index == index
                    && self.entries()[i].term == term,
    {
        let n = self.entities.len();
        let mut i: usize = 0;
        while i < n
            invariant
                i <= n,
                n == self.entities@.len(),
                forall|j: int|
                    0 <= j < i ==> !((#[trigger] self.entries()[j]).index == index
                        && self.entries()[j].term == term),
            decreases n - i,
        {
            if self.entities[i].index == index && self.entities[i].term == term {
                proof {
                    assert((self.entries()[i as int]).index == index && self.entries()[
                        i as int
                    ].term == term);
                }
                return true;
            }
            i += 1;
        }
        false
    }

    /// Removes every entry whose index is `start_index` or more.
    pub fn truncate_from(&mut self, start_index: u64)
        ensures
            final(self).entries() == old(self).entries().filter(
                |e: EntryView| e.index < start_index,
            ),
            final(self).commit_index == old(self).commit_index,
            final(self).last_applied == old(self).last_applied,
    {
        let mut out: Vec<LogEntry> = Vec::new();
        let n = self.entities.len();
        let mut i: usize = 0;
        while i < n
            invariant
                i <= n,
                n == self.entities@.len(),
                out.deep_view() == self.entries().take(i as int).filter(
                    |e: EntryView| e.index < start_index,
                ),
            decreases n - i,
        {
            proof {
                reveal(Seq::filter);
                assert(self.entries().take(i + 1).drop_last() =~= self.entries().take(i as int));
                assert(self.entries().take(i + 1).last() == self.entities@[i as int]@);
            }
            if self.entities[i].index < start_index {
                let ghost prev = out.deep_view();
                out.push(self.entities[i].clone());
                proof {
                    assert(out.deep_view() =~= prev.push(self.entities@[i as int]@));
                }
            }
            i += 1;
        }
        proof {
            assert(self.entries().take(n as int) =~= self.entries());
        }
        self.entities = out;
    }
}

/// From a well-formed log, the entries at `start_index` and beyond are
/// exactly the positions from `start_index - 1` on.
pub proof fn lemma_wf_entries_from(s: Seq<EntryView>, start_index: u64)
    requires
        wf_entries(s),
        start_index >= 1,
    ensures
        s.filter(|e: EntryView| e.index >= start_index) == s.skip(
            if start_index - 1 <= s.len() {
                start_index - 1
            } else {
                s.len() as int
            },
        ),
    decreases s.len(),
{
    reveal(Seq::filter);
    let cut = if start_index - 1 <= s.len() {
        start_index - 1
    } else {
        s.len() as int
    };
    if s.len() > 0 {
        assert(forall|i: int| 0 <= i < s.drop_last().len() ==> s.drop_last()[i] == s[i]);
        lemma_wf_entries_from(s.drop_last(), start_index);
        assert(s.filter(|e: EntryView| e.index >= start_index) =~= s.skip(cut));
    } else {
        assert(s.filter(|e: EntryView| e.index >= start_index) =~= s.skip(cut));
    }
}

/// Truncating a well-formed log keeps exactly its first
/// `start_index - 1` entries.
pub proof fn lemma_wf_truncate(s: Seq<EntryView>, start_index: u64)
    requires
        wf_entries(s),
        start_index >= 1,
    ensures
        s.filter(|e: EntryView| e.index < start_index) == s.take(
            if start_index - 1 <= s.len() {
                start_index - 1
            } else {
                s.len() as int
            },
        ),
    decreases s.len(),
{
    reveal(Seq::filter);
    let cut = if start_index - 1 <= s.len() {
        start_index - 1
    } else {
        s.len() as int
    };
    if s.len() > 0 {
        assert(forall|i: int| 0 <= i < s.drop_last().len() ==> s.drop_last()[i] == s[i]);
        lemma_wf_truncate(s.drop_last(), start_index);
        assert(s.filter(|e: EntryView| e.index < start_index) =~= s.take(cut));
    } else {
        assert(s.filter(|e: EntryView| e.index < start_index) =~= s.take(cut));
    }
}

} // verus!
