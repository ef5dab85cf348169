//! The replicated state machine: a mapping from string keys to byte values,
//! advanced by applying committed log entries in index order.

use vstd::prelude::*;
use vstd::pervasive::VecAdditionalExecFns;
use crate::log::{EntryView, LogEntry};

verus! {

/// Mathematical image of one stored binding.
#[verifier::ext_equal]
pub struct PairView {
    pub key: Seq<char>,
    pub value: Seq<u8>,
}

/// One stored key/value binding.
#[derive(Debug)]
pub struct ConfigPair {
    pub key: String,
    pub value: Vec<u8>,
}

impl View for ConfigPair {
    type V = PairView;

    open spec fn view(&self) -> PairView {
        PairView { key: self.key@, value: self.value@ }
    }
}

impl DeepView for ConfigPair {
    type V = PairView;

    open spec fn deep_view(&self) -> PairView {
        self@
    }
}

/// The mapping a sequence of bindings denotes; later bindings win.
pub open spec fn pairs_as_map(s: Seq<PairView>) -> Map<Seq<char>, Seq<u8>>
    decreases s.len(),
{
    if s.len() == 0 {
        Map::empty()
    } else {
        pairs_as_map(s.drop_last()).insert(s.last().key, s.last().value)
    }
}

/// The entry kind whose application writes a binding.
pub open spec fn spec_config_set() -> Seq<char> {
    "config_set"@
}

/// The mapping after one entry is applied: a `config_set` entry binds its
/// key to its payload; any other kind leaves the mapping unchanged.
pub open spec fn apply_one(m: Map<Seq<char>, Seq<u8>>, e: EntryView) -> Map<Seq<char>, Seq<u8>> {
    if e.entry_type == spec_config_set() {
        m.insert(e.key, e.data)
    } else {
        m
    }
}

/// The mapping reached by applying the first `upto` entries, in order,
/// starting from nothing.
pub open spec fn replay(entries: Seq<EntryView>, upto: int) -> Map<Seq<char>, Seq<u8>>
    decreases upto,
{
    if upto <= 0 {
        Map::empty()
    } else {
        apply_one(replay(entries, upto - 1), entries[upto - 1])
    }
}

/// Replay only reads the entries it is given: two logs that agree on a
/// committed prefix replay to the same contents.  In particular a node
/// that restarts with its log intact and replays its committed entries
/// rebuilds exactly the state machine it had.
pub proof fn lemma_replay_deterministic(e1: Seq<EntryView>, e2: Seq<EntryView>, n: int)
    requires
        0 <= n <= e1.len(),
        n <= e2.len(),
        forall|i: int| 0 <= i < n ==> e1[i] == e2[i],
    ensures
        replay(e1, n) == replay(e2, n),
    decreases n,
{
    if n > 0 {
        lemma_replay_deterministic(e1, e2, n - 1);
    }
}

/// The key-to-value store the applier maintains.  Keys are unique.
#[derive(Debug)]
pub struct ConfigStateMachine {
    pub pairs: Vec<ConfigPair>,
}

impl View for ConfigStateMachine {
    type V = Map<Seq<char>, Seq<u8>>;

    open spec fn view(&self) -> Map<Seq<char>, Seq<u8>> {
        pairs_as_map(self.pairs.deep_view())
    }
}

/// No two bindings share a key.
pub open spec fn unique_keys(s: Seq<PairView>) -> bool {
    forall|i: int, j: int| 0 <= i < j < s.len() ==> s[i].key != s[j].key
}

/// Under unique keys, any binding in the sequence is the one the
/// denoted mapping holds.
pub proof fn lemma_pairs_as_map_entry(s: Seq<PairView>, i: int)
    requires
        unique_keys(s),
        0 <= i < s.len(),
    ensures
        pairs_as_map(s).contains_key(s[i].key),
        pairs_as_map(s)[s[i].key] == s[i].value,
    decreases s.len(),
{
    if i < s.len() - 1 {
        assert(forall|a: int, b: int|
            0 <= a < b < s.drop_last().len() ==> s.drop_last()[a].key != s.drop_last()[b].key);
        lemma_pairs_as_map_entry(s.drop_last(), i);
        assert(s.last().key != s[i].key);
    }
}

/// A key on no binding is absent from the denoted mapping.
pub proof fn lemma_pairs_as_map_absent(s: Seq<PairView>, k: Seq<char>)
    requires
        forall|i: int| 0 <= i < s.len() ==> (#[trigger] s[i]).key != k,
    ensures
        !pairs_as_map(s).contains_key(k),
    decreases s.len(),
{
    if s.len() > 0 {
        lemma_pairs_as_map_absent(s.drop_last(), k);
    }
}

/// Overwriting the binding at position `i` in place denotes an insert.
pub proof fn lemma_pairs_as_map_update(s: Seq<PairView>, i: int, p: PairView)
    requires
        unique_keys(s),
        0 <= i < s.len(),
        p.key == s[i].key,
    ensures
        pairs_as_map(s.update(i, p)) == pairs_as_map(s).insert(p.key, p.value),
        unique_keys(s.update(i, p)),
    decreases s.len(),
{
    let t = s.update(i, p);
    if i == s.len() - 1 {
        assert(t.drop_last() =~= s.drop_last());
        assert(pairs_as_map(t) =~= pairs_as_map(s).insert(p.key, p.value));
    } else {
        assert(t.drop_last() =~= s.drop_last().update(i, p));
        assert(forall|a: int, b: int|
            0 <= a < b < s.drop_last().len() ==> s.drop_last()[a].key != s.drop_last()[b].key);
        lemma_pairs_as_map_update(s.drop_last(), i, p);
        assert(s.last().key != p.key);
        assert(pairs_as_map(t) =~= pairs_as_map(s).insert(p.key, p.value));
    }
}

impl ConfigStateMachine {
    /// An empty store.
    pub fn new() -> (r: Self)
        ensures
            r@ == Map::<Seq<char>, Seq<u8>>::empty(),
            unique_keys(r.pairs.deep_view()),
    {
        let r = ConfigStateMachine { pairs: Vec::new() };
        proof {
            assert(r.pairs.deep_view() =~= Seq::<PairView>::empty());
        }
        r
    }

    /// The value bound to `key`, where one is.
    pub fn get(&self, key: &String) -> (r: Option<&Vec<u8>>)
        requires
            unique_keys(self.pairs.deep_view()),
        ensures
            match r {
                Some(v) => self@.contains_key(key@) && self@[key@] == v@,
                None => !self@.contains_key(key@),
            },
    {
        let n = self.pairs.len();
        let mut i: usize = 0;
        while i < n
            invariant
                i <= n,
                n == self.pairs@.len(),
                unique_keys(self.pairs.deep_view()),
                forall|j: int| 0 <= j < i ==> (#[trigger] self.pairs.deep_view()[j]).key != key@,
            decreases n - i,
        {
            if self.pairs[i].key == *key {
                proof {
                    lemma_pairs_as_map_entry(self.pairs.deep_view(), i as int);
                }
                return Some(&self.pairs[i].value);
            }
            i += 1;
        }
        proof {
            lemma_pairs_as_map_absent(self.pairs.deep_view(), key@);
        }
        None
    }

    /// Binds `key` to `value`, replacing any previous binding.
    pub fn set(&mut self, key: String, value: Vec<u8>)
        requires
            unique_keys(old(self).pairs.deep_view()),
        ensures
            final(self)@ == old(self)@.insert(key@, value@),
            unique_keys(final(self).pairs.deep_view()),
    {
        let ghost orig = self.pairs.deep_view();
        let n = self.pairs.len();
        let mut i: usize = 0;
        while i < n
            invariant
                i <= n,
                n == self.pairs@.len(),
                self.pairs.deep_view() == orig,
                orig == old(self).pairs.deep_view(),
                unique_keys(orig),
                forall|j: int| 0 <= j < i ==> (#[trigger] orig[j]).key != key@,
            decreases n - i,
        {
            if self.pairs[i].key == key {
                let p = ConfigPair { key, value };
                let ghost pv = p@;
                self.pairs.set(i, p);
                proof {
                    assert(self.pairs.deep_view() =~= orig.update(i as int, pv));
                    lemma_pairs_as_map_update(orig, i as int, pv);
                }
                return ;
            }
            i += 1;
        }
        let p = ConfigPair { key, value };
        let ghost pv = p@;
        self.pairs.push(p);
        proof {
            assert(self.pairs.deep_view() =~= orig.push(pv));
            assert(orig.push(pv).drop_last() =~= orig);
            assert(forall|a: int, b: int|
                0 <= a < b < orig.push(pv).len() ==> orig.push(pv)[a].key != orig.push(pv)[b].key);
        }
    }

    /// Applies one log entry: a `config_set` entry writes its binding.
    pub fn apply_entry(&mut self, entry: &LogEntry)
        requires
            unique_keys(old(self).pairs.deep_view()),
        ensures
            final(self)@ == apply_one(old(self)@, entry@),
            unique_keys(final(self).pairs.deep_view()),
    {
        let kind = String::from_str("config_set");
        proof {
            reveal_strlit("config_set");
        }
        if entry.entry_type == kind {
            self.set(entry.key.clone(), vstd::slice::slice_to_vec(entry.data.as_slice()));
        }
    }
}

} // verus!
