//! Log replication bookkeeping on the leader's side: consistency
//! checks, conflict backtracking, confirmation tallies and retry
//! accounting.  The transport that carries the requests lives with the
//! host; it feeds every response back through these functions.

use vstd::prelude::*;
use crate::log::{entry_with_index, LogEntry};
use crate::node::{peer_lookup, PeerIndexMap};

verus! {

/// Where a replicated entry stands in its life.
#[derive(Debug)]
pub enum LogEntryState {
    /// Only on the leader.
    Local,
    /// Fanned out, waiting for confirmations.
    Replicating {
        confirmed_nodes: Vec<String>,
        required_confirmations: usize,
        retry_count: RetryCounts,
    },
    /// Confirmed by a majority, not yet applied.
    Committed,
    /// Applied to the state machine.
    Applied,
    /// Given up after too many retries.
    Failed,
}

/// One entry's replication round.
#[derive(Debug)]
pub struct ReplicationTask {
    pub entry: LogEntry,
    pub target_nodes: Vec<String>,
    pub state: LogEntryState,
    pub created_at_ms: u64,
}

/// How a replication round ended.
#[derive(Debug)]
pub enum ReplicationResult {
    Success,
    InProgress,
    Failed(String),
    ConsistencyError,
}

/// Per-peer retry counters; an unlisted peer counts zero.
#[derive(Debug)]
pub struct RetryCounts {
    pub counts: PeerIndexMap,
}

impl RetryCounts {
    /// The count recorded for a peer, zero when none is.
    pub open spec fn count_of(&self, peer: Seq<char>) -> u64 {
        match peer_lookup(self.counts@, peer) {
            Some(c) => c,
            None => 0,
        }
    }

    /// Whether no peer is recorded twice.
    pub open spec fn wf(&self) -> bool {
        self.counts.wf()
    }

    /// All counters at zero.
    pub fn new() -> (r: Self)
        ensures
            r.wf(),
            forall|p: Seq<char>| #[trigger] r.count_of(p) == 0,
    {
        RetryCounts { counts: PeerIndexMap::new() }
    }

    /// The counter for one peer.
    pub fn get(&self, peer: &String) -> (r: u64)
        ensures
            r == self.count_of(peer@),
    {
        match self.counts.get(peer) {
            Some(c) => c,
            None => 0,
        }
    }

    /// Raises a peer's counter by one, stopping at the largest value.
    pub fn bump(&mut self, peer: &String)
        requires
            old(self).wf(),
        ensures
            final(self).wf(),
            final(self).count_of(peer@) == (if old(self).count_of(peer@) < u64::MAX {
                old(self).count_of(peer@) + 1
            } else {
                old(self).count_of(peer@) as int
            }),
            forall|q: Seq<char>|
                q != peer@ ==> #[trigger] final(self).count_of(q) == old(self).count_of(q),
    {
        let c = self.get(peer);
        if c < u64::MAX {
            self.counts.insert(peer.clone(), c + 1);
        } else {
            self.counts.insert(peer.clone(), c);
        }
    }

    /// Clears a peer's counter.
    pub fn reset(&mut self, peer: &String)
        requires
            old(self).wf(),
        ensures
            final(self).wf(),
            final(self).count_of(peer@) == 0,
            forall|q: Seq<char>|
                q != peer@ ==> #[trigger] final(self).count_of(q) == old(self).count_of(q),
    {
        self.counts.insert(peer.clone(), 0);
    }
}

/// Whether a sequence of node ids holds the given one.
pub open spec fn contains_id(s: Seq<Seq<char>>, id: Seq<char>) -> bool {
    exists|i: int| 0 <= i < s.len() && s[i] == id
}

/// The leader-side replication rules.  The timing fields configure the
/// host's retry loop; the rules themselves are the associated functions.
#[derive(Debug)]
pub struct LogReplication {
    /// Retries granted to one peer within one round.
    pub max_retry_count: u64,
    /// Milliseconds between retries.
    pub retry_interval_ms: u64,
}

impl LogReplication {
    /// The recommended bounds: three retries, a tenth of a second apart.
    pub fn new() -> (r: Self)
        ensures
            r.max_retry_count == 3,
            r.retry_interval_ms == 100,
    {
        LogReplication { max_retry_count: 3, retry_interval_ms: 100 }
    }

    /// The consistency check a follower applies: index 0 always passes;
    /// otherwise the log must hold the previous entry with the same term.
    pub fn check_log_consistency(
        local_log: &Vec<LogEntry>,
        prev_log_index: u64,
        prev_log_term: u64,
    ) -> (r: bool)
        ensures
            r == (prev_log_index == 0 || (match entry_with_index(
                local_log.deep_view(),
                prev_log_index,
            ) {
                Some(e) => e.term == prev_log_term,
                None => false,
            })),
    {
        if prev_log_index == 0 {
            return true;
        }
        let n = local_log.len();
        let mut i: usize = 0;
        proof {
            assert(local_log.deep_view().skip(0) =~= local_log.deep_view());
        }
        while i < n
            invariant
                i <= n,
                prev_log_index >= 1,
                n == local_log@.len(),
                entry_with_index(local_log.deep_view(), prev_log_index) == entry_with_index(
                    local_log.deep_view().skip(i as int),
                    prev_log_index,
                ),
            decreases n - i,
        {
            proof {
                assert(local_log.deep_view().skip(i as int).first() == local_log@[i as int]@);
                assert(local_log.deep_view().skip(i as int).drop_first()
                    =~= local_log.deep_view().skip(i + 1));
            }
            if local_log[i].index == prev_log_index {
                proof {
                    assert(entry_with_index(local_log.deep_view().skip(i as int), prev_log_index)
                        == Some(local_log@[i as int]@));
                }
                return local_log[i].term == prev_log_term;
            }
            i += 1;
        }
        false
    }

    /// Backtracks a peer's next index after a refused request: jump to
    /// the follower's conflict hint when it helps, else step back one,
    /// never below one; a peer without a record is left alone.
    pub fn handle_log_conflict(
        next_index: &mut PeerIndexMap,
        peer_id: &String,
        conflict_index: u64,
    )
        requires
            old(next_index).wf(),
        ensures
            final(next_index).wf(),
            match peer_lookup(old(next_index)@, peer_id@) {
                Some(cur) => {
                    &&& peer_lookup(final(next_index)@, peer_id@) == Some(
                        if conflict_index > 0 && conflict_index < cur {
                            conflict_index
                        } else if cur > 1 {
                            (cur - 1) as u64
                        } else {
                            cur
                        },
                    )
                    &&& forall|q: Seq<char>|
                        q != peer_id@ ==> peer_lookup(final(next_index)@, q) == peer_lookup(
                            old(next_index)@,
                            q,
                        )
                },
                None => final(next_index)@ == old(next_index)@,
            },
    {
        match next_index.get(peer_id) {
            Some(cur) => {
                let fresh = if conflict_index > 0 && conflict_index < cur {
                    conflict_index
                } else if cur > 1 {
                    cur - 1
                } else {
                    cur
                };
                next_index.insert(peer_id.clone(), fresh);
            },
            None => {},
        }
    }

    /// Books one response into a round's tally: a success counts the
    /// peer once and clears its retries; a refusal costs it a retry.
    /// Returns whether the peer newly confirmed the entry.
    pub fn handle_append_response(
        confirmed_nodes: &mut Vec<String>,
        retry_count: &mut RetryCounts,
        peer_id: &String,
        success: bool,
    ) -> (r: bool)
        requires
            old(retry_count).wf(),
        ensures
            final(retry_count).wf(),
            ({
                let was_in = contains_id(old(confirmed_nodes).deep_view(), peer_id@);
                let confirmed2 = final(confirmed_nodes).deep_view();
                let confirmed1 = old(confirmed_nodes).deep_view();
                let count2 = final(retry_count).count_of(peer_id@);
                let count1 = old(retry_count).count_of(peer_id@);
                &&& (success && !was_in ==> r && confirmed2 == confirmed1.push(peer_id@) && count2
                    == 0)
                &&& (success && was_in ==> r && confirmed2 == confirmed1 && count2 == 0)
                &&& (!success ==> !r && confirmed2 == confirmed1 && count2 == (if count1
                    < u64::MAX {
                    count1 + 1
                } else {
                    count1 as int
                }))
            }),
            forall|q: Seq<char>|
                q != peer_id@ ==> #[trigger] final(retry_count).count_of(q) == old(
                    retry_count,
                ).count_of(q),
    {
        if success {
            let n = confirmed_nodes.len();
            let mut i: usize = 0;
            let mut already = false;
            while i < n
                invariant
                    i <= n,
                    n == confirmed_nodes@.len(),
                    confirmed_nodes.deep_view() == old(confirmed_nodes).deep_view(),
                    already == exists|j: int|
                        0 <= j < i && (#[trigger] confirmed_nodes.deep_view()[j]) == peer_id@,
                decreases n - i,
            {
                if confirmed_nodes[i] == *peer_id {
                    already = true;
                }
                proof {
                    assert(confirmed_nodes.deep_view()[i as int] == confirmed_nodes@[i as int]@);
                }
                i += 1;
            }
            if !already {
                let ghost prev = confirmed_nodes.deep_view();
                confirmed_nodes.push(peer_id.clone());
                proof {
                    assert(confirmed_nodes.deep_view() =~= prev.push(peer_id@));
                }
            }
            retry_count.reset(peer_id);
            true
        } else {
            retry_count.bump(peer_id);
            false
        }
    }

    /// Judges a replication round after a batch of responses: enough
    /// confirmations commit it; with none to come and the majority
    /// missed, it has failed; otherwise the round goes on.
    pub fn judge_round(
        &self,
        confirmed_nodes: &Vec<String>,
        required_confirmations: usize,
        target_nodes: &Vec<String>,
        retry_count: &RetryCounts,
    ) -> (r: ReplicationResult)
        ensures
            confirmed_nodes@.len() >= required_confirmations ==> r is Success,
            confirmed_nodes@.len() < required_confirmations && !(exists|i: int|
                0 <= i < target_nodes.deep_view().len() && !contains_id(
                    confirmed_nodes.deep_view(),
                    #[trigger] target_nodes.deep_view()[i],
                ) && retry_count.count_of(target_nodes.deep_view()[i]) < self.max_retry_count)
                ==> r is Failed,
            confirmed_nodes@.len() < required_confirmations && (exists|i: int|
                0 <= i < target_nodes.deep_view().len() && !contains_id(
                    confirmed_nodes.deep_view(),
                    #[trigger] target_nodes.deep_view()[i],
                ) && retry_count.count_of(target_nodes.deep_view()[i]) < self.max_retry_count)
                ==> r is InProgress,
    {
        if confirmed_nodes.len() >= required_confirmations {
            ReplicationResult::Success
        } else if !self.has_retryable_nodes(target_nodes, confirmed_nodes, retry_count) {
            ReplicationResult::Failed(String::from_str("every remaining peer is out of retries"))
        } else {
            ReplicationResult::InProgress
        }
    }

    /// Whether some target still deserves a retry: not yet confirmed and
    /// under the retry bound.
    pub fn has_retryable_nodes(
        &self,
        target_nodes: &Vec<String>,
        confirmed_nodes: &Vec<String>,
        retry_count: &RetryCounts,
    ) -> (r: bool)
        ensures
            r == exists|i: int|
                0 <= i < target_nodes.deep_view().len() && !contains_id(
                    confirmed_nodes.deep_view(),
                    #[trigger] target_nodes.deep_view()[i],
                ) && retry_count.count_of(target_nodes.deep_view()[i]) < self.max_retry_count,
    {
        let n = target_nodes.len();
        let mut i: usize = 0;
        while i < n
            invariant
                i <= n,
                n == target_nodes@.len(),
                forall|j: int|
                    0 <= j < i ==> !(!contains_id(
                        confirmed_nodes.deep_view(),
                        #[trigger] target_nodes.deep_view()[j],
                    ) && retry_count.count_of(target_nodes.deep_view()[j])
                        < self.max_retry_count),
            decreases n - i,
        {
            let peer = &target_nodes[i];
            let mut seen = false;
            let m = confirmed_nodes.len();
            let mut j: usize = 0;
            while j < m
                invariant
                    j <= m,
                    m == confirmed_nodes@.len(),
                    i < n,
                    n == target_nodes@.len(),
                    peer == &target_nodes[i as int],
                    seen == exists|l: int|
                        0 <= l < j && (#[trigger] confirmed_nodes.deep_view()[l]) == peer@,
                decreases m - j,
            {
                if confirmed_nodes[j] == *peer {
                    seen = true;
                }
                proof {
                    assert(confirmed_nodes.deep_view()[j as int] == confirmed_nodes@[j as int]@);
                }
                j += 1;
            }
            if !seen && retry_count.get(peer) < self.max_retry_count {
                proof {
                    assert(target_nodes.deep_view()[i as int] == peer@);
                    assert(!contains_id(confirmed_nodes.deep_view(), peer@));
                }
                return true;
            }
            proof {
                assert(target_nodes.deep_view()[i as int] == peer@);
                if !seen {
                } else {
                    assert(contains_id(confirmed_nodes.deep_view(), peer@));
                }
            }
            i += 1;
        }
        false
    }
}

} // verus!
