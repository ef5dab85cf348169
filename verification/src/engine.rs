//! The consensus core: the receiver sides of the two RPCs, the applier
//! step, and the client-facing reads.
//!
//! Every handler is a deterministic function of the node's state, the
//! decoded request, and a caller-supplied timer deadline; its whole
//! effect is pinned down by a spec-level transition function.

use vstd::prelude::*;
use crate::log::{last_index_of, last_term_of, wf_entries, EntryView, LogEntry};
use crate::messages::{
    AppendEntriesRequest, AppendEntriesResponse, AppendReqView, AppendRespView, VoteReqView,
    VoteRequest, VoteRespView, VoteResponse,
};
use crate::node::{NodeRole, NodeView, PeerIndexMap, PeerIndexView, RaftNode};

verus! {

/// Whether a candidate's log is at least as up-to-date as a log with the
/// given contents: a later last term wins, and an equal last term
/// compares last indices.
pub open spec fn candidate_up_to_date(
    s: Seq<EntryView>,
    cand_last_term: u64,
    cand_last_index: u64,
) -> bool {
    ||| cand_last_term > last_term_of(s)
    ||| (cand_last_term == last_term_of(s) && cand_last_index >= last_index_of(s))
}

/// The whole effect of receiving a `RequestVote`: the follower state
/// afterwards and the response sent back.  The vote is granted exactly
/// when the request's term is current, the receiver has not yet voted
/// for anyone else in it, and the candidate's log is up-to-date; the
/// election timer is reset to `new_deadline` exactly on a grant.
pub open spec fn vote_step(n: NodeView, req: VoteReqView, new_deadline: u64) -> (NodeView,
    VoteRespView) {
    let bumped = req.term > n.current_term;
    let term1 = if bumped {
        req.term
    } else {
        n.current_term
    };
    let voted1 = if bumped {
        None
    } else {
        n.voted_for
    };
    let granted = req.term >= n.current_term && (voted1 is None || voted1 == Some(
        req.candidate_id,
    )) && candidate_up_to_date(n.entries, req.last_log_term, req.last_log_index);
    let n1 = NodeView {
        current_term: term1,
        voted_for: if granted {
            Some(req.candidate_id)
        } else {
            voted1
        },
        role: if bumped {
            NodeRole::Follower
        } else {
            n.role
        },
        leader_id: if bumped {
            None
        } else {
            n.leader_id
        },
        election_timeout: if granted {
            new_deadline
        } else {
            n.election_timeout
        },
        ..n
    };
    (n1, VoteRespView { term: term1, vote_granted: granted, voter_id: n.node_id })
}

/// A node grants at most one candidate per term: a grant records the
/// candidate in `votedFor`, and a second request in the same term is
/// granted only when it names that same candidate.  This is what makes
/// a term's grants a function from voter to candidate, the hypothesis
/// of `lemma_one_leader_per_term`.
pub proof fn lemma_vote_granted_once(
    n: NodeView,
    r1: VoteReqView,
    d1: u64,
    r2: VoteReqView,
    d2: u64,
)
    requires
        vote_step(n, r1, d1).1.vote_granted,
        vote_step(vote_step(n, r1, d1).0, r2, d2).1.vote_granted,
        r2.term == r1.term,
    ensures
        r2.candidate_id == r1.candidate_id,
{
}

/// The consistency check of the replication RPC: the receiver's log must
/// hold the leader's previous entry, matching index and term; index 0
/// always passes.
pub open spec fn consistency_ok(s: Seq<EntryView>, pi: u64, pt: u64) -> bool {
    pi == 0 || (pi <= s.len() && s[pi - 1].term == pt)
}

/// The first index of the run of equal terms ending at index `pi` of a
/// well-formed log: walk back while the term stays the same.
pub open spec fn first_index_of_term(s: Seq<EntryView>, pi: int) -> int
    decreases pi,
{
    if pi <= 1 {
        1
    } else if s[pi - 2].term == s[pi - 1].term {
        first_index_of_term(s, pi - 1)
    } else {
        pi
    }
}

/// The hint a follower returns when the consistency check fails: one past
/// its last index when the leader's previous entry is beyond its log,
/// else the first index of the conflicting term.
pub open spec fn conflict_hint(s: Seq<EntryView>, pi: u64) -> u64 {
    if pi > s.len() {
        (s.len() + 1) as u64
    } else {
        first_index_of_term(s, pi as int) as u64
    }
}

/// How incoming entries land in the local log: walk them in order; an
/// entry whose index the log already holds with the same term is a
/// no-op; the first term conflict truncates the log there and the rest
/// of the batch is appended; entries past the end are appended.
pub open spec fn merge_entries(s: Seq<EntryView>, pi: int, e: Seq<EntryView>, k: int) -> Seq<
    EntryView,
>
    decreases e.len() - k,
{
    if k < 0 || k >= e.len() {
        s
    } else if pi + k < s.len() {
        if s[pi + k].term != e[k].term {
            s.take(pi + k) + e.skip(k)
        } else {
            merge_entries(s, pi, e, k + 1)
        }
    } else {
        s + e.skip(k)
    }
}

/// Whether the batch contradicts an entry the receiver already counts as
/// committed.  A conforming leader never sends such a batch; the
/// receiver refuses it rather than truncate committed entries.
pub open spec fn committed_conflict(
    s: Seq<EntryView>,
    commit: u64,
    pi: int,
    e: Seq<EntryView>,
) -> bool {
    exists|k: int|
        0 <= k < e.len() && pi + k < commit && pi + k < s.len() && (#[trigger] e[k]).term != s[pi
            + k].term
}

/// A replication request as a conforming leader builds it: entries
/// contiguous after the previous index, terms non-decreasing, no term
/// beyond the leader's own, and indices within machine range.
pub open spec fn wf_append_req(r: AppendReqView) -> bool {
    &&& forall|k: int|
        0 <= k < r.entries.len() ==> (#[trigger] r.entries[k]).index == r.prev_log_index + 1 + k
    &&& forall|a: int, b: int|
        0 <= a <= b < r.entries.len() ==> r.entries[a].term <= r.entries[b].term
    &&& forall|k: int| 0 <= k < r.entries.len() ==> (#[trigger] r.entries[k]).term <= r.term
    &&& (r.entries.len() > 0 ==> r.prev_log_term <= r.entries[0].term)
    &&& r.prev_log_index + r.entries.len() < u64::MAX
}

/// The state shared by every answer to a term-current replication
/// request: adopt the term, follow the sender, reset the election timer.
pub open spec fn append_base(n: NodeView, req: AppendReqView, new_deadline: u64) -> NodeView {
    NodeView {
        current_term: req.term,
        voted_for: if req.term > n.current_term {
            None
        } else {
            n.voted_for
        },
        role: NodeRole::Follower,
        leader_id: Some(req.leader_id),
        election_timeout: new_deadline,
        ..n
    }
}

/// The commit index after a successful replication request: raised to
/// the leader's commit, but never past the last entry the request spoke
/// of, and never lowered.
pub open spec fn commit_after(n: NodeView, req: AppendReqView) -> u64 {
    if req.leader_commit > n.commit_index {
        let last_new = req.prev_log_index + req.entries.len();
        let c = if req.leader_commit <= last_new {
            req.leader_commit as int
        } else {
            last_new
        };
        if c > n.commit_index {
            c as u64
        } else {
            n.commit_index
        }
    } else {
        n.commit_index
    }
}

/// The whole effect of receiving an `AppendEntries` request: the state
/// afterwards and the response.  A stale term is refused untouched; a
/// failed consistency check leaves the log alone and hints where the
/// conflicting term starts; otherwise the entries are merged and the
/// commit index follows the leader.
pub open spec fn append_step(n: NodeView, req: AppendReqView, new_deadline: u64) -> (NodeView,
    AppendRespView) {
    if req.term < n.current_term {
        (
            n,
            AppendRespView {
                term: n.current_term,
                success: false,
                follower_id: n.node_id,
                conflict_index: 0,
            },
        )
    } else {
        let n1 = append_base(n, req, new_deadline);
        if !consistency_ok(n.entries, req.prev_log_index, req.prev_log_term) {
            (
                n1,
                AppendRespView {
                    term: req.term,
                    success: false,
                    follower_id: n.node_id,
                    conflict_index: conflict_hint(n.entries, req.prev_log_index),
                },
            )
        } else if committed_conflict(
            n.entries,
            n.commit_index,
            req.prev_log_index as int,
            req.entries,
        ) {
            (
                n1,
                AppendRespView {
                    term: req.term,
                    success: false,
                    follower_id: n.node_id,
                    conflict_index: 0,
                },
            )
        } else {
            let merged = merge_entries(n.entries, req.prev_log_index as int, req.entries, 0);
            (
                NodeView { entries: merged, commit_index: commit_after(n, req), ..n1 },
                AppendRespView {
                    term: req.term,
                    success: true,
                    follower_id: n.node_id,
                    conflict_index: 0,
                },
            )
        }
    }
}

/// What the merge guarantees: it reaches past the whole batch, keeps the
/// committed prefix and everything below the scan point, carries the
/// batch's terms, and yields a well-formed log within the term bound.
#[verifier::rlimit(60)]
pub proof fn lemma_merge_props(
    s: Seq<EntryView>,
    pi: int,
    e: Seq<EntryView>,
    k: int,
    commit: u64,
    tbound: u64,
)
    requires
        wf_entries(s),
        0 <= pi <= s.len(),
        0 <= k <= e.len(),
        forall|j: int| 0 <= j < e.len() ==> (#[trigger] e[j]).index == pi + 1 + j,
        forall|a: int, b: int| 0 <= a <= b < e.len() ==> e[a].term <= e[b].term,
        forall|j: int| 0 <= j < e.len() ==> (#[trigger] e[j]).term <= tbound,
        forall|j: int| 0 <= j < s.len() ==> (#[trigger] s[j]).term <= tbound,
        pi >= 1 && e.len() > 0 ==> s[pi - 1].term <= e[0].term,
        commit <= s.len(),
        forall|j: int| 0 <= j < k ==> pi + j < s.len() && (#[trigger] e[j]).term == s[pi + j].term,
        forall|j: int|
            k <= j < e.len() && pi + j < s.len() && (#[trigger] e[j]).term != s[pi + j].term ==> pi
                + j >= commit,
    ensures
        ({
            let m = merge_entries(s, pi, e, k);
            &&& m.len() >= pi + e.len()
            &&& m.len() >= commit
            &&& forall|j: int| 0 <= j < commit ==> m[j] == s[j]
            &&& forall|j: int| 0 <= j < pi + k && j < s.len() ==> m[j] == s[j]
            &&& forall|j: int| 0 <= j < e.len() ==> (#[trigger] m[pi + j]).term == e[j].term
            &&& forall|j: int| k <= j < e.len() && pi + j >= s.len() ==> m[pi + j] == e[j]
            &&& wf_entries(m)
            &&& forall|j: int| 0 <= j < m.len() ==> (#[trigger] m[j]).term <= tbound
        }),
    decreases e.len() - k,
{
    let m = merge_entries(s, pi, e, k);
    if k >= e.len() {
        assert(m == s);
        if e.len() > 0 {
            assert(e[e.len() - 1] == e[e.len() - 1]);
            assert(pi + (e.len() - 1) < s.len());
        }
        assert forall|j: int| 0 <= j < e.len() implies (#[trigger] m[pi + j]).term
            == e[j].term by {
            assert(e[j] == e[j]);
            assert(e[j].term == s[pi + j].term);
        }
    } else if pi + k < s.len() {
        if s[pi + k].term != e[k].term {
            assert(pi + k >= commit);
            assert(m =~= s.take(pi + k) + e.skip(k));
            assert forall|j: int| 0 <= j < e.len() implies (#[trigger] m[pi + j]).term
                == e[j].term by {
                if j < k {
                    assert(e[j] == e[j]);
                    assert(m[pi + j] == s[pi + j]);
                    assert(e[j].term == s[pi + j].term);
                } else {
                    assert(m[pi + j] == e.skip(k)[pi + j - (pi + k)]);
                }
            }
            assert forall|j: int| 0 <= j < m.len() implies (#[trigger] m[j]).term
                <= tbound by {
                if j < pi + k {
                    assert(m[j] == s[j]);
                } else {
                    assert(m[j] == e[j - pi - k + k]);
                }
            }
            assert forall|a: int, b: int| 0 <= a <= b < m.len() implies m[a].term
                <= m[b].term by {
                if a < pi + k && b >= pi + k {
                    if k > 0 {
                        assert(e[k - 1] == e[k - 1]);
                        assert(s[pi + k - 1].term == e[k - 1].term);
                        assert(s[a].term <= s[pi + k - 1].term);
                        assert(e[k - 1].term <= e[b - pi - k + k].term);
                    } else {
                        assert(a <= pi - 1);
                        assert(s[a].term <= s[pi - 1].term);
                        assert(s[pi - 1].term <= e[0].term);
                        assert(e[0].term <= e[b - pi].term);
                    }
                }
            }
        } else {
            lemma_merge_props(s, pi, e, k + 1, commit, tbound);
        }
    } else {
        if k > 0 {
            assert(e[k - 1] == e[k - 1]);
            assert(pi + (k - 1) < s.len());
        }
        assert(pi + k == s.len());
        assert(m =~= s + e.skip(k));
        assert forall|j: int| 0 <= j < m.len() implies (#[trigger] m[j]).term <= tbound by {
            if j >= s.len() {
                assert(m[j] == e[j - s.len() + k]);
            }
        }
        assert forall|j: int| 0 <= j < e.len() implies (#[trigger] m[pi + j]).term
            == e[j].term by {
            if j < k {
                assert(e[j] == e[j]);
                assert(m[pi + j] == s[pi + j]);
                assert(e[j].term == s[pi + j].term);
            } else {
                assert(m[pi + j] == e.skip(k)[pi + j - s.len()]);
            }
        }
        assert forall|a: int, b: int| 0 <= a <= b < m.len() implies m[a].term <= m[b].term by {
            if a < s.len() && b >= s.len() {
                if k > 0 {
                    assert(e[k - 1] == e[k - 1]);
                    assert(s[pi + k - 1].term == e[k - 1].term);
                    assert(s[a].term <= s[pi + k - 1].term);
                    assert(e[k - 1].term <= e[b - s.len() + k].term);
                } else {
                    assert(a <= pi - 1);
                    assert(s[a].term <= s[pi - 1].term);
                    assert(s[pi - 1].term <= e[0].term);
                    assert(e[0].term <= e[b - pi].term);
                }
            }
        }
    }
}

/// Clones the entries from position `k` on, for handing a batch suffix
/// to the log.
fn clone_entries_from(v: &Vec<crate::log::LogEntry>, k: usize) -> (r: Vec<crate::log::LogEntry>)
    requires
        k <= v.len(),
    ensures
        r.deep_view() == v.deep_view().skip(k as int),
{
    let mut out: Vec<crate::log::LogEntry> = Vec::new();
    let mut i: usize = k;
    proof {
        assert(out.deep_view() =~= v.deep_view().subrange(k as int, k as int));
    }
    while i < v.len()
        invariant
            k <= i <= v.len(),
            out.deep_view() == v.deep_view().subrange(k as int, i as int),
        decreases v.len() - i,
    {
        let ghost prev = out.deep_view();
        out.push(v[i].clone());
        proof {
            assert(out.deep_view() =~= prev.push(v@[i as int]@));
            assert(v.deep_view().subrange(k as int, i + 1) =~= v.deep_view().subrange(
                k as int,
                i as int,
            ).push(v@[i as int]@));
        }
        i += 1;
    }
    proof {
        assert(v.deep_view().subrange(k as int, v.deep_view().len() as int) =~= v.deep_view().skip(
            k as int,
        ));
    }
    out
}

impl RaftNode {
    /// Receives a `RequestVote` and answers it, advancing the term and
    /// stepping down first when the candidate's term is newer.
    pub fn handle_vote_request(&mut self, req: &VoteRequest, new_deadline: u64) -> (resp:
        VoteResponse)
        requires
            old(self).wf(),
        ensures
            final(self).wf(),
            final(self)@ == vote_step(old(self)@, req@, new_deadline).0,
            resp@ == vote_step(old(self)@, req@, new_deadline).1,
            final(self)@.current_term >= old(self)@.current_term,
    {
        if req.term > self.current_term {
            self.current_term = req.term;
            self.voted_for = None;
            self.role = NodeRole::Follower;
            self.leader_id = None;
        }
        let mut vote_granted = false;
        if req.term >= self.current_term {
            let can_vote = match &self.voted_for {
                None => true,
                Some(v) => *v == req.candidate_id,
            };
            let last_term = self.log.last_log_term();
            let last_index = self.log.last_log_index();
            let log_ok = req.last_log_term > last_term || (req.last_log_term == last_term
                && req.last_log_index >= last_index);
            if can_vote && log_ok {
                vote_granted = true;
                self.voted_for = Some(req.candidate_id.clone());
                self.election_timeout = new_deadline;
            }
        }
        let resp = VoteResponse {
            term: self.current_term,
            vote_granted,
            voter_id: self.node_id.clone(),
        };
        proof {
            assert(self@ =~= vote_step(old(self)@, req@, new_deadline).0);
            assert(resp@ =~= vote_step(old(self)@, req@, new_deadline).1);
        }
        resp
    }

    /// Receives an `AppendEntries` request and answers it: adopts newer
    /// terms, follows the sender, checks log consistency, merges the
    /// batch into the log, and raises the commit index — the whole
    /// effect is `append_step` of the old state.
    pub fn handle_append_entries(&mut self, req: &AppendEntriesRequest, new_deadline: u64) -> (resp:
        AppendEntriesResponse)
        requires
            old(self).wf(),
            wf_append_req(req@),
        ensures
            final(self).wf(),
            final(self)@ == append_step(old(self)@, req@, new_deadline).0,
            resp@ == append_step(old(self)@, req@, new_deadline).1,
            final(self)@.current_term >= old(self)@.current_term,
            final(self)@.commit_index >= old(self)@.commit_index,
    {
        let ghost n0 = self@;
        let ghost stp = append_step(n0, req@, new_deadline);
        if req.term < self.current_term {
            let resp = AppendEntriesResponse {
                term: self.current_term,
                success: false,
                follower_id: self.node_id.clone(),
                conflict_index: 0,
            };
            proof {
                assert(self@ =~= stp.0);
                assert(resp@ =~= stp.1);
            }
            return resp;
        }
        if req.term > self.current_term {
            self.current_term = req.term;
            self.voted_for = None;
        }
        self.role = NodeRole::Follower;
        self.leader_id = Some(req.leader_id.clone());
        self.election_timeout = new_deadline;
        proof {
            assert(self@ =~= append_base(n0, req@, new_deadline));
        }
        let ghost mid = self@;
        let ghost s = n0.entries;
        let ghost e = req@.entries;

        let pi = req.prev_log_index;
        let nlen = self.log.entities.len();
        let consistent = if pi == 0 {
            true
        } else if pi > nlen as u64 {
            false
        } else {
            self.log.entities[(pi - 1) as usize].term == req.prev_log_term
        };
        proof {
            assert(nlen == s.len());
            assert(consistent == consistency_ok(s, pi, req@.prev_log_term));
        }
        if !consistent {
            let ci: u64;
            if pi > nlen as u64 {
                ci = nlen as u64 + 1;
            } else {
                let mut c: u64 = pi;
                while c > 1 && self.log.entities[(c - 2) as usize].term == self.log.entities[(c
                    - 1) as usize].term
                    invariant
                        1 <= c <= pi,
                        pi <= nlen as u64,
                        self@ == mid,
                        mid.entries == s,
                        nlen == s.len(),
                        first_index_of_term(s, pi as int) == first_index_of_term(s, c as int),
                    decreases c,
                {
                    c = c - 1;
                }
                ci = c;
            }
            let resp = AppendEntriesResponse {
                term: self.current_term,
                success: false,
                follower_id: self.node_id.clone(),
                conflict_index: ci,
            };
            proof {
                assert(self@ =~= stp.0);
                assert(resp@ =~= stp.1);
            }
            return resp;
        }
        let elen = req.entries.len();
        let mut k: usize = 0;
        while k < elen && pi + (k as u64) < nlen as u64 && self.log.entities[(pi + (
        k as u64)) as usize].term == req.entries[k].term
            invariant
                k <= elen,
                elen == e.len(),
                self@ == mid,
                mid.entries == s,
                nlen == s.len(),
                pi == req@.prev_log_index,
                e == req@.entries,
                pi + elen < u64::MAX,
                pi <= s.len(),
                forall|j: int|
                    0 <= j < k ==> pi + j < s.len() && (#[trigger] e[j]).term == s[pi + j].term,
                merge_entries(s, pi as int, e, 0) == merge_entries(s, pi as int, e, k as int),
            decreases elen - k,
        {
            proof {
                assert(e[k as int] == e[k as int]);
                assert(merge_entries(s, pi as int, e, k as int) == merge_entries(
                    s,
                    pi as int,
                    e,
                    k as int + 1,
                ));
            }
            k += 1;
        }
        let ghost merged = merge_entries(s, pi as int, e, 0);
        if k < elen && pi + (k as u64) < nlen as u64 {
            // first term conflict sits at this position
            let pos64 = pi + (k as u64);
            if pos64 < self.log.commit_index {
                let resp = AppendEntriesResponse {
                    term: self.current_term,
                    success: false,
                    follower_id: self.node_id.clone(),
                    conflict_index: 0,
                };
                proof {
                    assert(e[k as int] == e[k as int]);
                    assert(committed_conflict(s, n0.commit_index, pi as int, e));
                    assert(self@ =~= stp.0);
                    assert(resp@ =~= stp.1);
                }
                return resp;
            }
            proof {
                assert forall|j: int|
                    0 <= j < e.len() && pi + j < n0.commit_index && pi + j < s.len() implies (
                #[trigger] e[j]).term == s[pi + j].term by {
                    if j < k {
                        assert(e[j] == e[j]);
                    } else {
                        assert(pi + j >= pi + k >= n0.commit_index);
                    }
                }
                assert(!committed_conflict(s, n0.commit_index, pi as int, e));
                assert(e[k as int] == e[k as int]);
                assert(merge_entries(s, pi as int, e, k as int) =~= s.take(pi + k as int) + e.skip(
                    k as int,
                ));
            }
            self.log.truncate_from(pos64 + 1);
            proof {
                crate::log::lemma_wf_truncate(s, (pos64 + 1) as u64);
                assert(self.log.entries() =~= s.take(pi + k as int));
            }
            let rest = clone_entries_from(&req.entries, k);
            self.log.append_entries(rest);
            proof {
                assert(self.log.entries() =~= merged);
            }
        } else if k < elen {
            proof {
                assert(pi + k as int >= s.len());
                assert forall|j: int|
                    0 <= j < e.len() && pi + j < n0.commit_index && pi + j < s.len() implies (
                #[trigger] e[j]).term == s[pi + j].term by {
                    if j < k {
                        assert(e[j] == e[j]);
                    }
                }
                assert(!committed_conflict(s, n0.commit_index, pi as int, e));
                assert(merge_entries(s, pi as int, e, k as int) =~= s + e.skip(k as int));
            }
            let rest = clone_entries_from(&req.entries, k);
            self.log.append_entries(rest);
            proof {
                assert(self.log.entries() =~= merged);
            }
        } else {
            proof {
                assert forall|j: int|
                    0 <= j < e.len() && pi + j < n0.commit_index && pi + j < s.len() implies (
                #[trigger] e[j]).term == s[pi + j].term by {
                    assert(e[j] == e[j]);
                }
                assert(!committed_conflict(s, n0.commit_index, pi as int, e));
                assert(self.log.entries() == merged);
            }
        }
        proof {
            assert forall|j: int|
                0 <= j < e.len() && pi + j < s.len() && (#[trigger] e[j]).term != s[pi
                    + j].term implies pi + j >= n0.commit_index by {
                assert(!committed_conflict(s, n0.commit_index, pi as int, e));
            }
            assert forall|j: int| 0 <= j < s.len() implies (#[trigger] s[j]).term
                <= req@.term by {
                assert(s[j].term <= n0.current_term);
            }
            lemma_merge_props(s, pi as int, e, 0, n0.commit_index, req.term);
        }
        if req.leader_commit > self.log.commit_index {
            let last_new = pi + elen as u64;
            let c = if req.leader_commit <= last_new {
                req.leader_commit
            } else {
                last_new
            };
            if c > self.log.commit_index {
                self.log.commit_index = c;
            }
        }
        let resp = AppendEntriesResponse {
            term: self.current_term,
            success: true,
            follower_id: self.node_id.clone(),
            conflict_index: 0,
        };
        proof {
            assert(self@.commit_index == commit_after(n0, req@));
            assert(self@ =~= stp.0);
            assert(resp@ =~= stp.1);
            crate::state_machine::lemma_replay_deterministic(s, merged, n0.last_applied as int);
        }
        resp
    }
}

/// The log already holds the batch's term at offset `j`.
pub open spec fn covered_at(s: Seq<EntryView>, pi: int, e: Seq<EntryView>, j: int) -> bool {
    pi + j < s.len() && e[j].term == s[pi + j].term
}

/// Merging a batch whose terms the log already carries at every
/// position changes nothing.
pub proof fn lemma_merge_noop(s: Seq<EntryView>, pi: int, e: Seq<EntryView>, k: int)
    requires
        0 <= k,
        0 <= pi,
        forall|j: int| k <= j < e.len() ==> #[trigger] covered_at(s, pi, e, j),
    ensures
        merge_entries(s, pi, e, k) == s,
    decreases e.len() - k,
{
    if k < e.len() {
        assert(covered_at(s, pi, e, k));
        lemma_merge_noop(s, pi, e, k + 1);
    }
}

/// Re-delivering an `AppendEntries` request is idempotent: handling the
/// same request a second time, with the same timer deadline, leaves the
/// follower exactly where the first delivery left it and produces the
/// same response.
pub proof fn lemma_append_step_idempotent(n: NodeView, req: AppendReqView, deadline: u64)
    requires
        crate::node::node_inv(n),
        wf_append_req(req),
    ensures
        ({
            let first = append_step(n, req, deadline);
            let again = append_step(first.0, req, deadline);
            again.0 == first.0 && again.1 == first.1
        }),
{
    let first = append_step(n, req, deadline);
    let n1 = first.0;
    let again = append_step(n1, req, deadline);
    if req.term < n.current_term {
        assert(again.0 =~= first.0);
        assert(again.1 =~= first.1);
    } else {
        let s = n.entries;
        let e = req.entries;
        let pi = req.prev_log_index as int;
        if !consistency_ok(s, req.prev_log_index, req.prev_log_term) {
            assert(n1.entries == s);
            assert(again.0 =~= first.0);
            assert(again.1 =~= first.1);
        } else if committed_conflict(s, n.commit_index, pi, e) {
            assert(again.0 =~= first.0);
            assert(again.1 =~= first.1);
        } else {
            assert forall|j: int|
                0 <= j < e.len() && pi + j < s.len() && (#[trigger] e[j]).term != s[pi
                    + j].term implies pi + j >= n.commit_index by {
                assert(!committed_conflict(s, n.commit_index, pi, e));
            }
            assert forall|j: int| 0 <= j < s.len() implies (#[trigger] s[j]).term
                <= req.term by {
                assert(s[j].term <= n.current_term);
            }
            lemma_merge_props(s, pi, e, 0, n.commit_index, req.term);
            let m = merge_entries(s, pi, e, 0);
            assert(n1.entries == m);
            // the merged log passes the same consistency check
            if req.prev_log_index >= 1 {
                assert(m[pi - 1] == s[pi - 1]);
            }
            assert(consistency_ok(m, req.prev_log_index, req.prev_log_term));
            // no position conflicts any more, so nothing is committed over
            assert forall|j: int|
                0 <= j < e.len() && pi + j < n1.commit_index && pi + j < m.len() implies (
            #[trigger] e[j]).term == m[pi + j].term by {
                assert(m[pi + j].term == e[j].term);
            }
            assert(!committed_conflict(m, n1.commit_index, pi, e));
            // and merging again is the identity
            assert forall|j: int| 0 <= j < e.len() implies #[trigger] covered_at(m, pi, e, j) by {
                assert(m[pi + j].term == e[j].term);
            }
            lemma_merge_noop(m, pi, e, 0);
            assert(commit_after(n1, req) == n1.commit_index);
            assert(again.0 =~= first.0);
            assert(again.1 =~= first.1);
        }
    }
}

/// Decides `wf_append_req` for a decoded request, so that a host can
/// refuse a malformed batch before handing it to the handler.
pub fn validate_append_request(req: &AppendEntriesRequest) -> (r: bool)
    ensures
        r == wf_append_req(req@),
{
    let e_len = req.entries.len();
    if !((e_len as u64) < u64::MAX - req.prev_log_index) {
        proof {
            assert(!wf_append_req(req@));
        }
        return false;
    }
    let ghost e = req@.entries;
    let pi = req.prev_log_index;
    let mut k: usize = 0;
    while k < e_len
        invariant
            k <= e_len,
            e_len == e.len(),
            e == req@.entries,
            pi == req@.prev_log_index,
            pi + e.len() < u64::MAX,
            forall|j: int| 0 <= j < k ==> (#[trigger] e[j]).index == pi + 1 + j,
            forall|a: int, b: int| 0 <= a <= b < k ==> e[a].term <= e[b].term,
            forall|j: int| 0 <= j < k ==> (#[trigger] e[j]).term <= req@.term,
            k > 0 ==> req@.prev_log_term <= e[0].term,
        decreases e_len - k,
    {
        proof {
            assert(e[k as int] == req.entries@[k as int]@);
        }
        if req.entries[k].index != pi + 1 + (k as u64) {
            return false;
        }
        if req.entries[k].term > req.term {
            return false;
        }
        if k == 0 {
            if req.prev_log_term > req.entries[0].term {
                return false;
            }
        } else {
            proof {
                assert(e[k - 1] == req.entries@[k - 1]@);
            }
            if req.entries[k - 1].term > req.entries[k].term {
                return false;
            }
            proof {
                assert forall|a: int, b: int| 0 <= a <= b < k + 1 implies e[a].term
                    <= e[b].term by {
                    if b == k && a < k {
                        assert(e[a].term <= e[k - 1].term);
                    }
                }
            }
        }
        k += 1;
    }
    true
}

/// A node's term never moves backwards: either RPC step keeps or
/// raises it.
pub proof fn lemma_term_monotonic(n: NodeView, vreq: VoteReqView, areq: AppendReqView, d: u64)
    ensures
        vote_step(n, vreq, d).0.current_term >= n.current_term,
        append_step(n, areq, d).0.current_term >= n.current_term,
{
}

/// Committed entries survive replication: whatever a well-formed
/// `AppendEntries` request makes of the rest of the log, the prefix up
/// to the receiver's commit index stays exactly as it was, and the
/// commit index itself never falls.  An entry acknowledged to a client
/// is in that prefix on a majority, so no later request erases it.
pub proof fn lemma_committed_prefix_stable(n: NodeView, req: AppendReqView, deadline: u64)
    requires
        crate::node::node_inv(n),
        wf_append_req(req),
    ensures
        ({
            let n1 = append_step(n, req, deadline).0;
            &&& n1.commit_index >= n.commit_index
            &&& n1.entries.len() >= n.commit_index
            &&& forall|j: int| 0 <= j < n.commit_index ==> n1.entries[j] == n.entries[j]
        }),
{
    let n1 = append_step(n, req, deadline).0;
    if req.term < n.current_term {
    } else {
        let s = n.entries;
        let e = req.entries;
        let pi = req.prev_log_index as int;
        if !consistency_ok(s, req.prev_log_index, req.prev_log_term) {
        } else if committed_conflict(s, n.commit_index, pi, e) {
        } else {
            assert forall|j: int|
                0 <= j < e.len() && pi + j < s.len() && (#[trigger] e[j]).term != s[pi
                    + j].term implies pi + j >= n.commit_index by {
                assert(!committed_conflict(s, n.commit_index, pi, e));
            }
            lemma_merge_props(s, pi, e, 0, n.commit_index, req.term);
        }
    }
}

/// A log drawn from one creation history.  Each `(term, index)` pair
/// names one entry cluster-wide — a term has one leader
/// (`lemma_one_leader_per_term`), that leader assigns each index in its
/// term once and never rewrites its own log — and every entry was
/// created after one fixed predecessor term.  `created` and `pred_term`
/// record that history.
pub open spec fn from_history(
    s: Seq<EntryView>,
    created: Map<(u64, u64), EntryView>,
    pred_term: Map<(u64, u64), u64>,
) -> bool {
    forall|p: int|
        0 <= p < s.len() ==> {
            &&& #[trigger] s[p] == created[(s[p].term, s[p].index)]
            &&& (p > 0 ==> s[p - 1].term == pred_term[(s[p].term, s[p].index)])
        }
}

/// Log matching.  Two well-formed logs drawn from the same creation
/// history that hold the same term at one index are identical at that
/// index and at every index before it.
pub proof fn lemma_log_matching(
    a: Seq<EntryView>,
    b: Seq<EntryView>,
    created: Map<(u64, u64), EntryView>,
    pred_term: Map<(u64, u64), u64>,
    i: u64,
)
    requires
        wf_entries(a),
        wf_entries(b),
        from_history(a, created, pred_term),
        from_history(b, created, pred_term),
        1 <= i <= a.len(),
        i <= b.len(),
        a[i - 1].term == b[i - 1].term,
    ensures
        forall|j: int| 0 <= j < i ==> a[j] == b[j],
    decreases i,
{
    assert(a[i - 1] == created[(a[i - 1].term, a[i - 1].index)]);
    assert(b[i - 1] == created[(b[i - 1].term, b[i - 1].index)]);
    assert(a[i - 1].index == i);
    assert(b[i - 1].index == i);
    assert(a[i - 1] == b[i - 1]);
    if i > 1 {
        assert(a[i - 2].term == pred_term[(a[i - 1].term, a[i - 1].index)]);
        assert(b[i - 2].term == pred_term[(b[i - 1].term, b[i - 1].index)]);
        lemma_log_matching(a, b, created, pred_term, (i - 1) as u64);
    }
}

/// Committed prefixes agree.  The commit rule only commits an entry a
/// leader of its own term replicated to a majority, so — by leader
/// completeness — two nodes' logs share the term at the last index both
/// count committed; from there log matching makes the whole committed
/// prefix identical on both nodes.
pub proof fn lemma_committed_prefix_agreement(
    a: NodeView,
    b: NodeView,
    created: Map<(u64, u64), EntryView>,
    pred_term: Map<(u64, u64), u64>,
)
    requires
        crate::node::node_inv(a),
        crate::node::node_inv(b),
        from_history(a.entries, created, pred_term),
        from_history(b.entries, created, pred_term),
        ({
            let m = if a.commit_index <= b.commit_index {
                a.commit_index
            } else {
                b.commit_index
            };
            m > 0 ==> a.entries[m - 1].term == b.entries[m - 1].term
        }),
    ensures
        forall|j: int|
            0 <= j < (if a.commit_index <= b.commit_index {
                a.commit_index
            } else {
                b.commit_index
            }) ==> a.entries[j] == b.entries[j],
{
    let m = if a.commit_index <= b.commit_index {
        a.commit_index
    } else {
        b.commit_index
    };
    if m > 0 {
        lemma_log_matching(a.entries, b.entries, created, pred_term, m);
    }
}

/// The failures the client-facing surface reports.
#[derive(Debug)]
pub enum RaftError {
    /// Only the leader serves this call; retry at the hinted node.
    NotLeader { leader_hint: Option<String> },
}

/// Where a registered proposal stands.
#[derive(Debug, PartialEq, Eq, Clone, Copy, Structural)]
pub enum ProposalStatus {
    /// Applied with its term intact; the client may be acknowledged.
    Committed,
    /// Still waiting for commit and apply.
    Pending,
    /// Overwritten by a later leader; the client should retry.
    Lost,
}

/// A snapshot of the node's place in the cluster.
#[derive(Debug)]
pub struct ClusterInfo {
    pub node_id: String,
    pub current_term: u64,
    pub role: NodeRole,
    pub leader_id: Option<String>,
    pub peers: Vec<String>,
    pub last_log_index: u64,
    pub commit_index: u64,
}

/// The byte encoding of a configuration change: the key's UTF-8 bytes,
/// one colon, the value bytes.
pub open spec fn serialized_change(key: Seq<char>, value: Seq<u8>) -> Seq<u8> {
    vstd::utf8::encode_utf8(key) + seq![58u8] + value
}

/// Encodes a configuration change as `key:value` bytes for the wire.
pub fn serialize_config_change(key: String, value: Vec<u8>) -> (r: Vec<u8>)
    ensures
        r@ == serialized_change(key@, value@),
{
    let kb = key.as_str().as_bytes();
    let mut buf: Vec<u8> = Vec::new();
    let mut i: usize = 0;
    while i < kb.len()
        invariant
            i <= kb@.len(),
            kb@ == vstd::utf8::encode_utf8(key@),
            buf@ == kb@.take(i as int),
        decreases kb@.len() - i,
    {
        buf.push(kb[i]);
        proof {
            assert(kb@.take(i + 1) =~= kb@.take(i as int).push(kb@[i as int]));
        }
        i += 1;
    }
    proof {
        assert(kb@.take(kb@.len() as int) =~= kb@);
    }
    buf.push(58);
    let mut j: usize = 0;
    while j < value.len()
        invariant
            j <= value@.len(),
            kb@ == vstd::utf8::encode_utf8(key@),
            buf@ == kb@ + seq![58u8] + value@.take(j as int),
        decreases value@.len() - j,
    {
        buf.push(value[j]);
        proof {
            assert(kb@ + seq![58u8] + value@.take(j + 1) =~= (kb@ + seq![58u8] + value@.take(
                j as int,
            )).push(value@[j as int]));
        }
        j += 1;
    }
    proof {
        assert(value@.take(value@.len() as int) =~= value@);
        assert(buf@ =~= serialized_change(key@, value@));
    }
    buf
}

/// Clones a list of node ids.
fn clone_ids(v: &Vec<String>) -> (r: Vec<String>)
    ensures
        r.deep_view() == v.deep_view(),
{
    let mut out: Vec<String> = Vec::new();
    let mut i: usize = 0;
    proof {
        assert(out.deep_view() =~= v.deep_view().take(0));
    }
    while i < v.len()
        invariant
            i <= v@.len(),
            out.deep_view() == v.deep_view().take(i as int),
        decreases v@.len() - i,
    {
        let ghost prev = out.deep_view();
        out.push(v[i].clone());
        proof {
            assert(out.deep_view() =~= prev.push(v@[i as int]@));
            assert(v.deep_view().take(i + 1) =~= v.deep_view().take(i as int).push(v@[i as int]@));
        }
        i += 1;
    }
    proof {
        assert(v.deep_view().take(v.deep_view().len() as int) =~= v.deep_view());
    }
    out
}

/// The number of peers whose recorded match index reaches `idx`.
pub open spec fn count_at_least(s: Seq<PeerIndexView>, idx: u64) -> int {
    s.filter(|p: PeerIndexView| p.index >= idx).len() as int
}

/// The leader's commit rule: an index may become the commit index only
/// if it is in the log, carries the leader's own term, and the leader
/// plus the peers matching it form a strict majority.
pub open spec fn commit_ok(n: NodeView, idx: u64) -> bool {
    &&& 1 <= idx <= n.entries.len()
    &&& n.entries[idx - 1].term == n.current_term
    &&& 1 + count_at_least(n.match_index, idx) >= crate::majority((n.peers.len() + 1) as int)
}

impl RaftNode {
    /// Steps down to follower on an observed term, adopting it and
    /// clearing the vote when it is newer, as any message bearing a
    /// higher term demands.
    pub fn become_follower(&mut self, observed_term: u64, leader_id: Option<String>, new_deadline: u64)
        requires
            old(self).wf(),
        ensures
            final(self).wf(),
            final(self)@ == (NodeView {
                current_term: if observed_term > old(self)@.current_term {
                    observed_term
                } else {
                    old(self)@.current_term
                },
                voted_for: if observed_term > old(self)@.current_term {
                    None
                } else {
                    old(self)@.voted_for
                },
                role: NodeRole::Follower,
                leader_id: crate::node::opt_id_view(&leader_id),
                election_timeout: new_deadline,
                ..old(self)@
            }),
            final(self)@.current_term >= old(self)@.current_term,
    {
        if observed_term > self.current_term {
            self.current_term = observed_term;
            self.voted_for = None;
        }
        self.role = NodeRole::Follower;
        self.leader_id = leader_id;
        self.election_timeout = new_deadline;
    }

    /// Takes the leader role: points every peer's next index past the
    /// log, zeroes their match indices, and appends a no-op entry in the
    /// current term, the entry whose commit lets earlier terms commit.
    pub fn become_leader(&mut self)
        requires
            old(self).wf(),
            old(self)@.entries.len() + 1 < u64::MAX,
        ensures
            final(self).wf(),
            ({
                let noop = EntryView {
                    term: old(self)@.current_term,
                    index: (old(self)@.entries.len() + 1) as u64,
                    data: Seq::<u8>::empty(),
                    entry_type: "noop"@,
                    key: Seq::<char>::empty(),
                };
                &&& final(self)@ == (NodeView {
                    role: NodeRole::Leader,
                    leader_id: Some(old(self)@.node_id),
                    entries: old(self)@.entries.push(noop),
                    next_index: final(self)@.next_index,
                    match_index: final(self)@.match_index,
                    ..old(self)@
                })
                &&& forall|i: int|
                    0 <= i < old(self)@.peers.len() && (#[trigger] old(self)@.peers[i]) != old(
                        self,
                    )@.node_id ==> crate::node::peer_lookup(final(self)@.next_index, old(
                        self,
                    )@.peers[i]) == Some((old(self)@.entries.len() + 1) as u64)
                        && crate::node::peer_lookup(final(self)@.match_index, old(self)@.peers[i])
                        == Some(0u64)
            }),
            final(self)@.current_term == old(self)@.current_term,
    {
        let last_index = self.log.last_log_index();
        proof {
            assert(last_index == self@.entries.len());
        }
        let mut fresh_next = PeerIndexMap::new();
        let mut fresh_match = PeerIndexMap::new();
        let n = self.peers.len();
        let mut i: usize = 0;
        while i < n
            invariant
                i <= n,
                n == self.peers@.len(),
                *self == *old(self),
                last_index == self@.entries.len(),
                last_index < u64::MAX,
                fresh_next.wf(),
                fresh_match.wf(),
                forall|j: int|
                    0 <= j < i && (#[trigger] self.peers.deep_view()[j]) != self@.node_id
                        ==> crate::node::peer_lookup(fresh_next@, self.peers.deep_view()[j])
                        == Some((last_index + 1) as u64) && crate::node::peer_lookup(
                        fresh_match@,
                        self.peers.deep_view()[j],
                    ) == Some(0u64),
            decreases n - i,
        {
            if !(self.peers[i] == self.node_id) {
                fresh_next.insert(self.peers[i].clone(), last_index + 1);
                fresh_match.insert(self.peers[i].clone(), 0);
            }
            proof {
                assert(self.peers.deep_view()[i as int] == self.peers@[i as int]@);
            }
            i += 1;
        }
        self.next_index = fresh_next;
        self.match_index = fresh_match;
        self.role = NodeRole::Leader;
        self.leader_id = Some(self.node_id.clone());
        let noop = LogEntry {
            term: self.current_term,
            index: last_index + 1,
            data: Vec::new(),
            entry_type: String::from_str("noop"),
            key: String::new(),
        };
        let ghost nv = noop@;
        let ghost la = self@.last_applied;
        self.log.append_entry(noop);
        proof {
            crate::state_machine::lemma_replay_deterministic(
                old(self)@.entries,
                self@.entries,
                la as int,
            );
        }
    }

    /// Books a confirmed replication: the peer now matches through
    /// `new_match`, and the next batch starts just past it.
    pub fn record_append_success(&mut self, peer: &String, new_match: u64)
        requires
            old(self).wf(),
            new_match < u64::MAX,
        ensures
            final(self).wf(),
            final(self)@ == (NodeView {
                next_index: final(self)@.next_index,
                match_index: final(self)@.match_index,
                ..old(self)@
            }),
            crate::node::peer_lookup(final(self)@.match_index, peer@) == Some(new_match),
            crate::node::peer_lookup(final(self)@.next_index, peer@) == Some((new_match + 1) as u64),
            forall|q: Seq<char>|
                q != peer@ ==> crate::node::peer_lookup(final(self)@.match_index, q)
                    == crate::node::peer_lookup(old(self)@.match_index, q)
                    && crate::node::peer_lookup(final(self)@.next_index, q)
                    == crate::node::peer_lookup(old(self)@.next_index, q),
    {
        self.match_index.insert(peer.clone(), new_match);
        self.next_index.insert(peer.clone(), new_match + 1);
    }

    /// Whether the node-loop should stand for election now: it is a
    /// follower and its election deadline has passed without a valid
    /// leader contact.
    pub fn should_start_election(&self, now_ms: u64) -> (r: bool)
        ensures
            r == (self@.role == NodeRole::Follower && self@.election_timeout < now_ms),
    {
        matches!(self.role, NodeRole::Follower) && self.election_timeout < now_ms
    }

    /// Builds the replication request for one peer, as the replication
    /// driver sends it: the previous index sits just below the peer's
    /// next index, carries the matching term, and every entry from the
    /// next index on rides along.  The result is a well-formed request,
    /// so any follower's handler accepts its shape.  Nothing is built
    /// for an untracked peer or a next index outside the log.
    pub fn build_append_request(&self, peer: &String) -> (r: Option<AppendEntriesRequest>)
        requires
            self.wf(),
        ensures
            match r {
                Some(req) => {
                    &&& crate::node::peer_lookup(self@.next_index, peer@) matches Some(next)
                    &&& ({
                        let next = crate::node::peer_lookup(self@.next_index, peer@).unwrap();
                        &&& 1 <= next <= self@.entries.len() + 1
                        &&& req@.term == self@.current_term
                        &&& req@.leader_id == self@.node_id
                        &&& req@.prev_log_index == next - 1
                        &&& req@.prev_log_term == (if next == 1 {
                            0
                        } else {
                            self@.entries[next - 2].term
                        })
                        &&& req@.entries == self@.entries.skip(next - 1)
                        &&& req@.leader_commit == self@.commit_index
                        &&& wf_append_req(req@)
                    })
                },
                None => {
                    ||| crate::node::peer_lookup(self@.next_index, peer@) is None
                    ||| !(1 <= crate::node::peer_lookup(self@.next_index, peer@).unwrap()
                        <= self@.entries.len() + 1)
                },
            },
    {
        let next = match self.next_index.get(peer) {
            Some(v) => v,
            None => {
                return None;
            },
        };
        let last = self.log.last_log_index();
        proof {
            assert(last == self@.entries.len());
        }
        if next < 1 || next > last + 1 {
            return None;
        }
        let prev = next - 1;
        proof {
            crate::log::lemma_wf_entry_with_index(self@.entries, prev);
        }
        let prev_term = match self.log.get_term_at(prev) {
            Some(t) => t,
            None => {
                proof {
                    assert(false);
                }
                0
            },
        };
        let entries = self.log.get_entries_from(next);
        proof {
            crate::log::lemma_wf_entries_from(self@.entries, next);
        }
        let req = AppendEntriesRequest {
            term: self.current_term,
            leader_id: self.node_id.clone(),
            prev_log_index: prev,
            prev_log_term: prev_term,
            entries,
            leader_commit: self.log.commit_index,
        };
        proof {
            let s = self@.entries;
            let e = req@.entries;
            assert(e =~= s.skip(next - 1));
            assert forall|k: int| 0 <= k < e.len() implies (#[trigger] e[k]).index == prev + 1
                + k by {
                assert(e[k] == s[next - 1 + k]);
            }
            assert forall|k: int| 0 <= k < e.len() implies (#[trigger] e[k]).term
                <= req@.term by {
                assert(e[k] == s[next - 1 + k]);
            }
            assert forall|a: int, b: int| 0 <= a <= b < e.len() implies e[a].term
                <= e[b].term by {
                assert(e[a] == s[next - 1 + a]);
                assert(e[b] == s[next - 1 + b]);
            }
            if e.len() > 0 && prev >= 1 {
                assert(e[0] == s[next - 1]);
                assert(req@.prev_log_term == s[prev - 1].term);
            }
            assert(wf_append_req(req@));
        }
        Some(req)
    }

    /// The peers whose recorded match index reaches `idx`.
    fn count_match_at_least(&self, idx: u64) -> (r: usize)
        ensures
            r == count_at_least(self@.match_index, idx),
            r <= self@.match_index.len(),
    {
        let n = self.match_index.entries.len();
        let mut cnt: usize = 0;
        let mut i: usize = 0;
        while i < n
            invariant
                i <= n,
                n == self.match_index.entries@.len(),
                cnt == count_at_least(self@.match_index.take(i as int), idx),
                cnt <= i,
            decreases n - i,
        {
            proof {
                reveal(Seq::filter);
                assert(self@.match_index.take(i + 1).drop_last() =~= self@.match_index.take(
                    i as int,
                ));
                assert(self@.match_index.take(i + 1).last() == self.match_index.entries@[
                    i as int
                ]@);
            }
            if self.match_index.entries[i].index >= idx {
                cnt += 1;
            }
            i += 1;
        }
        proof {
            assert(self@.match_index.take(n as int) =~= self@.match_index);
        }
        cnt
    }

    /// Advances the leader's commit index to the largest index that the
    /// commit rule allows, if any; says whether it moved.  The term
    /// check is what keeps a leader from committing another term's
    /// entries by mere replica count.
    pub fn advance_commit(&mut self) -> (advanced: bool)
        requires
            old(self).wf(),
            old(self).peers@.len() < usize::MAX,
        ensures
            final(self).wf(),
            ({
                let c2 = final(self)@.commit_index;
                &&& final(self)@ == (NodeView { commit_index: c2, ..old(self)@ })
                &&& c2 >= old(self)@.commit_index
                &&& (c2 == old(self)@.commit_index || commit_ok(old(self)@, c2))
                &&& forall|idx: u64|
                    commit_ok(old(self)@, idx) && idx > old(self)@.commit_index ==> idx <= c2
                &&& advanced == (c2 != old(self)@.commit_index)
            }),
    {
        let maj = crate::election::ElectionState::calculate_majority(self.peers.len() + 1);
        let last = self.log.entities.len() as u64;
        let mut idx = last;
        while idx > self.log.commit_index
            invariant
                *self == *old(self),
                old(self).wf(),
                maj == crate::majority((self@.peers.len() + 1) as int),
                last == self@.entries.len(),
                last <= usize::MAX,
                idx <= last,
                forall|j: u64| idx < j <= last ==> !commit_ok(self@, j),
            decreases idx,
        {
            proof {
                assert(self@.entries[idx - 1] == self.log.entities@[(idx - 1) as int]@);
            }
            if self.log.entities[(idx - 1) as usize].term == self.current_term {
                let cnt = self.count_match_at_least(idx);
                if cnt >= maj - 1 {
                    proof {
                        assert(commit_ok(self@, idx));
                    }
                    self.log.commit_index = idx;
                    return true;
                }
                proof {
                    assert(!commit_ok(self@, idx));
                }
            } else {
                proof {
                    assert(!commit_ok(self@, idx));
                }
            }
            idx = idx - 1;
        }
        false
    }

    /// Accepts a client proposal on the leader: appends the entry at the
    /// next index in the current term and reports that index.  Anywhere
    /// else it refuses with the last leader seen.  The host replicates
    /// the entry and answers the client once it commits.
    pub fn propose_config(&mut self, key: String, value: Vec<u8>) -> (r: Result<u64, RaftError>)
        requires
            old(self).wf(),
            old(self)@.entries.len() + 1 < u64::MAX,
        ensures
            final(self).wf(),
            old(self)@.role == NodeRole::Leader ==> ({
                let entry = EntryView {
                    term: old(self)@.current_term,
                    index: (old(self)@.entries.len() + 1) as u64,
                    data: value@,
                    entry_type: "config_set"@,
                    key: key@,
                };
                &&& r == Ok::<u64, RaftError>((old(self)@.entries.len() + 1) as u64)
                &&& final(self)@ == (NodeView { entries: old(self)@.entries.push(entry), ..old(self)@ })
            }),
            old(self)@.role != NodeRole::Leader ==> r is Err && *final(self) == *old(self),
    {
        if !(matches!(self.role, NodeRole::Leader)) {
            let hint = match &self.leader_id {
                Some(l) => Some(l.clone()),
                None => None,
            };
            proof {
                assert(self.role != NodeRole::Leader);
            }
            return Err(RaftError::NotLeader { leader_hint: hint });
        }
        let index = self.log.last_log_index() + 1;
        proof {
            assert(index == self@.entries.len() + 1);
        }
        let entry = LogEntry {
            term: self.current_term,
            index,
            data: value,
            entry_type: String::from_str("config_set"),
            key,
        };
        let ghost la = self@.last_applied;
        self.log.append_entry(entry);
        proof {
            crate::state_machine::lemma_replay_deterministic(
                old(self)@.entries,
                self@.entries,
                la as int,
            );
        }
        Ok(index)
    }

    /// Applies every committed, not yet applied entry to the state
    /// machine, in index order.
    pub fn apply_committed(&mut self)
        requires
            old(self).wf(),
        ensures
            final(self).wf(),
            final(self)@ == (NodeView {
                last_applied: old(self)@.commit_index,
                config: crate::state_machine::replay(
                    old(self)@.entries,
                    old(self)@.commit_index as int,
                ),
                ..old(self)@
            }),
    {
        // pins down, for the loop below, that the log's length fits a word
        let _log_len: usize = self.log.entities.len();
        while self.log.last_applied < self.log.commit_index
            invariant
                old(self).wf(),
                self@.entries.len() <= usize::MAX,
                self@ == (NodeView {
                    last_applied: self@.last_applied,
                    config: self@.config,
                    ..old(self)@
                }),
                old(self)@.last_applied <= self@.last_applied <= self@.commit_index,
                self@.config == crate::state_machine::replay(
                    self@.entries,
                    self@.last_applied as int,
                ),
                crate::state_machine::unique_keys(self.state_machine.pairs.deep_view()),
            decreases self@.commit_index - self@.last_applied,
        {
            let ghost la0 = self.log.last_applied as int;
            let pos = self.log.last_applied as usize;
            proof {
                assert(self@.entries[la0] == self.log.entities@[la0]@);
            }
            let entry = self.log.entities[pos].clone();
            self.state_machine.apply_entry(&entry);
            self.log.last_applied = self.log.last_applied + 1;
            proof {
                assert(self@.entries[la0] == entry@);
                assert(self@.config == crate::state_machine::replay(self@.entries, la0 + 1));
            }
        }
        proof {
            assert(self@ =~= (NodeView {
                last_applied: old(self)@.commit_index,
                config: crate::state_machine::replay(
                    old(self)@.entries,
                    old(self)@.commit_index as int,
                ),
                ..old(self)@
            }));
        }
    }

    /// Whether this node has committed an entry of its own current
    /// term; strong reads wait for this, and the no-op appended on
    /// taking office is what first makes it true.
    pub open spec fn current_term_committed(n: NodeView) -> bool {
        n.commit_index >= 1 && n.entries[n.commit_index - 1].term == n.current_term
    }

    /// Serves a client read.  A consistent read is answered only by a
    /// leader that has committed an entry in its current term; anyone
    /// may serve a stale read when the caller settles for one.  A
    /// missing key reads as `Ok(None)`.
    pub fn read_config(&self, key: &String, consistent: bool) -> (r: Result<
        Option<Vec<u8>>,
        RaftError,
    >)
        requires
            self.wf(),
        ensures
            consistent && !(self@.role == NodeRole::Leader && Self::current_term_committed(self@))
                ==> r matches Err(RaftError::NotLeader { leader_hint: _ }),
            (!consistent || (self@.role == NodeRole::Leader && Self::current_term_committed(
                self@,
            ))) ==> match r {
                Ok(Some(v)) => self@.config.contains_key(key@) && v@ == self@.config[key@],
                Ok(None) => !self@.config.contains_key(key@),
                Err(_) => false,
            },
    {
        if consistent {
            let n = self.log.entities.len();
            let committed_here = self.log.commit_index >= 1 && self.log.commit_index <= n as u64
                && self.log.entities[(self.log.commit_index - 1) as usize].term
                == self.current_term;
            proof {
                assert(committed_here == Self::current_term_committed(self@));
            }
            if !(matches!(self.role, NodeRole::Leader) && committed_here) {
                let hint = match &self.leader_id {
                    Some(l) => Some(l.clone()),
                    None => None,
                };
                return Err(RaftError::NotLeader { leader_hint: hint });
            }
        }
        match self.state_machine.get(key) {
            Some(v) => Ok(Some(vstd::slice::slice_to_vec(v.as_slice()))),
            None => Ok(None),
        }
    }

    /// Decides the fate of a registered proposal, identified by the
    /// index and term its entry was appended with: committed once
    /// applied with its term intact; lost as soon as the entry is gone
    /// or another term's entry sits at its index; pending otherwise.
    pub fn check_proposal(&self, index: u64, term: u64) -> (r: ProposalStatus)
        requires
            self.wf(),
            index >= 1,
        ensures
            ({
                let overwritten = index <= self@.entries.len() && self@.entries[index - 1].term
                    != term;
                let gone = index > self@.entries.len();
                &&& r == ProposalStatus::Lost <==> (overwritten || gone)
                &&& r == ProposalStatus::Committed <==> (!overwritten && !gone
                    && self@.last_applied >= index)
                &&& r == ProposalStatus::Pending <==> (!overwritten && !gone
                    && self@.last_applied < index)
            }),
    {
        let n = self.log.entities.len();
        if index > n as u64 {
            return ProposalStatus::Lost;
        }
        if self.log.entities[(index - 1) as usize].term != term {
            return ProposalStatus::Lost;
        }
        if self.log.last_applied >= index {
            ProposalStatus::Committed
        } else {
            ProposalStatus::Pending
        }
    }

    /// Reads a key from the state machine, with the term the answer is
    /// current for; a missing key is an error.
    pub fn read_config_from_state_machine(&self, key: &String) -> (r: Result<(Vec<u8>, u64), String>)
        requires
            self.wf(),
        ensures
            self@.config.contains_key(key@) ==> (r matches Ok(p) && p.0@ == self@.config[key@]
                && p.1 == self@.current_term),
            !self@.config.contains_key(key@) ==> r is Err,
    {
        match self.state_machine.get(key) {
            Some(v) => Ok((vstd::slice::slice_to_vec(v.as_slice()), self.current_term)),
            None => Err(String::from_str("configuration key not found")),
        }
    }

    /// A snapshot of the node's identity, role, term, membership and
    /// log position.
    pub fn get_cluster_info(&self) -> (r: ClusterInfo)
        ensures
            r.node_id@ == self@.node_id,
            r.current_term == self@.current_term,
            r.role == self@.role,
            crate::node::opt_id_view(&r.leader_id) == self@.leader_id,
            r.peers.deep_view() == self@.peers,
            r.last_log_index == last_index_of(self@.entries),
            r.commit_index == self@.commit_index,
    {
        ClusterInfo {
            node_id: self.node_id.clone(),
            current_term: self.current_term,
            role: self.role,
            leader_id: match &self.leader_id {
                Some(l) => Some(l.clone()),
                None => None,
            },
            peers: clone_ids(&self.peers),
            last_log_index: self.log.last_log_index(),
            commit_index: self.log.commit_index,
        }
    }

    /// The node's own id.
    pub fn get_node_id(&self) -> (r: String)
        ensures
            r@ == self@.node_id,
    {
        self.node_id.clone()
    }

    /// The node's current role.
    pub fn get_role(&self) -> (r: NodeRole)
        ensures
            r == self@.role,
    {
        self.role
    }

    /// The node's current term.
    pub fn get_current_term(&self) -> (r: u64)
        ensures
            r == self@.current_term,
    {
        self.current_term
    }

    /// The last leader this node heard from, if any.
    pub fn get_leader_id(&self) -> (r: Option<String>)
        ensures
            crate::node::opt_id_view(&r) == self@.leader_id,
    {
        match &self.leader_id {
            Some(l) => Some(l.clone()),
            None => None,
        }
    }
}

} // verus!
