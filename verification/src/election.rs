//! Leader election: entering an election, tallying votes as responses
//! arrive, and the election-safety argument.
//!
//! The network fan-out lives with the host; the decisions here are
//! ordinary functions it calls with each response.

use vstd::prelude::*;
use vstd::set_lib::lemma_len_subset;
use crate::log::{last_index_of, last_term_of};
use crate::messages::{VoteRequest, VoteResponse};
use crate::node::{NodeRole, RaftNode};

verus! {

/// How an election round ended.
#[derive(Debug)]
pub enum ElectionResult {
    /// A strict majority granted their votes.
    Won,
    /// Every response is in and the majority was missed.
    Lost,
    /// A response carried a higher term; the round is abandoned.
    TermUpdated(u64),
}

/// The running tally of one election round.
#[derive(Debug)]
pub struct ElectionState {
    /// The term the round was started in.
    pub term: u64,
    /// Granted votes so far, the candidate's own included.
    pub vote_count: usize,
    /// Who granted them; no voter is counted twice.
    pub votes_received: Vec<String>,
    /// Size of the whole cluster, the candidate included.
    pub total_nodes: usize,
    /// Votes that make a strict majority.
    pub majority_needed: usize,
}

impl ElectionState {
    /// A coherent tally: the count is the number of recorded voters,
    /// none of them double-counted, and the threshold is a strict
    /// majority of the cluster.
    pub open spec fn wf(&self) -> bool {
        &&& self.vote_count == self.votes_received@.len()
        &&& forall|i: int, j: int|
            0 <= i < j < self.votes_received@.len() ==> self.votes_received@[i]@
                != self.votes_received@[j]@
        &&& self.majority_needed == crate::majority(self.total_nodes as int)
    }

    /// Votes needed for a strict majority of `total_nodes` members.
    pub fn calculate_majority(total_nodes: usize) -> (r: usize)
        ensures
            r == crate::majority(total_nodes as int),
    {
        total_nodes / 2 + 1
    }
}

/// Relies on rand::random_range: a uniform draw from the inclusive
/// range, which panics only on an empty range.
#[verifier::external_body]
fn random_in_range(lo: u64, hi: u64) -> (r: u64)
    requires
        lo <= hi,
    ensures
        lo <= r <= hi,
{
    rand::random_range(lo..=hi)
}

/// A fresh election timeout in milliseconds, drawn anew on every call
/// so that simultaneous candidates break their tie.
pub fn random_election_timeout() -> (r: u64)
    ensures
        150 <= r <= 300,
{
    random_in_range(150, 300)
}

impl RaftNode {
    /// Enters an election: a new term, a vote for itself, the candidate
    /// role, a fresh timer deadline.  Returns the request to fan out and
    /// the starting tally, which already counts the node's own vote.
    pub fn begin_election(&mut self, new_deadline: u64) -> (r: (VoteRequest, ElectionState))
        requires
            old(self).wf(),
            old(self).current_term < u64::MAX,
            old(self).peers@.len() < usize::MAX,
        ensures
            final(self).wf(),
            final(self)@ == (crate::node::NodeView {
                current_term: (old(self)@.current_term + 1) as u64,
                voted_for: Some(old(self)@.node_id),
                role: NodeRole::Candidate,
                election_timeout: new_deadline,
                ..old(self)@
            }),
            r.0@.term == final(self)@.current_term,
            r.0@.candidate_id == old(self)@.node_id,
            r.0@.last_log_index == last_index_of(old(self)@.entries),
            r.0@.last_log_term == last_term_of(old(self)@.entries),
            r.1.wf(),
            r.1.term == final(self)@.current_term,
            r.1.vote_count == 1,
            r.1.votes_received@.len() == 1 && r.1.votes_received@[0]@ == old(self)@.node_id,
            r.1.total_nodes == old(self)@.peers.len() + 1,
            r.1.majority_needed == crate::majority((old(self)@.peers.len() + 1) as int),
    {
        self.current_term = self.current_term + 1;
        self.voted_for = Some(self.node_id.clone());
        self.role = NodeRole::Candidate;
        self.election_timeout = new_deadline;
        let request = VoteRequest {
            term: self.current_term,
            candidate_id: self.node_id.clone(),
            last_log_index: self.log.last_log_index(),
            last_log_term: self.log.last_log_term(),
        };
        let total = self.peers.len() + 1;
        let mut votes: Vec<String> = Vec::new();
        votes.push(self.node_id.clone());
        let tally = ElectionState {
            term: self.current_term,
            vote_count: 1,
            votes_received: votes,
            total_nodes: total,
            majority_needed: ElectionState::calculate_majority(total),
        };
        (request, tally)
    }
}

impl ElectionState {
    /// Records one vote response.  A higher term ends the round at once;
    /// a grant from a voter not yet counted raises the tally, and the
    /// round is won the moment the tally reaches the majority.
    pub fn record_vote(&mut self, peer: &String, resp: &VoteResponse) -> (r: Option<
        ElectionResult,
    >)
        requires
            old(self).wf(),
        ensures
            final(self).wf(),
            final(self).term == old(self).term,
            final(self).total_nodes == old(self).total_nodes,
            final(self).majority_needed == old(self).majority_needed,
            resp.term > old(self).term ==> r == Some(ElectionResult::TermUpdated(resp.term))
                && *final(self) == *old(self),
            resp.term <= old(self).term && (!resp.vote_granted || (exists|i: int|
                0 <= i < old(self).votes_received@.len() && (#[trigger] old(
                    self,
                ).votes_received@[i])@ == peer@)) ==> r is None && *final(self) == *old(self),
            resp.term <= old(self).term && resp.vote_granted && !(exists|i: int|
                0 <= i < old(self).votes_received@.len() && (#[trigger] old(
                    self,
                ).votes_received@[i])@ == peer@) ==> {
                &&& final(self).vote_count == old(self).vote_count + 1
                &&& final(self).votes_received@.len() == old(self).votes_received@.len() + 1
                &&& r == (if final(self).vote_count >= final(self).majority_needed {
                    Some(ElectionResult::Won)
                } else {
                    None::<ElectionResult>
                })
            },
    {
        if resp.term > self.term {
            return Some(ElectionResult::TermUpdated(resp.term));
        }
        if !resp.vote_granted {
            return None;
        }
        let n = self.votes_received.len();
        let mut i: usize = 0;
        while i < n
            invariant
                i <= n,
                n == self.votes_received@.len(),
                *self == *old(self),
                old(self).wf(),
                resp.term <= old(self).term,
                resp.vote_granted,
                forall|j: int| 0 <= j < i ==> (#[trigger] self.votes_received@[j])@ != peer@,
            decreases n - i,
        {
            if self.votes_received[i] == *peer {
                return None;
            }
            i += 1;
        }
        self.votes_received.push(peer.clone());
        self.vote_count = self.votes_received.len();
        if self.vote_count >= self.majority_needed {
            Some(ElectionResult::Won)
        } else {
            None
        }
    }
}

/// A winning tally names a strict majority.  The recorded voters are
/// distinct, so a count at the threshold puts more than half the
/// cluster behind this one candidate: exactly a grant set that
/// `lemma_one_leader_per_term` accepts.
pub proof fn lemma_tally_majority(tally: ElectionState)
    requires
        tally.wf(),
        tally.vote_count >= tally.majority_needed,
    ensures
        2 * tally.votes_received.deep_view().to_set().len() > tally.total_nodes,
{
    let ids = tally.votes_received.deep_view();
    assert(forall|i: int| 0 <= i < ids.len() ==> (#[trigger] ids[i]) == tally.votes_received@[i]@);
    assert(ids.no_duplicates());
    ids.unique_seq_to_set();
}

/// Election safety.  In one term, every node grants at most one vote —
/// `vote_step` grants only when `votedFor` is unset or already names the
/// candidate, and then records the candidate — so a term's grants form a
/// function from voter to candidate.  Two candidates whose grant sets
/// are each a strict majority of the same electorate must then share a
/// voter, and so be the same node: at most one leader per term.
pub proof fn lemma_one_leader_per_term(
    electorate: Set<Seq<char>>,
    voted: Map<Seq<char>, Seq<char>>,
    c1: Seq<char>,
    c2: Seq<char>,
    g1: Set<Seq<char>>,
    g2: Set<Seq<char>>,
)
    requires
        electorate.finite(),
        g1.subset_of(electorate),
        g2.subset_of(electorate),
        2 * g1.len() > electorate.len(),
        2 * g2.len() > electorate.len(),
        forall|v: Seq<char>| g1.contains(v) ==> #[trigger] voted[v] == c1,
        forall|v: Seq<char>| g2.contains(v) ==> #[trigger] voted[v] == c2,
    ensures
        c1 == c2,
{
    lemma_len_subset(g1, electorate);
    lemma_len_subset(g2, electorate);
    if exists|v: Seq<char>| g1.contains(v) && g2.contains(v) {
        let v = choose|v: Seq<char>| g1.contains(v) && g2.contains(v);
        assert(voted[v] == c1);
        assert(voted[v] == c2);
    } else {
        assert(g2.subset_of(electorate.difference(g1)));
        lemma_diff_len(electorate, g1);
        lemma_len_subset(g2, electorate.difference(g1));
        assert(2 * g2.len() <= 2 * (electorate.len() - g1.len()));
        assert(false);
    }
}

/// Removing a subset removes exactly its elements: the difference of a
/// finite set and a subset has the complementary size.
pub proof fn lemma_diff_len<A>(e: Set<A>, g: Set<A>)
    requires
        e.finite(),
        g.subset_of(e),
    ensures
        e.difference(g).len() == e.len() - g.len(),
    decreases g.len(),
{
    lemma_len_subset(g, e);
    if g.len() == 0 {
        g.lemma_len0_is_empty();
        assert(e.difference(g) =~= e);
    } else {
        let a = g.choose();
        assert(g.contains(a));
        assert(e.difference(g) =~= e.remove(a).difference(g.remove(a)));
        assert(g.remove(a).subset_of(e.remove(a)));
        lemma_diff_len(e.remove(a), g.remove(a));
    }
}

} // verus!
