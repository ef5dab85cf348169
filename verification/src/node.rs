//! The per-node protocol state: role, terms, vote, log, applier state,
//! and the leader's per-peer replication indices.

use vstd::prelude::*;
use vstd::pervasive::VecAdditionalExecFns;
use crate::log::{wf_entries, EntryView, RaftLog};
use crate::state_machine::{replay, unique_keys, ConfigStateMachine};

verus! {

/// The three roles a node moves between.
#[derive(Debug, PartialEq, Eq, Clone, Copy, Structural)]
pub enum NodeRole {
    Follower,
    Candidate,
    Leader,
}

/// Mathematical image of one per-peer index entry.
#[verifier::ext_equal]
pub struct PeerIndexView {
    pub peer: Seq<char>,
    pub index: u64,
}

/// One per-peer index entry.
#[derive(Debug)]
pub struct PeerIndex {
    pub peer: String,
    pub index: u64,
}

impl View for PeerIndex {
    type V = PeerIndexView;

    open spec fn view(&self) -> PeerIndexView {
        PeerIndexView { peer: self.peer@, index: self.index }
    }
}

impl DeepView for PeerIndex {
    type V = PeerIndexView;

    open spec fn deep_view(&self) -> PeerIndexView {
        self@
    }
}

/// The first index recorded for a peer, scanning from the front.
pub open spec fn peer_lookup(s: Seq<PeerIndexView>, peer: Seq<char>) -> Option<u64>
    decreases s.len(),
{
    if s.len() == 0 {
        None
    } else if s.first().peer == peer {
        Some(s.first().index)
    } else {
        peer_lookup(s.drop_first(), peer)
    }
}

/// No two entries name the same peer.
pub open spec fn unique_peers(s: Seq<PeerIndexView>) -> bool {
    forall|i: int, j: int| 0 <= i < j < s.len() ==> s[i].peer != s[j].peer
}

/// Scanning for a peer skips any prefix free of it.
pub proof fn lemma_peer_lookup_skip(s: Seq<PeerIndexView>, peer: Seq<char>, k: int)
    requires
        0 <= k <= s.len(),
        forall|j: int| 0 <= j < k ==> (#[trigger] s[j]).peer != peer,
    ensures
        peer_lookup(s, peer) == peer_lookup(s.skip(k), peer),
    decreases k,
{
    if k > 0 {
        assert(s.first() == s[0]);
        assert(forall|j: int|
            0 <= j < s.drop_first().len() ==> (#[trigger] s.drop_first()[j]) == s[j + 1]);
        lemma_peer_lookup_skip(s.drop_first(), peer, k - 1);
        assert(s.drop_first().skip(k - 1) =~= s.skip(k));
    } else {
        assert(s.skip(0) =~= s);
    }
}

/// Under unique peers, an in-place overwrite at the position holding
/// `peer` changes exactly that peer's lookup.
pub proof fn lemma_peer_lookup_update(s: Seq<PeerIndexView>, i: int, p: PeerIndexView)
    requires
        unique_peers(s),
        0 <= i < s.len(),
        p.peer == s[i].peer,
    ensures
        unique_peers(s.update(i, p)),
        peer_lookup(s.update(i, p), p.peer) == Some(p.index),
        forall|q: Seq<char>|
            q != p.peer ==> peer_lookup(s.update(i, p), q) == peer_lookup(s, q),
    decreases s.len(),
{
    let t = s.update(i, p);
    if i == 0 {
        assert(t.first() == p);
        assert(t.drop_first() =~= s.drop_first());
        assert(s.first().peer == p.peer);
        assert forall|q: Seq<char>| q != p.peer implies peer_lookup(t, q) == peer_lookup(s, q) by {
            assert(peer_lookup(t, q) == peer_lookup(t.drop_first(), q));
            assert(peer_lookup(s, q) == peer_lookup(s.drop_first(), q));
        }
    } else {
        assert(t.first() == s.first());
        assert(t.drop_first() =~= s.drop_first().update(i - 1, p));
        assert(forall|a: int, b: int|
            0 <= a < b < s.drop_first().len() ==> s.drop_first()[a].peer != s.drop_first()[b].peer);
        lemma_peer_lookup_update(s.drop_first(), i - 1, p);
        assert(s.first().peer != p.peer);
        assert(peer_lookup(t, p.peer) == peer_lookup(t.drop_first(), p.peer));
        assert forall|q: Seq<char>| q != p.peer implies peer_lookup(t, q) == peer_lookup(s, q) by {
            if s.first().peer == q {
                assert(peer_lookup(t, q) == Some(t.first().index));
                assert(peer_lookup(s, q) == Some(s.first().index));
            } else {
                assert(peer_lookup(t, q) == peer_lookup(t.drop_first(), q));
                assert(peer_lookup(s, q) == peer_lookup(s.drop_first(), q));
            }
        }
    }
}

/// Per-peer indices a leader keeps, such as `nextIndex` and `matchIndex`.
#[derive(Debug)]
pub struct PeerIndexMap {
    pub entries: Vec<PeerIndex>,
}

impl View for PeerIndexMap {
    type V = Seq<PeerIndexView>;

    open spec fn view(&self) -> Seq<PeerIndexView> {
        self.entries.deep_view()
    }
}

impl PeerIndexMap {
    /// Whether no peer is recorded twice.
    pub open spec fn wf(&self) -> bool {
        unique_peers(self@)
    }

    /// An empty table.
    pub fn new() -> (r: Self)
        ensures
            r@ == Seq::<PeerIndexView>::empty(),
            r.wf(),
    {
        let r = PeerIndexMap { entries: Vec::new() };
        proof {
            assert(r@ =~= Seq::<PeerIndexView>::empty());
        }
        r
    }

    /// The index recorded for `peer`, where one is.
    pub fn get(&self, peer: &String) -> (r: Option<u64>)
        ensures
            r == peer_lookup(self@, peer@),
    {
        let n = self.entries.len();
        let mut i: usize = 0;
        proof {
            assert(self@.skip(0) =~= self@);
        }
        while i < n
            invariant
                i <= n,
                n == self.entries@.len(),
                peer_lookup(self@, peer@) == peer_lookup(self@.skip(i as int), peer@),
            decreases n - i,
        {
            proof {
                assert(self@.skip(i as int).first() == self.entries@[i as int]@);
                assert(self@.skip(i as int).drop_first() =~= self@.skip(i + 1));
            }
            if self.entries[i].peer == *peer {
                return Some(self.entries[i].index);
            }
            i += 1;
        }
        None
    }

    /// Records `index` for `peer`, replacing any earlier record.
    pub fn insert(&mut self, peer: String, index: u64)
        requires
            old(self).wf(),
        ensures
            final(self).wf(),
            peer_lookup(final(self)@, peer@) == Some(index),
            forall|q: Seq<char>|
                q != peer@ ==> peer_lookup(final(self)@, q) == peer_lookup(old(self)@, q),
    {
        let ghost orig = self@;
        let n = self.entries.len();
        let mut i: usize = 0;
        while i < n
            invariant
                i <= n,
                n == self.entries@.len(),
                self@ == orig,
                orig == old(self)@,
                unique_peers(orig),
                forall|j: int| 0 <= j < i ==> (#[trigger] orig[j]).peer != peer@,
            decreases n - i,
        {
            if self.entries[i].peer == peer {
                let p = PeerIndex { peer, index };
                let ghost pv = p@;
                self.entries.set(i, p);
                proof {
                    assert(self@ =~= orig.update(i as int, pv));
                    lemma_peer_lookup_update(orig, i as int, pv);
                    assert forall|q: Seq<char>| q != pv.peer implies peer_lookup(self@, q)
                        == peer_lookup(orig, q) by {
                        assert(peer_lookup(orig.update(i as int, pv), q) == peer_lookup(orig, q));
                    }
                }
                return ;
            }
            i += 1;
        }
        let p = PeerIndex { peer, index };
        let ghost pv = p@;
        self.entries.push(p);
        proof {
            let t = orig.push(pv);
            assert(self@ =~= t);
            assert(forall|a: int, b: int| 0 <= a < b < t.len() ==> t[a].peer != t[b].peer);
            lemma_peer_lookup_skip(t, pv.peer, t.len() - 1);
            assert(t.skip(t.len() - 1).first() == pv);
            assert forall|q: Seq<char>| q != pv.peer implies peer_lookup(t, q) == peer_lookup(
                orig,
                q,
            ) by {
                lemma_peer_lookup_push_other(orig, pv, q);
            }
        }
    }
}

/// Appending an entry for a new peer leaves every other lookup alone.
pub proof fn lemma_peer_lookup_push_other(s: Seq<PeerIndexView>, p: PeerIndexView, q: Seq<char>)
    requires
        q != p.peer,
    ensures
        peer_lookup(s.push(p), q) == peer_lookup(s, q),
    decreases s.len(),
{
    if s.len() == 0 {
        assert(s.push(p).first() == p);
        assert(s.push(p).drop_first() =~= Seq::<PeerIndexView>::empty());
        assert(peer_lookup(s.push(p), q) == peer_lookup(s.push(p).drop_first(), q));
    } else {
        assert(s.push(p).first() == s.first());
        assert(s.push(p).drop_first() =~= s.drop_first().push(p));
        if s.first().peer == q {
            assert(peer_lookup(s.push(p), q) == Some(s.first().index));
            assert(peer_lookup(s, q) == Some(s.first().index));
        } else {
            assert(peer_lookup(s.push(p), q) == peer_lookup(s.drop_first().push(p), q));
            assert(peer_lookup(s, q) == peer_lookup(s.drop_first(), q));
            lemma_peer_lookup_push_other(s.drop_first(), p, q);
        }
    }
}

/// Mathematical image of a node's whole protocol state.
#[verifier::ext_equal]
pub struct NodeView {
    pub node_id: Seq<char>,
    pub current_term: u64,
    pub voted_for: Option<Seq<char>>,
    pub entries: Seq<EntryView>,
    pub commit_index: u64,
    pub last_applied: u64,
    pub role: NodeRole,
    pub leader_id: Option<Seq<char>>,
    pub next_index: Seq<PeerIndexView>,
    pub match_index: Seq<PeerIndexView>,
    pub config: Map<Seq<char>, Seq<u8>>,
    pub peers: Seq<Seq<char>>,
    pub heartbeat_timeout: u64,
    pub election_timeout: u64,
}

/// The view of an optional node id.
pub open spec fn opt_id_view(o: &Option<String>) -> Option<Seq<char>> {
    match o {
        Some(s) => Some(s@),
        None => None,
    }
}

/// One node of the cluster.  Times are milliseconds on the host's clock,
/// handed in by the caller so that every decision is deterministic.
#[derive(Debug)]
pub struct RaftNode {
    pub node_id: String,
    pub current_term: u64,
    pub voted_for: Option<String>,
    pub log: RaftLog,
    pub role: NodeRole,
    pub leader_id: Option<String>,
    pub next_index: PeerIndexMap,
    pub match_index: PeerIndexMap,
    pub state_machine: ConfigStateMachine,
    pub peers: Vec<String>,
    pub heartbeat_timeout: u64,
    pub election_timeout: u64,
}

impl View for RaftNode {
    type V = NodeView;

    open spec fn view(&self) -> NodeView {
        NodeView {
            node_id: self.node_id@,
            current_term: self.current_term,
            voted_for: opt_id_view(&self.voted_for),
            entries: self.log.entries(),
            commit_index: self.log.commit_index,
            last_applied: self.log.last_applied,
            role: self.role,
            leader_id: opt_id_view(&self.leader_id),
            next_index: self.next_index@,
            match_index: self.match_index@,
            config: self.state_machine@,
            peers: self.peers.deep_view(),
            heartbeat_timeout: self.heartbeat_timeout,
            election_timeout: self.election_timeout,
        }
    }
}

/// The node invariant.  It carries the applier bound
/// `lastApplied <= commitIndex <= lastIndex` — with a well-formed log,
/// the last index is the length — and ties the state machine to the
/// replay of the applied prefix.
pub open spec fn node_inv(n: NodeView) -> bool {
    &&& wf_entries(n.entries)
    &&& n.entries.len() < u64::MAX
    &&& n.last_applied <= n.commit_index
    &&& n.commit_index <= n.entries.len()
    &&& forall|i: int| 0 <= i < n.entries.len() ==> (#[trigger] n.entries[i]).term <= n.current_term
    &&& n.config == replay(n.entries, n.last_applied as int)
}

impl RaftNode {
    /// The invariant, together with the uniqueness of the exec-level
    /// association lists behind the view.
    pub open spec fn wf(&self) -> bool {
        &&& node_inv(self@)
        &&& unique_keys(self.state_machine.pairs.deep_view())
        &&& self.next_index.wf()
        &&& self.match_index.wf()
    }

    /// A fresh follower with an empty log, as a node first starts.
    pub fn new(node_id: String, peers: Vec<String>) -> (r: Self)
        ensures
            r@.node_id == node_id@,
            r@.peers == peers.deep_view(),
            r@.current_term == 0,
            r@.voted_for is None,
            r@.role == NodeRole::Follower,
            r@.leader_id is None,
            r@.entries == Seq::<EntryView>::empty(),
            r@.commit_index == 0,
            r@.last_applied == 0,
            r@.config == Map::<Seq<char>, Seq<u8>>::empty(),
            r.wf(),
    {
        let r = RaftNode {
            node_id,
            current_term: 0,
            voted_for: None,
            log: RaftLog::new(),
            role: NodeRole::Follower,
            leader_id: None,
            next_index: PeerIndexMap::new(),
            match_index: PeerIndexMap::new(),
            state_machine: ConfigStateMachine::new(),
            peers,
            heartbeat_timeout: 0,
            election_timeout: 0,
        };
        r
    }
}

} // verus!
