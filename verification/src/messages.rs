//! Wire messages of the consensus protocol.
//!
//! Encoding is left to the host; the library works on the decoded values.

use vstd::prelude::*;
use crate::log::LogEntry;

verus! {

/// Mathematical image of a `VoteRequest`.
#[verifier::ext_equal]
pub struct VoteReqView {
    pub term: u64,
    pub candidate_id: Seq<char>,
    pub last_log_index: u64,
    pub last_log_term: u64,
}

/// Mathematical image of a `VoteResponse`.
#[verifier::ext_equal]
pub struct VoteRespView {
    pub term: u64,
    pub vote_granted: bool,
    pub voter_id: Seq<char>,
}

/// Mathematical image of an `AppendEntriesRequest`.
#[verifier::ext_equal]
pub struct AppendReqView {
    pub term: u64,
    pub leader_id: Seq<char>,
    pub prev_log_index: u64,
    pub prev_log_term: u64,
    pub entries: Seq<crate::log::EntryView>,
    pub leader_commit: u64,
}

/// Mathematical image of an `AppendEntriesResponse`.
#[verifier::ext_equal]
pub struct AppendRespView {
    pub term: u64,
    pub success: bool,
    pub follower_id: Seq<char>,
    pub conflict_index: u64,
}

/// A candidate's request for a vote in an election.
#[derive(Debug)]
pub struct VoteRequest {
    pub term: u64,
    pub candidate_id: String,
    pub last_log_index: u64,
    pub last_log_term: u64,
}

impl View for VoteRequest {
    type V = VoteReqView;

    open spec fn view(&self) -> VoteReqView {
        VoteReqView {
            term: self.term,
            candidate_id: self.candidate_id@,
            last_log_index: self.last_log_index,
            last_log_term: self.last_log_term,
        }
    }
}

impl Clone for VoteRequest {
    fn clone(&self) -> (r: Self)
        ensures
            r.term == self.term,
            r.candidate_id@ == self.candidate_id@,
            r.last_log_index == self.last_log_index,
            r.last_log_term == self.last_log_term,
    {
        VoteRequest {
            term: self.term,
            candidate_id: self.candidate_id.clone(),
            last_log_index: self.last_log_index,
            last_log_term: self.last_log_term,
        }
    }
}

/// A voter's answer to a `VoteRequest`.
#[derive(Debug)]
pub struct VoteResponse {
    pub term: u64,
    pub vote_granted: bool,
    pub voter_id: String,
}

impl View for VoteResponse {
    type V = VoteRespView;

    open spec fn view(&self) -> VoteRespView {
        VoteRespView { term: self.term, vote_granted: self.vote_granted, voter_id: self.voter_id@ }
    }
}

/// A leader's replication (or heartbeat) request.
#[derive(Debug)]
pub struct AppendEntriesRequest {
    pub term: u64,
    pub leader_id: String,
    pub prev_log_index: u64,
    pub prev_log_term: u64,
    pub entries: Vec<LogEntry>,
    pub leader_commit: u64,
}

impl View for AppendEntriesRequest {
    type V = AppendReqView;

    open spec fn view(&self) -> AppendReqView {
        AppendReqView {
            term: self.term,
            leader_id: self.leader_id@,
            prev_log_index: self.prev_log_index,
            prev_log_term: self.prev_log_term,
            entries: self.entries.deep_view(),
            leader_commit: self.leader_commit,
        }
    }
}

/// A follower's answer to an `AppendEntriesRequest`.
#[derive(Debug)]
pub struct AppendEntriesResponse {
    pub term: u64,
    pub success: bool,
    pub follower_id: String,
    pub conflict_index: u64,
}

impl View for AppendEntriesResponse {
    type V = AppendRespView;

    open spec fn view(&self) -> AppendRespView {
        AppendRespView {
            term: self.term,
            success: self.success,
            follower_id: self.follower_id@,
            conflict_index: self.conflict_index,
        }
    }
}

} // verus!
