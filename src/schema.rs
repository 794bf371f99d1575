//! Records that describe the rounds of a tabulation.

use crate::model::{CandidateId, Choice};
use vstd::prelude::*;

verus! {

/// Where a ballot counts in a round: a continuing candidate, or the pool of
/// exhausted ballots.
#[derive(Clone, Copy, Debug, PartialEq, Eq, Structural, Hash, PartialOrd, Ord)]
pub enum Allocatee {
    Candidate(CandidateId),
    Exhausted,
}

/// The allocatee that a ballot whose top vote is `c` counts for.
pub open spec fn allocatee_of(c: Choice) -> Allocatee {
    match c {
        Choice::Vote(v) => Allocatee::Candidate(v),
        _ => Allocatee::Exhausted,
    }
}

impl Allocatee {
    /// `Candidate` for a vote; `Exhausted` for an undervote or an overvote.
    pub fn from_choice(c: Choice) -> (r: Allocatee)
        ensures
            r == allocatee_of(c),
    {
        match c {
            Choice::Vote(v) => Allocatee::Candidate(v),
            _ => Allocatee::Exhausted,
        }
    }

    /// The candidate, if this allocatee is one.
    pub fn candidate_id(&self) -> (r: Option<CandidateId>)
        ensures
            r == (match *self {
                Allocatee::Candidate(c) => Some(c),
                Allocatee::Exhausted => None::<CandidateId>,
            }),
    {
        match self {
            Allocatee::Candidate(c) => Some(*c),
            Allocatee::Exhausted => None,
        }
    }
}

/// The number of ballots that count for one allocatee in a round.
#[derive(Clone, Copy, Debug, PartialEq, Eq, Structural)]
pub struct TabulatorAllocation {
    pub allocatee: Allocatee,
    pub votes: u32,
}

/// Ballots that moved from an eliminated candidate to another allocatee.
#[derive(Clone, Copy, Debug, PartialEq, Eq, Structural, PartialOrd, Ord)]
pub struct Transfer {
    pub from: CandidateId,
    pub to: Allocatee,
    pub count: u32,
}

/// One round of a tabulation.
#[derive(Clone, Debug, PartialEq, Eq)]
pub struct TabulatorRound {
    /// Candidates by descending votes (ties by ascending id), then `Exhausted`.
    pub allocations: Vec<TabulatorAllocation>,
    pub undervote: u32,
    pub overvote: u32,
    pub continuing_ballots: u32,
    /// The transfers that produced this round; empty in the first round.
    pub transfers: Vec<Transfer>,
}

} // verus!
