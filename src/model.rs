//! The canonical ballot model shared by the normalizers, the tabulator and
//! the analytics.

use vstd::prelude::*;

verus! {

/// Dense, 0-based index of a candidate within one contest.
#[derive(Clone, Copy, Debug, PartialEq, Eq, Structural, Hash, PartialOrd, Ord)]
pub struct CandidateId(pub u32);

/// A candidate as listed for the contest.
#[derive(Clone, Debug, PartialEq, Eq, PartialOrd, Ord)]
pub struct Candidate {
    pub name: String,
    pub write_in: bool,
}

impl Candidate {
    pub fn new(name: String, write_in: bool) -> (r: Candidate)
        ensures
            r.name@ == name@,
            r.write_in == write_in,
    {
        Candidate { name, write_in }
    }
}

/// The mark found at one rank of a raw ballot.
#[derive(Clone, Copy, Debug, PartialEq, Eq, Structural, Hash, PartialOrd, Ord)]
pub enum Choice {
    Vote(CandidateId),
    Undervote,
    Overvote,
}

/// A raw ballot: one `Choice` per rank offered on the physical ballot.
#[derive(Debug, PartialEq, Eq, Clone)]
pub struct Ballot {
    pub id: String,
    pub choices: Vec<Choice>,
}

impl Ballot {
    pub fn new(id: String, choices: Vec<Choice>) -> (r: Ballot)
        ensures
            r.id@ == id@,
            r.choices@ == choices@,
    {
        Ballot { id, choices }
    }
}

/// A ballot reduced to its remaining preferences; the head of `choices`
/// is the current top preference.
#[derive(Debug, PartialEq, Eq, Clone)]
pub struct NormalizedBallot {
    pub id: String,
    pub choices: Vec<CandidateId>,
    pub overvoted: bool,
}

/// What a ballot with remaining preferences `choices` currently counts for.
pub open spec fn top_of(choices: Seq<CandidateId>, overvoted: bool) -> Choice {
    if choices.len() > 0 {
        Choice::Vote(choices[0])
    } else if overvoted {
        Choice::Overvote
    } else {
        Choice::Undervote
    }
}

impl NormalizedBallot {
    /// A normalized ballot lists no candidate twice.
    pub open spec fn wf(&self) -> bool {
        self.choices@.no_duplicates()
    }

    /// The current top vote of this ballot.
    pub open spec fn top(&self) -> Choice {
        top_of(self.choices@, self.overvoted)
    }

    pub fn new(id: String, choices: Vec<CandidateId>, overvoted: bool) -> (r: NormalizedBallot)
        ensures
            r.id@ == id@,
            r.choices@ == choices@,
            r.overvoted == overvoted,
    {
        NormalizedBallot { id, choices, overvoted }
    }

    /// A copy of the remaining preferences, head first.
    pub fn choices(&self) -> (r: Vec<CandidateId>)
        ensures
            r@ == self.choices@,
    {
        let mut r: Vec<CandidateId> = Vec::new();
        let mut i: usize = 0;
        while i < self.choices.len()
            invariant
                i <= self.choices@.len(),
                r@ == self.choices@.take(i as int),
            decreases self.choices@.len() - i,
        {
            r.push(self.choices[i]);
            i += 1;
            proof {
                assert(r@ =~= self.choices@.take(i as int));
            }
        }
        proof {
            assert(r@ =~= self.choices@);
        }
        r
    }

    /// `Vote` of the head preference; once none is left, `Overvote` when the
    /// ballot was overvoted and `Undervote` otherwise.
    pub fn top_vote(&self) -> (r: Choice)
        ensures
            r == self.top(),
    {
        if self.choices.len() > 0 {
            Choice::Vote(self.choices[0])
        } else if self.overvoted {
            Choice::Overvote
        } else {
            Choice::Undervote
        }
    }

    /// The same ballot with its head preference removed (unchanged when no
    /// preference is left).
    pub fn pop_top_vote(self) -> (r: Self)
        ensures
            self.wf() ==> r.wf(),
            r.id == self.id,
            r.overvoted == self.overvoted,
            r.choices@ == (if self.choices@.len() > 0 {
                self.choices@.drop_first()
            } else {
                self.choices@
            }),
    {
        let mut b = self;
        if b.choices.len() > 0 {
            b.choices.remove(0);
        }
        b
    }
}

/// A contest as read from raw data: the candidate at index `i` has id `i`.
pub struct Election {
    pub candidates: Vec<Candidate>,
    pub ballots: Vec<Ballot>,
}

impl Election {
    pub fn new(candidates: Vec<Candidate>, ballots: Vec<Ballot>) -> (r: Election)
        ensures
            r.candidates@ == candidates@,
            r.ballots@ == ballots@,
    {
        Election { candidates, ballots }
    }
}

/// A contest whose ballots have been normalized.
pub struct NormalizedElection {
    pub candidates: Vec<Candidate>,
    pub ballots: Vec<NormalizedBallot>,
}

/// Contest metadata, carried through to the report unchanged.
#[derive(Clone, Debug)]
pub struct ElectionInfo {
    pub name: String,
    pub date: String,
    pub data_format: String,
    pub tabulation: String,
    pub office: String,
    pub loader_params: Option<Vec<(String, String)>>,
    pub jurisdiction_path: String,
    pub election_path: String,
    pub jurisdiction_name: String,
    pub office_name: String,
    pub election_name: String,
}

/// Metadata together with the normalized ballots of one contest.
pub struct ElectionPreprocessed {
    pub info: ElectionInfo,
    pub ballots: NormalizedElection,
}

} // verus!
