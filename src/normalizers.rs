//! Per-ballot normalizers: raw ranked marks to canonical preference lists.

use crate::model::{Ballot, CandidateId, Choice, Election, NormalizedBallot, NormalizedElection};
use vstd::prelude::*;
use vstd::string::StrSliceExecFns;

verus! {

/// The "simple" rule over the marks `s`: the canonical preferences and the
/// overvote flag. Repeated candidates collapse to their first rank, blank ranks
/// are skipped, and an overvote sets the flag and ends the walk.
pub open spec fn simple_walk(s: Seq<Choice>) -> (Seq<CandidateId>, bool)
    decreases s.len(),
{
    if s.len() == 0 {
        (Seq::empty(), false)
    } else {
        let prev = simple_walk(s.drop_last());
        if prev.1 {
            prev
        } else {
            match s.last() {
                Choice::Vote(c) => if prev.0.contains(c) {
                    prev
                } else {
                    (prev.0.push(c), false)
                },
                Choice::Overvote => (prev.0, true),
                Choice::Undervote => prev,
            }
        }
    }
}

/// State of the Maine walk over the marks `s`: the marks emitted so far,
/// whether the previous rank was blank, and whether the walk has ended.
pub open spec fn maine_walk(s: Seq<Choice>) -> (Seq<Choice>, bool, bool)
    decreases s.len(),
{
    if s.len() == 0 {
        (Seq::empty(), false, false)
    } else {
        let prev = maine_walk(s.drop_last());
        if prev.2 {
            prev
        } else {
            match s.last() {
                Choice::Vote(c) => if prev.0.contains(Choice::Vote(c)) {
                    (prev.0, false, false)
                } else {
                    (prev.0.push(Choice::Vote(c)), false, false)
                },
                Choice::Undervote => if prev.1 {
                    (prev.0.push(Choice::Undervote), true, true)
                } else {
                    (prev.0, true, false)
                },
                Choice::Overvote => (prev.0.push(Choice::Overvote), prev.1, true),
            }
        }
    }
}

/// A normalized ballot read back as raw marks: one vote per remaining
/// preference, then an overvote when the ballot was overvoted.
pub open spec fn as_marks(choices: Seq<CandidateId>, overvoted: bool) -> Seq<Choice> {
    choices.map_values(|c: CandidateId| Choice::Vote(c)) + (if overvoted {
        seq![Choice::Overvote]
    } else {
        Seq::empty()
    })
}

proof fn lemma_simple_walk_stops(s: Seq<Choice>, n: int)
    requires
        0 <= n <= s.len(),
        simple_walk(s.take(n)).1,
    ensures
        simple_walk(s) == simple_walk(s.take(n)),
    decreases s.len() - n,
{
    if n < s.len() {
        assert(s.take(n + 1).drop_last() =~= s.take(n));
        lemma_simple_walk_stops(s, n + 1);
    } else {
        assert(s.take(n) =~= s);
    }
}

proof fn lemma_maine_walk_stops(s: Seq<Choice>, n: int)
    requires
        0 <= n <= s.len(),
        maine_walk(s.take(n)).2,
    ensures
        maine_walk(s) == maine_walk(s.take(n)),
    decreases s.len() - n,
{
    if n < s.len() {
        assert(s.take(n + 1).drop_last() =~= s.take(n));
        lemma_maine_walk_stops(s, n + 1);
    } else {
        assert(s.take(n) =~= s);
    }
}

/// Every normalized ballot lists each candidate at most once.
pub proof fn lemma_simple_no_duplicates(s: Seq<Choice>)
    ensures
        simple_walk(s).0.no_duplicates(),
    decreases s.len(),
{
    if s.len() > 0 {
        lemma_simple_no_duplicates(s.drop_last());
        let prev = simple_walk(s.drop_last());
        if !prev.1 {
            if let Choice::Vote(c) = s.last() {
                if !prev.0.contains(c) {
                    let q = prev.0.push(c);
                    assert forall|i: int, j: int|
                        0 <= i < q.len() && 0 <= j < q.len() && i != j implies q[i] != q[j] by {
                        if i == prev.0.len() as int {
                            assert(prev.0[j] == q[j]);
                        } else if j == prev.0.len() as int {
                            assert(prev.0[i] == q[i]);
                        }
                    }
                }
            }
        }
    }
}

proof fn lemma_simple_walk_votes(s: Seq<CandidateId>, n: int)
    requires
        s.no_duplicates(),
        0 <= n <= s.len(),
    ensures
        simple_walk(s.take(n).map_values(|c: CandidateId| Choice::Vote(c))) == (s.take(n), false),
    decreases n,
{
    let m = s.take(n).map_values(|c: CandidateId| Choice::Vote(c));
    if n == 0 {
        assert(m =~= Seq::<Choice>::empty());
        assert(s.take(0) =~= Seq::<CandidateId>::empty());
    } else {
        lemma_simple_walk_votes(s, n - 1);
        assert(m.drop_last() =~= s.take(n - 1).map_values(|c: CandidateId| Choice::Vote(c)));
        assert(m.last() == Choice::Vote(s[n - 1]));
        assert(!s.take(n - 1).contains(s[n - 1])) by {
            if s.take(n - 1).contains(s[n - 1]) {
                let k = choose|k: int| 0 <= k < n - 1 && #[trigger] s.take(n - 1)[k] == s[n - 1];
                assert(s[k] == s[n - 1]);
            }
        }
        assert(s.take(n - 1).push(s[n - 1]) =~= s.take(n));
    }
}

proof fn lemma_simple_reads_back(c: Seq<CandidateId>, o: bool)
    requires
        c.no_duplicates(),
    ensures
        simple_walk(as_marks(c, o)) == (c, o),
{
    lemma_simple_walk_votes(c, c.len() as int);
    assert(c.take(c.len() as int) =~= c);
    let v = c.map_values(|x: CandidateId| Choice::Vote(x));
    let m = as_marks(c, o);
    if o {
        assert(m.drop_last() =~= v);
        assert(m.last() == Choice::Overvote);
    } else {
        assert(m =~= v);
    }
}

proof fn lemma_maine_walk_votes(c: Seq<CandidateId>, n: int)
    requires
        c.no_duplicates(),
        0 <= n <= c.len(),
    ensures
        maine_walk(c.take(n).map_values(|x: CandidateId| Choice::Vote(x))) == (
            c.take(n).map_values(|x: CandidateId| Choice::Vote(x)),
            false,
            false,
        ),
    decreases n,
{
    let m = c.take(n).map_values(|x: CandidateId| Choice::Vote(x));
    if n == 0 {
        assert(m =~= Seq::<Choice>::empty());
    } else {
        lemma_maine_walk_votes(c, n - 1);
        let m1 = c.take(n - 1).map_values(|x: CandidateId| Choice::Vote(x));
        assert(m.drop_last() =~= m1);
        assert(m.last() == Choice::Vote(c[n - 1]));
        assert(!m1.contains(Choice::Vote(c[n - 1]))) by {
            if m1.contains(Choice::Vote(c[n - 1])) {
                let k = choose|k: int| 0 <= k < m1.len() && #[trigger] m1[k] == Choice::Vote(c[n - 1]);
                assert(c[k] == c[n - 1]);
            }
        }
        assert(m1.push(Choice::Vote(c[n - 1])) =~= m);
    }
}

proof fn lemma_maine_reads_back(c: Seq<CandidateId>, o: bool)
    requires
        c.no_duplicates(),
    ensures
        maine_walk(as_marks(c, o)).0 == as_marks(c, o),
{
    lemma_maine_walk_votes(c, c.len() as int);
    assert(c.take(c.len() as int) =~= c);
    let v = c.map_values(|x: CandidateId| Choice::Vote(x));
    let m = as_marks(c, o);
    if o {
        assert(m.drop_last() =~= v);
        assert(m.last() == Choice::Overvote);
        assert(v.push(Choice::Overvote) =~= m);
    } else {
        assert(m =~= v);
    }
}

/// Normalizing again a normalized ballot, read back as raw marks, gives the
/// same ballot, with either normalizer.
pub proof fn lemma_normalize_idempotent(n: Normalizer, s: Seq<Choice>)
    ensures
        normalized_marks(n, as_marks(normalized_marks(n, s).0, normalized_marks(n, s).1)) == normalized_marks(n, s),
{
    let (c, o) = normalized_marks(n, s);
    match n {
        Normalizer::Simple => {
            lemma_simple_no_duplicates(s);
        },
        Normalizer::Maine => {
            lemma_simple_no_duplicates(maine_walk(s).0);
            lemma_maine_reads_back(c, o);
        },
    }
    lemma_simple_reads_back(c, o);
}

/// Whether `c` is among the first entries of `v`.
pub(crate) fn contains_candidate(v: &Vec<CandidateId>, c: CandidateId) -> (r: bool)
    ensures
        r == v@.contains(c),
{
    let mut i: usize = 0;
    while i < v.len()
        invariant
            i <= v@.len(),
            forall|k: int| 0 <= k < i ==> v@[k] != c,
        decreases v@.len() - i,
    {
        if v[i] == c {
            return true;
        }
        i += 1;
    }
    false
}

fn contains_choice(v: &Vec<Choice>, c: Choice) -> (r: bool)
    ensures
        r == v@.contains(c),
{
    let mut i: usize = 0;
    while i < v.len()
        invariant
            i <= v@.len(),
            forall|k: int| 0 <= k < i ==> v@[k] != c,
        decreases v@.len() - i,
    {
        if v[i] == c {
            return true;
        }
        i += 1;
    }
    false
}

/// Normalizes a ballot by the simple rule: repeated candidates collapse to
/// their first rank, blank ranks are skipped, an overvote ends the ballot.
pub fn simple_normalizer(ballot: Ballot) -> (r: NormalizedBallot)
    ensures
        r.id@ == ballot.id@,
        (r.choices@, r.overvoted) == simple_walk(ballot.choices@),
        r.wf(),
{
    let choices = &ballot.choices;
    let mut new_choices: Vec<CandidateId> = Vec::new();
    let mut overvoted = false;
    let mut i: usize = 0;
    while i < choices.len() && !overvoted
        invariant
            i <= choices@.len(),
            !overvoted ==> (new_choices@, false) == simple_walk(choices@.take(i as int)),
            overvoted ==> (new_choices@, true) == simple_walk(choices@),
        decreases choices@.len() - i,
    {
        let ghost before = choices@.take(i as int);
        assert(choices@.take(i + 1).drop_last() =~= before);
        match choices[i] {
            Choice::Vote(v) => {
                if !contains_candidate(&new_choices, v) {
                    new_choices.push(v);
                }
            },
            Choice::Overvote => {
                overvoted = true;
                proof {
                    lemma_simple_walk_stops(choices@, i + 1);
                }
            },
            Choice::Undervote => {},
        }
        i += 1;
    }
    proof {
        if !overvoted {
            assert(choices@.take(choices@.len() as int) =~= choices@);
        }
        lemma_simple_no_duplicates(choices@);
    }
    NormalizedBallot::new(ballot.id, new_choices, overvoted)
}

/// Applies Maine's exhaustion rule to a raw ballot: repeated candidates
/// collapse to their first rank, a single blank rank is skipped, and two
/// consecutive blank ranks or an overvote end the ballot, which then closes
/// with an `Undervote` or `Overvote` mark.
pub fn maine_normalizer(ballot: Ballot) -> (r: Ballot)
    ensures
        r.id@ == ballot.id@,
        r.choices@ == maine_walk(ballot.choices@).0,
{
    let choices = &ballot.choices;
    let mut new_choices: Vec<Choice> = Vec::new();
    let mut last_skipped = false;
    let mut done = false;
    let mut i: usize = 0;
    while i < choices.len() && !done
        invariant
            i <= choices@.len(),
            !done ==> (new_choices@, last_skipped, false) == maine_walk(choices@.take(i as int)),
            done ==> new_choices@ == maine_walk(choices@).0,
        decreases choices@.len() - i,
    {
        let ghost before = choices@.take(i as int);
        assert(choices@.take(i + 1).drop_last() =~= before);
        match choices[i] {
            Choice::Vote(v) => {
                if !contains_choice(&new_choices, Choice::Vote(v)) {
                    new_choices.push(Choice::Vote(v));
                }
                last_skipped = false;
            },
            Choice::Undervote => {
                if last_skipped {
                    new_choices.push(Choice::Undervote);
                    done = true;
                    proof {
                        lemma_maine_walk_stops(choices@, i + 1);
                    }
                }
                last_skipped = true;
            },
            Choice::Overvote => {
                new_choices.push(Choice::Overvote);
                done = true;
                proof {
                    lemma_maine_walk_stops(choices@, i + 1);
                }
            },
        }
        i += 1;
    }
    proof {
        if !done {
            assert(choices@.take(choices@.len() as int) =~= choices@);
        }
    }
    Ballot { id: ballot.id, choices: new_choices }
}

/// The ballot normalizers that a contest can select by tag.
#[derive(Clone, Copy, Debug, PartialEq, Eq, Structural)]
pub enum Normalizer {
    /// Tag `simple`.
    Simple,
    /// Tag `maine`: Maine's exhaustion rule, then the simple rule.
    Maine,
}

/// Why an election could not be normalized.
#[derive(Clone, Debug, PartialEq, Eq)]
pub enum NormalizeError {
    /// The tag names no normalizer.
    UnknownNormalizer(String),
    /// A ballot votes for a candidate id outside the candidate list.
    CandidateOutOfRange { ballot: usize, candidate: CandidateId },
}

/// The canonical preferences and overvote flag that `n` gives for marks `s`.
pub open spec fn normalized_marks(n: Normalizer, s: Seq<Choice>) -> (Seq<CandidateId>, bool) {
    match n {
        Normalizer::Simple => simple_walk(s),
        Normalizer::Maine => simple_walk(maine_walk(s).0),
    }
}

/// The normalizer that the tag `format` names, if any.
pub open spec fn normalizer_of(format: Seq<char>) -> Option<Normalizer> {
    if format == "simple"@ {
        Some(Normalizer::Simple)
    } else if format == "maine"@ {
        Some(Normalizer::Maine)
    } else {
        None
    }
}

/// Whether the raw marks `s` vote only for ids below `n`.
pub open spec fn votes_in_range(s: Seq<Choice>, n: nat) -> bool {
    forall|j: int| 0 <= j < s.len() ==> match #[trigger] s[j] {
        Choice::Vote(c) => (c.0 as nat) < n,
        _ => true,
    }
}

pub(crate) fn str_equals(a: &str, b: &str) -> (r: bool)
    ensures
        r == (a@ == b@),
{
    let n = a.unicode_len();
    if n != b.unicode_len() {
        return false;
    }
    let mut i: usize = 0;
    while i < n
        invariant
            n == a@.len(),
            n == b@.len(),
            i <= n,
            forall|k: int| 0 <= k < i ==> a@[k] == b@[k],
        decreases n - i,
    {
        if a.get_char(i) != b.get_char(i) {
            return false;
        }
        i += 1;
    }
    proof {
        assert(a@ =~= b@);
    }
    true
}

/// Looks up the normalizer named by a contest's normalization tag.
pub fn get_normalizer_for_format(format: &str) -> (r: Option<Normalizer>)
    ensures
        r == normalizer_of(format@),
{
    proof {
        reveal_strlit("simple");
        reveal_strlit("maine");
    }
    if str_equals(format, "simple") {
        Some(Normalizer::Simple)
    } else if str_equals(format, "maine") {
        Some(Normalizer::Maine)
    } else {
        None
    }
}

impl Normalizer {
    /// Normalizes one ballot with this normalizer.
    pub fn apply(&self, ballot: Ballot) -> (r: NormalizedBallot)
        ensures
            r.id@ == ballot.id@,
            (r.choices@, r.overvoted) == normalized_marks(*self, ballot.choices@),
            r.wf(),
    {
        match self {
            Normalizer::Simple => simple_normalizer(ballot),
            Normalizer::Maine => simple_normalizer(maine_normalizer(ballot)),
        }
    }
}

/// The first mark of `s` that votes for an id not below `n`, if any.
fn first_out_of_range(s: &Vec<Choice>, n: usize) -> (r: Option<CandidateId>)
    ensures
        r.is_none() == votes_in_range(s@, n as nat),
        r matches Some(c) ==> (c.0 as nat) >= n && s@.contains(Choice::Vote(c)),
{
    let mut i: usize = 0;
    while i < s.len()
        invariant
            i <= s@.len(),
            votes_in_range(s@.take(i as int), n as nat),
        decreases s@.len() - i,
    {
        if let Choice::Vote(c) = s[i] {
            if c.0 as usize >= n {
                proof {
                    assert(s@[i as int] == Choice::Vote(c));
                    assert(!votes_in_range(s@, n as nat));
                }
                return Some(c);
            }
        }
        proof {
            assert forall|j: int| 0 <= j < i + 1 implies match #[trigger] s@.take(i + 1)[j] {
                Choice::Vote(c) => (c.0 as nat) < n,
                _ => true,
            } by {
                if j < i {
                    assert(s@.take(i as int)[j] == s@.take(i + 1)[j]);
                }
            }
        }
        i += 1;
    }
    proof {
        assert(s@.take(i as int) =~= s@);
    }
    None
}

/// Normalizes every ballot of an election with the normalizer named by
/// `format`, keeping the candidate list and the order of the ballots.
/// Fails on an unknown tag, or when a ballot votes for an id that is not in
/// the candidate list.
pub fn normalize_election(format: &str, election: Election) -> (r: Result<
    NormalizedElection,
    NormalizeError,
>)
    ensures
        normalizer_of(format@).is_none() ==> r is Err && r->Err_0 is UnknownNormalizer,
        r is Ok <==> (normalizer_of(format@).is_some() && forall|i: int|
            0 <= i < election.ballots@.len() ==> votes_in_range(
                #[trigger] election.ballots@[i].choices@,
                election.candidates@.len(),
            )),
        r matches Ok(e) ==> {
            &&& e.candidates@ == election.candidates@
            &&& e.ballots@.len() == election.ballots@.len()
            &&& forall|i: int|
                0 <= i < e.ballots@.len() ==> {
                    &&& (#[trigger] e.ballots@[i]).id@ == election.ballots@[i].id@
                    &&& (e.ballots@[i].choices@, e.ballots@[i].overvoted) == normalized_marks(
                        normalizer_of(format@)->Some_0,
                        election.ballots@[i].choices@,
                    )
                    &&& e.ballots@[i].wf()
                }
        },
{
    let normalizer = match get_normalizer_for_format(format) {
        Some(n) => n,
        None => {
            return Err(NormalizeError::UnknownNormalizer(format.to_owned()));
        },
    };
    let Election { candidates, ballots } = election;
    let n = candidates.len();
    let mut i: usize = 0;
    while i < ballots.len()
        invariant
            i <= ballots@.len(),
            n == candidates@.len(),
            Some(normalizer) == normalizer_of(format@),
            ballots@ == election.ballots@,
            candidates@ == election.candidates@,
            forall|k: int| 0 <= k < i ==> votes_in_range(#[trigger] ballots@[k].choices@, n as nat),
        decreases ballots@.len() - i,
    {
        if let Some(c) = first_out_of_range(&ballots[i].choices, n) {
            return Err(NormalizeError::CandidateOutOfRange { ballot: i, candidate: c });
        }
        i += 1;
    }
    let mut out: Vec<NormalizedBallot> = Vec::new();
    let ghost orig = ballots@;
    let mut src = ballots;
    let mut rest: Vec<Ballot> = Vec::new();
    while src.len() > 0
        invariant
            src@.len() + rest@.len() == orig.len(),
            forall|k: int| 0 <= k < src@.len() ==> #[trigger] src@[k] == orig[k],
            forall|k: int|
                0 <= k < rest@.len() ==> #[trigger] rest@[k] == orig[orig.len() - 1 - k],
        decreases src@.len(),
    {
        let b = src.pop().unwrap();
        rest.push(b);
    }
    while rest.len() > 0
        invariant
            out@.len() + rest@.len() == orig.len(),
            forall|k: int| 0 <= k < rest@.len() ==> #[trigger] rest@[k] == orig[orig.len() - 1 - k],
            forall|k: int|
                0 <= k < out@.len() ==> {
                    &&& (#[trigger] out@[k]).id@ == orig[k].id@
                    &&& (out@[k].choices@, out@[k].overvoted) == normalized_marks(normalizer, orig[k].choices@)
                    &&& out@[k].wf()
                },
        decreases rest@.len(),
    {
        let b = rest.pop().unwrap();
        out.push(normalizer.apply(b));
    }
    Ok(NormalizedElection { candidates, ballots: out })
}

} // verus!
