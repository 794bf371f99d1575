//! Instant-runoff tabulation with batched elimination.

use crate::model::{CandidateId, Choice, NormalizedBallot, top_of};
use crate::normalizers::contains_candidate;
use crate::schema::{Allocatee, TabulatorAllocation, TabulatorRound, Transfer, allocatee_of};
use vstd::prelude::*;

verus! {

/// What the tabulator reads of a ballot: its remaining preferences and its
/// overvote flag.
pub type BallotView = (Seq<CandidateId>, bool);

pub open spec fn views(bs: Seq<NormalizedBallot>) -> Seq<BallotView> {
    bs.map_values(|b: NormalizedBallot| (b.choices@, b.overvoted))
}

pub open spec fn top_of_view(v: BallotView) -> Choice {
    top_of(v.0, v.1)
}

/// The number of ballots in `vs` whose top vote is `ch`.
pub open spec fn count_top(vs: Seq<BallotView>, ch: Choice) -> nat
    decreases vs.len(),
{
    if vs.len() == 0 {
        0
    } else {
        count_top(vs.drop_last(), ch) + if top_of_view(vs.last()) == ch {
            1nat
        } else {
            0nat
        }
    }
}

pub open spec fn sum_ints(s: Seq<int>) -> int
    decreases s.len(),
{
    if s.len() == 0 {
        0
    } else {
        sum_ints(s.drop_last()) + s.last()
    }
}

/// The sum of the vote counts of `v`.
pub open spec fn vote_total(v: Seq<(CandidateId, u32)>) -> int {
    sum_ints(v.map_values(|p: (CandidateId, u32)| p.1 as int))
}

/// `a` is listed before `b`: more votes, or as many and a lower id.
pub open spec fn ranks_before(a: (CandidateId, u32), b: (CandidateId, u32)) -> bool {
    a.1 > b.1 || (a.1 == b.1 && a.0.0 < b.0.0)
}

pub open spec fn sorted_votes(v: Seq<(CandidateId, u32)>) -> bool {
    forall|i: int, j: int| 0 <= i < j < v.len() ==> ranks_before(#[trigger] v[i], #[trigger] v[j])
}

pub open spec fn distinct_ids(v: Seq<(CandidateId, u32)>) -> bool {
    forall|i: int, j: int| 0 <= i < j < v.len() ==> (#[trigger] v[i]).0 != (#[trigger] v[j]).0
}

pub open spec fn lists_candidate(v: Seq<(CandidateId, u32)>, c: CandidateId) -> bool {
    exists|i: int| 0 <= i < v.len() && (#[trigger] v[i]).0 == c
}

/// `votes` and `exhausted` are the allocation of the ballots `vs`: each
/// candidate that tops some ballot, once, with the number of ballots it
/// tops, by descending votes and then ascending id; `exhausted` counts the
/// ballots with no candidate left.
pub open spec fn allocation_of(vs: Seq<BallotView>, votes: Seq<(CandidateId, u32)>, exhausted: u32) -> bool {
    &&& forall|i: int|
        0 <= i < votes.len() ==> (#[trigger] votes[i]).1 == count_top(vs, Choice::Vote(votes[i].0))
            && votes[i].1 > 0
    &&& forall|c: CandidateId| #[trigger] count_top(vs, Choice::Vote(c)) > 0 ==> lists_candidate(votes, c)
    &&& sorted_votes(votes)
    &&& distinct_ids(votes)
    &&& exhausted == count_top(vs, Choice::Undervote) + count_top(vs, Choice::Overvote)
    &&& vote_total(votes) + exhausted == vs.len()
}

pub proof fn lemma_sum_push(s: Seq<int>, x: int)
    ensures
        sum_ints(s.push(x)) == sum_ints(s) + x,
{
    assert(s.push(x).drop_last() =~= s);
}

pub proof fn lemma_sum_update(s: Seq<int>, j: int, x: int)
    requires
        0 <= j < s.len(),
    ensures
        sum_ints(s.update(j, x)) == sum_ints(s) - s[j] + x,
    decreases s.len(),
{
    if j == s.len() - 1 {
        assert(s.update(j, x).drop_last() =~= s.drop_last());
    } else {
        lemma_sum_update(s.drop_last(), j, x);
        assert(s.update(j, x).drop_last() =~= s.drop_last().update(j, x));
    }
}

pub proof fn lemma_sum_insert(s: Seq<int>, k: int, x: int)
    requires
        0 <= k <= s.len(),
    ensures
        sum_ints(s.insert(k, x)) == sum_ints(s) + x,
    decreases s.len(),
{
    if k == s.len() {
        assert(s.insert(k, x) =~= s.push(x));
        lemma_sum_push(s, x);
    } else {
        lemma_sum_insert(s.drop_last(), k, x);
        assert(s.insert(k, x).drop_last() =~= s.drop_last().insert(k, x));
    }
}

proof fn lemma_count_take(vs: Seq<BallotView>, i: int)
    requires
        0 <= i < vs.len(),
    ensures
        forall|ch: Choice|
            #[trigger] count_top(vs.take(i + 1), ch) == count_top(vs.take(i), ch) + if top_of_view(vs[i]) == ch {
                1nat
            } else {
                0nat
            },
{
    assert(vs.take(i + 1).drop_last() =~= vs.take(i));
}

proof fn lemma_count_le(vs: Seq<BallotView>, ch: Choice)
    ensures
        count_top(vs, ch) <= vs.len(),
    decreases vs.len(),
{
    if vs.len() > 0 {
        lemma_count_le(vs.drop_last(), ch);
    }
}

/// Candidate vote counts of one round, and the number of exhausted ballots.
pub struct Allocations {
    pub exhausted: u32,
    pub votes: Vec<(CandidateId, u32)>,
}

impl Allocations {
    /// Orders `votes` by descending votes, ties by ascending candidate id.
    pub fn new(votes: Vec<(CandidateId, u32)>, exhausted: u32) -> (r: Allocations)
        requires
            distinct_ids(votes@),
        ensures
            r.exhausted == exhausted,
            sorted_votes(r.votes@),
            distinct_ids(r.votes@),
            r.votes@.len() == votes@.len(),
            forall|p: (CandidateId, u32)|
                #![trigger r.votes@.contains(p)]
                #![trigger votes@.contains(p)]
                r.votes@.contains(p) <==> votes@.contains(p),
            vote_total(r.votes@) == vote_total(votes@),
    {
        let mut sorted: Vec<(CandidateId, u32)> = Vec::new();
        let mut j: usize = 0;
        while j < votes.len()
            invariant
                j <= votes@.len(),
                distinct_ids(votes@),
                sorted_votes(sorted@),
                distinct_ids(sorted@),
                sorted@.len() == j,
                forall|p: (CandidateId, u32)| sorted@.contains(p) <==> votes@.take(j as int).contains(p),
                vote_total(sorted@) == vote_total(votes@.take(j as int)),
            decreases votes@.len() - j,
        {
            let x = votes[j];
            let mut pos: usize = 0;
            while pos < sorted.len() && !(x.1 > sorted[pos].1 || (x.1 == sorted[pos].1 && x.0.0 < sorted[pos].0.0))
                invariant
                    pos <= sorted@.len(),
                    forall|k: int| 0 <= k < pos ==> !ranks_before(x, #[trigger] sorted@[k]),
                decreases sorted@.len() - pos,
            {
                pos += 1;
            }
            let ghost old_sorted = sorted@;
            proof {
                // x's candidate is not yet listed.
                assert forall|k: int| 0 <= k < old_sorted.len() implies (#[trigger] old_sorted[k]).0 != x.0 by {
                    assert(old_sorted.contains(old_sorted[k]));
                    assert(votes@.take(j as int).contains(old_sorted[k]));
                    let m = choose|m: int| 0 <= m < j && #[trigger] votes@.take(j as int)[m] == old_sorted[k];
                    assert(votes@[m] == old_sorted[k]);
                }
            }
            sorted.insert(pos, x);
            proof {
                old_sorted.insert_ensures(pos as int, x);
                let ns = sorted@;
                assert(ns == old_sorted.insert(pos as int, x));
                assert forall|a: int, b: int| 0 <= a < b < ns.len() implies ranks_before(#[trigger] ns[a], #[trigger] ns[b]) by {
                    if b < pos {
                        assert(ns[a] == old_sorted[a] && ns[b] == old_sorted[b]);
                    } else if b == pos {
                        assert(ns[a] == old_sorted[a]);
                        assert(!ranks_before(x, old_sorted[a]));
                        assert(old_sorted[a].0 != x.0);
                    } else if a < pos {
                        assert(ns[a] == old_sorted[a] && ns[b] == old_sorted[b - 1]);
                    } else if a == pos {
                        assert(ns[b] == old_sorted[b - 1]);
                        assert(ranks_before(x, old_sorted[pos as int]));
                        if b - 1 > pos {
                            assert(ranks_before(old_sorted[pos as int], old_sorted[b - 1]));
                        }
                    } else {
                        assert(ns[a] == old_sorted[a - 1] && ns[b] == old_sorted[b - 1]);
                    }
                }
                assert forall|a: int, b: int| 0 <= a < b < ns.len() implies (#[trigger] ns[a]).0 != (#[trigger] ns[b]).0 by {
                    if b < pos {
                        assert(ns[a] == old_sorted[a] && ns[b] == old_sorted[b]);
                    } else if b == pos {
                        assert(ns[a] == old_sorted[a]);
                    } else if a < pos {
                        assert(ns[a] == old_sorted[a] && ns[b] == old_sorted[b - 1]);
                    } else if a == pos {
                        assert(ns[b] == old_sorted[b - 1]);
                    } else {
                        assert(ns[a] == old_sorted[a - 1] && ns[b] == old_sorted[b - 1]);
                    }
                }
                let t = votes@.take(j as int);
                let t1 = votes@.take(j + 1);
                assert(t1 =~= t.push(x));
                assert forall|p: (CandidateId, u32)| ns.contains(p) <==> t1.contains(p) by {
                    if ns.contains(p) {
                        let k = choose|k: int| 0 <= k < ns.len() && ns[k] == p;
                        if k < pos {
                            assert(old_sorted[k] == p);
                            assert(old_sorted.contains(p));
                            let m = choose|m: int| 0 <= m < t.len() && t[m] == p;
                            assert(t1[m] == p);
                        } else if k == pos {
                            assert(t1[j as int] == p);
                        } else {
                            assert(old_sorted[k - 1] == p);
                            assert(old_sorted.contains(p));
                            let m = choose|m: int| 0 <= m < t.len() && t[m] == p;
                            assert(t1[m] == p);
                        }
                    }
                    if t1.contains(p) {
                        let m = choose|m: int| 0 <= m < t1.len() && t1[m] == p;
                        if m < j {
                            assert(t[m] == p);
                            assert(t.contains(p));
                            assert(old_sorted.contains(p));
                            let k = choose|k: int| 0 <= k < old_sorted.len() && old_sorted[k] == p;
                            if k < pos {
                                assert(ns[k] == p);
                            } else {
                                assert(ns[k + 1] == p);
                            }
                        } else {
                            assert(ns[pos as int] == p);
                        }
                    }
                }
                let f = |p: (CandidateId, u32)| p.1 as int;
                assert(ns.map_values(f) =~= old_sorted.map_values(f).insert(pos as int, x.1 as int));
                lemma_sum_insert(old_sorted.map_values(f), pos as int, x.1 as int);
                assert(t1.map_values(f) =~= t.map_values(f).push(x.1 as int));
                lemma_sum_push(t.map_values(f), x.1 as int);
            }
            j += 1;
        }
        proof {
            assert(votes@.take(votes@.len() as int) =~= votes@);
        }
        Allocations { votes: sorted, exhausted }
    }

    /// Whether a winner can be declared: the leader has more votes than all
    /// other candidates together.
    pub fn is_final(&self) -> (r: bool)
        requires
            self.votes@.len() > 0,
            vote_total(self.votes@) <= u32::MAX,
        ensures
            r == (self.votes@[0].1 > vote_total(self.votes@) - self.votes@[0].1),
    {
        let total = self.continuing();
        proof {
            lemma_first_le_total(self.votes@);
        }
        let first = self.votes[0].1;
        first > total - first
    }

    /// Turns the allocation into round records: the candidates in order, then
    /// `Exhausted`.
    pub fn to_vec(self) -> (r: Vec<TabulatorAllocation>)
        ensures
            r@.len() == self.votes@.len() + 1,
            forall|i: int|
                0 <= i < self.votes@.len() ==> #[trigger] r@[i] == (TabulatorAllocation {
                    allocatee: Allocatee::Candidate(self.votes@[i].0),
                    votes: self.votes@[i].1,
                }),
            r@[self.votes@.len() as int] == (TabulatorAllocation {
                allocatee: Allocatee::Exhausted,
                votes: self.exhausted,
            }),
    {
        let mut v: Vec<TabulatorAllocation> = Vec::new();
        let mut i: usize = 0;
        while i < self.votes.len()
            invariant
                i <= self.votes@.len(),
                v@.len() == i,
                forall|k: int|
                    0 <= k < i ==> #[trigger] v@[k] == (TabulatorAllocation {
                        allocatee: Allocatee::Candidate(self.votes@[k].0),
                        votes: self.votes@[k].1,
                    }),
            decreases self.votes@.len() - i,
        {
            let (id, votes) = self.votes[i];
            v.push(TabulatorAllocation { allocatee: Allocatee::Candidate(id), votes });
            i += 1;
        }
        v.push(TabulatorAllocation { allocatee: Allocatee::Exhausted, votes: self.exhausted });
        v
    }

    /// The number of continuing ballots: the sum of the candidates' votes.
    pub fn continuing(&self) -> (r: u32)
        requires
            vote_total(self.votes@) <= u32::MAX,
        ensures
            r == vote_total(self.votes@),
    {
        let mut total: u32 = 0;
        let mut i: usize = 0;
        while i < self.votes.len()
            invariant
                i <= self.votes@.len(),
                total == vote_total(self.votes@.take(i as int)),
                vote_total(self.votes@) <= u32::MAX,
            decreases self.votes@.len() - i,
        {
            proof {
                let f = |p: (CandidateId, u32)| p.1 as int;
                assert(self.votes@.take(i + 1).map_values(f) =~= self.votes@.take(i as int).map_values(f).push(
                    self.votes@[i as int].1 as int,
                ));
                lemma_sum_push(self.votes@.take(i as int).map_values(f), self.votes@[i as int].1 as int);
                lemma_prefix_total_le(self.votes@, i + 1);
            }
            total = total + self.votes[i].1;
            i += 1;
        }
        proof {
            assert(self.votes@.take(i as int) =~= self.votes@);
        }
        total
    }
}

proof fn lemma_sum_nonneg_prefix(s: Seq<int>, n: int)
    requires
        0 <= n <= s.len(),
        forall|i: int| 0 <= i < s.len() ==> s[i] >= 0,
    ensures
        sum_ints(s.take(n)) <= sum_ints(s),
        sum_ints(s.take(n)) >= 0,
    decreases s.len(),
{
    if n == s.len() {
        assert(s.take(n) =~= s);
        lemma_sum_nonneg(s);
    } else {
        lemma_sum_nonneg_prefix(s.drop_last(), n);
        assert(s.drop_last().take(n) =~= s.take(n));
    }
}

proof fn lemma_sum_nonneg(s: Seq<int>)
    requires
        forall|i: int| 0 <= i < s.len() ==> s[i] >= 0,
    ensures
        sum_ints(s) >= 0,
    decreases s.len(),
{
    if s.len() > 0 {
        lemma_sum_nonneg(s.drop_last());
    }
}

proof fn lemma_prefix_total_le(v: Seq<(CandidateId, u32)>, n: int)
    requires
        0 <= n <= v.len(),
    ensures
        vote_total(v.take(n)) <= vote_total(v),
        vote_total(v.take(n)) >= 0,
{
    let f = |p: (CandidateId, u32)| p.1 as int;
    assert(v.take(n).map_values(f) =~= v.map_values(f).take(n));
    lemma_sum_nonneg_prefix(v.map_values(f), n);
}

proof fn lemma_first_le_total(v: Seq<(CandidateId, u32)>)
    requires
        v.len() > 0,
    ensures
        v[0].1 <= vote_total(v),
{
    let f = |p: (CandidateId, u32)| p.1 as int;
    lemma_prefix_total_le(v, 1);
    assert(v.take(1).map_values(f) =~= Seq::<int>::empty().push(v[0].1 as int));
    lemma_sum_push(Seq::<int>::empty(), v[0].1 as int);
}



/// `ch` is no vote for a candidate of `elim`.
pub open spec fn not_eliminated(ch: Choice, elim: Seq<CandidateId>) -> bool {
    match ch {
        Choice::Vote(c) => !elim.contains(c),
        _ => true,
    }
}

/// The ballots of one round, the transfers that led to it, and the
/// candidates eliminated so far.
pub struct TabulatorState {
    /// Every ballot, in input order, with the eliminated candidates that
    /// ranked above its top continuing candidate removed.
    pub ballots: Vec<NormalizedBallot>,
    /// Transfers incoming from the prior round.
    pub transfers: Vec<Transfer>,
    /// Candidates eliminated before this round.
    pub eliminated: Vec<CandidateId>,
}

/// A copy of a ballot.
fn copy_ballot(b: &NormalizedBallot) -> (r: NormalizedBallot)
    ensures
        r.id@ == b.id@,
        r.choices@ == b.choices@,
        r.overvoted == b.overvoted,
{
    NormalizedBallot::new(b.id.clone(), b.choices(), b.overvoted)
}

/// The index of the entry of `v` for candidate `c`, or `v.len()` if none.
fn find_candidate(v: &Vec<(CandidateId, u32)>, c: CandidateId) -> (k: usize)
    ensures
        k <= v@.len(),
        k < v@.len() ==> v@[k as int].0 == c,
        k == v@.len() ==> forall|m: int| 0 <= m < v@.len() ==> (#[trigger] v@[m]).0 != c,
{
    let mut k: usize = 0;
    while k < v.len() && v[k].0 != c
        invariant
            k <= v@.len(),
            forall|m: int| 0 <= m < k ==> (#[trigger] v@[m]).0 != c,
        decreases v@.len() - k,
    {
        k += 1;
    }
    k
}

impl TabulatorState {
    pub open spec fn view_ballots(&self) -> Seq<BallotView> {
        views(self.ballots@)
    }

    /// No ballot counts for an eliminated candidate, and every count fits a `u32`.
    pub open spec fn wf(&self) -> bool {
        &&& self.ballots@.len() <= u32::MAX
        &&& forall|i: int|
            0 <= i < self.ballots@.len() ==> not_eliminated(
                top_of_view(#[trigger] self.view_ballots()[i]),
                self.eliminated@,
            )
    }

    /// The first round's state: every ballot counts for its top vote.
    pub fn new(ballots: &Vec<NormalizedBallot>) -> (r: TabulatorState)
        requires
            ballots@.len() <= u32::MAX,
        ensures
            r.wf(),
            r.view_ballots() == views(ballots@),
            r.ballots@.len() == ballots@.len(),
            forall|i: int| 0 <= i < ballots@.len() ==> (#[trigger] r.ballots@[i]).id@ == ballots@[i].id@,
            r.transfers@.len() == 0,
            r.eliminated@.len() == 0,
    {
        let mut copy: Vec<NormalizedBallot> = Vec::new();
        let mut i: usize = 0;
        while i < ballots.len()
            invariant
                i <= ballots@.len(),
                copy@.len() == i,
                forall|k: int|
                    0 <= k < i ==> (#[trigger] copy@[k]).choices@ == ballots@[k].choices@
                        && copy@[k].overvoted == ballots@[k].overvoted && copy@[k].id@ == ballots@[k].id@,
            decreases ballots@.len() - i,
        {
            copy.push(copy_ballot(&ballots[i]));
            i += 1;
        }
        proof {
            assert(views(copy@) =~= views(ballots@));
        }
        TabulatorState { ballots: copy, transfers: Vec::new(), eliminated: Vec::new() }
    }

    /// Counts the ballots that each candidate tops, and the exhausted ones.
    pub fn allocations(&self) -> (r: Allocations)
        requires
            self.ballots@.len() <= u32::MAX,
        ensures
            allocation_of(self.view_ballots(), r.votes@, r.exhausted),
    {
        let ghost vs = self.view_ballots();
        let n = self.ballots.len();
        let mut counted: Vec<(CandidateId, u32)> = Vec::new();
        let mut exhausted: u32 = 0;
        let mut i: usize = 0;
        while i < n
            invariant
                n == self.ballots@.len(),
                n <= u32::MAX,
                vs == self.view_ballots(),
                i <= n,
                forall|k: int|
                    0 <= k < counted@.len() ==> (#[trigger] counted@[k]).1 == count_top(
                        vs.take(i as int),
                        Choice::Vote(counted@[k].0),
                    ) && counted@[k].1 > 0,
                distinct_ids(counted@),
                forall|c: CandidateId|
                    #[trigger] count_top(vs.take(i as int), Choice::Vote(c)) > 0 ==> lists_candidate(counted@, c),
                exhausted == count_top(vs.take(i as int), Choice::Undervote) + count_top(
                    vs.take(i as int),
                    Choice::Overvote,
                ),
                vote_total(counted@) + exhausted == i,
            decreases n - i,
        {
            let top = self.ballots[i].top_vote();
            proof {
                lemma_count_take(vs, i as int);
                assert(top_of_view(vs[i as int]) == top);
                lemma_count_le(vs.take(i as int), top);
            }
            match top {
                Choice::Vote(c) => {
                    let k = find_candidate(&counted, c);
                    let ghost old_counted = counted@;
                    if k < counted.len() {
                        let v = counted[k].1;
                        counted.set(k, (c, v + 1));
                        proof {
                            assert(counted@.map_values(|p: (CandidateId, u32)| p.1 as int) =~= old_counted.map_values(
                                |p: (CandidateId, u32)| p.1 as int,
                            ).update(k as int, (v + 1) as int));
                            lemma_sum_update(
                                old_counted.map_values(|p: (CandidateId, u32)| p.1 as int),
                                k as int,
                                (v + 1) as int,
                            );
                            assert forall|c2: CandidateId|
                                count_top(vs.take(i + 1), Choice::Vote(c2)) > 0 implies lists_candidate(
                                counted@,
                                c2,
                            ) by {
                                if count_top(vs.take(i as int), Choice::Vote(c2)) > 0 {
                                    let m = choose|m: int| 0 <= m < old_counted.len() && (#[trigger] old_counted[m]).0 == c2;
                                    assert(counted@[m].0 == c2);
                                } else {
                                    assert(counted@[k as int].0 == c2);
                                }
                            }
                        }
                    } else {
                        counted.push((c, 1));
                        proof {
                            if count_top(vs.take(i as int), Choice::Vote(c)) > 0 {
                                let m = choose|m: int| 0 <= m < old_counted.len() && (#[trigger] old_counted[m]).0 == c;
                                assert(false);
                            }
                            assert(counted@.map_values(|p: (CandidateId, u32)| p.1 as int) =~= old_counted.map_values(
                                |p: (CandidateId, u32)| p.1 as int,
                            ).push(1));
                            lemma_sum_push(old_counted.map_values(|p: (CandidateId, u32)| p.1 as int), 1);
                            assert forall|c2: CandidateId|
                                count_top(vs.take(i + 1), Choice::Vote(c2)) > 0 implies lists_candidate(
                                counted@,
                                c2,
                            ) by {
                                if count_top(vs.take(i as int), Choice::Vote(c2)) > 0 {
                                    let m = choose|m: int| 0 <= m < old_counted.len() && (#[trigger] old_counted[m]).0 == c2;
                                    assert(counted@[m].0 == c2);
                                } else {
                                    assert(counted@[k as int].0 == c2);
                                }
                            }
                        }
                    }
                },
                _ => {
                    proof {
                        lemma_prefix_total_le(counted@, counted@.len() as int);
                        assert(counted@.take(counted@.len() as int) =~= counted@);
                    }
                    exhausted = exhausted + 1;
                    proof {
                        assert forall|c2: CandidateId|
                            count_top(vs.take(i + 1), Choice::Vote(c2)) > 0 implies lists_candidate(
                            counted@,
                            c2,
                        ) by {
                            assert(count_top(vs.take(i as int), Choice::Vote(c2)) > 0);
                        }
                    }
                },
            }
            i += 1;
        }
        proof {
            assert(vs.take(n as int) =~= vs);
        }
        let ghost cv = counted@;
        let r = Allocations::new(counted, exhausted);
        proof {
            assert forall|k: int| 0 <= k < r.votes@.len() implies (#[trigger] r.votes@[k]).1 == count_top(
                vs,
                Choice::Vote(r.votes@[k].0),
            ) && r.votes@[k].1 > 0 by {
                assert(r.votes@.contains(r.votes@[k]));
                let m = choose|m: int| 0 <= m < cv.len() && cv[m] == r.votes@[k];
                assert(cv[m] == r.votes@[k]);
            }
            assert forall|c: CandidateId| count_top(vs, Choice::Vote(c)) > 0 implies lists_candidate(r.votes@, c) by {
                let m = choose|m: int| 0 <= m < cv.len() && (#[trigger] cv[m]).0 == c;
                assert(cv.contains(cv[m]));
                assert(r.votes@.contains(cv[m]));
                let k = choose|k: int| 0 <= k < r.votes@.len() && r.votes@[k] == cv[m];
                assert(r.votes@[k].0 == c);
            }
        }
        r
    }
}


/// Where the bottom-up walk over the sorted allocation `v` stops, having
/// looked at the first `k` entries and freed `freed` votes: the last entry is
/// eliminated while the votes freed with it do not exceed the votes of the
/// entry above it.
pub open spec fn batch_start(v: Seq<(CandidateId, u32)>, k: int, freed: int) -> int
    decreases k,
{
    if 2 <= k <= v.len() && freed + v[k - 1].1 <= v[k - 2].1 {
        batch_start(v, k - 1, freed + v[k - 1].1)
    } else {
        k
    }
}

/// The candidates that a round with sorted allocation `v` eliminates.
pub open spec fn elimination_batch(v: Seq<(CandidateId, u32)>) -> Seq<CandidateId> {
    v.subrange(batch_start(v, v.len() as int, 0), v.len() as int).map_values(
        |p: (CandidateId, u32)| p.0,
    )
}

/// `ch` with its leading candidates that are in `elim` removed.
pub open spec fn skip_eliminated(ch: Seq<CandidateId>, elim: Seq<CandidateId>) -> Seq<CandidateId>
    decreases ch.len(),
{
    if ch.len() > 0 && elim.contains(ch[0]) {
        skip_eliminated(ch.drop_first(), elim)
    } else {
        ch
    }
}

/// The number of ballots that topped `from` in `vs` and count for `to` in `ws`.
pub open spec fn moved(vs: Seq<BallotView>, ws: Seq<BallotView>, from: CandidateId, to: Allocatee) -> nat
    decreases vs.len(),
{
    if vs.len() == 0 || ws.len() != vs.len() {
        0
    } else {
        moved(vs.drop_last(), ws.drop_last(), from, to) + if top_of_view(vs.last()) == Choice::Vote(from)
            && allocatee_of(top_of_view(ws.last())) == to {
            1nat
        } else {
            0nat
        }
    }
}

/// The sum of the counts of the transfers in `ts` that leave `e`.
pub open spec fn from_total(ts: Seq<Transfer>, e: CandidateId) -> int {
    sum_ints(ts.map_values(|t: Transfer| if t.from == e { t.count as int } else { 0 }))
}

/// The sum of the counts of the transfers in `ts` into `d`.
pub open spec fn to_total(ts: Seq<Transfer>, d: Allocatee) -> int {
    sum_ints(ts.map_values(|t: Transfer| if t.to == d { t.count as int } else { 0 }))
}

/// The number of ballots of `vs` that count for no candidate.
pub open spec fn exhausted_count(vs: Seq<BallotView>) -> int {
    (count_top(vs, Choice::Undervote) + count_top(vs, Choice::Overvote)) as int
}

proof fn lemma_exhausted_push(a: Seq<BallotView>, x: BallotView)
    ensures
        exhausted_count(a.push(x)) == exhausted_count(a) + if allocatee_of(top_of_view(x)) == Allocatee::Exhausted {
            1int
        } else {
            0int
        },
{
    assert(a.push(x).drop_last() =~= a);
}

/// Sort key of a transfer: into candidates with more votes in `ws` first,
/// then by destination id and by source id; transfers to `Exhausted` last.
pub open spec fn transfer_rank(t: Transfer, ws: Seq<BallotView>) -> int {
    match t.to {
        Allocatee::Candidate(c) => (u32::MAX - count_top(ws, Choice::Vote(c))) * 0x1_0000_0000_0000_0000
            + c.0 * 0x1_0000_0000 + t.from.0,
        Allocatee::Exhausted => 0x1_0000_0000_0000_0000_0000_0000 + t.from.0,
    }
}

/// `ts` records, for the batch `batch`, how the ballots moved from `vs` to `ws`.
pub open spec fn transfers_of(
    vs: Seq<BallotView>,
    ws: Seq<BallotView>,
    batch: Seq<CandidateId>,
    ts: Seq<Transfer>,
) -> bool {
    &&& forall|i: int|
        0 <= i < ts.len() ==> batch.contains((#[trigger] ts[i]).from) && ts[i].count == moved(
            vs,
            ws,
            ts[i].from,
            ts[i].to,
        ) && ts[i].count > 0
    &&& forall|i: int, j: int|
        0 <= i < j < ts.len() ==> ((#[trigger] ts[i]).from != (#[trigger] ts[j]).from || ts[i].to != ts[j].to)
    &&& forall|e: CandidateId, d: Allocatee|
        batch.contains(e) && #[trigger] moved(vs, ws, e, d) > 0 ==> exists|i: int|
            0 <= i < ts.len() && (#[trigger] ts[i]).from == e && ts[i].to == d
    &&& forall|e: CandidateId| #[trigger] batch.contains(e) ==> from_total(ts, e) == count_top(vs, Choice::Vote(e))
    &&& forall|i: int, j: int|
        0 <= i < j < ts.len() ==> transfer_rank(#[trigger] ts[i], ws) <= transfer_rank(#[trigger] ts[j], ws)
}

/// One elimination step from the ballots `vs` with allocation `votes`.
pub open spec fn eliminates(
    vs: Seq<BallotView>,
    elim: Seq<CandidateId>,
    votes: Seq<(CandidateId, u32)>,
    ws: Seq<BallotView>,
    elim2: Seq<CandidateId>,
    ts: Seq<Transfer>,
) -> bool {
    &&& elim2 == elim + elimination_batch(votes)
    &&& ws.len() == vs.len()
    &&& forall|i: int| 0 <= i < vs.len() ==> #[trigger] ws[i] == (skip_eliminated(vs[i].0, elim2), vs[i].1)
    &&& transfers_of(vs, ws, elimination_batch(votes), ts)
    &&& exhausted_count(ws) == exhausted_count(vs) + to_total(ts, Allocatee::Exhausted)
}

proof fn lemma_sorted_unique(a: Seq<(CandidateId, u32)>, b: Seq<(CandidateId, u32)>)
    requires
        sorted_votes(a),
        sorted_votes(b),
        forall|p: (CandidateId, u32)| a.contains(p) <==> b.contains(p),
    ensures
        a == b,
    decreases a.len(),
{
    if a.len() == 0 {
        if b.len() > 0 {
            assert(b.contains(b[0]));
        }
        assert(a =~= b);
    } else {
        assert(a.contains(a[0]));
        let j = choose|j: int| 0 <= j < b.len() && b[j] == a[0];
        assert(b.contains(b[0]));
        let i = choose|i: int| 0 <= i < a.len() && a[i] == b[0];
        if j > 0 {
            assert(ranks_before(b[0], b[j]));
            if i > 0 {
                assert(ranks_before(a[0], a[i]));
            }
            assert(false);
        }
        assert forall|p: (CandidateId, u32)| a.drop_first().contains(p) <==> b.drop_first().contains(p) by {
            if a.drop_first().contains(p) {
                let k = choose|k: int| 0 <= k < a.drop_first().len() && a.drop_first()[k] == p;
                assert(a[k + 1] == p);
                assert(a.contains(p));
                let m = choose|m: int| 0 <= m < b.len() && b[m] == p;
                assert(ranks_before(a[0], a[k + 1]));
                assert(m != 0);
                assert(b.drop_first()[m - 1] == p);
            }
            if b.drop_first().contains(p) {
                let k = choose|k: int| 0 <= k < b.drop_first().len() && b.drop_first()[k] == p;
                assert(b[k + 1] == p);
                assert(b.contains(p));
                let m = choose|m: int| 0 <= m < a.len() && a[m] == p;
                assert(ranks_before(b[0], b[k + 1]));
                assert(m != 0);
                assert(a.drop_first()[m - 1] == p);
            }
        }
        lemma_sorted_unique(a.drop_first(), b.drop_first());
        assert(a.len() == b.len());
        assert forall|k: int| 0 <= k < a.len() implies a[k] == b[k] by {
            if k > 0 {
                assert(a[k] == a.drop_first()[k - 1]);
                assert(b[k] == b.drop_first()[k - 1]);
            }
        }
        assert(a =~= b);
    }
}

/// A set of ballots has one allocation.
pub proof fn lemma_allocation_unique(
    vs: Seq<BallotView>,
    v1: Seq<(CandidateId, u32)>,
    e1: u32,
    v2: Seq<(CandidateId, u32)>,
    e2: u32,
)
    requires
        allocation_of(vs, v1, e1),
        allocation_of(vs, v2, e2),
    ensures
        v1 == v2,
        e1 == e2,
{
    assert forall|p: (CandidateId, u32)| v1.contains(p) <==> v2.contains(p) by {
        if v1.contains(p) {
            let i = choose|i: int| 0 <= i < v1.len() && v1[i] == p;
            assert(count_top(vs, Choice::Vote(p.0)) > 0);
            let j = choose|j: int| 0 <= j < v2.len() && (#[trigger] v2[j]).0 == p.0;
            assert(v2[j] == p);
        }
        if v2.contains(p) {
            let i = choose|i: int| 0 <= i < v2.len() && v2[i] == p;
            assert(count_top(vs, Choice::Vote(p.0)) > 0);
            let j = choose|j: int| 0 <= j < v1.len() && (#[trigger] v1[j]).0 == p.0;
            assert(v1[j] == p);
        }
    }
    lemma_sorted_unique(v1, v2);
}

proof fn lemma_skip_head(ch: Seq<CandidateId>, elim: Seq<CandidateId>)
    ensures
        skip_eliminated(ch, elim).len() > 0 ==> !elim.contains(skip_eliminated(ch, elim)[0]),
        skip_eliminated(ch, elim).len() <= ch.len(),
        ch.len() > 0 && elim.contains(ch[0]) ==> skip_eliminated(ch, elim).len() < ch.len(),
    decreases ch.len(),
{
    if ch.len() > 0 && elim.contains(ch[0]) {
        lemma_skip_head(ch.drop_first(), elim);
    }
}

/// `b` with its leading eliminated candidates removed.
fn skip_ballot(b: &NormalizedBallot, elim: &Vec<CandidateId>) -> (r: NormalizedBallot)
    ensures
        r.id@ == b.id@,
        r.choices@ == skip_eliminated(b.choices@, elim@),
        r.overvoted == b.overvoted,
{
    let n = b.choices.len();
    let mut k: usize = 0;
    assert(b.choices@.skip(0) =~= b.choices@);
    while k < n && contains_candidate(elim, b.choices[k])
        invariant
            n == b.choices@.len(),
            k <= n,
            skip_eliminated(b.choices@, elim@) == skip_eliminated(b.choices@.skip(k as int), elim@),
        decreases n - k,
    {
        assert(b.choices@.skip(k as int).drop_first() =~= b.choices@.skip(k + 1));
        k += 1;
    }
    let mut rest: Vec<CandidateId> = Vec::new();
    let mut m: usize = k;
    while m < n
        invariant
            n == b.choices@.len(),
            k <= m <= n,
            rest@ == b.choices@.subrange(k as int, m as int),
        decreases n - m,
    {
        rest.push(b.choices[m]);
        m += 1;
        assert(rest@ =~= b.choices@.subrange(k as int, m as int));
    }
    assert(rest@ =~= b.choices@.skip(k as int));
    NormalizedBallot::new(b.id.clone(), rest, b.overvoted)
}


proof fn lemma_moved_push(a: Seq<BallotView>, b: Seq<BallotView>, x: BallotView, y: BallotView)
    requires
        a.len() == b.len(),
    ensures
        forall|e: CandidateId, d: Allocatee|
            #[trigger] moved(a.push(x), b.push(y), e, d) == moved(a, b, e, d) + if top_of_view(x) == Choice::Vote(e)
                && allocatee_of(top_of_view(y)) == d {
                1nat
            } else {
                0nat
            },
{
    assert(a.push(x).drop_last() =~= a);
    assert(b.push(y).drop_last() =~= b);
}

proof fn lemma_moved_pos_exists(vs: Seq<BallotView>, ws: Seq<BallotView>, e: CandidateId, d: Allocatee)
    requires
        moved(vs, ws, e, d) > 0,
    ensures
        exists|i: int|
            0 <= i < vs.len() && top_of_view(vs[i]) == Choice::Vote(e) && allocatee_of(top_of_view(#[trigger] ws[i])) == d,
    decreases vs.len(),
{
    if !(top_of_view(vs.last()) == Choice::Vote(e) && allocatee_of(top_of_view(ws.last())) == d) {
        lemma_moved_pos_exists(vs.drop_last(), ws.drop_last(), e, d);
        let i = choose|i: int|
            0 <= i < vs.drop_last().len() && top_of_view(vs.drop_last()[i]) == Choice::Vote(e) && allocatee_of(
                top_of_view(#[trigger] ws.drop_last()[i]),
            ) == d;
        assert(vs[i] == vs.drop_last()[i] && ws[i] == ws.drop_last()[i]);
    } else {
        assert(ws[ws.len() - 1] == ws.last());
    }
}

proof fn lemma_moved_le(a: Seq<BallotView>, b: Seq<BallotView>, e: CandidateId, d: Allocatee)
    ensures
        moved(a, b, e, d) <= a.len(),
    decreases a.len(),
{
    if a.len() > 0 && a.len() == b.len() {
        lemma_moved_le(a.drop_last(), b.drop_last(), e, d);
    }
}

proof fn lemma_concat_contains(a: Seq<CandidateId>, b: Seq<CandidateId>, c: CandidateId)
    ensures
        (a + b).contains(c) <==> (a.contains(c) || b.contains(c)),
{
    if (a + b).contains(c) {
        let k = choose|k: int| 0 <= k < (a + b).len() && (a + b)[k] == c;
        if k < a.len() {
            assert(a[k] == c);
        } else {
            assert(b[k - a.len()] == c);
        }
    }
    if a.contains(c) {
        let k = choose|k: int| 0 <= k < a.len() && a[k] == c;
        assert((a + b)[k] == c);
    }
    if b.contains(c) {
        let k = choose|k: int| 0 <= k < b.len() && b[k] == c;
        assert((a + b)[k + a.len()] == c);
    }
}

/// Where the bottom-up elimination walk over `v` stops.
fn find_batch_start(v: &Vec<(CandidateId, u32)>) -> (k: usize)
    ensures
        k == batch_start(v@, v@.len() as int, 0),
        k <= v@.len(),
{
    let mut k: usize = v.len();
    let mut freed: u64 = 0;
    while k >= 2 && freed + v[k - 1].1 as u64 <= v[k - 2].1 as u64
        invariant
            k <= v@.len(),
            freed <= u32::MAX,
            batch_start(v@, k as int, freed as int) == batch_start(v@, v@.len() as int, 0),
        decreases k,
    {
        freed = freed + v[k - 1].1 as u64;
        k -= 1;
    }
    k
}

/// The sort key of `t` (see `transfer_rank`), reading vote counts off `alloc`.
fn transfer_key(t: &Transfer, alloc: &Allocations, Ghost(ws): Ghost<Seq<BallotView>>) -> (k: u128)
    requires
        allocation_of(ws, alloc.votes@, alloc.exhausted),
        ws.len() <= u32::MAX,
    ensures
        k == transfer_rank(*t, ws),
{
    match t.to {
        Allocatee::Candidate(c) => {
            let m = find_candidate(&alloc.votes, c);
            let dv: u32 = if m < alloc.votes.len() {
                alloc.votes[m].1
            } else {
                0
            };
            proof {
                lemma_count_le(ws, Choice::Vote(c));
                if m == alloc.votes@.len() && count_top(ws, Choice::Vote(c)) > 0 {
                    let i = choose|i: int| 0 <= i < alloc.votes@.len() && (#[trigger] alloc.votes@[i]).0 == c;
                    assert(false);
                }
            }
            ((0xFFFF_FFFFu32 - dv) as u128) * 0x1_0000_0000_0000_0000u128 + (c.0 as u128)
                * 0x1_0000_0000u128 + t.from.0 as u128
        },
        Allocatee::Exhausted => 0x1_0000_0000_0000_0000_0000_0000u128 + t.from.0 as u128,
    }
}

pub open spec fn distinct_pairs(ts: Seq<Transfer>) -> bool {
    forall|i: int, j: int|
        0 <= i < j < ts.len() ==> ((#[trigger] ts[i]).from != (#[trigger] ts[j]).from || ts[i].to != ts[j].to)
}

/// Orders transfers by `transfer_rank`, keeping their order where ranks tie.
fn sort_transfers(ts: Vec<Transfer>, alloc: &Allocations, Ghost(ws): Ghost<Seq<BallotView>>) -> (r: Vec<
    Transfer,
>)
    requires
        allocation_of(ws, alloc.votes@, alloc.exhausted),
        ws.len() <= u32::MAX,
        distinct_pairs(ts@),
    ensures
        r@.len() == ts@.len(),
        distinct_pairs(r@),
        forall|p: Transfer| #![trigger r@.contains(p)] #![trigger ts@.contains(p)] r@.contains(p) <==> ts@.contains(p),
        forall|e: CandidateId| #[trigger] from_total(r@, e) == from_total(ts@, e),
        forall|d: Allocatee| #[trigger] to_total(r@, d) == to_total(ts@, d),
        forall|i: int, j: int|
            0 <= i < j < r@.len() ==> transfer_rank(#[trigger] r@[i], ws) <= transfer_rank(#[trigger] r@[j], ws),
{
    let mut sorted: Vec<Transfer> = Vec::new();
    let mut j: usize = 0;
    while j < ts.len()
        invariant
            j <= ts@.len(),
            allocation_of(ws, alloc.votes@, alloc.exhausted),
            ws.len() <= u32::MAX,
            distinct_pairs(ts@),
            distinct_pairs(sorted@),
            sorted@.len() == j,
            forall|p: Transfer| sorted@.contains(p) <==> ts@.take(j as int).contains(p),
            forall|e: CandidateId| #[trigger] from_total(sorted@, e) == from_total(ts@.take(j as int), e),
            forall|d: Allocatee| #[trigger] to_total(sorted@, d) == to_total(ts@.take(j as int), d),
            forall|a: int, b: int|
                0 <= a < b < sorted@.len() ==> transfer_rank(#[trigger] sorted@[a], ws) <= transfer_rank(
                    #[trigger] sorted@[b],
                    ws,
                ),
        decreases ts@.len() - j,
    {
        let x = ts[j];
        let kx = transfer_key(&x, alloc, Ghost(ws));
        let mut pos: usize = 0;
        while pos < sorted.len() && transfer_key(&sorted[pos], alloc, Ghost(ws)) <= kx
            invariant
                pos <= sorted@.len(),
                allocation_of(ws, alloc.votes@, alloc.exhausted),
                ws.len() <= u32::MAX,
                kx == transfer_rank(x, ws),
                forall|k: int| 0 <= k < pos ==> transfer_rank(#[trigger] sorted@[k], ws) <= kx,
            decreases sorted@.len() - pos,
        {
            pos += 1;
        }
        let ghost old_sorted = sorted@;
        proof {
            assert forall|k: int| 0 <= k < old_sorted.len() implies ((#[trigger] old_sorted[k]).from != x.from
                || old_sorted[k].to != x.to) by {
                assert(old_sorted.contains(old_sorted[k]));
                assert(ts@.take(j as int).contains(old_sorted[k]));
                let m = choose|m: int| 0 <= m < j && #[trigger] ts@.take(j as int)[m] == old_sorted[k];
                assert(ts@[m] == old_sorted[k]);
                assert(ts@[j as int] == x);
            }
        }
        sorted.insert(pos, x);
        proof {
            old_sorted.insert_ensures(pos as int, x);
            let ns = sorted@;
            assert(ns == old_sorted.insert(pos as int, x));
            assert forall|a: int, b: int| 0 <= a < b < ns.len() implies transfer_rank(#[trigger] ns[a], ws)
                <= transfer_rank(#[trigger] ns[b], ws) by {
                if b < pos {
                    assert(ns[a] == old_sorted[a] && ns[b] == old_sorted[b]);
                } else if b == pos {
                    assert(ns[a] == old_sorted[a]);
                } else if a < pos {
                    assert(ns[a] == old_sorted[a] && ns[b] == old_sorted[b - 1]);
                } else if a == pos {
                    assert(ns[b] == old_sorted[b - 1]);
                    assert(transfer_rank(old_sorted[pos as int], ws) > kx);
                    if b - 1 > pos {
                        assert(transfer_rank(old_sorted[pos as int], ws) <= transfer_rank(old_sorted[b - 1], ws));
                    }
                } else {
                    assert(ns[a] == old_sorted[a - 1] && ns[b] == old_sorted[b - 1]);
                }
            }
            assert forall|a: int, b: int| 0 <= a < b < ns.len() implies ((#[trigger] ns[a]).from != (
            #[trigger] ns[b]).from || ns[a].to != ns[b].to) by {
                if b < pos {
                    assert(ns[a] == old_sorted[a] && ns[b] == old_sorted[b]);
                } else if b == pos {
                    assert(ns[a] == old_sorted[a]);
                } else if a < pos {
                    assert(ns[a] == old_sorted[a] && ns[b] == old_sorted[b - 1]);
                } else if a == pos {
                    assert(ns[b] == old_sorted[b - 1]);
                } else {
                    assert(ns[a] == old_sorted[a - 1] && ns[b] == old_sorted[b - 1]);
                }
            }
            let t = ts@.take(j as int);
            let t1 = ts@.take(j + 1);
            assert(t1 =~= t.push(x));
            assert forall|p: Transfer| ns.contains(p) <==> t1.contains(p) by {
                if ns.contains(p) {
                    let k = choose|k: int| 0 <= k < ns.len() && ns[k] == p;
                    if k < pos {
                        assert(old_sorted[k] == p);
                        assert(old_sorted.contains(p));
                        let m = choose|m: int| 0 <= m < t.len() && t[m] == p;
                        assert(t1[m] == p);
                    } else if k == pos {
                        assert(t1[j as int] == p);
                    } else {
                        assert(old_sorted[k - 1] == p);
                        assert(old_sorted.contains(p));
                        let m = choose|m: int| 0 <= m < t.len() && t[m] == p;
                        assert(t1[m] == p);
                    }
                }
                if t1.contains(p) {
                    let m = choose|m: int| 0 <= m < t1.len() && t1[m] == p;
                    if m < j {
                        assert(t[m] == p);
                        assert(t.contains(p));
                        assert(old_sorted.contains(p));
                        let k = choose|k: int| 0 <= k < old_sorted.len() && old_sorted[k] == p;
                        if k < pos {
                            assert(ns[k] == p);
                        } else {
                            assert(ns[k + 1] == p);
                        }
                    } else {
                        assert(ns[pos as int] == p);
                    }
                }
            }
            assert forall|e: CandidateId| #[trigger] from_total(ns, e) == from_total(t1, e) by {
                let f = |t: Transfer| if t.from == e { t.count as int } else { 0 };
                assert(ns.map_values(f) =~= old_sorted.map_values(f).insert(pos as int, f(x)));
                lemma_sum_insert(old_sorted.map_values(f), pos as int, f(x));
                assert(t1.map_values(f) =~= t.map_values(f).push(f(x)));
                lemma_sum_push(t.map_values(f), f(x));
                assert(from_total(old_sorted, e) == from_total(t, e));
            }
            assert forall|d: Allocatee| #[trigger] to_total(ns, d) == to_total(t1, d) by {
                let f = |t: Transfer| if t.to == d { t.count as int } else { 0 };
                assert(ns.map_values(f) =~= old_sorted.map_values(f).insert(pos as int, f(x)));
                lemma_sum_insert(old_sorted.map_values(f), pos as int, f(x));
                assert(t1.map_values(f) =~= t.map_values(f).push(f(x)));
                lemma_sum_push(t.map_values(f), f(x));
                assert(to_total(old_sorted, d) == to_total(t, d));
            }
        }
        j += 1;
    }
    proof {
        assert(ts@.take(ts@.len() as int) =~= ts@);
    }
    sorted
}


impl TabulatorState {
    /// Eliminates the round's batch of trailing candidates and moves each of
    /// their ballots to its next continuing candidate, or to the exhausted
    /// pool; records the transfers for the next round.
    pub fn do_elimination(self) -> (r: TabulatorState)
        requires
            self.wf(),
        ensures
            r.wf(),
            r.ballots@.len() == self.ballots@.len(),
            forall|i: int| 0 <= i < self.ballots@.len() ==> (#[trigger] r.ballots@[i]).id@ == self.ballots@[i].id@,
            forall|votes: Seq<(CandidateId, u32)>, ex: u32|
                #[trigger] allocation_of(self.view_ballots(), votes, ex) ==> eliminates(
                    self.view_ballots(),
                    self.eliminated@,
                    votes,
                    r.view_ballots(),
                    r.eliminated@,
                    r.transfers@,
                ),
    {
        let ghost vs = self.view_ballots();
        let alloc = self.allocations();
        let start = find_batch_start(&alloc.votes);
        let mut batch: Vec<CandidateId> = Vec::new();
        let mut k: usize = start;
        while k < alloc.votes.len()
            invariant
                start <= k <= alloc.votes@.len(),
                batch@ == alloc.votes@.subrange(start as int, k as int).map_values(|p: (CandidateId, u32)| p.0),
            decreases alloc.votes@.len() - k,
        {
            batch.push(alloc.votes[k].0);
            k += 1;
            assert(batch@ =~= alloc.votes@.subrange(start as int, k as int).map_values(
                |p: (CandidateId, u32)| p.0,
            ));
        }
        let ghost bt = batch@;
        assert(bt == elimination_batch(alloc.votes@));
        let mut elim: Vec<CandidateId> = self.eliminated.clone();
        assert(elim@ =~= self.eliminated@);
        let mut b: usize = 0;
        while b < batch.len()
            invariant
                b <= bt.len(),
                batch@ == bt,
                elim@ == self.eliminated@ + bt.take(b as int),
            decreases bt.len() - b,
        {
            elim.push(batch[b]);
            b += 1;
            assert(elim@ =~= self.eliminated@ + bt.take(b as int));
        }
        assert(bt.take(bt.len() as int) =~= bt);
        let ghost ne = elim@;
        let n = self.ballots.len();
        let mut nb: Vec<NormalizedBallot> = Vec::new();
        let mut ts: Vec<Transfer> = Vec::new();
        let mut i: usize = 0;
        while i < n
            invariant
                n == self.ballots@.len(),
                n <= u32::MAX,
                self.wf(),
                vs == self.view_ballots(),
                batch@ == bt,
                elim@ == ne,
                ne == self.eliminated@ + bt,
                i <= n,
                nb@.len() == i,
                forall|k: int|
                    0 <= k < i ==> (#[trigger] nb@[k]).choices@ == skip_eliminated(vs[k].0, ne)
                        && nb@[k].overvoted == vs[k].1 && nb@[k].id@ == self.ballots@[k].id@,
                forall|m: int|
                    0 <= m < ts@.len() ==> bt.contains((#[trigger] ts@[m]).from) && ts@[m].count == moved(
                        vs.take(i as int),
                        views(nb@),
                        ts@[m].from,
                        ts@[m].to,
                    ) && ts@[m].count > 0,
                distinct_pairs(ts@),
                forall|e: CandidateId, d: Allocatee|
                    bt.contains(e) && #[trigger] moved(vs.take(i as int), views(nb@), e, d) > 0 ==> exists|m: int|
                        0 <= m < ts@.len() && (#[trigger] ts@[m]).from == e && ts@[m].to == d,
                forall|e: CandidateId|
                    #[trigger] from_total(ts@, e) == if bt.contains(e) {
                        count_top(vs.take(i as int), Choice::Vote(e)) as int
                    } else {
                        0
                    },
            to_total(ts@, Allocatee::Exhausted) + exhausted_count(vs.take(i as int)) == exhausted_count(views(nb@)),
            decreases n - i,
        {
            let top = self.ballots[i].top_vote();
            let moving = match top {
                Choice::Vote(e) => contains_candidate(&batch, e),
                _ => false,
            };
            let ghost old_nb = nb@;
            let ghost old_ts = ts@;
            proof {
                lemma_count_take(vs, i as int);
                assert(vs.take(i + 1) =~= vs.take(i as int).push(vs[i as int]));
                assert(top_of_view(vs[i as int]) == top);
            }
            if moving {
                let e = match top {
                    Choice::Vote(e) => e,
                    _ => CandidateId(0),
                };
                let x = skip_ballot(&self.ballots[i], &elim);
                let dest = Allocatee::from_choice(x.top_vote());
                let ghost xv = (x.choices@, x.overvoted);
                nb.push(x);
                proof {
                    assert(views(nb@) =~= views(old_nb).push(xv));
                    lemma_moved_push(vs.take(i as int), views(old_nb), vs[i as int], xv);
                    lemma_moved_le(vs.take(i as int), views(old_nb), e, dest);
                }
                let mut m: usize = 0;
                while m < ts.len() && !(ts[m].from == e && ts[m].to == dest)
                    invariant
                        m <= ts@.len(),
                        forall|q: int| 0 <= q < m ==> !((#[trigger] ts@[q]).from == e && ts@[q].to == dest),
                    decreases ts@.len() - m,
                {
                    m += 1;
                }
                if m < ts.len() {
                    let c = ts[m].count;
                    ts.set(m, Transfer { from: e, to: dest, count: c + 1 });
                    proof {
                        assert forall|q: int, w: int| 0 <= q < w < ts@.len() implies ((#[trigger] ts@[q]).from
                            != (#[trigger] ts@[w]).from || ts@[q].to != ts@[w].to) by {
                            assert(old_ts[q].from != old_ts[w].from || old_ts[q].to != old_ts[w].to);
                        }
                        assert forall|e2: CandidateId| #[trigger] from_total(ts@, e2) == if bt.contains(e2) {
                            count_top(vs.take(i + 1), Choice::Vote(e2)) as int
                        } else {
                            0
                        } by {
                            let f = |t: Transfer| if t.from == e2 { t.count as int } else { 0 };
                            assert(ts@.map_values(f) =~= old_ts.map_values(f).update(m as int, f(ts@[m as int])));
                            lemma_sum_update(old_ts.map_values(f), m as int, f(ts@[m as int]));
                            assert(from_total(old_ts, e2) == if bt.contains(e2) {
                                count_top(vs.take(i as int), Choice::Vote(e2)) as int
                            } else {
                                0
                            });
                        }
                        assert forall|e2: CandidateId, d: Allocatee|
                            bt.contains(e2) && #[trigger] moved(vs.take(i + 1), views(nb@), e2, d) > 0 implies exists|
                            q: int,
                        | 0 <= q < ts@.len() && (#[trigger] ts@[q]).from == e2 && ts@[q].to == d by {
                            if moved(vs.take(i as int), views(old_nb), e2, d) > 0 {
                                let q = choose|q: int| 0 <= q < old_ts.len() && (#[trigger] old_ts[q]).from == e2 && old_ts[q].to == d;
                                assert(ts@[q].from == e2 && ts@[q].to == d);
                            } else {
                                assert(ts@[m as int].from == e2 && ts@[m as int].to == d);
                            }
                        }
                        let g = |t: Transfer| if t.to == Allocatee::Exhausted { t.count as int } else { 0 };
                        assert(ts@.map_values(g) =~= old_ts.map_values(g).update(m as int, g(ts@[m as int])));
                        lemma_sum_update(old_ts.map_values(g), m as int, g(ts@[m as int]));
                        lemma_exhausted_push(views(old_nb), xv);
                        lemma_exhausted_push(vs.take(i as int), vs[i as int]);
                        assert(views(nb@) == views(old_nb).push(xv));
                    }
                } else {
                    ts.push(Transfer { from: e, to: dest, count: 1 });
                    proof {
                        if moved(vs.take(i as int), views(old_nb), e, dest) > 0 {
                            let q = choose|q: int| 0 <= q < old_ts.len() && (#[trigger] old_ts[q]).from == e && old_ts[q].to == dest;
                            assert(false);
                        }
                        assert forall|q: int, w: int| 0 <= q < w < ts@.len() implies ((#[trigger] ts@[q]).from
                            != (#[trigger] ts@[w]).from || ts@[q].to != ts@[w].to) by {
                            if w < old_ts.len() {
                                assert(old_ts[q].from != old_ts[w].from || old_ts[q].to != old_ts[w].to);
                            } else {
                                assert(!(old_ts[q].from == e && old_ts[q].to == dest));
                            }
                        }
                        assert forall|e2: CandidateId| #[trigger] from_total(ts@, e2) == if bt.contains(e2) {
                            count_top(vs.take(i + 1), Choice::Vote(e2)) as int
                        } else {
                            0
                        } by {
                            let f = |t: Transfer| if t.from == e2 { t.count as int } else { 0 };
                            assert(ts@.map_values(f) =~= old_ts.map_values(f).push(f(ts@[m as int])));
                            lemma_sum_push(old_ts.map_values(f), f(ts@[m as int]));
                            assert(from_total(old_ts, e2) == if bt.contains(e2) {
                                count_top(vs.take(i as int), Choice::Vote(e2)) as int
                            } else {
                                0
                            });
                        }
                        assert forall|e2: CandidateId, d: Allocatee|
                            bt.contains(e2) && #[trigger] moved(vs.take(i + 1), views(nb@), e2, d) > 0 implies exists|
                            q: int,
                        | 0 <= q < ts@.len() && (#[trigger] ts@[q]).from == e2 && ts@[q].to == d by {
                            if moved(vs.take(i as int), views(old_nb), e2, d) > 0 {
                                let q = choose|q: int| 0 <= q < old_ts.len() && (#[trigger] old_ts[q]).from == e2 && old_ts[q].to == d;
                                assert(ts@[q].from == e2 && ts@[q].to == d);
                            } else {
                                assert(ts@[m as int].from == e2 && ts@[m as int].to == d);
                            }
                        }
                        let g = |t: Transfer| if t.to == Allocatee::Exhausted { t.count as int } else { 0 };
                        assert(ts@.map_values(g) =~= old_ts.map_values(g).push(g(ts@[m as int])));
                        lemma_sum_push(old_ts.map_values(g), g(ts@[m as int]));
                        lemma_exhausted_push(views(old_nb), xv);
                        lemma_exhausted_push(vs.take(i as int), vs[i as int]);
                        assert(views(nb@) == views(old_nb).push(xv));
                    }
                }
            } else {
                let x = copy_ballot(&self.ballots[i]);
                let ghost xv = (x.choices@, x.overvoted);
                nb.push(x);
                proof {
                    assert(views(nb@) =~= views(old_nb).push(xv));
                    lemma_moved_push(vs.take(i as int), views(old_nb), vs[i as int], xv);
                    assert(not_eliminated(top_of_view(vs[i as int]), self.eliminated@));
                    if let Choice::Vote(c) = top {
                        lemma_concat_contains(self.eliminated@, bt, c);
                        assert(xv.0[0] == c);
                    }
                    assert(skip_eliminated(vs[i as int].0, ne) == vs[i as int].0);
                    assert forall|e2: CandidateId| #[trigger] from_total(ts@, e2) == if bt.contains(e2) {
                        count_top(vs.take(i + 1), Choice::Vote(e2)) as int
                    } else {
                        0
                    } by {
                        assert(from_total(old_ts, e2) == if bt.contains(e2) {
                            count_top(vs.take(i as int), Choice::Vote(e2)) as int
                        } else {
                            0
                        });
                    }
                    assert forall|e2: CandidateId, d: Allocatee|
                        bt.contains(e2) && #[trigger] moved(vs.take(i + 1), views(nb@), e2, d) > 0 implies exists|
                        q: int,
                    | 0 <= q < ts@.len() && (#[trigger] ts@[q]).from == e2 && ts@[q].to == d by {
                        assert(moved(vs.take(i as int), views(old_nb), e2, d) > 0);
                    }
                    lemma_exhausted_push(views(old_nb), xv);
                    lemma_exhausted_push(vs.take(i as int), vs[i as int]);
                    assert(xv == vs[i as int]);
                }
            }
            i += 1;
        }
        proof {
            assert(vs.take(n as int) =~= vs);
        }
        let ghost ws = views(nb@);
        let st = TabulatorState { ballots: nb, transfers: Vec::new(), eliminated: elim };
        proof {
            assert(st.view_ballots() == ws);
            assert forall|k: int| 0 <= k < st.ballots@.len() implies not_eliminated(
                top_of_view(#[trigger] st.view_ballots()[k]),
                st.eliminated@,
            ) by {
                lemma_skip_head(vs[k].0, ne);
            }
        }
        let new_alloc = st.allocations();
        let ghost tsv = ts@;
        let sorted = sort_transfers(ts, &new_alloc, Ghost(ws));
        proof {
            assert(transfers_of(vs, ws, bt, sorted@)) by {
                assert forall|q: int| 0 <= q < sorted@.len() implies bt.contains((#[trigger] sorted@[q]).from)
                    && sorted@[q].count == moved(vs, ws, sorted@[q].from, sorted@[q].to) && sorted@[q].count
                    > 0 by {
                    assert(sorted@.contains(sorted@[q]));
                    assert(tsv.contains(sorted@[q]));
                    let m = choose|m: int| 0 <= m < tsv.len() && tsv[m] == sorted@[q];
                    assert(tsv[m] == sorted@[q]);
                }
                assert forall|e: CandidateId, d: Allocatee|
                    bt.contains(e) && #[trigger] moved(vs, ws, e, d) > 0 implies exists|q: int|
                        0 <= q < sorted@.len() && (#[trigger] sorted@[q]).from == e && sorted@[q].to == d by {
                    let m = choose|m: int| 0 <= m < tsv.len() && (#[trigger] tsv[m]).from == e && tsv[m].to == d;
                    assert(tsv.contains(tsv[m]));
                    assert(sorted@.contains(tsv[m]));
                    let q = choose|q: int| 0 <= q < sorted@.len() && sorted@[q] == tsv[m];
                    assert(sorted@[q].from == e);
                }
                assert(to_total(sorted@, Allocatee::Exhausted) == to_total(tsv, Allocatee::Exhausted));
                assert forall|e: CandidateId| #[trigger] bt.contains(e) implies from_total(sorted@, e)
                    == count_top(vs, Choice::Vote(e)) by {
                    assert(from_total(tsv, e) == count_top(vs, Choice::Vote(e)));
                }
            }
        }
        let r = TabulatorState { ballots: st.ballots, transfers: sorted, eliminated: st.eliminated };
        proof {
            assert forall|votes: Seq<(CandidateId, u32)>, ex: u32|
                #[trigger] allocation_of(vs, votes, ex) implies eliminates(
                vs,
                self.eliminated@,
                votes,
                r.view_ballots(),
                r.eliminated@,
                r.transfers@,
            ) by {
                lemma_allocation_unique(vs, votes, ex, alloc.votes@, alloc.exhausted);
                assert forall|q: int| 0 <= q < vs.len() implies #[trigger] ws[q] == (
                    skip_eliminated(vs[q].0, ne),
                    vs[q].1,
                ) by {}
            }
        }
        r
    }
}


/// The candidates' entries of a round record, as (id, votes) pairs.
pub open spec fn round_votes(r: TabulatorRound) -> Seq<(CandidateId, u32)> {
    r.allocations@.take(r.allocations@.len() - 1).map_values(
        |a: TabulatorAllocation| (a.allocatee->Candidate_0, a.votes),
    )
}

/// The sum of the votes of every entry of a round record, `Exhausted` included.
pub open spec fn allocation_total(r: TabulatorRound) -> int {
    sum_ints(r.allocations@.map_values(|a: TabulatorAllocation| a.votes as int))
}

/// The round's leader has more votes than all other candidates together.
pub open spec fn is_final_round(r: TabulatorRound) -> bool {
    round_votes(r).len() > 0 && round_votes(r)[0].1 > vote_total(round_votes(r)) - round_votes(r)[0].1
}

/// `r` records the round whose ballots are `vs`.
pub open spec fn round_of(vs: Seq<BallotView>, r: TabulatorRound) -> bool {
    &&& r.allocations@.len() >= 1
    &&& r.allocations@.last().allocatee == Allocatee::Exhausted
    &&& forall|i: int| 0 <= i < r.allocations@.len() - 1 ==> (#[trigger] r.allocations@[i]).allocatee is Candidate
    &&& allocation_of(vs, round_votes(r), r.allocations@.last().votes)
    &&& r.undervote == count_top(vs, Choice::Undervote)
    &&& r.overvote == count_top(vs, Choice::Overvote)
    &&& r.continuing_ballots == vote_total(round_votes(r))
    &&& allocation_total(r) == vs.len()
}

impl TabulatorState {
    /// The number of ballots whose top vote is `ch`.
    fn count_choice(&self, ch: Choice) -> (r: u32)
        requires
            self.ballots@.len() <= u32::MAX,
        ensures
            r == count_top(self.view_ballots(), ch),
    {
        let ghost vs = self.view_ballots();
        let mut n: u32 = 0;
        let mut i: usize = 0;
        while i < self.ballots.len()
            invariant
                i <= self.ballots@.len(),
                self.ballots@.len() <= u32::MAX,
                vs == self.view_ballots(),
                n == count_top(vs.take(i as int), ch),
            decreases self.ballots@.len() - i,
        {
            proof {
                lemma_count_take(vs, i as int);
                lemma_count_le(vs.take(i as int), ch);
            }
            if self.ballots[i].top_vote() == ch {
                n = n + 1;
            }
            i += 1;
        }
        proof {
            assert(vs.take(i as int) =~= vs);
        }
        n
    }

    /// The round record of this state.
    pub fn as_round(&self) -> (r: TabulatorRound)
        requires
            self.wf(),
        ensures
            round_of(self.view_ballots(), r),
            r.transfers@ == self.transfers@,
    {
        let allocations = self.allocations();
        let undervote = self.count_choice(Choice::Undervote);
        let overvote = self.count_choice(Choice::Overvote);
        proof {
            lemma_prefix_total_le(allocations.votes@, allocations.votes@.len() as int);
            assert(allocations.votes@.take(allocations.votes@.len() as int) =~= allocations.votes@);
        }
        let continuing_ballots = allocations.continuing();
        let ghost av = allocations.votes@;
        let ghost ex = allocations.exhausted;
        let list = allocations.to_vec();
        let transfers = self.transfers.clone();
        let r = TabulatorRound { allocations: list, undervote, overvote, continuing_ballots, transfers };
        proof {
            assert(transfers@ =~= self.transfers@);
            assert(round_votes(r) =~= av);
            let f = |a: TabulatorAllocation| a.votes as int;
            let g = |p: (CandidateId, u32)| p.1 as int;
            assert(list@.map_values(f) =~= av.map_values(g).push(ex as int));
            lemma_sum_push(av.map_values(g), ex as int);
        }
        r
    }
}


/// Why a contest could not be tabulated.
#[derive(Clone, Copy, Debug, PartialEq, Eq, Structural)]
pub enum TabulateError {
    /// No ballot ranks any candidate, so the contest has no candidate.
    NoCandidates,
}

/// The total number of remaining preferences over all ballots.
pub open spec fn total_len(vs: Seq<BallotView>) -> nat
    decreases vs.len(),
{
    if vs.len() == 0 {
        0
    } else {
        total_len(vs.drop_last()) + vs.last().0.len()
    }
}

proof fn lemma_count_pos_exists(vs: Seq<BallotView>, ch: Choice)
    requires
        count_top(vs, ch) > 0,
    ensures
        exists|i: int| 0 <= i < vs.len() && top_of_view(#[trigger] vs[i]) == ch,
    decreases vs.len(),
{
    if top_of_view(vs.last()) != ch {
        lemma_count_pos_exists(vs.drop_last(), ch);
        let i = choose|i: int| 0 <= i < vs.drop_last().len() && top_of_view(#[trigger] vs.drop_last()[i]) == ch;
        assert(vs[i] == vs.drop_last()[i]);
    } else {
        assert(top_of_view(vs[vs.len() - 1]) == ch);
    }
}

proof fn lemma_count_pos_of(vs: Seq<BallotView>, i: int, ch: Choice)
    requires
        0 <= i < vs.len(),
        top_of_view(vs[i]) == ch,
    ensures
        count_top(vs, ch) > 0,
    decreases vs.len(),
{
    if i < vs.len() - 1 {
        assert(vs.drop_last()[i] == vs[i]);
        lemma_count_pos_of(vs.drop_last(), i, ch);
    }
}

proof fn lemma_total_len_shrinks(vs: Seq<BallotView>, ws: Seq<BallotView>, j: int)
    requires
        vs.len() == ws.len(),
        forall|i: int| 0 <= i < vs.len() ==> (#[trigger] ws[i]).0.len() <= vs[i].0.len(),
        0 <= j < vs.len(),
        ws[j].0.len() < vs[j].0.len(),
    ensures
        total_len(ws) < total_len(vs),
    decreases vs.len(),
{
    if j < vs.len() - 1 {
        assert forall|i: int| 0 <= i < vs.drop_last().len() implies (#[trigger] ws.drop_last()[i]).0.len()
            <= vs.drop_last()[i].0.len() by {
            assert(ws.drop_last()[i] == ws[i]);
        }
        lemma_total_len_shrinks(vs.drop_last(), ws.drop_last(), j);
    } else {
        lemma_total_len_le(vs.drop_last(), ws.drop_last());
    }
}

proof fn lemma_total_len_le(vs: Seq<BallotView>, ws: Seq<BallotView>)
    requires
        vs.len() == ws.len(),
        forall|i: int| 0 <= i < vs.len() ==> (#[trigger] ws[i]).0.len() <= vs[i].0.len(),
    ensures
        total_len(ws) <= total_len(vs),
    decreases vs.len(),
{
    if vs.len() > 0 {
        assert forall|i: int| 0 <= i < vs.drop_last().len() implies (#[trigger] ws.drop_last()[i]).0.len()
            <= vs.drop_last()[i].0.len() by {
            assert(ws.drop_last()[i] == ws[i]);
        }
        lemma_total_len_le(vs.drop_last(), ws.drop_last());
    }
}

proof fn lemma_batch_start_bounds(v: Seq<(CandidateId, u32)>, k: int, freed: int)
    requires
        1 <= k <= v.len(),
    ensures
        1 <= batch_start(v, k, freed) <= k,
    decreases k,
{
    if 2 <= k && freed + v[k - 1].1 <= v[k - 2].1 {
        lemma_batch_start_bounds(v, k - 1, freed + v[k - 1].1);
    }
}

/// What one elimination step keeps and removes, read off the round records:
/// candidates above the batch stay listed, the batch is no longer listed,
/// and the transfers out of each batch member add up to its votes.
proof fn lemma_step_facts(
    vs: Seq<BallotView>,
    elim: Seq<CandidateId>,
    r0: TabulatorRound,
    ws: Seq<BallotView>,
    elim2: Seq<CandidateId>,
    r1: TabulatorRound,
)
    requires
        round_of(vs, r0),
        round_of(ws, r1),
        forall|i: int| 0 <= i < vs.len() ==> not_eliminated(top_of_view(#[trigger] vs[i]), elim),
        forall|i: int| 0 <= i < ws.len() ==> not_eliminated(top_of_view(#[trigger] ws[i]), elim2),
        eliminates(vs, elim, round_votes(r0), ws, elim2, r1.transfers@),
        round_votes(r0).len() > 0,
        !is_final_round(r0),
    ensures
        step_between(r0, r1),
{
    let v0 = round_votes(r0);
    let v1 = round_votes(r1);
    let bt = elimination_batch(v0);
    let start = batch_start(v0, v0.len() as int, 0);
    if v0.len() > 0 {
        lemma_batch_start_bounds(v0, v0.len() as int, 0);
    } else {
        assert(start == 0);
    }
    assert forall|j: int| 0 <= j < start implies lists_candidate(v1, (#[trigger] v0[j]).0) by {
        let c = v0[j].0;
        lemma_count_pos_exists(vs, Choice::Vote(c));
        let i = choose|i: int| 0 <= i < vs.len() && top_of_view(#[trigger] vs[i]) == Choice::Vote(c);
        assert(!elim.contains(c));
        assert(!bt.contains(c)) by {
            if bt.contains(c) {
                let q = choose|q: int| 0 <= q < bt.len() && bt[q] == c;
                assert(v0[start + q].0 == c);
            }
        }
        lemma_concat_contains(elim, bt, c);
        assert(vs[i].0[0] == c);
        assert(ws[i] == (skip_eliminated(vs[i].0, elim2), vs[i].1));
        assert(skip_eliminated(vs[i].0, elim2) == vs[i].0);
        lemma_count_pos_of(ws, i, Choice::Vote(c));
    }
    assert forall|j: int| start <= j < v0.len() implies !lists_candidate(v1, (#[trigger] v0[j]).0) by {
        let c = v0[j].0;
        assert(bt[j - start] == c);
        assert(bt.contains(c));
        lemma_concat_contains(elim, bt, c);
        if count_top(ws, Choice::Vote(c)) > 0 {
            lemma_count_pos_exists(ws, Choice::Vote(c));
            let i = choose|i: int| 0 <= i < ws.len() && top_of_view(#[trigger] ws[i]) == Choice::Vote(c);
            assert(not_eliminated(top_of_view(ws[i]), elim2));
        }
        if lists_candidate(v1, c) {
            let q = choose|q: int| 0 <= q < v1.len() && (#[trigger] v1[q]).0 == c;
        }
    }
    assert forall|j: int| start <= j < v0.len() implies from_total(r1.transfers@, (#[trigger] v0[j]).0)
        == v0[j].1 by {
        assert(bt[j - start] == v0[j].0);
        assert(bt.contains(v0[j].0));
    }
    let ts = r1.transfers@;
    assert forall|q: int| 0 <= q < ts.len() implies {
        &&& lists_candidate(v0, (#[trigger] ts[q]).from)
        &&& !lists_candidate(v1, ts[q].from)
        &&& ts[q].to != Allocatee::Candidate(ts[q].from)
        &&& ts[q].count > 0
    } by {
        let t = ts[q];
        assert(bt.contains(t.from));
        let m = choose|m: int| 0 <= m < bt.len() && bt[m] == t.from;
        assert(v0[start + m].0 == t.from);
        assert(!lists_candidate(v1, v0[start + m].0));
        lemma_moved_pos_exists(vs, ws, t.from, t.to);
        let i = choose|i: int|
            0 <= i < vs.len() && top_of_view(vs[i]) == Choice::Vote(t.from) && allocatee_of(
                top_of_view(#[trigger] ws[i]),
            ) == t.to;
        lemma_concat_contains(elim, bt, t.from);
        assert(not_eliminated(top_of_view(ws[i]), elim2));
    }
    // A round that is not final has at least two candidates, so its batch
    // holds the last one, whose ballots all leave it.
    assert(v0.len() >= 2) by {
        if v0.len() == 1 {
            let mm = v0.map_values(|p: (CandidateId, u32)| p.1 as int);
            assert(mm.drop_last() =~= Seq::<int>::empty());
            assert(sum_ints(Seq::<int>::empty()) == 0);
            assert(mm.last() == v0[0].1 as int);
        }
    }
    assert(ranks_before(v0[v0.len() - 2], v0[v0.len() - 1]));
    assert(start == batch_start(v0, v0.len() - 1, v0[v0.len() - 1].1 as int));
    lemma_batch_start_bounds(v0, v0.len() - 1, v0[v0.len() - 1].1 as int);
    let e = v0[v0.len() - 1].0;
    assert(bt[v0.len() - 1 - start] == e);
    assert(from_total(ts, e) == v0[v0.len() - 1].1);
    if ts.len() == 0 {
        assert(ts.map_values(|t: Transfer| if t.from == e { t.count as int } else { 0 }) =~= Seq::<int>::empty());
    }
}

/// How round `r1` follows from round `r0`: the candidates of `r0` below the
/// elimination point are no longer listed, those above it still are, the
/// transfers leave only eliminated candidates, and the transfers out of each
/// eliminated candidate add up to its votes in `r0`.
pub open spec fn step_between(r0: TabulatorRound, r1: TabulatorRound) -> bool {
    let v0 = round_votes(r0);
    let start = batch_start(v0, v0.len() as int, 0);
    &&& forall|j: int| 0 <= j < start ==> lists_candidate(round_votes(r1), (#[trigger] v0[j]).0)
    &&& forall|j: int| start <= j < v0.len() ==> !lists_candidate(round_votes(r1), (#[trigger] v0[j]).0)
    &&& forall|j: int| start <= j < v0.len() ==> from_total(r1.transfers@, (#[trigger] v0[j]).0) == v0[j].1
    &&& forall|q: int|
        0 <= q < r1.transfers@.len() ==> elimination_batch(v0).contains((#[trigger] r1.transfers@[q]).from)
    &&& forall|q: int|
        0 <= q < r1.transfers@.len() ==> {
            &&& lists_candidate(v0, (#[trigger] r1.transfers@[q]).from)
            &&& !lists_candidate(round_votes(r1), r1.transfers@[q].from)
            &&& r1.transfers@[q].to != Allocatee::Candidate(r1.transfers@[q].from)
            &&& r1.transfers@[q].count > 0
        }
    &&& distinct_pairs(r1.transfers@)
    &&& r1.transfers@.len() > 0
}

/// An elimination step from a round that is not final strictly shortens
/// the ballots and keeps the leader's ballots.
proof fn lemma_elimination_progress(
    vs: Seq<BallotView>,
    v: Seq<(CandidateId, u32)>,
    ex: u32,
    old_elim: Seq<CandidateId>,
    ws: Seq<BallotView>,
    new_elim: Seq<CandidateId>,
    ts: Seq<Transfer>,
)
    requires
        allocation_of(vs, v, ex),
        v.len() > 0,
        !(v[0].1 > vote_total(v) - v[0].1),
        forall|i: int| 0 <= i < vs.len() ==> not_eliminated(top_of_view(#[trigger] vs[i]), old_elim),
        eliminates(vs, old_elim, v, ws, new_elim, ts),
    ensures
        total_len(ws) < total_len(vs),
        count_top(ws, Choice::Vote(v[0].0)) > 0,
{
    assert(v.len() >= 2) by {
        if v.len() == 1 {
            let m = v.map_values(|p: (CandidateId, u32)| p.1 as int);
            assert(m.drop_last() =~= Seq::<int>::empty());
            assert(sum_ints(Seq::<int>::empty()) == 0);
            assert(m.last() == v[0].1 as int);
            assert(vote_total(v) == v[0].1);
        }
    }
    lemma_batch_start_bounds(v, v.len() as int, 0);
    assert(ranks_before(v[v.len() - 2], v[v.len() - 1]));
    let start = batch_start(v, v.len() as int, 0);
    assert(start == batch_start(v, v.len() - 1, v[v.len() - 1].1 as int));
    lemma_batch_start_bounds(v, v.len() - 1, v[v.len() - 1].1 as int);
    assert(start <= v.len() - 1);
    let e = v[v.len() - 1].0;
    let bt = elimination_batch(v);
    assert(bt[v.len() - 1 - start] == e);
    assert(bt.contains(e));
    lemma_concat_contains(old_elim, bt, e);
    lemma_count_pos_exists(vs, Choice::Vote(e));
    let j = choose|j: int| 0 <= j < vs.len() && top_of_view(#[trigger] vs[j]) == Choice::Vote(e);
    assert(vs[j].0[0] == e);
    lemma_skip_head(vs[j].0, new_elim);
    assert forall|i: int| 0 <= i < vs.len() implies (#[trigger] ws[i]).0.len() <= vs[i].0.len() by {
        lemma_skip_head(vs[i].0, new_elim);
    }
    lemma_total_len_shrinks(vs, ws, j);
    let c = v[0].0;
    lemma_count_pos_exists(vs, Choice::Vote(c));
    let i = choose|i: int| 0 <= i < vs.len() && top_of_view(#[trigger] vs[i]) == Choice::Vote(c);
    assert(not_eliminated(top_of_view(vs[i]), old_elim));
    assert(!bt.contains(c)) by {
        if bt.contains(c) {
            let q = choose|q: int| 0 <= q < bt.len() && bt[q] == c;
            assert(v[start + q].0 == c);
        }
    }
    lemma_concat_contains(old_elim, bt, c);
    assert(vs[i].0[0] == c);
    assert(skip_eliminated(vs[i].0, new_elim) == vs[i].0);
    lemma_count_pos_of(ws, i, Choice::Vote(c));
}

/// `rounds` records the states `hist` (with eliminated sets `elims`) of a
/// tabulation of the ballots `b`: the first state is `b` with nothing
/// eliminated, each later state follows from the one before by one
/// elimination step, and only the last round is final.
pub open spec fn tabulation_steps(
    b: Seq<BallotView>,
    rounds: Seq<TabulatorRound>,
    hist: Seq<Seq<BallotView>>,
    elims: Seq<Seq<CandidateId>>,
) -> bool {
    &&& rounds.len() >= 1
    &&& hist.len() == rounds.len()
    &&& elims.len() == rounds.len()
    &&& hist[0] == b
    &&& elims[0].len() == 0
    &&& rounds[0].transfers@.len() == 0
    &&& forall|k: int| 0 <= k < rounds.len() ==> round_of(#[trigger] hist[k], rounds[k])
    &&& forall|k: int, i: int|
        0 <= k < rounds.len() && 0 <= i < hist[k].len() ==> not_eliminated(top_of_view(#[trigger] hist[k][i]), elims[k])
    &&& forall|k: int|
        1 <= k < rounds.len() ==> eliminates(
            hist[k - 1],
            elims[k - 1],
            round_votes(rounds[k - 1]),
            #[trigger] hist[k],
            elims[k],
            rounds[k].transfers@,
        )
    &&& forall|k: int| 0 <= k < rounds.len() ==> (is_final_round(#[trigger] rounds[k]) <==> k == rounds.len() - 1)
}

/// `rounds` is a tabulation of the ballots `b`.
pub open spec fn is_tabulation(b: Seq<BallotView>, rounds: Seq<TabulatorRound>) -> bool {
    exists|hist: Seq<Seq<BallotView>>, elims: Seq<Seq<CandidateId>>| tabulation_steps(b, rounds, hist, elims)
}

proof fn lemma_never_relisted(hist: Seq<Seq<BallotView>>, elims: Seq<Seq<CandidateId>>, rounds: Seq<TabulatorRound>)
    requires
        hist.len() == rounds.len(),
        elims.len() == rounds.len(),
        forall|k: int| 0 <= k < rounds.len() ==> round_of(#[trigger] hist[k], rounds[k]),
        forall|m: int, i: int|
            0 <= m < rounds.len() && 0 <= i < hist[m].len() ==> not_eliminated(top_of_view(#[trigger] hist[m][i]), elims[m]),
        forall|k: int, m: int, c: CandidateId|
            0 <= k < m < rounds.len() && #[trigger] elimination_batch(round_votes(rounds[k])).contains(c)
                ==> #[trigger] elims[m].contains(c),
    ensures
        forall|k: int, m: int, c: CandidateId|
            0 <= k < m < rounds.len() && #[trigger] elimination_batch(round_votes(rounds[k])).contains(c)
                ==> !lists_candidate(round_votes(#[trigger] rounds[m]), c),
{
    assert forall|k: int, m: int, c: CandidateId|
        0 <= k < m < rounds.len() && #[trigger] elimination_batch(round_votes(rounds[k])).contains(c)
            implies !lists_candidate(round_votes(#[trigger] rounds[m]), c) by {
        assert(elims[m].contains(c));
        assert(round_of(hist[m], rounds[m]));
        if lists_candidate(round_votes(rounds[m]), c) {
            let q = choose|q: int| 0 <= q < round_votes(rounds[m]).len() && (#[trigger] round_votes(rounds[m])[q]).0 == c;
            assert(count_top(hist[m], Choice::Vote(c)) > 0);
            lemma_count_pos_exists(hist[m], Choice::Vote(c));
            let i = choose|i: int| 0 <= i < hist[m].len() && top_of_view(#[trigger] hist[m][i]) == Choice::Vote(c);
            assert(not_eliminated(top_of_view(hist[m][i]), elims[m]));
        }
    }
}

/// Some transfer of the rounds `1..=k` leaves `c`.
pub open spec fn left_by(rounds: Seq<TabulatorRound>, k: int, c: CandidateId) -> bool {
    exists|j: int, q: int|
        1 <= j <= k && 0 <= q < rounds[j].transfers@.len() && (#[trigger] rounds[j].transfers@[q]).from == c
}

proof fn lemma_sum_zero(s: Seq<int>)
    requires
        forall|i: int| 0 <= i < s.len() ==> s[i] == 0,
    ensures
        sum_ints(s) == 0,
    decreases s.len(),
{
    if s.len() > 0 {
        lemma_sum_zero(s.drop_last());
    }
}

proof fn lemma_listed_until_left(rounds: Seq<TabulatorRound>, k: int, c: CandidateId)
    requires
        0 <= k < rounds.len(),
        lists_candidate(round_votes(rounds[0]), c),
        forall|m: int| 0 <= m < rounds.len() ==> distinct_ids(round_votes(#[trigger] rounds[m])),
        forall|m: int, j: int|
            0 <= m < rounds.len() && 0 <= j < round_votes(rounds[m]).len() ==> (#[trigger] round_votes(rounds[m])[j]).1 > 0,
        forall|m: int| 1 <= m < rounds.len() ==> step_between(rounds[m - 1], #[trigger] rounds[m]),
        forall|a: int, m: int, x: CandidateId|
            0 <= a < m < rounds.len() && #[trigger] elimination_batch(round_votes(rounds[a])).contains(x)
                ==> !lists_candidate(round_votes(#[trigger] rounds[m]), x),
    ensures
        lists_candidate(round_votes(rounds[k]), c) <==> !left_by(rounds, k, c),
    decreases k,
{
    if k > 0 {
        lemma_listed_until_left(rounds, k - 1, c);
        let v0 = round_votes(rounds[k - 1]);
        let start = batch_start(v0, v0.len() as int, 0);
        let ts = rounds[k].transfers@;
        assert(step_between(rounds[k - 1], rounds[k]));
        if lists_candidate(v0, c) {
            let j = choose|j: int| 0 <= j < v0.len() && (#[trigger] v0[j]).0 == c;
            if j < start {
                assert(lists_candidate(round_votes(rounds[k]), v0[j].0));
                assert(!left_by(rounds, k, c)) by {
                    if left_by(rounds, k, c) {
                        let (a, q) = choose|a: int, q: int|
                            1 <= a <= k && 0 <= q < rounds[a].transfers@.len() && (#[trigger] rounds[a].transfers@[q]).from
                                == c;
                        if a < k {
                            assert(left_by(rounds, k - 1, c));
                        } else {
                            let bt = elimination_batch(v0);
                            assert(bt.contains(ts[q].from));
                            let m = choose|m: int| 0 <= m < bt.len() && bt[m] == c;
                            assert(v0[start + m].0 == c);
                            assert(distinct_ids(v0));
                            if j < start + m {
                                assert(v0[j].0 != v0[start + m].0);
                            }
                        }
                    }
                }
            } else {
                assert(!lists_candidate(round_votes(rounds[k]), v0[j].0));
                assert(from_total(ts, c) == v0[j].1);
                assert(v0[j].1 > 0);
                let f = |t: Transfer| if t.from == c { t.count as int } else { 0 };
                if forall|q: int| 0 <= q < ts.len() ==> (#[trigger] ts[q]).from != c {
                    assert forall|i: int| 0 <= i < ts.map_values(f).len() implies ts.map_values(f)[i] == 0 by {
                        assert(ts[i].from != c);
                    }
                    lemma_sum_zero(ts.map_values(f));
                }
                let q = choose|q: int| 0 <= q < ts.len() && (#[trigger] ts[q]).from == c;
                assert(rounds[k].transfers@[q].from == c);
                assert(left_by(rounds, k, c));
            }
        } else {
            assert(left_by(rounds, k - 1, c));
            let (a, q) = choose|a: int, q: int|
                1 <= a <= k - 1 && 0 <= q < rounds[a].transfers@.len() && (#[trigger] rounds[a].transfers@[q]).from == c;
            assert(step_between(rounds[a - 1], rounds[a]));
            assert(elimination_batch(round_votes(rounds[a - 1])).contains(rounds[a].transfers@[q].from));
            assert(!lists_candidate(round_votes(rounds[k]), c));
            assert(left_by(rounds, k, c));
        }
    } else {
        assert(!left_by(rounds, 0, c));
    }
}

/// The ballots that the transfers of rounds `1..=k` sent to `Exhausted`.
pub open spec fn exhausted_transfers(rounds: Seq<TabulatorRound>, k: int) -> int
    decreases k,
{
    if k <= 0 {
        0
    } else {
        exhausted_transfers(rounds, k - 1) + to_total(rounds[k].transfers@, Allocatee::Exhausted)
    }
}

proof fn lemma_exhausted_accumulates(
    b: Seq<BallotView>,
    rounds: Seq<TabulatorRound>,
    hist: Seq<Seq<BallotView>>,
    elims: Seq<Seq<CandidateId>>,
    k: int,
)
    requires
        tabulation_steps(b, rounds, hist, elims),
        0 <= k < rounds.len(),
    ensures
        exhausted_count(hist[k]) == exhausted_count(hist[0]) + exhausted_transfers(rounds, k),
    decreases k,
{
    if k > 0 {
        lemma_exhausted_accumulates(b, rounds, hist, elims, k - 1);
        assert(eliminates(hist[k - 1], elims[k - 1], round_votes(rounds[k - 1]), hist[k], elims[k], rounds[k].transfers@));
    }
}

/// Tabulates a contest: rounds of allocation, each followed by a batched
/// elimination, until a leader has more votes than all others together.
#[verifier::rlimit(50)]
pub fn tabulate(ballots: &Vec<NormalizedBallot>) -> (r: Result<Vec<TabulatorRound>, TabulateError>)
    requires
        ballots@.len() <= u32::MAX,
    ensures
        r is Err <==> forall|i: int| 0 <= i < ballots@.len() ==> (#[trigger] ballots@[i]).choices@.len() == 0,
        r matches Ok(rounds) ==> {
            &&& rounds@.len() >= 1
            &&& rounds@[0].transfers@.len() == 0
            &&& round_of(views(ballots@), rounds@[0])
            &&& forall|k: int|
                0 <= k < rounds@.len() ==> {
                    &&& sorted_votes(round_votes(#[trigger] rounds@[k]))
                    &&& distinct_ids(round_votes(rounds@[k]))
                    &&& round_votes(rounds@[k]).len() > 0
                    &&& allocation_total(rounds@[k]) == ballots@.len()
                    &&& rounds@[k].continuing_ballots == vote_total(round_votes(rounds@[k]))
                    &&& rounds@[k].allocations@.last().votes == rounds@[k].undervote + rounds@[k].overvote
                    &&& rounds@[k].allocations@.last().allocatee == Allocatee::Exhausted
                    &&& (is_final_round(rounds@[k]) <==> k == rounds@.len() - 1)
                    &&& forall|i: int|
                        0 <= i < rounds@[k].allocations@.len() - 1 ==> (#[trigger] rounds@[k].allocations@[i]).allocatee is Candidate
                    &&& rounds@[k].allocations@[0].allocatee is Candidate
                    &&& (k == rounds@.len() - 1 <==> rounds@[k].allocations@[0].votes > rounds@[k].continuing_ballots
                        - rounds@[k].allocations@[0].votes)
                }
            &&& forall|k: int| 1 <= k < rounds@.len() ==> step_between(rounds@[k - 1], #[trigger] rounds@[k])
            &&& rounds@.len() <= total_len(views(ballots@)) + 1
            &&& forall|k: int, m: int, c: CandidateId|
                0 <= k < m < rounds@.len() && #[trigger] elimination_batch(round_votes(rounds@[k])).contains(c)
                    ==> !lists_candidate(round_votes(#[trigger] rounds@[m]), c)
            &&& is_tabulation(views(ballots@), rounds@)
            &&& forall|k: int|
                0 <= k < rounds@.len() ==> (#[trigger] rounds@[k]).continuing_ballots + rounds@[0].undervote
                    + rounds@[0].overvote + exhausted_transfers(rounds@, k) == ballots@.len()
            &&& forall|k: int, c: CandidateId|
                0 <= k < rounds@.len() && lists_candidate(round_votes(rounds@[0]), c) ==> (lists_candidate(
                    round_votes(rounds@[k]),
                    c,
                ) <==> !#[trigger] left_by(rounds@, k, c))
        },
{
    let mut state = TabulatorState::new(ballots);
    let first = state.allocations();
    if first.votes.len() == 0 {
        proof {
            assert forall|i: int| 0 <= i < ballots@.len() implies (#[trigger] ballots@[i]).choices@.len() == 0 by {
                if ballots@[i].choices@.len() > 0 {
                    let c = ballots@[i].choices@[0];
                    assert(state.view_ballots()[i] == (ballots@[i].choices@, ballots@[i].overvoted));
                    lemma_count_pos_of(state.view_ballots(), i, Choice::Vote(c));
                }
            }
        }
        return Err(TabulateError::NoCandidates);
    }
    let ghost b0 = views(ballots@);
    let mut rounds: Vec<TabulatorRound> = Vec::new();
    let ghost mut hist: Seq<Seq<BallotView>> = Seq::empty();
    let ghost mut elims: Seq<Seq<CandidateId>> = Seq::empty();
    let ghost witness: int;
    proof {
        let c = first.votes@[0].0;
        lemma_count_pos_exists(b0, Choice::Vote(c));
        witness = choose|i: int| 0 <= i < b0.len() && top_of_view(#[trigger] b0[i]) == Choice::Vote(c);
    }
    let mut allocations = first;
    loop
        invariant
            state.wf(),
            state.view_ballots().len() == ballots@.len(),
            b0 == views(ballots@),
            allocation_of(state.view_ballots(), allocations.votes@, allocations.exhausted),
            allocations.votes@.len() > 0,
            hist.len() == rounds@.len(),
            elims.len() == rounds@.len(),
            rounds@.len() == 0 ==> state.view_ballots() == b0 && state.transfers@.len() == 0,
            rounds@.len() > 0 ==> round_of(b0, rounds@[0]) && rounds@[0].transfers@.len() == 0,
            rounds@.len() > 0 ==> eliminates(
                hist.last(),
                elims.last(),
                round_votes(rounds@.last()),
                state.view_ballots(),
                state.eliminated@,
                state.transfers@,
            ),
            rounds@.len() > 0 ==> forall|i: int| 0 <= i < hist.last().len() ==> not_eliminated(
                top_of_view(#[trigger] hist.last()[i]),
                elims.last(),
            ),
            forall|k: int| 0 <= k < rounds@.len() ==> round_of(#[trigger] hist[k], rounds@[k]),
            forall|k: int| 0 <= k < rounds@.len() ==> hist[k].len() == ballots@.len(),
            forall|m: int, i: int|
                0 <= m < rounds@.len() && 0 <= i < hist[m].len() ==> not_eliminated(
                    top_of_view(#[trigger] hist[m][i]),
                    elims[m],
                ),
            rounds@.len() == 0 ==> state.eliminated@.len() == 0,
            rounds@.len() > 0 ==> hist[0] == b0 && elims[0].len() == 0,
            forall|k: int|
                1 <= k < rounds@.len() ==> eliminates(
                    hist[k - 1],
                    elims[k - 1],
                    round_votes(rounds@[k - 1]),
                    #[trigger] hist[k],
                    elims[k],
                    rounds@[k].transfers@,
                ),
            forall|k: int, c: CandidateId|
                0 <= k < rounds@.len() && #[trigger] elimination_batch(round_votes(rounds@[k])).contains(c)
                    ==> state.eliminated@.contains(c),
            forall|k: int, m: int, c: CandidateId|
                0 <= k < m < rounds@.len() && #[trigger] elimination_batch(round_votes(rounds@[k])).contains(c)
                    ==> #[trigger] elims[m].contains(c),
            forall|k: int| 0 <= k < rounds@.len() ==> !is_final_round(#[trigger] rounds@[k]),
            forall|k: int| 0 <= k < rounds@.len() ==> round_votes(#[trigger] rounds@[k]).len() > 0,
            0 <= witness < ballots@.len(),
            rounds@.len() + total_len(state.view_ballots()) <= total_len(b0),
            ballots@[witness].choices@.len() > 0,
            forall|k: int| 1 <= k < rounds@.len() ==> step_between(rounds@[k - 1], #[trigger] rounds@[k]),
        decreases total_len(state.view_ballots()),
    {
        let round = state.as_round();
        let ghost vs = state.view_ballots();
        proof {
            lemma_allocation_unique(vs, round_votes(round), round.allocations@.last().votes, allocations.votes@, allocations.exhausted);
            if rounds@.len() > 0 {
                lemma_step_facts(hist.last(), elims.last(), rounds@.last(), vs, state.eliminated@, round);
            }
            lemma_prefix_total_le(allocations.votes@, allocations.votes@.len() as int);
            assert(allocations.votes@.take(allocations.votes@.len() as int) =~= allocations.votes@);
        }
        let fin = allocations.is_final();
        let ghost old_rounds = rounds@;
        rounds.push(round);
        proof {
            assert forall|k: int| 0 <= k < rounds@.len() implies round_votes(#[trigger] rounds@[k]).len() > 0 by {
                if k < old_rounds.len() {
                    assert(rounds@[k] == old_rounds[k]);
                }
            }
            let old_hist = hist;
            let old_elims = elims;
            hist = hist.push(vs);
            elims = elims.push(state.eliminated@);
            assert forall|k: int|
                1 <= k < rounds@.len() implies eliminates(
                    hist[k - 1],
                    elims[k - 1],
                    round_votes(rounds@[k - 1]),
                    #[trigger] hist[k],
                    elims[k],
                    rounds@[k].transfers@,
                ) by {
                assert(rounds@[k - 1] == if k - 1 < old_rounds.len() { old_rounds[k - 1] } else { round });
                if k < old_rounds.len() {
                    assert(rounds@[k] == old_rounds[k]);
                }
            }
            if old_rounds.len() == 0 {
                assert(hist[0] == vs);
                assert(elims[0] == state.eliminated@);
            } else {
                assert(hist[0] == old_hist[0]);
                assert(elims[0] == old_elims[0]);
            }
            assert forall|m: int, i: int|
                0 <= m < rounds@.len() && 0 <= i < hist[m].len() implies not_eliminated(
                    top_of_view(#[trigger] hist[m][i]),
                    elims[m],
                ) by {
                if m == rounds@.len() - 1 {
                    assert(hist[m] == state.view_ballots());
                }
            }
            assert forall|k: int, m: int, c: CandidateId|
                0 <= k < m < rounds@.len() && #[trigger] elimination_batch(round_votes(rounds@[k])).contains(c)
                    implies #[trigger] elims[m].contains(c) by {
                assert(rounds@[k] == old_rounds[k]);
                if m < rounds@.len() - 1 {
                    assert(rounds@[m] == old_rounds[m]);
                }
            }
            assert forall|k: int| 0 <= k < rounds@.len() implies round_of(#[trigger] hist[k], rounds@[k]) by {
                if k < old_rounds.len() {
                    assert(rounds@[k] == old_rounds[k]);
                }
            }
            assert forall|k: int| 1 <= k < rounds@.len() implies step_between(rounds@[k - 1], #[trigger] rounds@[k]) by {
                if k < old_rounds.len() {
                    assert(rounds@[k] == old_rounds[k]);
                    assert(rounds@[k - 1] == old_rounds[k - 1]);
                }
            }
            if old_rounds.len() > 0 {
                assert(rounds@[0] == old_rounds[0]);
            } else {
                assert(rounds@[0] == round);
                assert(vs == b0);
            }
            assert(round_of(b0, rounds@[0]));
            assert(rounds@[0].transfers@.len() == 0);
        }
        if fin {
            proof {
                assert forall|k: int| 0 <= k < rounds@.len() implies {
                    &&& sorted_votes(round_votes(#[trigger] rounds@[k]))
                    &&& distinct_ids(round_votes(rounds@[k]))
                    &&& round_votes(rounds@[k]).len() > 0
                    &&& allocation_total(rounds@[k]) == ballots@.len()
                    &&& rounds@[k].continuing_ballots == vote_total(round_votes(rounds@[k]))
                    &&& rounds@[k].allocations@.last().votes == rounds@[k].undervote + rounds@[k].overvote
                    &&& rounds@[k].allocations@.last().allocatee == Allocatee::Exhausted
                    &&& (is_final_round(rounds@[k]) <==> k == rounds@.len() - 1)
                    &&& forall|i: int|
                        0 <= i < rounds@[k].allocations@.len() - 1 ==> (#[trigger] rounds@[k].allocations@[i]).allocatee is Candidate
                    &&& rounds@[k].allocations@[0].allocatee is Candidate
                    &&& (k == rounds@.len() - 1 <==> rounds@[k].allocations@[0].votes > rounds@[k].continuing_ballots
                        - rounds@[k].allocations@[0].votes)
                } by {
                    assert(round_of(hist[k], rounds@[k]));
                    let al = rounds@[k].allocations@;
                    assert(al.take(al.len() - 1)[0] == al[0]);
                    if k < old_rounds.len() {
                        assert(rounds@[k] == old_rounds[k]);
                    }
                }
            }
            proof {
                lemma_never_relisted(hist, elims, rounds@);
                assert forall|m: int, j: int|
                    0 <= m < rounds@.len() && 0 <= j < round_votes(rounds@[m]).len() implies (#[trigger] round_votes(
                    rounds@[m],
                )[j]).1 > 0 by {
                    assert(round_of(hist[m], rounds@[m]));
                }
                assert forall|m: int| 0 <= m < rounds@.len() implies distinct_ids(round_votes(#[trigger] rounds@[m])) by {
                    assert(round_of(hist[m], rounds@[m]));
                }
                assert forall|k: int, c: CandidateId|
                    0 <= k < rounds@.len() && lists_candidate(round_votes(rounds@[0]), c) implies (lists_candidate(
                    round_votes(rounds@[k]),
                    c,
                ) <==> !#[trigger] left_by(rounds@, k, c)) by {
                    lemma_listed_until_left(rounds@, k, c);
                }
                assert(tabulation_steps(b0, rounds@, hist, elims));
                assert forall|k: int|
                    0 <= k < rounds@.len() implies (#[trigger] rounds@[k]).continuing_ballots + rounds@[0].undervote
                    + rounds@[0].overvote + exhausted_transfers(rounds@, k) == ballots@.len() by {
                    lemma_exhausted_accumulates(b0, rounds@, hist, elims, k);
                    assert(round_of(hist[k], rounds@[k]));
                    assert(round_of(hist[0], rounds@[0]));
                }
            }
            return Ok(rounds);
        }
        let ghost old_elim = state.eliminated@;
        proof {
            assert(!is_final_round(rounds@.last()));
            assert forall|k: int| 0 <= k < rounds@.len() implies !is_final_round(#[trigger] rounds@[k]) by {
                if k < old_rounds.len() {
                    assert(rounds@[k] == old_rounds[k]);
                }
            }
        }
        state = state.do_elimination();
        let ghost ws = state.view_ballots();
        proof {
            let bt = elimination_batch(allocations.votes@);
            assert(round_votes(rounds@.last()) == allocations.votes@);
            assert(state.eliminated@ == old_elim + bt);
            assert forall|k: int, c: CandidateId|
                0 <= k < rounds@.len() && #[trigger] elimination_batch(round_votes(rounds@[k])).contains(c)
                    implies state.eliminated@.contains(c) by {
                lemma_concat_contains(old_elim, bt, c);
                if k < old_rounds.len() {
                    assert(rounds@[k] == old_rounds[k]);
                }
            }
        }
        proof {
            lemma_elimination_progress(vs, allocations.votes@, allocations.exhausted, old_elim, ws, state.eliminated@, state.transfers@);
        }
        let ghost leader = allocations.votes@[0].0;
        allocations = state.allocations();
        proof {
            assert(count_top(ws, Choice::Vote(leader)) > 0);
            assert(lists_candidate(allocations.votes@, leader));
        }
    }
}


proof fn lemma_count_remove(vs: Seq<BallotView>, j: int, ch: Choice)
    requires
        0 <= j < vs.len(),
    ensures
        count_top(vs, ch) == count_top(vs.remove(j), ch) + if top_of_view(vs[j]) == ch {
            1nat
        } else {
            0nat
        },
    decreases vs.len(),
{
    if j == vs.len() - 1 {
        assert(vs.remove(j) =~= vs.drop_last());
    } else {
        lemma_count_remove(vs.drop_last(), j, ch);
        assert(vs.remove(j).drop_last() =~= vs.drop_last().remove(j));
        assert(vs.remove(j).last() == vs.last());
    }
}

/// The number of ballots that top any given choice does not depend on the
/// order of the ballots.
pub proof fn lemma_count_order_independent(a: Seq<BallotView>, b: Seq<BallotView>, ch: Choice)
    requires
        a.to_multiset() == b.to_multiset(),
    ensures
        count_top(a, ch) == count_top(b, ch),
    decreases a.len(),
{
    broadcast use vstd::seq_lib::group_to_multiset_ensures;

    if a.len() == 0 {
        assert(b.to_multiset().len() == 0);
        assert(b.len() == 0);
    } else {
        let x = a.last();
        let a1 = a.drop_last();
        assert(a1.push(x) =~= a);
        assert(a.to_multiset() =~= a1.to_multiset().insert(x));
        assert(b.to_multiset().count(x) > 0);
        assert(b.contains(x));
        let j = choose|j: int| 0 <= j < b.len() && b[j] == x;
        assert(b.remove(j).to_multiset() =~= b.to_multiset().remove(x));
        assert(a1.to_multiset() =~= a1.to_multiset().insert(x).remove(x));
        lemma_count_order_independent(a1, b.remove(j), ch);
        lemma_count_remove(b, j, ch);
    }
}

/// Two orderings of the same ballots have the same round record.
proof fn lemma_round_order_independent(
    v1: Seq<BallotView>,
    v2: Seq<BallotView>,
    r1: TabulatorRound,
    r2: TabulatorRound,
)
    requires
        v1.to_multiset() == v2.to_multiset(),
        round_of(v1, r1),
        round_of(v2, r2),
    ensures
        r1.allocations@ == r2.allocations@,
        round_votes(r1) == round_votes(r2),
        r1.undervote == r2.undervote,
        r1.overvote == r2.overvote,
        r1.continuing_ballots == r2.continuing_ballots,
{
    broadcast use vstd::seq_lib::group_to_multiset_ensures;

    assert forall|ch: Choice|
        #![trigger count_top(v1, ch)]
        #![trigger count_top(v2, ch)]
        count_top(v1, ch) == count_top(v2, ch) by {
        lemma_count_order_independent(v1, v2, ch);
    }
    assert(v1.len() == v1.to_multiset().len());
    assert(v2.len() == v2.to_multiset().len());
    assert(allocation_of(v2, round_votes(r1), r1.allocations@.last().votes));
    lemma_allocation_unique(v2, round_votes(r1), r1.allocations@.last().votes, round_votes(r2), r2.allocations@.last().votes);
    let a1 = r1.allocations@;
    let a2 = r2.allocations@;
    assert(a1.len() == a2.len());
    assert forall|i: int| 0 <= i < a1.len() implies a1[i] == a2[i] by {
        if i < a1.len() - 1 {
            assert(round_votes(r1)[i] == round_votes(r2)[i]);
            assert(a1[i].allocatee is Candidate);
            assert(a2[i].allocatee is Candidate);
        }
    }
    assert(a1 =~= a2);
}


/// The ballots `vs` with the leading candidates of `e` removed.
pub open spec fn skip_all(vs: Seq<BallotView>, e: Seq<CandidateId>) -> Seq<BallotView> {
    vs.map_values(|v: BallotView| (skip_eliminated(v.0, e), v.1))
}

proof fn lemma_skip_all_permutation(a: Seq<BallotView>, b: Seq<BallotView>, e: Seq<CandidateId>)
    requires
        a.to_multiset() == b.to_multiset(),
    ensures
        skip_all(a, e).to_multiset() == skip_all(b, e).to_multiset(),
    decreases a.len(),
{
    broadcast use vstd::seq_lib::group_to_multiset_ensures;

    if a.len() == 0 {
        assert(b.to_multiset().len() == 0);
        assert(skip_all(a, e) =~= skip_all(b, e));
    } else {
        let x = a.last();
        let a1 = a.drop_last();
        assert(a1.push(x) =~= a);
        assert(a.to_multiset() =~= a1.to_multiset().insert(x));
        assert(b.to_multiset().count(x) > 0);
        assert(b.contains(x));
        let j = choose|j: int| 0 <= j < b.len() && b[j] == x;
        assert(b.remove(j).to_multiset() =~= b.to_multiset().remove(x));
        assert(a1.to_multiset() =~= a1.to_multiset().insert(x).remove(x));
        lemma_skip_all_permutation(a1, b.remove(j), e);
        let fx = (skip_eliminated(x.0, e), x.1);
        assert(skip_all(a, e) =~= skip_all(a1, e).push(fx));
        assert(skip_all(b, e).remove(j) =~= skip_all(b.remove(j), e));
        assert(skip_all(b, e)[j] == fx);
        assert(skip_all(b, e).remove(j).to_multiset() =~= skip_all(b, e).to_multiset().remove(fx));
        assert(skip_all(b, e).to_multiset().count(fx) > 0) by {
            assert(skip_all(b, e).contains(fx));
        }
        assert(skip_all(b, e).to_multiset() =~= skip_all(b, e).to_multiset().remove(fx).insert(fx));
    }
}

proof fn lemma_moved_remove(vs: Seq<BallotView>, ws: Seq<BallotView>, j: int, e: CandidateId, d: Allocatee)
    requires
        vs.len() == ws.len(),
        0 <= j < vs.len(),
    ensures
        moved(vs, ws, e, d) == moved(vs.remove(j), ws.remove(j), e, d) + if top_of_view(vs[j]) == Choice::Vote(e)
            && allocatee_of(top_of_view(ws[j])) == d {
            1nat
        } else {
            0nat
        },
    decreases vs.len(),
{
    if j == vs.len() - 1 {
        assert(vs.remove(j) =~= vs.drop_last());
        assert(ws.remove(j) =~= ws.drop_last());
    } else {
        lemma_moved_remove(vs.drop_last(), ws.drop_last(), j, e, d);
        assert(vs.remove(j).drop_last() =~= vs.drop_last().remove(j));
        assert(ws.remove(j).drop_last() =~= ws.drop_last().remove(j));
        assert(vs.remove(j).last() == vs.last());
        assert(ws.remove(j).last() == ws.last());
    }
}

proof fn lemma_moved_permutation(a: Seq<BallotView>, b: Seq<BallotView>, x: Seq<CandidateId>, e: CandidateId, d: Allocatee)
    requires
        a.to_multiset() == b.to_multiset(),
    ensures
        moved(a, skip_all(a, x), e, d) == moved(b, skip_all(b, x), e, d),
    decreases a.len(),
{
    broadcast use vstd::seq_lib::group_to_multiset_ensures;

    if a.len() == 0 {
        assert(b.to_multiset().len() == 0);
        assert(b.len() == 0);
    } else {
        let y = a.last();
        let a1 = a.drop_last();
        assert(a1.push(y) =~= a);
        assert(a.to_multiset() =~= a1.to_multiset().insert(y));
        assert(b.to_multiset().count(y) > 0);
        assert(b.contains(y));
        let j = choose|j: int| 0 <= j < b.len() && b[j] == y;
        assert(b.remove(j).to_multiset() =~= b.to_multiset().remove(y));
        assert(a1.to_multiset() =~= a1.to_multiset().insert(y).remove(y));
        lemma_moved_permutation(a1, b.remove(j), x, e, d);
        assert(skip_all(a, x).drop_last() =~= skip_all(a1, x));
        lemma_moved_remove(b, skip_all(b, x), j, e, d);
        assert(skip_all(b, x).remove(j) =~= skip_all(b.remove(j), x));
    }
}

proof fn lemma_rank_injective(a: Transfer, b: Transfer, ws: Seq<BallotView>)
    requires
        transfer_rank(a, ws) == transfer_rank(b, ws),
    ensures
        a.from == b.from && a.to == b.to,
{
    match (a.to, b.to) {
        (Allocatee::Candidate(ca), Allocatee::Candidate(cb)) => {
            let xa = u32::MAX - count_top(ws, Choice::Vote(ca));
            let xb = u32::MAX - count_top(ws, Choice::Vote(cb));
            let ya = ca.0 * 0x1_0000_0000 + a.from.0;
            let yb = cb.0 * 0x1_0000_0000 + b.from.0;
            assert(0 <= ya < 0x1_0000_0000_0000_0000);
            assert(0 <= yb < 0x1_0000_0000_0000_0000);
            assert(xa * 0x1_0000_0000_0000_0000 + ya == xb * 0x1_0000_0000_0000_0000 + yb);
            assert(xa == xb) by (nonlinear_arith)
                requires
                    xa * 0x1_0000_0000_0000_0000 + ya == xb * 0x1_0000_0000_0000_0000 + yb,
                    0 <= ya < 0x1_0000_0000_0000_0000,
                    0 <= yb < 0x1_0000_0000_0000_0000,
            ;
            assert(ca.0 == cb.0 && a.from.0 == b.from.0) by (nonlinear_arith)
                requires
                    ca.0 * 0x1_0000_0000 + a.from.0 == cb.0 * 0x1_0000_0000 + b.from.0,
                    0 <= a.from.0 < 0x1_0000_0000,
                    0 <= b.from.0 < 0x1_0000_0000,
            ;
        },
        (Allocatee::Candidate(ca), Allocatee::Exhausted) => {
            let xa = u32::MAX - count_top(ws, Choice::Vote(ca));
            assert(xa <= u32::MAX);
            assert(xa * 0x1_0000_0000_0000_0000 <= u32::MAX * 0x1_0000_0000_0000_0000) by (nonlinear_arith)
                requires
                    xa <= u32::MAX,
            ;
        },
        (Allocatee::Exhausted, Allocatee::Candidate(cb)) => {
            let xb = u32::MAX - count_top(ws, Choice::Vote(cb));
            assert(xb * 0x1_0000_0000_0000_0000 <= u32::MAX * 0x1_0000_0000_0000_0000) by (nonlinear_arith)
                requires
                    xb <= u32::MAX,
            ;
        },
        (Allocatee::Exhausted, Allocatee::Exhausted) => {},
    }
}

proof fn lemma_transfers_sorted_unique(a: Seq<Transfer>, b: Seq<Transfer>, ws: Seq<BallotView>)
    requires
        forall|i: int, j: int| 0 <= i < j < a.len() ==> transfer_rank(#[trigger] a[i], ws) < transfer_rank(#[trigger] a[j], ws),
        forall|i: int, j: int| 0 <= i < j < b.len() ==> transfer_rank(#[trigger] b[i], ws) < transfer_rank(#[trigger] b[j], ws),
        forall|p: Transfer| a.contains(p) <==> b.contains(p),
    ensures
        a == b,
    decreases a.len(),
{
    if a.len() == 0 {
        if b.len() > 0 {
            assert(b.contains(b[0]));
        }
        assert(a =~= b);
    } else {
        assert(a.contains(a[0]));
        let j = choose|j: int| 0 <= j < b.len() && b[j] == a[0];
        assert(b.contains(b[0]));
        let i = choose|i: int| 0 <= i < a.len() && a[i] == b[0];
        if j > 0 {
            assert(transfer_rank(b[0], ws) < transfer_rank(b[j], ws));
            if i > 0 {
                assert(transfer_rank(a[0], ws) < transfer_rank(a[i], ws));
            }
            assert(false);
        }
        assert forall|p: Transfer| a.drop_first().contains(p) <==> b.drop_first().contains(p) by {
            if a.drop_first().contains(p) {
                let k = choose|k: int| 0 <= k < a.drop_first().len() && a.drop_first()[k] == p;
                assert(a[k + 1] == p);
                assert(a.contains(p));
                let m = choose|m: int| 0 <= m < b.len() && b[m] == p;
                assert(transfer_rank(a[0], ws) < transfer_rank(a[k + 1], ws));
                assert(m != 0);
                assert(b.drop_first()[m - 1] == p);
            }
            if b.drop_first().contains(p) {
                let k = choose|k: int| 0 <= k < b.drop_first().len() && b.drop_first()[k] == p;
                assert(b[k + 1] == p);
                assert(b.contains(p));
                let m = choose|m: int| 0 <= m < a.len() && a[m] == p;
                assert(transfer_rank(b[0], ws) < transfer_rank(b[k + 1], ws));
                assert(m != 0);
                assert(a.drop_first()[m - 1] == p);
            }
        }
        lemma_transfers_sorted_unique(a.drop_first(), b.drop_first(), ws);
        assert forall|k: int| 0 <= k < a.len() implies a[k] == b[k] by {
            if k > 0 {
                assert(a[k] == a.drop_first()[k - 1]);
                assert(b[k] == b.drop_first()[k - 1]);
            }
        }
        assert(a =~= b);
    }
}

proof fn lemma_transfers_strict(vs: Seq<BallotView>, ws: Seq<BallotView>, bt: Seq<CandidateId>, ts: Seq<Transfer>)
    requires
        transfers_of(vs, ws, bt, ts),
    ensures
        forall|i: int, j: int| 0 <= i < j < ts.len() ==> transfer_rank(#[trigger] ts[i], ws) < transfer_rank(#[trigger] ts[j], ws),
{
    assert forall|i: int, j: int| 0 <= i < j < ts.len() implies transfer_rank(#[trigger] ts[i], ws) < transfer_rank(
        #[trigger] ts[j],
        ws,
    ) by {
        if transfer_rank(ts[i], ws) == transfer_rank(ts[j], ws) {
            lemma_rank_injective(ts[i], ts[j], ws);
        }
    }
}

proof fn lemma_transfers_unique(
    vs1: Seq<BallotView>,
    ws1: Seq<BallotView>,
    vs2: Seq<BallotView>,
    ws2: Seq<BallotView>,
    bt: Seq<CandidateId>,
    ts1: Seq<Transfer>,
    ts2: Seq<Transfer>,
)
    requires
        transfers_of(vs1, ws1, bt, ts1),
        transfers_of(vs2, ws2, bt, ts2),
        forall|e: CandidateId, d: Allocatee| #[trigger] moved(vs1, ws1, e, d) == moved(vs2, ws2, e, d),
        forall|c: CandidateId| #[trigger] count_top(ws1, Choice::Vote(c)) == count_top(ws2, Choice::Vote(c)),
    ensures
        ts1 == ts2,
{
    lemma_transfers_strict(vs1, ws1, bt, ts1);
    lemma_transfers_strict(vs2, ws2, bt, ts2);
    assert forall|t: Transfer| #[trigger] transfer_rank(t, ws1) == transfer_rank(t, ws2) by {
        match t.to {
            Allocatee::Candidate(c) => {
                assert(count_top(ws1, Choice::Vote(c)) == count_top(ws2, Choice::Vote(c)));
            },
            Allocatee::Exhausted => {},
        }
    }
    assert forall|i: int, j: int| 0 <= i < j < ts2.len() implies transfer_rank(#[trigger] ts2[i], ws1) < transfer_rank(
        #[trigger] ts2[j],
        ws1,
    ) by {
        assert(transfer_rank(ts2[i], ws1) == transfer_rank(ts2[i], ws2));
        assert(transfer_rank(ts2[j], ws1) == transfer_rank(ts2[j], ws2));
    }
    assert forall|p: Transfer| ts1.contains(p) <==> ts2.contains(p) by {
        if ts1.contains(p) {
            let i = choose|i: int| 0 <= i < ts1.len() && ts1[i] == p;
            assert(moved(vs1, ws1, p.from, p.to) == moved(vs2, ws2, p.from, p.to));
            let q = choose|q: int| 0 <= q < ts2.len() && (#[trigger] ts2[q]).from == p.from && ts2[q].to == p.to;
            assert(ts2[q] == p);
        }
        if ts2.contains(p) {
            let i = choose|i: int| 0 <= i < ts2.len() && ts2[i] == p;
            assert(moved(vs1, ws1, p.from, p.to) == moved(vs2, ws2, p.from, p.to));
            let q = choose|q: int| 0 <= q < ts1.len() && (#[trigger] ts1[q]).from == p.from && ts1[q].to == p.to;
            assert(ts1[q] == p);
        }
    }
    lemma_transfers_sorted_unique(ts1, ts2, ws1);
}

proof fn lemma_states_match(
    b1: Seq<BallotView>,
    b2: Seq<BallotView>,
    r1: Seq<TabulatorRound>,
    r2: Seq<TabulatorRound>,
    h1: Seq<Seq<BallotView>>,
    e1: Seq<Seq<CandidateId>>,
    h2: Seq<Seq<BallotView>>,
    e2: Seq<Seq<CandidateId>>,
    k: int,
)
    requires
        b1.to_multiset() == b2.to_multiset(),
        tabulation_steps(b1, r1, h1, e1),
        tabulation_steps(b2, r2, h2, e2),
        0 <= k < r1.len(),
        k < r2.len(),
    ensures
        h1[k].to_multiset() == h2[k].to_multiset(),
        e1[k] == e2[k],
    decreases k,
{
    if k == 0 {
        assert(e1[0] =~= e2[0]);
    } else {
        lemma_states_match(b1, b2, r1, r2, h1, e1, h2, e2, k - 1);
        assert(round_of(h1[k - 1], r1[k - 1]));
        assert(round_of(h2[k - 1], r2[k - 1]));
        lemma_round_order_independent(h1[k - 1], h2[k - 1], r1[k - 1], r2[k - 1]);
        assert(eliminates(h1[k - 1], e1[k - 1], round_votes(r1[k - 1]), h1[k], e1[k], r1[k].transfers@));
        assert(eliminates(h2[k - 1], e2[k - 1], round_votes(r2[k - 1]), h2[k], e2[k], r2[k].transfers@));
        assert(h1[k] =~= skip_all(h1[k - 1], e1[k]));
        assert(h2[k] =~= skip_all(h2[k - 1], e2[k]));
        lemma_skip_all_permutation(h1[k - 1], h2[k - 1], e1[k]);
    }
}

/// Tabulating the same ballots in any order gives the same rounds: the same
/// allocations, exhausted counts and transfers, round by round.
pub proof fn lemma_tabulation_order_independent(
    b1: Seq<NormalizedBallot>,
    b2: Seq<NormalizedBallot>,
    r1: Seq<TabulatorRound>,
    r2: Seq<TabulatorRound>,
)
    requires
        views(b1).to_multiset() == views(b2).to_multiset(),
        is_tabulation(views(b1), r1),
        is_tabulation(views(b2), r2),
    ensures
        r1.len() == r2.len(),
        forall|k: int|
            0 <= k < r1.len() ==> {
                &&& (#[trigger] r1[k]).allocations@ == r2[k].allocations@
                &&& r1[k].undervote == r2[k].undervote
                &&& r1[k].overvote == r2[k].overvote
                &&& r1[k].continuing_ballots == r2[k].continuing_ballots
                &&& r1[k].transfers@ == r2[k].transfers@
            },
{
    let (h1, e1) = choose|h: Seq<Seq<BallotView>>, e: Seq<Seq<CandidateId>>| tabulation_steps(views(b1), r1, h, e);
    let (h2, e2) = choose|h: Seq<Seq<BallotView>>, e: Seq<Seq<CandidateId>>| tabulation_steps(views(b2), r2, h, e);
    let v1 = views(b1);
    let v2 = views(b2);
    assert forall|k: int| 0 <= k < r1.len() && k < r2.len() implies {
        &&& (#[trigger] r1[k]).allocations@ == r2[k].allocations@
        &&& round_votes(r1[k]) == round_votes(r2[k])
        &&& r1[k].undervote == r2[k].undervote
        &&& r1[k].overvote == r2[k].overvote
        &&& r1[k].continuing_ballots == r2[k].continuing_ballots
        &&& r1[k].transfers@ == r2[k].transfers@
    } by {
        lemma_states_match(v1, v2, r1, r2, h1, e1, h2, e2, k);
        assert(round_of(h1[k], r1[k]));
        assert(round_of(h2[k], r2[k]));
        lemma_round_order_independent(h1[k], h2[k], r1[k], r2[k]);
        if k == 0 {
            assert(r1[0].transfers@ =~= r2[0].transfers@);
        } else {
            lemma_states_match(v1, v2, r1, r2, h1, e1, h2, e2, k - 1);
            assert(round_of(h1[k - 1], r1[k - 1]));
            assert(round_of(h2[k - 1], r2[k - 1]));
            lemma_round_order_independent(h1[k - 1], h2[k - 1], r1[k - 1], r2[k - 1]);
            assert(eliminates(h1[k - 1], e1[k - 1], round_votes(r1[k - 1]), h1[k], e1[k], r1[k].transfers@));
            assert(eliminates(h2[k - 1], e2[k - 1], round_votes(r2[k - 1]), h2[k], e2[k], r2[k].transfers@));
            assert(h1[k] =~= skip_all(h1[k - 1], e1[k]));
            assert(h2[k] =~= skip_all(h2[k - 1], e2[k]));
            assert forall|e: CandidateId, d: Allocatee| #[trigger] moved(h1[k - 1], h1[k], e, d) == moved(
                h2[k - 1],
                h2[k],
                e,
                d,
            ) by {
                lemma_moved_permutation(h1[k - 1], h2[k - 1], e1[k], e, d);
            }
            assert forall|c: CandidateId| #[trigger] count_top(h1[k], Choice::Vote(c)) == count_top(
                h2[k],
                Choice::Vote(c),
            ) by {
                lemma_count_order_independent(h1[k], h2[k], Choice::Vote(c));
            }
            lemma_transfers_unique(
                h1[k - 1],
                h1[k],
                h2[k - 1],
                h2[k],
                elimination_batch(round_votes(r1[k - 1])),
                r1[k].transfers@,
                r2[k].transfers@,
            );
        }
    }
    if r1.len() < r2.len() {
        let k = r1.len() - 1;
        assert(is_final_round(r1[k]));
        assert(round_votes(r1[k]) == round_votes(r2[k]));
        assert(is_final_round(r2[k]));
    }
    if r2.len() < r1.len() {
        let k = r2.len() - 1;
        assert(is_final_round(r2[k]));
        assert(round_votes(r1[k]) == round_votes(r2[k]));
        assert(is_final_round(r1[k]));
    }
}

} // verus!
