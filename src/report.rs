//! Contest analytics over the normalized ballots and the tabulated rounds:
//! winner, pairwise preferences, Smith set, crosstabs, and the assembled
//! report.

use crate::model::{Candidate, CandidateId, ElectionInfo, ElectionPreprocessed, NormalizedBallot};
use crate::normalizers::contains_candidate;
use crate::schema::{Allocatee, TabulatorAllocation, TabulatorRound, Transfer};
use crate::tabulator::{
    Allocations, TabulateError, distinct_ids, is_final_round, is_tabulation, round_votes, sorted_votes, tabulate,
    total_len, views,
};
use vstd::prelude::*;

verus! {

/// The winner: the leading allocatee of the final round.
pub fn winner(rounds: &Vec<TabulatorRound>) -> (r: CandidateId)
    requires
        rounds@.len() > 0,
        rounds@.last().allocations@.len() > 0,
        rounds@.last().allocations@[0].allocatee is Candidate,
    ensures
        r == rounds@.last().allocations@[0].allocatee->Candidate_0,
{
    let last = &rounds[rounds.len() - 1];
    match last.allocations[0].allocatee {
        Allocatee::Candidate(c) => c,
        Allocatee::Exhausted => CandidateId(0),
    }
}

/// Whether the preferences `ch` rank `a` strictly above `b`: `a` appears,
/// and `b` does not appear before it. A candidate that a ballot does not
/// rank is below every candidate it ranks.
pub open spec fn prefers(ch: Seq<CandidateId>, a: CandidateId, b: CandidateId) -> bool
    decreases ch.len(),
{
    if ch.len() == 0 {
        false
    } else if ch[0] == b {
        false
    } else if ch[0] == a {
        true
    } else {
        prefers(ch.drop_first(), a, b)
    }
}

/// The number of ballots of `bs` that rank `a` strictly above `b`.
pub open spec fn pair_count(bs: Seq<NormalizedBallot>, a: CandidateId, b: CandidateId) -> nat
    decreases bs.len(),
{
    if bs.len() == 0 {
        0
    } else {
        pair_count(bs.drop_last(), a, b) + if prefers(bs.last().choices@, a, b) {
            1nat
        } else {
            0nat
        }
    }
}

/// The number of ballots of `bs` that rank neither `a` nor `b`.
pub open spec fn ranks_neither(bs: Seq<NormalizedBallot>, a: CandidateId, b: CandidateId) -> nat
    decreases bs.len(),
{
    if bs.len() == 0 {
        0
    } else {
        ranks_neither(bs.drop_last(), a, b) + if !bs.last().choices@.contains(a)
            && !bs.last().choices@.contains(b) {
            1nat
        } else {
            0nat
        }
    }
}

proof fn lemma_prefers_one_way(ch: Seq<CandidateId>, a: CandidateId, b: CandidateId)
    requires
        a != b,
    ensures
        !(prefers(ch, a, b) && prefers(ch, b, a)),
        (prefers(ch, a, b) || prefers(ch, b, a)) <==> (ch.contains(a) || ch.contains(b)),
    decreases ch.len(),
{
    if ch.len() > 0 {
        lemma_prefers_one_way(ch.drop_first(), a, b);
        if ch[0] != a && ch[0] != b {
            assert forall|x: CandidateId| x == a || x == b implies (ch.contains(x) <==> ch.drop_first().contains(x)) by {
                if ch.contains(x) {
                    let k = choose|k: int| 0 <= k < ch.len() && ch[k] == x;
                    assert(ch.drop_first()[k - 1] == x);
                }
                if ch.drop_first().contains(x) {
                    let k = choose|k: int| 0 <= k < ch.drop_first().len() && ch.drop_first()[k] == x;
                    assert(ch[k + 1] == x);
                }
            }
        } else {
            assert(ch.contains(ch[0]));
        }
    }
}

/// Pairwise counts are anti-symmetric: no ballot ranks `a` above `b` and
/// `b` above `a`, so the two counts add up to at most the number of ballots,
/// and to exactly that number when every ballot ranks `a` or `b`.
pub proof fn lemma_pairwise_antisymmetric(bs: Seq<NormalizedBallot>, a: CandidateId, b: CandidateId)
    requires
        a != b,
    ensures
        pair_count(bs, a, b) + pair_count(bs, b, a) + ranks_neither(bs, a, b) == bs.len(),
        pair_count(bs, a, b) + pair_count(bs, b, a) <= bs.len(),
        pair_count(bs, a, b) + pair_count(bs, b, a) == bs.len() <==> forall|i: int|
            0 <= i < bs.len() ==> (#[trigger] bs[i]).choices@.contains(a) || bs[i].choices@.contains(b),
    decreases bs.len(),
{
    if bs.len() > 0 {
        lemma_pairwise_antisymmetric(bs.drop_last(), a, b);
        lemma_prefers_one_way(bs.last().choices@, a, b);
        lemma_neither_zero(bs, a, b);
    }
}

proof fn lemma_neither_zero(bs: Seq<NormalizedBallot>, a: CandidateId, b: CandidateId)
    ensures
        ranks_neither(bs, a, b) == 0 <==> forall|i: int|
            0 <= i < bs.len() ==> (#[trigger] bs[i]).choices@.contains(a) || bs[i].choices@.contains(b),
    decreases bs.len(),
{
    if bs.len() > 0 {
        lemma_neither_zero(bs.drop_last(), a, b);
        if ranks_neither(bs, a, b) == 0 {
            assert forall|i: int| 0 <= i < bs.len() implies (#[trigger] bs[i]).choices@.contains(a)
                || bs[i].choices@.contains(b) by {
                if i < bs.len() - 1 {
                    assert(bs.drop_last()[i] == bs[i]);
                }
            }
        }
        if forall|i: int|
            0 <= i < bs.len() ==> (#[trigger] bs[i]).choices@.contains(a) || bs[i].choices@.contains(b) {
            assert forall|i: int| 0 <= i < bs.drop_last().len() implies (#[trigger] bs.drop_last()[i]).choices@.contains(
                a,
            ) || bs.drop_last()[i].choices@.contains(b) by {
                assert(bs.drop_last()[i] == bs[i]);
            }
            assert(bs[bs.len() - 1].choices@.contains(a) || bs[bs.len() - 1].choices@.contains(b));
        }
    }
}

/// Whether the preferences `ch` rank `a` strictly above `b`.
pub fn ranks_above(ch: &Vec<CandidateId>, a: CandidateId, b: CandidateId) -> (r: bool)
    ensures
        r == prefers(ch@, a, b),
{
    let mut i: usize = 0;
    assert(ch@.skip(0) =~= ch@);
    while i < ch.len()
        invariant
            i <= ch@.len(),
            prefers(ch@, a, b) == prefers(ch@.skip(i as int), a, b),
        decreases ch@.len() - i,
    {
        assert(ch@.skip(i as int).drop_first() =~= ch@.skip(i + 1));
        assert(ch@.skip(i as int)[0] == ch@[i as int]);
        if ch[i] == b {
            return false;
        }
        if ch[i] == a {
            return true;
        }
        i += 1;
    }
    false
}

/// The number of ballots that rank `a` strictly above `b`.
fn count_pair(ballots: &Vec<NormalizedBallot>, a: CandidateId, b: CandidateId) -> (r: u32)
    requires
        ballots@.len() <= u32::MAX,
    ensures
        r == pair_count(ballots@, a, b),
{
    let mut n: u32 = 0;
    let mut i: usize = 0;
    while i < ballots.len()
        invariant
            i <= ballots@.len(),
            ballots@.len() <= u32::MAX,
            n == pair_count(ballots@.take(i as int), a, b),
            n <= i,
        decreases ballots@.len() - i,
    {
        assert(ballots@.take(i + 1).drop_last() =~= ballots@.take(i as int));
        if ranks_above(&ballots[i].choices, a, b) {
            n = n + 1;
        }
        i += 1;
    }
    assert(ballots@.take(i as int) =~= ballots@);
    n
}

/// Pairwise preference counts over a list of candidates.
pub struct PairwiseCounts {
    pub candidates: Vec<CandidateId>,
    /// `counts[i][j]`: ballots that rank `candidates[i]` above `candidates[j]`.
    pub counts: Vec<Vec<u32>>,
}

impl PairwiseCounts {
    /// `counts` has one row and one column per candidate, and holds the
    /// pairwise counts of `bs`.
    pub open spec fn counts_of(&self, bs: Seq<NormalizedBallot>) -> bool {
        &&& self.counts@.len() == self.candidates@.len()
        &&& forall|i: int|
            0 <= i < self.counts@.len() ==> (#[trigger] self.counts@[i])@.len() == self.candidates@.len()
        &&& forall|i: int, j: int|
            0 <= i < self.candidates@.len() && 0 <= j < self.candidates@.len() ==> (#[trigger] self.counts@[i]@[j])
                == pair_count(bs, self.candidates@[i], self.candidates@[j])
    }
}

/// Counts, for every ordered pair of `candidates`, the ballots that rank the
/// first above the second.
pub fn generate_pairwise_counts(candidates: &Vec<CandidateId>, ballots: &Vec<NormalizedBallot>) -> (r: PairwiseCounts)
    requires
        ballots@.len() <= u32::MAX,
    ensures
        r.candidates@ == candidates@,
        r.counts_of(ballots@),
{
    let n = candidates.len();
    let mut counts: Vec<Vec<u32>> = Vec::new();
    let mut i: usize = 0;
    while i < n
        invariant
            n == candidates@.len(),
            ballots@.len() <= u32::MAX,
            i <= n,
            counts@.len() == i,
            forall|k: int| 0 <= k < i ==> (#[trigger] counts@[k])@.len() == n,
            forall|k: int, j: int|
                0 <= k < i && 0 <= j < n ==> (#[trigger] counts@[k]@[j]) == pair_count(ballots@, candidates@[k], candidates@[j]),
        decreases n - i,
    {
        let mut row: Vec<u32> = Vec::new();
        let mut j: usize = 0;
        while j < n
            invariant
                n == candidates@.len(),
                ballots@.len() <= u32::MAX,
                i < n,
                j <= n,
                row@.len() == j,
                forall|q: int| 0 <= q < j ==> (#[trigger] row@[q]) == pair_count(ballots@, candidates@[i as int], candidates@[q]),
            decreases n - j,
        {
            row.push(count_pair(ballots, candidates[i], candidates[j]));
            j += 1;
        }
        counts.push(row);
        i += 1;
    }
    let mut copy: Vec<CandidateId> = Vec::new();
    let mut k: usize = 0;
    while k < n
        invariant
            n == candidates@.len(),
            k <= n,
            copy@ == candidates@.take(k as int),
        decreases n - k,
    {
        copy.push(candidates[k]);
        k += 1;
        assert(copy@ =~= candidates@.take(k as int));
    }
    assert(candidates@.take(n as int) =~= candidates@);
    PairwiseCounts { candidates: copy, counts }
}


/// A cell of a candidate table: `part` of the `count` ballots that the cell
/// is about; its share is `part / count`.
#[derive(Clone, Copy, Debug, PartialEq, Eq, Structural)]
pub struct PairShare {
    pub part: u32,
    pub count: u32,
}

/// A table over allocatees: `entries[i][j]` is the cell of row `rows[i]`
/// and column `cols[j]`, absent when it counts no ballot.
#[derive(Clone, Debug, PartialEq, Eq)]
pub struct CandidatePairTable {
    pub rows: Vec<Allocatee>,
    pub cols: Vec<Allocatee>,
    pub entries: Vec<Vec<Option<PairShare>>>,
}

/// The cell for `part` ballots out of `total`: absent when `part` is zero.
pub open spec fn share(part: nat, total: nat) -> Option<PairShare> {
    if part == 0 {
        None
    } else {
        Some(PairShare { part: part as u32, count: total as u32 })
    }
}

/// The head-to-head cell of two candidates ranked `m1` and `m2` times
/// above each other: absent when neither count, else `m1` of `m1 + m2`.
pub open spec fn pair_entry(m1: nat, m2: nat) -> Option<PairShare> {
    if m1 + m2 == 0 {
        None
    } else {
        Some(PairShare { part: m1 as u32, count: (m1 + m2) as u32 })
    }
}

/// The candidates of `c` as allocatees.
pub open spec fn axis_of(c: Seq<CandidateId>) -> Seq<Allocatee> {
    c.map_values(|x: CandidateId| Allocatee::Candidate(x))
}

fn make_axis(candidates: &Vec<CandidateId>) -> (r: Vec<Allocatee>)
    ensures
        r@ == axis_of(candidates@),
{
    let mut r: Vec<Allocatee> = Vec::new();
    let mut i: usize = 0;
    while i < candidates.len()
        invariant
            i <= candidates@.len(),
            r@ == axis_of(candidates@.take(i as int)),
        decreases candidates@.len() - i,
    {
        r.push(Allocatee::Candidate(candidates[i]));
        i += 1;
        assert(r@ =~= axis_of(candidates@.take(i as int)));
    }
    assert(candidates@.take(i as int) =~= candidates@);
    r
}

/// The head-to-head table: for distinct candidates `i` and `j`, the ballots
/// that rank `i` above `j`, out of those that rank one above the other;
/// absent on the diagonal and where no ballot ranks either above the other.
pub fn generate_pairwise_preferences(candidates: &Vec<CandidateId>, counts: &PairwiseCounts) -> (r: CandidatePairTable)
    requires
        counts.candidates@ == candidates@,
        counts.counts@.len() == candidates@.len(),
        forall|i: int| 0 <= i < candidates@.len() ==> (#[trigger] counts.counts@[i])@.len() == candidates@.len(),
        forall|i: int, j: int|
            0 <= i < candidates@.len() && 0 <= j < candidates@.len() ==> counts.counts@[i]@[j] + counts.counts@[j]@[i]
                <= u32::MAX,
    ensures
        r.rows@ == axis_of(candidates@),
        r.cols@ == axis_of(candidates@),
        r.entries@.len() == candidates@.len(),
        forall|i: int|
            0 <= i < candidates@.len() ==> (#[trigger] r.entries@[i])@.len() == candidates@.len(),
        forall|i: int, j: int|
            0 <= i < candidates@.len() && 0 <= j < candidates@.len() ==> (#[trigger] r.entries@[i]@[j]) == if i == j {
                None
            } else {
                pair_entry(counts.counts@[i]@[j] as nat, counts.counts@[j]@[i] as nat)
            },
{
    let n = candidates.len();
    let mut entries: Vec<Vec<Option<PairShare>>> = Vec::new();
    let mut i: usize = 0;
    while i < n
        invariant
            n == candidates@.len(),
            counts.counts@.len() == n,
            forall|k: int| 0 <= k < n ==> (#[trigger] counts.counts@[k])@.len() == n,
            forall|a: int, b: int| 0 <= a < n && 0 <= b < n ==> counts.counts@[a]@[b] + counts.counts@[b]@[a] <= u32::MAX,
            i <= n,
            entries@.len() == i,
            forall|k: int| 0 <= k < i ==> (#[trigger] entries@[k])@.len() == n,
            forall|k: int, j: int|
                0 <= k < i && 0 <= j < n ==> (#[trigger] entries@[k]@[j]) == if k == j {
                    None
                } else if counts.counts@[k]@[j] + counts.counts@[j]@[k] == 0 {
                    None
                } else {
                    Some(PairShare {
                        part: counts.counts@[k]@[j],
                        count: (counts.counts@[k]@[j] + counts.counts@[j]@[k]) as u32,
                    })
                },
        decreases n - i,
    {
        let mut row: Vec<Option<PairShare>> = Vec::new();
        let mut j: usize = 0;
        while j < n
            invariant
                n == candidates@.len(),
                counts.counts@.len() == n,
                forall|k: int| 0 <= k < n ==> (#[trigger] counts.counts@[k])@.len() == n,
                forall|a: int, b: int| 0 <= a < n && 0 <= b < n ==> counts.counts@[a]@[b] + counts.counts@[b]@[a] <= u32::MAX,
                i < n,
                j <= n,
                row@.len() == j,
                forall|q: int|
                    0 <= q < j ==> (#[trigger] row@[q]) == if i == q {
                        None
                    } else if counts.counts@[i as int]@[q] + counts.counts@[q]@[i as int] == 0 {
                        None
                    } else {
                        Some(PairShare {
                            part: counts.counts@[i as int]@[q],
                            count: (counts.counts@[i as int]@[q] + counts.counts@[q]@[i as int]) as u32,
                        })
                    },
            decreases n - j,
        {
            let m1 = counts.counts[i][j];
            let m2 = counts.counts[j][i];
            if i == j || m1 + m2 == 0 {
                row.push(None);
            } else {
                row.push(Some(PairShare { part: m1, count: m1 + m2 }));
            }
            j += 1;
        }
        entries.push(row);
        i += 1;
    }
    CandidatePairTable { rows: make_axis(candidates), cols: make_axis(candidates), entries }
}

/// The beats relation: `g[i][j]` when more ballots rank candidate `i` above
/// candidate `j` than the reverse.
pub fn graph(candidates: &Vec<CandidateId>, counts: &PairwiseCounts) -> (g: Vec<Vec<bool>>)
    requires
        counts.candidates@ == candidates@,
        counts.counts@.len() == candidates@.len(),
        forall|i: int| 0 <= i < candidates@.len() ==> (#[trigger] counts.counts@[i])@.len() == candidates@.len(),
    ensures
        square(g@.map_values(|row: Vec<bool>| row@), candidates@.len()),
        forall|i: int, j: int|
            0 <= i < candidates@.len() && 0 <= j < candidates@.len() ==> (#[trigger] g@[i]@[j]) == (counts.counts@[i]@[j]
                > counts.counts@[j]@[i]),
{
    let n = candidates.len();
    let mut g: Vec<Vec<bool>> = Vec::new();
    let mut i: usize = 0;
    while i < n
        invariant
            n == candidates@.len(),
            counts.counts@.len() == n,
            forall|k: int| 0 <= k < n ==> (#[trigger] counts.counts@[k])@.len() == n,
            i <= n,
            g@.len() == i,
            forall|k: int| 0 <= k < i ==> (#[trigger] g@[k])@.len() == n,
            forall|k: int, j: int|
                0 <= k < i && 0 <= j < n ==> (#[trigger] g@[k]@[j]) == (counts.counts@[k]@[j] > counts.counts@[j]@[k]),
        decreases n - i,
    {
        let mut row: Vec<bool> = Vec::new();
        let mut j: usize = 0;
        while j < n
            invariant
                n == candidates@.len(),
                counts.counts@.len() == n,
                forall|k: int| 0 <= k < n ==> (#[trigger] counts.counts@[k])@.len() == n,
                i < n,
                j <= n,
                row@.len() == j,
                forall|q: int|
                    0 <= q < j ==> (#[trigger] row@[q]) == (counts.counts@[i as int]@[q] > counts.counts@[q]@[i as int]),
            decreases n - j,
        {
            row.push(counts.counts[i][j] > counts.counts[j][i]);
            j += 1;
        }
        g.push(row);
        i += 1;
    }
    g
}

/// `g` is an `n` by `n` matrix.
pub open spec fn square(g: Seq<Seq<bool>>, n: nat) -> bool {
    g.len() == n && forall|i: int| 0 <= i < n ==> (#[trigger] g[i]).len() == n
}

/// The candidates that beat some member of `s`.
pub open spec fn beaters(g: Seq<Seq<bool>>, s: Seq<bool>) -> Seq<bool> {
    Seq::new(s.len(), |i: int| exists|j: int| 0 <= j < s.len() && s[j] && #[trigger] g[i][j])
}

pub open spec fn count_true(s: Seq<bool>) -> nat
    decreases s.len(),
{
    if s.len() == 0 {
        0
    } else {
        count_true(s.drop_last()) + if s.last() {
            1nat
        } else {
            0nat
        }
    }
}

/// The Smith iteration from `s`, for at most `fuel` steps: replace the set
/// by its beaters until that is empty or changes nothing.
pub open spec fn smith_iter(g: Seq<Seq<bool>>, s: Seq<bool>, fuel: nat) -> Seq<bool>
    decreases fuel,
{
    if fuel == 0 {
        s
    } else {
        let t = beaters(g, s);
        if count_true(t) == 0 || t == s {
            s
        } else {
            smith_iter(g, t, (fuel - 1) as nat)
        }
    }
}

/// Membership in the Smith set of the beats matrix `g` over `n` candidates.
pub open spec fn smith_members(g: Seq<Seq<bool>>, n: nat) -> Seq<bool> {
    smith_iter(g, Seq::new(n, |i: int| true), n)
}

proof fn lemma_count_subset(t: Seq<bool>, s: Seq<bool>)
    requires
        t.len() == s.len(),
        forall|i: int| 0 <= i < t.len() && #[trigger] t[i] ==> s[i],
    ensures
        count_true(t) <= count_true(s),
        t != s ==> count_true(t) < count_true(s),
    decreases t.len(),
{
    if t.len() == 0 {
        assert(t =~= s);
    } else {
        assert forall|i: int| 0 <= i < t.drop_last().len() && #[trigger] t.drop_last()[i] implies s.drop_last()[i] by {
            assert(t[i]);
        }
        lemma_count_subset(t.drop_last(), s.drop_last());
        if t[t.len() - 1] {
            assert(s[s.len() - 1]);
        }
        if t != s {
            if t.drop_last() == s.drop_last() {
                assert(t.last() != s.last()) by {
                    if t.last() == s.last() {
                        assert forall|i: int| 0 <= i < t.len() implies t[i] == s[i] by {
                            if i < t.len() - 1 {
                                assert(t[i] == t.drop_last()[i]);
                                assert(s[i] == s.drop_last()[i]);
                            }
                        }
                        assert(t =~= s);
                    }
                }
            }
        }
    }
}

proof fn lemma_count_le_len(s: Seq<bool>)
    ensures
        count_true(s) <= s.len(),
    decreases s.len(),
{
    if s.len() > 0 {
        lemma_count_le_len(s.drop_last());
    }
}

/// `beaters(g, s)` as a vector.
fn beaters_exec(g: &Vec<Vec<bool>>, s: &Vec<bool>) -> (t: Vec<bool>)
    requires
        square(g@.map_values(|row: Vec<bool>| row@), s@.len()),
    ensures
        t@ == beaters(g@.map_values(|row: Vec<bool>| row@), s@),
{
    let ghost gm = g@.map_values(|row: Vec<bool>| row@);
    let n = s.len();
    let mut t: Vec<bool> = Vec::new();
    let mut i: usize = 0;
    while i < n
        invariant
            n == s@.len(),
            gm == g@.map_values(|row: Vec<bool>| row@),
            square(gm, n as nat),
            i <= n,
            t@.len() == i,
            forall|k: int| 0 <= k < i ==> #[trigger] t@[k] == beaters(gm, s@)[k],
        decreases n - i,
    {
        let mut found = false;
        let mut j: usize = 0;
        while j < n && !found
            invariant
                n == s@.len(),
                gm == g@.map_values(|row: Vec<bool>| row@),
                square(gm, n as nat),
                i < n,
                j <= n,
                found ==> exists|q: int| 0 <= q < n && s@[q] && #[trigger] gm[i as int][q],
                !found ==> forall|q: int| 0 <= q < j ==> !(s@[q] && #[trigger] gm[i as int][q]),
            decreases n - j,
        {
            assert(gm[i as int] == g@[i as int]@);
            if s[j] && g[i][j] {
                found = true;
                assert(gm[i as int][j as int]);
            }
            j += 1;
        }
        t.push(found);
        i += 1;
    }
    assert(t@ =~= beaters(gm, s@));
    t
}

/// The Smith set: starting from every candidate, repeatedly keep the
/// candidates that beat some member, until that leaves no one or changes
/// nothing. Members are listed in the order of `candidates`.
pub fn smith_set(candidates: &Vec<CandidateId>, g: &Vec<Vec<bool>>) -> (r: Vec<CandidateId>)
    requires
        square(g@.map_values(|row: Vec<bool>| row@), candidates@.len()),
    ensures
        r@ == select(candidates@, smith_members(g@.map_values(|row: Vec<bool>| row@), candidates@.len())),
        candidates@.no_duplicates() ==> r@.no_duplicates(),
{
    let ghost gm = g@.map_values(|row: Vec<bool>| row@);
    let n = candidates.len();
    let mut s: Vec<bool> = Vec::new();
    let mut k: usize = 0;
    while k < n
        invariant
            k <= n,
            s@ == Seq::new(k as nat, |i: int| true),
        decreases n - k,
    {
        s.push(true);
        k += 1;
        assert(s@ =~= Seq::new(k as nat, |i: int| true));
    }
    let ghost mut fuel: nat = n as nat;
    proof {
        lemma_count_le_len(s@);
    }
    loop
        invariant
            n == candidates@.len(),
            gm == g@.map_values(|row: Vec<bool>| row@),
            square(gm, n as nat),
            s@.len() == n,
            count_true(s@) <= fuel,
            smith_iter(gm, s@, fuel) == smith_members(gm, n as nat),
            forall|i: int| 0 <= i < n && #[trigger] beaters(gm, s@)[i] ==> s@[i],
        decreases count_true(s@),
    {
        let t = beaters_exec(g, &s);
        let mut same = true;
        let mut any = false;
        let mut i: usize = 0;
        while i < n
            invariant
                n == s@.len(),
                t@.len() == n,
                i <= n,
                same == (forall|q: int| 0 <= q < i ==> t@[q] == s@[q]),
                any == (exists|q: int| 0 <= q < i && #[trigger] t@[q]),
            decreases n - i,
        {
            if t[i] != s[i] {
                same = false;
            }
            if t[i] {
                any = true;
            }
            i += 1;
        }
        proof {
            lemma_count_subset(t@, s@);
            if !any && count_true(t@) > 0 {
                lemma_count_pos(t@);
            }
            if same {
                assert(t@ =~= s@);
            }
        }
        if !any || same {
            proof {
                if fuel > 0 {
                    if !any {
                        assert(count_true(t@) == 0) by {
                            if count_true(t@) > 0 {
                                lemma_count_pos(t@);
                            }
                        }
                    }
                } else {
                    assert(count_true(s@) == 0);
                    assert(count_true(t@) == 0);
                    assert(!any) by {
                        if any {
                            let q = choose|q: int| 0 <= q < n && #[trigger] t@[q];
                            lemma_count_pos_of(t@, q);
                        }
                    }
                }
                assert(smith_iter(gm, s@, fuel) == s@);
                if candidates@.no_duplicates() {
                    lemma_select_no_duplicates(candidates@, s@);
                }
            }
            return members(candidates, &s);
        }
        proof {
            assert(t@ != s@);
            assert(count_true(t@) > 0) by {
                let q = choose|q: int| 0 <= q < n && #[trigger] t@[q];
                lemma_count_pos_of(t@, q);
            }
            assert(fuel > 0);
            // The beaters of a subset are among the beaters of the set.
            assert forall|a: int| 0 <= a < n && #[trigger] beaters(gm, t@)[a] implies t@[a] by {
                let j = choose|j: int| 0 <= j < n && t@[j] && #[trigger] gm[a][j];
                assert(s@[j]);
                assert(beaters(gm, s@)[a]);
            }
            fuel = (fuel - 1) as nat;
        }
        s = t;
    }
}

/// The members of `c` whose flag in `s` is set, in order.
pub open spec fn select(c: Seq<CandidateId>, s: Seq<bool>) -> Seq<CandidateId>
    decreases c.len(),
{
    if c.len() == 0 || s.len() != c.len() {
        Seq::empty()
    } else if s.last() {
        select(c.drop_last(), s.drop_last()).push(c.last())
    } else {
        select(c.drop_last(), s.drop_last())
    }
}

proof fn lemma_select_no_duplicates(c: Seq<CandidateId>, s: Seq<bool>)
    requires
        c.no_duplicates(),
    ensures
        select(c, s).no_duplicates(),
        forall|x: CandidateId| select(c, s).contains(x) ==> c.contains(x),
    decreases c.len(),
{
    if c.len() > 0 && s.len() == c.len() {
        let c1 = c.drop_last();
        assert forall|i: int, j: int| 0 <= i < c1.len() && 0 <= j < c1.len() && i != j implies c1[i] != c1[j] by {
            assert(c1[i] == c[i] && c1[j] == c[j]);
        }
        lemma_select_no_duplicates(c1, s.drop_last());
        let q = select(c1, s.drop_last());
        assert forall|x: CandidateId| q.contains(x) implies c.contains(x) by {
            assert(c1.contains(x));
            let k = choose|k: int| 0 <= k < c1.len() && c1[k] == x;
            assert(c[k] == x);
        }
        if s.last() {
            assert(!q.contains(c.last())) by {
                if q.contains(c.last()) {
                    assert(c1.contains(c.last()));
                    let k = choose|k: int| 0 <= k < c1.len() && c1[k] == c.last();
                    assert(c[k] == c[c.len() - 1]);
                }
            }
            let r = q.push(c.last());
            assert forall|i: int, j: int| 0 <= i < r.len() && 0 <= j < r.len() && i != j implies r[i] != r[j] by {
                if i == q.len() {
                    assert(q.contains(r[j]));
                } else if j == q.len() {
                    assert(q.contains(r[i]));
                } else {
                    assert(r[i] == q[i] && r[j] == q[j]);
                }
            }
            assert forall|x: CandidateId| r.contains(x) implies c.contains(x) by {
                let k = choose|k: int| 0 <= k < r.len() && r[k] == x;
                if k < q.len() {
                    assert(q.contains(x));
                } else {
                    assert(c[c.len() - 1] == x);
                }
            }
        }
    }
}

/// The candidates whose flag in `s` is set, in order.
fn members(candidates: &Vec<CandidateId>, s: &Vec<bool>) -> (r: Vec<CandidateId>)
    requires
        s@.len() == candidates@.len(),
    ensures
        r@ == select(candidates@, s@),
{
    let n = candidates.len();
    let mut r: Vec<CandidateId> = Vec::new();
    let mut i: usize = 0;
    while i < n
        invariant
            n == candidates@.len(),
            s@.len() == n,
            i <= n,
            r@ == select(candidates@.take(i as int), s@.take(i as int)),
        decreases n - i,
    {
        assert(candidates@.take(i + 1).drop_last() =~= candidates@.take(i as int));
        assert(s@.take(i + 1).drop_last() =~= s@.take(i as int));
        if s[i] {
            r.push(candidates[i]);
        }
        i += 1;
    }
    assert(candidates@.take(n as int) =~= candidates@);
    assert(s@.take(n as int) =~= s@);
    r
}

proof fn lemma_count_pos(s: Seq<bool>)
    requires
        count_true(s) > 0,
    ensures
        exists|q: int| 0 <= q < s.len() && #[trigger] s[q],
    decreases s.len(),
{
    if !s.last() {
        lemma_count_pos(s.drop_last());
        let q = choose|q: int| 0 <= q < s.drop_last().len() && #[trigger] s.drop_last()[q];
        assert(s[q]);
    } else {
        assert(s[s.len() - 1]);
    }
}

proof fn lemma_count_pos_of(s: Seq<bool>, q: int)
    requires
        0 <= q < s.len(),
        s[q],
    ensures
        count_true(s) > 0,
    decreases s.len(),
{
    if q < s.len() - 1 {
        assert(s.drop_last()[q]);
        lemma_count_pos_of(s.drop_last(), q);
    }
}


/// The first preference of `ch`, when there is one, is `c`.
pub open spec fn first_is(ch: Seq<CandidateId>, c: CandidateId) -> bool {
    ch.len() > 0 && ch[0] == c
}

/// What a ballot whose preferences are `ch` ranks second.
pub open spec fn second_of(ch: Seq<CandidateId>) -> Allocatee {
    if ch.len() >= 2 {
        Allocatee::Candidate(ch[1])
    } else {
        Allocatee::Exhausted
    }
}

/// The first preference of `ch` that is in `f`, or `Exhausted`.
pub open spec fn final_of(ch: Seq<CandidateId>, f: Seq<CandidateId>) -> Allocatee
    decreases ch.len(),
{
    if ch.len() == 0 {
        Allocatee::Exhausted
    } else if f.contains(ch[0]) {
        Allocatee::Candidate(ch[0])
    } else {
        final_of(ch.drop_first(), f)
    }
}

/// The number of ballots whose first preference is `c`.
pub open spec fn first_count(bs: Seq<NormalizedBallot>, c: CandidateId) -> nat
    decreases bs.len(),
{
    if bs.len() == 0 {
        0
    } else {
        first_count(bs.drop_last(), c) + if first_is(bs.last().choices@, c) {
            1nat
        } else {
            0nat
        }
    }
}

/// The number of ballots whose first preference is `c` and whose second is `a`.
pub open spec fn alternate_count(bs: Seq<NormalizedBallot>, c: CandidateId, a: Allocatee) -> nat
    decreases bs.len(),
{
    if bs.len() == 0 {
        0
    } else {
        alternate_count(bs.drop_last(), c, a) + if first_is(bs.last().choices@, c) && second_of(
            bs.last().choices@,
        ) == a {
            1nat
        } else {
            0nat
        }
    }
}

/// The number of ballots whose first preference is `c` and whose first
/// preference in `f` is `a` (`Exhausted` for none).
pub open spec fn final_count(bs: Seq<NormalizedBallot>, c: CandidateId, f: Seq<CandidateId>, a: Allocatee) -> nat
    decreases bs.len(),
{
    if bs.len() == 0 {
        0
    } else {
        final_count(bs.drop_last(), c, f, a) + if first_is(bs.last().choices@, c) && final_of(
            bs.last().choices@,
            f,
        ) == a {
            1nat
        } else {
            0nat
        }
    }
}

/// The members of `c` that are in `f` (when `inside`) or not in `f`, in order.
pub open spec fn split_by(c: Seq<CandidateId>, f: Seq<CandidateId>, inside: bool) -> Seq<CandidateId>
    decreases c.len(),
{
    if c.len() == 0 {
        c
    } else if f.contains(c.last()) == inside {
        split_by(c.drop_last(), f, inside).push(c.last())
    } else {
        split_by(c.drop_last(), f, inside)
    }
}

fn count_first(ballots: &Vec<NormalizedBallot>, c: CandidateId) -> (r: u32)
    requires
        ballots@.len() <= u32::MAX,
    ensures
        r == first_count(ballots@, c),
{
    let mut n: u32 = 0;
    let mut i: usize = 0;
    while i < ballots.len()
        invariant
            i <= ballots@.len(),
            ballots@.len() <= u32::MAX,
            n == first_count(ballots@.take(i as int), c),
            n <= i,
        decreases ballots@.len() - i,
    {
        assert(ballots@.take(i + 1).drop_last() =~= ballots@.take(i as int));
        let ch = &ballots[i].choices;
        if ch.len() > 0 && ch[0] == c {
            n = n + 1;
        }
        i += 1;
    }
    assert(ballots@.take(i as int) =~= ballots@);
    n
}

fn second_exec(ch: &Vec<CandidateId>) -> (r: Allocatee)
    ensures
        r == second_of(ch@),
{
    if ch.len() >= 2 {
        Allocatee::Candidate(ch[1])
    } else {
        Allocatee::Exhausted
    }
}

fn count_alternate(ballots: &Vec<NormalizedBallot>, c: CandidateId, a: Allocatee) -> (r: u32)
    requires
        ballots@.len() <= u32::MAX,
    ensures
        r == alternate_count(ballots@, c, a),
{
    let mut n: u32 = 0;
    let mut i: usize = 0;
    while i < ballots.len()
        invariant
            i <= ballots@.len(),
            ballots@.len() <= u32::MAX,
            n == alternate_count(ballots@.take(i as int), c, a),
            n <= i,
        decreases ballots@.len() - i,
    {
        assert(ballots@.take(i + 1).drop_last() =~= ballots@.take(i as int));
        let ch = &ballots[i].choices;
        if ch.len() > 0 && ch[0] == c && second_exec(ch) == a {
            n = n + 1;
        }
        i += 1;
    }
    assert(ballots@.take(i as int) =~= ballots@);
    n
}

fn final_exec(ch: &Vec<CandidateId>, f: &Vec<CandidateId>) -> (r: Allocatee)
    ensures
        r == final_of(ch@, f@),
{
    let mut i: usize = 0;
    assert(ch@.skip(0) =~= ch@);
    while i < ch.len()
        invariant
            i <= ch@.len(),
            final_of(ch@, f@) == final_of(ch@.skip(i as int), f@),
        decreases ch@.len() - i,
    {
        assert(ch@.skip(i as int).drop_first() =~= ch@.skip(i + 1));
        assert(ch@.skip(i as int)[0] == ch@[i as int]);
        if contains_candidate(f, ch[i]) {
            return Allocatee::Candidate(ch[i]);
        }
        i += 1;
    }
    Allocatee::Exhausted
}

fn count_final(ballots: &Vec<NormalizedBallot>, c: CandidateId, f: &Vec<CandidateId>, a: Allocatee) -> (r: u32)
    requires
        ballots@.len() <= u32::MAX,
    ensures
        r == final_count(ballots@, c, f@, a),
{
    let mut n: u32 = 0;
    let mut i: usize = 0;
    while i < ballots.len()
        invariant
            i <= ballots@.len(),
            ballots@.len() <= u32::MAX,
            n == final_count(ballots@.take(i as int), c, f@, a),
            n <= i,
        decreases ballots@.len() - i,
    {
        assert(ballots@.take(i + 1).drop_last() =~= ballots@.take(i as int));
        let ch = &ballots[i].choices;
        if ch.len() > 0 && ch[0] == c && final_exec(ch, f) == a {
            n = n + 1;
        }
        i += 1;
    }
    assert(ballots@.take(i as int) =~= ballots@);
    n
}

/// One row of a crosstab: for each column, the ballots with first
/// preference `c` that go to that column, out of `total`.
fn crosstab_row(
    ballots: &Vec<NormalizedBallot>,
    c: CandidateId,
    cols: &Vec<Allocatee>,
    f: &Vec<CandidateId>,
    by_final: bool,
    total: u32,
) -> (r: Vec<Option<PairShare>>)
    requires
        ballots@.len() <= u32::MAX,
    ensures
        r@.len() == cols@.len(),
        forall|j: int|
            0 <= j < cols@.len() ==> #[trigger] r@[j] == share(
                if by_final {
                    final_count(ballots@, c, f@, cols@[j])
                } else {
                    alternate_count(ballots@, c, cols@[j])
                },
                total as nat,
            ),
{
    let mut row: Vec<Option<PairShare>> = Vec::new();
    let mut j: usize = 0;
    while j < cols.len()
        invariant
            ballots@.len() <= u32::MAX,
            j <= cols@.len(),
            row@.len() == j,
            forall|q: int|
                0 <= q < j ==> #[trigger] row@[q] == share(
                    if by_final {
                        final_count(ballots@, c, f@, cols@[q])
                    } else {
                        alternate_count(ballots@, c, cols@[q])
                    },
                    total as nat,
                ),
        decreases cols@.len() - j,
    {
        let count = if by_final {
            count_final(ballots, c, f, cols[j])
        } else {
            count_alternate(ballots, c, cols[j])
        };
        if count == 0 {
            row.push(None);
        } else {
            row.push(Some(PairShare { part: count, count: total }));
        }
        j += 1;
    }
    row
}

/// `t` is the first-alternate table of the ballots `bs` over the candidates
/// `c`: one row per candidate, one column per candidate and `Exhausted`; the
/// cell counts, among the ballots with that first choice, those with that
/// second choice (`Exhausted` when none).
pub open spec fn first_alternate_of(t: CandidatePairTable, c: Seq<CandidateId>, bs: Seq<NormalizedBallot>) -> bool {
    &&& t.rows@ == axis_of(c)
    &&& t.cols@ == axis_of(c).push(Allocatee::Exhausted)
    &&& t.entries@.len() == c.len()
    &&& forall|i: int| 0 <= i < c.len() ==> (#[trigger] t.entries@[i])@.len() == c.len() + 1
    &&& forall|i: int, j: int|
        0 <= i < c.len() && 0 <= j <= c.len() ==> (#[trigger] t.entries@[i]@[j]) == share(
            alternate_count(bs, c[i], t.cols@[j]),
            first_count(bs, c[i]),
        )
}

/// First choice against second choice: one row per candidate, one column
/// per candidate and `Exhausted`; the cell counts, among the ballots with
/// that first choice, those with that second choice (`Exhausted` when none).
pub fn generate_first_alternate(candidates: &Vec<CandidateId>, ballots: &Vec<NormalizedBallot>) -> (r: CandidatePairTable)
    requires
        ballots@.len() <= u32::MAX,
    ensures
        first_alternate_of(r, candidates@, ballots@),
{
    let rows = make_axis(candidates);
    let mut cols = make_axis(candidates);
    cols.push(Allocatee::Exhausted);
    let empty: Vec<CandidateId> = Vec::new();
    let n = candidates.len();
    let mut entries: Vec<Vec<Option<PairShare>>> = Vec::new();
    let mut i: usize = 0;
    while i < n
        invariant
            n == candidates@.len(),
            ballots@.len() <= u32::MAX,
            cols@.len() == n + 1,
            i <= n,
            entries@.len() == i,
            forall|k: int| 0 <= k < i ==> (#[trigger] entries@[k])@.len() == n + 1,
            forall|k: int, j: int|
                0 <= k < i && 0 <= j <= n ==> (#[trigger] entries@[k]@[j]) == share(
                    alternate_count(ballots@, candidates@[k], cols@[j]),
                    first_count(ballots@, candidates@[k]),
                ),
        decreases n - i,
    {
        let total = count_first(ballots, candidates[i]);
        let row = crosstab_row(ballots, candidates[i], &cols, &empty, false, total);
        entries.push(row);
        i += 1;
    }
    CandidatePairTable { rows, cols, entries }
}

/// `t` is the first-final table of the ballots `bs` over the candidates `c`
/// with finalists `f`: one row per candidate not in `f`, one column per
/// finalist and `Exhausted`; the cell counts, among the ballots with that
/// first choice, those whose highest-ranked finalist is that column
/// (`Exhausted` when none).
pub open spec fn first_final_of(
    t: CandidatePairTable,
    c: Seq<CandidateId>,
    f: Seq<CandidateId>,
    bs: Seq<NormalizedBallot>,
) -> bool {
    &&& t.rows@ == axis_of(split_by(c, f, false))
    &&& t.cols@ == axis_of(split_by(c, f, true)).push(Allocatee::Exhausted)
    &&& t.entries@.len() == t.rows@.len()
    &&& forall|i: int| 0 <= i < t.rows@.len() ==> (#[trigger] t.entries@[i])@.len() == t.cols@.len()
    &&& forall|i: int, j: int|
        0 <= i < t.rows@.len() && 0 <= j < t.cols@.len() ==> (#[trigger] t.entries@[i]@[j]) == share(
            final_count(bs, split_by(c, f, false)[i], f, t.cols@[j]),
            first_count(bs, split_by(c, f, false)[i]),
        )
}

/// The members of `candidates` in `f` (when `inside`) or not in `f`, in order.
fn split_candidates(candidates: &Vec<CandidateId>, f: &Vec<CandidateId>, inside: bool) -> (r: Vec<CandidateId>)
    ensures
        r@ == split_by(candidates@, f@, inside),
{
    let mut r: Vec<CandidateId> = Vec::new();
    let mut i: usize = 0;
    while i < candidates.len()
        invariant
            i <= candidates@.len(),
            r@ == split_by(candidates@.take(i as int), f@, inside),
        decreases candidates@.len() - i,
    {
        assert(candidates@.take(i + 1).drop_last() =~= candidates@.take(i as int));
        if contains_candidate(f, candidates[i]) == inside {
            r.push(candidates[i]);
        }
        i += 1;
    }
    assert(candidates@.take(i as int) =~= candidates@);
    r
}

/// First choice against final-round choice, for the ballots whose first
/// choice did not reach the final round: one row per candidate not in
/// `finalists`, one column per finalist and `Exhausted`; the cell counts,
/// among the ballots with that first choice, those whose highest-ranked
/// finalist is that column (`Exhausted` when none).
pub fn generate_first_final(
    candidates: &Vec<CandidateId>,
    ballots: &Vec<NormalizedBallot>,
    finalists: &Vec<CandidateId>,
) -> (r: CandidatePairTable)
    requires
        ballots@.len() <= u32::MAX,
    ensures
        first_final_of(r, candidates@, finalists@, ballots@),
{
    let losers = split_candidates(candidates, finalists, false);
    let winners = split_candidates(candidates, finalists, true);
    let rows = make_axis(&losers);
    let mut cols = make_axis(&winners);
    cols.push(Allocatee::Exhausted);
    let n = losers.len();
    let mut entries: Vec<Vec<Option<PairShare>>> = Vec::new();
    let mut i: usize = 0;
    while i < n
        invariant
            n == losers@.len(),
            ballots@.len() <= u32::MAX,
            i <= n,
            entries@.len() == i,
            forall|k: int| 0 <= k < i ==> (#[trigger] entries@[k])@.len() == cols@.len(),
            forall|k: int, j: int|
                0 <= k < i && 0 <= j < cols@.len() ==> (#[trigger] entries@[k]@[j]) == share(
                    final_count(ballots@, losers@[k], finalists@, cols@[j]),
                    first_count(ballots@, losers@[k]),
                ),
        decreases n - i,
    {
        let total = count_first(ballots, losers[i]);
        let row = crosstab_row(ballots, losers[i], &cols, finalists, true, total);
        entries.push(row);
        i += 1;
    }
    CandidatePairTable { rows, cols, entries }
}


/// A candidate's votes over the tabulation.
#[derive(Clone, Copy, Debug, PartialEq, Eq, Structural)]
pub struct CandidateVotes {
    pub candidate: CandidateId,
    /// Votes in the first round.
    pub first_round_votes: u32,
    /// Votes gained by transfers up to the last round that lists the candidate.
    pub transfer_votes: u32,
    /// The round whose transfers move the candidate's ballots, if any.
    pub round_eliminated: Option<u32>,
}

/// The votes of `c` in the allocation list `allocs`, if it is listed.
pub open spec fn votes_in(allocs: Seq<TabulatorAllocation>, c: CandidateId) -> Option<u32>
    decreases allocs.len(),
{
    if allocs.len() == 0 {
        None
    } else if allocs[0].allocatee == Allocatee::Candidate(c) {
        Some(allocs[0].votes)
    } else {
        votes_in(allocs.drop_first(), c)
    }
}

/// The votes of `c` in the last round after the first that lists it, or
/// `first` when none does.
pub open spec fn last_votes(rounds: Seq<TabulatorRound>, c: CandidateId, first: u32) -> u32
    decreases rounds.len(),
{
    if rounds.len() <= 1 {
        first
    } else {
        match votes_in(rounds.last().allocations@, c) {
            Some(v) => v,
            None => last_votes(rounds.drop_last(), c, first),
        }
    }
}

/// Whether some transfer of `ts` leaves `c`.
pub open spec fn leaves(ts: Seq<Transfer>, c: CandidateId) -> bool {
    exists|i: int| 0 <= i < ts.len() && (#[trigger] ts[i]).from == c
}

/// The index of the last round after the first whose transfers leave `c`.
pub open spec fn round_eliminated_of(rounds: Seq<TabulatorRound>, c: CandidateId) -> Option<u32>
    decreases rounds.len(),
{
    if rounds.len() <= 1 {
        None
    } else if leaves(rounds.last().transfers@, c) {
        Some((rounds.len() - 1) as u32)
    } else {
        round_eliminated_of(rounds.drop_last(), c)
    }
}

/// The summary of candidate `c`, who had `first` votes in the first round.
pub open spec fn candidate_votes_of(rounds: Seq<TabulatorRound>, c: CandidateId, first: u32) -> CandidateVotes {
    CandidateVotes {
        candidate: c,
        first_round_votes: first,
        transfer_votes: if last_votes(rounds, c, first) >= first {
            (last_votes(rounds, c, first) - first) as u32
        } else {
            0
        },
        round_eliminated: round_eliminated_of(rounds, c),
    }
}

fn find_votes(allocs: &Vec<TabulatorAllocation>, c: CandidateId) -> (r: Option<u32>)
    ensures
        r == votes_in(allocs@, c),
{
    let mut i: usize = 0;
    assert(allocs@.skip(0) =~= allocs@);
    while i < allocs.len()
        invariant
            i <= allocs@.len(),
            votes_in(allocs@, c) == votes_in(allocs@.skip(i as int), c),
        decreases allocs@.len() - i,
    {
        assert(allocs@.skip(i as int).drop_first() =~= allocs@.skip(i + 1));
        assert(allocs@.skip(i as int)[0] == allocs@[i as int]);
        if allocs[i].allocatee == Allocatee::Candidate(c) {
            return Some(allocs[i].votes);
        }
        i += 1;
    }
    None
}

fn any_leaves(ts: &Vec<Transfer>, c: CandidateId) -> (r: bool)
    ensures
        r == leaves(ts@, c),
{
    let mut i: usize = 0;
    while i < ts.len()
        invariant
            i <= ts@.len(),
            forall|k: int| 0 <= k < i ==> (#[trigger] ts@[k]).from != c,
        decreases ts@.len() - i,
    {
        if ts[i].from == c {
            return true;
        }
        i += 1;
    }
    false
}

fn summarize(rounds: &Vec<TabulatorRound>, c: CandidateId, first: u32) -> (r: CandidateVotes)
    requires
        1 <= rounds@.len() <= u32::MAX,
    ensures
        r == candidate_votes_of(rounds@, c, first),
{
    let mut last = first;
    let mut elim: Option<u32> = None;
    let mut k: usize = 1;
    assert(rounds@.take(1).len() == 1);
    while k < rounds.len()
        invariant
            1 <= k <= rounds@.len(),
            rounds@.len() <= u32::MAX,
            last == last_votes(rounds@.take(k as int), c, first),
            elim == round_eliminated_of(rounds@.take(k as int), c),
        decreases rounds@.len() - k,
    {
        assert(rounds@.take(k + 1).drop_last() =~= rounds@.take(k as int));
        assert(rounds@.take(k + 1).last() == rounds@[k as int]);
        match find_votes(&rounds[k].allocations, c) {
            Some(v) => {
                last = v;
            },
            None => {},
        }
        if any_leaves(&rounds[k].transfers, c) {
            elim = Some(k as u32);
        }
        k += 1;
    }
    assert(rounds@.take(k as int) =~= rounds@);
    let transfer_votes = if last >= first {
        last - first
    } else {
        0
    };
    CandidateVotes { candidate: c, first_round_votes: first, transfer_votes, round_eliminated: elim }
}

/// `r` summarizes the candidates of the first of `rounds`: one entry per
/// candidate, each with its first-round votes, the votes it gained by
/// transfers up to the last round that lists it, and the round whose
/// transfers moved its ballots; no candidate twice; ordered by descending
/// total, ties by ascending candidate id.
pub open spec fn total_votes_of(r: Seq<CandidateVotes>, rounds: Seq<TabulatorRound>) -> bool {
    &&& r.len() == round_votes(rounds[0]).len()
    &&& forall|i: int|
            0 <= i < r.len() ==> exists|j: int|
                0 <= j < round_votes(rounds[0]).len() && #[trigger] r[i] == candidate_votes_of(
                    rounds,
                    (#[trigger] round_votes(rounds[0])[j]).0,
                    round_votes(rounds[0])[j].1,
                )
    &&& forall|j: int|
            0 <= j < round_votes(rounds[0]).len() ==> exists|i: int|
                0 <= i < r.len() && #[trigger] r[i] == candidate_votes_of(
                    rounds,
                    (#[trigger] round_votes(rounds[0])[j]).0,
                    round_votes(rounds[0])[j].1,
                )
    &&& forall|i: int, j: int|
            0 <= i < j < r.len() ==> total_of(#[trigger] r[i]) > total_of(#[trigger] r[j]) || (total_of(r[i])
                == total_of(r[j]) && r[i].candidate.0 < r[j].candidate.0)
    &&& r.map_values(|v: CandidateVotes| v.candidate).no_duplicates()
}

/// Per-candidate vote totals: one entry for each candidate of the first
/// round, with its first-round votes, the votes it gained by transfers up
/// to the last round that lists it, and the round whose transfers moved its
/// ballots; ordered by descending total (first-round plus transferred
/// votes), ties by ascending candidate id.
#[verifier::rlimit(30)]
pub fn total_votes(rounds: &Vec<TabulatorRound>) -> (r: Vec<CandidateVotes>)
    requires
        1 <= rounds@.len() <= u32::MAX,
        rounds@[0].allocations@.len() >= 1,
        forall|i: int|
            0 <= i < rounds@[0].allocations@.len() - 1 ==> (#[trigger] rounds@[0].allocations@[i]).allocatee is Candidate,
        distinct_ids(round_votes(rounds@[0])),
    ensures
        total_votes_of(r@, rounds@),
{
    let ghost v0 = round_votes(rounds@[0]);
    let allocs = &rounds[0].allocations;
    let n = allocs.len() - 1;
    let mut entries: Vec<CandidateVotes> = Vec::new();
    let mut keyed: Vec<(CandidateId, u32)> = Vec::new();
    let mut i: usize = 0;
    while i < n
        invariant
            n == allocs@.len() - 1,
            allocs@ == rounds@[0].allocations@,
            v0 == round_votes(rounds@[0]),
            v0.len() == n,
            rounds@.len() <= u32::MAX,
            forall|q: int| 0 <= q < n ==> (#[trigger] allocs@[q]).allocatee is Candidate,
            distinct_ids(v0),
            i <= n,
            entries@.len() == i,
            keyed@.len() == i,
            1 <= rounds@.len(),
            forall|q: int| 0 <= q < i ==> #[trigger] entries@[q] == candidate_votes_of(rounds@, v0[q].0, v0[q].1),
            forall|q: int| 0 <= q < i ==> #[trigger] keyed@[q] == (v0[q].0, total_of(entries@[q]) as u32),
        decreases n - i,
    {
        assert(v0[i as int] == (allocs@[i as int].allocatee->Candidate_0, allocs@[i as int].votes));
        let c = match allocs[i].allocatee {
            Allocatee::Candidate(c) => c,
            Allocatee::Exhausted => CandidateId(0),
        };
        let e = summarize(rounds, c, allocs[i].votes);
        let total: u32 = e.first_round_votes + e.transfer_votes;
        entries.push(e);
        keyed.push((c, total));
        i += 1;
    }
    proof {
        assert forall|p: int, q: int| 0 <= p < q < keyed@.len() implies (#[trigger] keyed@[p]).0 != (
        #[trigger] keyed@[q]).0 by {
            assert(keyed@[p].0 == v0[p].0 && keyed@[q].0 == v0[q].0);
        }
    }
    let ghost kv = keyed@;
    let sorted = Allocations::new(keyed, 0);
    let mut r: Vec<CandidateVotes> = Vec::new();
    let mut k: usize = 0;
    while k < sorted.votes.len()
        invariant
            k <= sorted.votes@.len(),
            sorted.votes@.len() == n,
            entries@.len() == n,
            kv.len() == n,
            v0.len() == n,
            distinct_ids(v0),
            forall|p: (CandidateId, u32)|
                #![trigger sorted.votes@.contains(p)]
                #![trigger kv.contains(p)]
                sorted.votes@.contains(p) <==> kv.contains(p),
            forall|q: int| 0 <= q < n ==> #[trigger] entries@[q] == candidate_votes_of(rounds@, v0[q].0, v0[q].1),
            forall|q: int| 0 <= q < n ==> #[trigger] kv[q] == (v0[q].0, total_of(entries@[q]) as u32),
            r@.len() == k,
            forall|q: int|
                0 <= q < k ==> exists|j: int|
                    0 <= j < n && #[trigger] r@[q] == entries@[j] && kv[j] == sorted.votes@[q],
        decreases n - k,
    {
        let c = sorted.votes[k].0;
        let ghost jj: int;
        proof {
            assert(sorted.votes@.contains(sorted.votes@[k as int]));
            assert(kv.contains(sorted.votes@[k as int]));
            jj = choose|j: int| 0 <= j < n && kv[j] == sorted.votes@[k as int];
        }
        let mut j: usize = 0;
        while j < n && entries[j].candidate != c
            invariant
                j <= n,
                entries@.len() == n,
                0 <= jj < n,
                entries@[jj].candidate == c,
                forall|q: int| 0 <= q < j ==> (#[trigger] entries@[q]).candidate != c,
            decreases n - j,
        {
            j += 1;
        }
        proof {
            assert(j < n);
            assert(entries@[j as int].candidate == v0[j as int].0);
            assert(entries@[jj].candidate == v0[jj].0);
            if j as int != jj {
                if (j as int) < jj {
                    assert(v0[j as int].0 != v0[jj].0);
                } else {
                    assert(v0[jj].0 != v0[j as int].0);
                }
            }
        }
        r.push(entries[j]);
        proof {
            assert forall|q: int| 0 <= q < k + 1 implies exists|j2: int|
                0 <= j2 < n && #[trigger] r@[q] == entries@[j2] && kv[j2] == sorted.votes@[q] by {
                if q == k {
                    assert(r@[q] == entries@[jj]);
                }
            }
        }
        k += 1;
    }
    proof {
        assert forall|j: int| 0 <= j < v0.len() implies exists|i: int|
            0 <= i < r@.len() && #[trigger] r@[i] == candidate_votes_of(
                rounds@,
                (#[trigger] v0[j]).0,
                v0[j].1,
            ) by {
            assert(kv.contains(kv[j]));
            assert(sorted.votes@.contains(kv[j]));
            let q = choose|q: int| 0 <= q < n && sorted.votes@[q] == kv[j];
            let j2 = choose|j2: int| 0 <= j2 < n && #[trigger] r@[q] == entries@[j2] && kv[j2] == sorted.votes@[q];
            if j2 != j {
                if j2 < j {
                    assert(v0[j2].0 != v0[j].0);
                } else {
                    assert(v0[j].0 != v0[j2].0);
                }
            }
            assert(r@[q] == entries@[j]);
        }
        assert forall|i: int, j: int| 0 <= i < j < r@.len() implies total_of(#[trigger] r@[i]) > total_of(
            #[trigger] r@[j],
        ) || (total_of(r@[i]) == total_of(r@[j]) && r@[i].candidate.0 < r@[j].candidate.0) by {
            let a = choose|a: int| 0 <= a < n && #[trigger] r@[i] == entries@[a] && kv[a] == sorted.votes@[i];
            let b = choose|b: int| 0 <= b < n && #[trigger] r@[j] == entries@[b] && kv[b] == sorted.votes@[j];
            assert(sorted_votes(sorted.votes@));
            assert(crate::tabulator::ranks_before(sorted.votes@[i], sorted.votes@[j]));
        }
        let ids = r@.map_values(|v: CandidateVotes| v.candidate);
        assert forall|i: int, j: int| 0 <= i < ids.len() && 0 <= j < ids.len() && i != j implies ids[i] != ids[j] by {
            let (p, q) = if i < j { (i, j) } else { (j, i) };
            let a = choose|a: int| 0 <= a < n && #[trigger] r@[p] == entries@[a] && kv[a] == sorted.votes@[p];
            let b = choose|b: int| 0 <= b < n && #[trigger] r@[q] == entries@[b] && kv[b] == sorted.votes@[q];
            if ids[i] == ids[j] {
                assert(entries@[a].candidate == v0[a].0);
                assert(entries@[b].candidate == v0[b].0);
                if a != b {
                    if a < b {
                        assert(v0[a].0 != v0[b].0);
                    } else {
                        assert(v0[b].0 != v0[a].0);
                    }
                }
                assert(sorted_votes(sorted.votes@));
                assert(crate::tabulator::ranks_before(sorted.votes@[p], sorted.votes@[q]));
            }
        }
    }
    r
}

/// A candidate's total: first-round plus transferred votes.
pub open spec fn total_of(v: CandidateVotes) -> int {
    v.first_round_votes + v.transfer_votes
}


/// The report of one contest.
#[derive(Clone, Debug)]
pub struct ContestReport {
    pub info: ElectionInfo,
    pub ballot_count: u32,
    pub candidates: Vec<Candidate>,
    pub rounds: Vec<TabulatorRound>,
    pub winner: CandidateId,
    pub condorcet: Option<CandidateId>,
    /// Candidates that are not write-ins.
    pub num_candidates: u32,
    pub total_votes: Vec<CandidateVotes>,
    pub pairwise_preferences: CandidatePairTable,
    pub first_alternate: CandidatePairTable,
    pub first_final: CandidatePairTable,
    pub smith_set: Vec<CandidateId>,
}

impl ContestReport {
    /// Whether a Condorcet winner exists and differs from the IRV winner.
    pub fn is_non_condorcet(&self) -> (r: bool)
        ensures
            r == (self.condorcet is Some && self.condorcet != Some(self.winner)),
    {
        match self.condorcet {
            Some(c) => c != self.winner,
            None => false,
        }
    }
}

/// `a` and `b` hold the same metadata.
pub open spec fn same_info(a: ElectionInfo, b: ElectionInfo) -> bool {
    &&& a.name@ == b.name@
    &&& a.date@ == b.date@
    &&& a.data_format@ == b.data_format@
    &&& a.tabulation@ == b.tabulation@
    &&& a.office@ == b.office@
    &&& a.jurisdiction_path@ == b.jurisdiction_path@
    &&& a.election_path@ == b.election_path@
    &&& a.jurisdiction_name@ == b.jurisdiction_name@
    &&& a.office_name@ == b.office_name@
    &&& a.election_name@ == b.election_name@
    &&& match (a.loader_params, b.loader_params) {
        (None, None) => true,
        (Some(x), Some(y)) => x@.len() == y@.len() && forall|i: int|
            0 <= i < x@.len() ==> (#[trigger] x@[i]).0@ == y@[i].0@ && x@[i].1@ == y@[i].1@,
        _ => false,
    }
}

/// `a` and `b` list the same candidates in the same order.
pub open spec fn same_candidates(a: Seq<Candidate>, b: Seq<Candidate>) -> bool {
    a.len() == b.len() && forall|i: int|
        0 <= i < a.len() ==> (#[trigger] a[i]).name@ == b[i].name@ && a[i].write_in == b[i].write_in
}

fn copy_info(info: &ElectionInfo) -> (r: ElectionInfo)
    ensures
        same_info(r, *info),
{
    let loader_params = match &info.loader_params {
        None => None,
        Some(p) => {
            let mut v: Vec<(String, String)> = Vec::new();
            let mut i: usize = 0;
            while i < p.len()
                invariant
                    i <= p@.len(),
                    v@.len() == i,
                    forall|k: int| 0 <= k < i ==> (#[trigger] v@[k]).0@ == p@[k].0@ && v@[k].1@ == p@[k].1@,
                decreases p@.len() - i,
            {
                v.push((p[i].0.clone(), p[i].1.clone()));
                i += 1;
            }
            Some(v)
        },
    };
    ElectionInfo {
        name: info.name.clone(),
        date: info.date.clone(),
        data_format: info.data_format.clone(),
        tabulation: info.tabulation.clone(),
        office: info.office.clone(),
        loader_params,
        jurisdiction_path: info.jurisdiction_path.clone(),
        election_path: info.election_path.clone(),
        jurisdiction_name: info.jurisdiction_name.clone(),
        office_name: info.office_name.clone(),
        election_name: info.election_name.clone(),
    }
}

fn copy_candidates(c: &Vec<Candidate>) -> (r: Vec<Candidate>)
    ensures
        same_candidates(r@, c@),
{
    let mut r: Vec<Candidate> = Vec::new();
    let mut i: usize = 0;
    while i < c.len()
        invariant
            i <= c@.len(),
            r@.len() == i,
            forall|k: int| 0 <= k < i ==> (#[trigger] r@[k]).name@ == c@[k].name@ && r@[k].write_in == c@[k].write_in,
        decreases c@.len() - i,
    {
        r.push(Candidate::new(c[i].name.clone(), c[i].write_in));
        i += 1;
    }
    r
}

/// The number of candidates of `c` that are not write-ins.
pub open spec fn regular_count(c: Seq<Candidate>) -> nat
    decreases c.len(),
{
    if c.len() == 0 {
        0
    } else {
        regular_count(c.drop_last()) + if c.last().write_in {
            0nat
        } else {
            1nat
        }
    }
}

/// The beats relation of the ballots `bs` over the candidates `c`.
pub open spec fn beats_matrix(bs: Seq<NormalizedBallot>, c: Seq<CandidateId>) -> Seq<Seq<bool>> {
    Seq::new(
        c.len(),
        |i: int| Seq::new(c.len(), |j: int| pair_count(bs, c[i], c[j]) > pair_count(bs, c[j], c[i])),
    )
}

fn count_regular(c: &Vec<Candidate>) -> (r: u32)
    requires
        c@.len() <= u32::MAX,
    ensures
        r == regular_count(c@),
{
    let mut n: u32 = 0;
    let mut i: usize = 0;
    while i < c.len()
        invariant
            i <= c@.len(),
            c@.len() <= u32::MAX,
            n == regular_count(c@.take(i as int)),
            n <= i,
        decreases c@.len() - i,
    {
        assert(c@.take(i + 1).drop_last() =~= c@.take(i as int));
        if !c[i].write_in {
            n = n + 1;
        }
        i += 1;
    }
    assert(c@.take(i as int) =~= c@);
    n
}

proof fn lemma_pair_self(bs: Seq<NormalizedBallot>, a: CandidateId)
    ensures
        pair_count(bs, a, a) == 0,
    decreases bs.len(),
{
    if bs.len() > 0 {
        lemma_pair_self(bs.drop_last(), a);
        lemma_prefers_self(bs.last().choices@, a);
    }
}

proof fn lemma_prefers_self(ch: Seq<CandidateId>, a: CandidateId)
    ensures
        !prefers(ch, a, a),
    decreases ch.len(),
{
    if ch.len() > 0 {
        lemma_prefers_self(ch.drop_first(), a);
    }
}

/// The candidates listed in the allocation list `a`, in order.
pub open spec fn listed_ids(a: Seq<TabulatorAllocation>) -> Seq<CandidateId>
    decreases a.len(),
{
    if a.len() == 0 {
        Seq::empty()
    } else {
        match a.last().allocatee {
            Allocatee::Candidate(c) => listed_ids(a.drop_last()).push(c),
            Allocatee::Exhausted => listed_ids(a.drop_last()),
        }
    }
}

/// The candidates listed in the allocation of round `r`.
fn round_candidates(r: &TabulatorRound) -> (c: Vec<CandidateId>)
    ensures
        c@ == listed_ids(r.allocations@),
{
    let mut c: Vec<CandidateId> = Vec::new();
    let mut i: usize = 0;
    while i < r.allocations.len()
        invariant
            i <= r.allocations@.len(),
            c@ == listed_ids(r.allocations@.take(i as int)),
        decreases r.allocations@.len() - i,
    {
        assert(r.allocations@.take(i + 1).drop_last() =~= r.allocations@.take(i as int));
        if let Allocatee::Candidate(x) = r.allocations[i].allocatee {
            c.push(x);
        }
        i += 1;
    }
    assert(r.allocations@.take(i as int) =~= r.allocations@);
    c
}

/// `t` is the head-to-head table of the ballots `bs` over the candidates
/// `c`: for distinct positions `i` and `j`, the ballots that rank `c[i]`
/// above `c[j]` out of those that rank one above the other; absent on the
/// diagonal and where no ballot ranks either above the other.
pub open spec fn pairwise_table_of(t: CandidatePairTable, c: Seq<CandidateId>, bs: Seq<NormalizedBallot>) -> bool {
    &&& t.rows@ == axis_of(c)
    &&& t.cols@ == axis_of(c)
    &&& t.entries@.len() == c.len()
    &&& forall|i: int| 0 <= i < c.len() ==> (#[trigger] t.entries@[i])@.len() == c.len()
    &&& forall|i: int, j: int|
        0 <= i < c.len() && 0 <= j < c.len() ==> (#[trigger] t.entries@[i]@[j]) == if i == j {
            None
        } else {
            pair_entry(pair_count(bs, c[i], c[j]), pair_count(bs, c[j], c[i]))
        }
}

/// The pairwise table, the Smith set and the Condorcet winner of `ballots`
/// over `candidates`.
#[verifier::spinoff_prover]
fn pairwise_analysis(candidates: &Vec<CandidateId>, ballots: &Vec<NormalizedBallot>) -> (r: (
    CandidatePairTable,
    Vec<CandidateId>,
    Option<CandidateId>,
))
    requires
        ballots@.len() <= u32::MAX,
    ensures
        pairwise_table_of(r.0, candidates@, ballots@),
        r.1@ == select(candidates@, smith_members(beats_matrix(ballots@, candidates@), candidates@.len())),
        candidates@.no_duplicates() ==> r.1@.no_duplicates(),
        r.2 == if r.1@.len() == 1 {
            Some(r.1@[0])
        } else {
            None
        },
{
    let ghost bs = ballots@;
    let counts = generate_pairwise_counts(&candidates, ballots);
    proof {
        assert forall|a: int, b: int|
            0 <= a < candidates@.len() && 0 <= b < candidates@.len() implies counts.counts@[a]@[b]
            + counts.counts@[b]@[a] <= u32::MAX by {
            if candidates@[a] == candidates@[b] {
                lemma_pair_self(bs, candidates@[a]);
            } else {
                lemma_pairwise_antisymmetric(bs, candidates@[a], candidates@[b]);
            }
        }
    }
    let pairwise_preferences = generate_pairwise_preferences(&candidates, &counts);
    proof {
        assert forall|a: int, b: int|
            0 <= a < candidates@.len() && 0 <= b < candidates@.len() implies (
            #[trigger] pairwise_preferences.entries@[a]@[b]) == if a == b {
                None
            } else {
                pair_entry(pair_count(bs, candidates@[a], candidates@[b]), pair_count(bs, candidates@[b], candidates@[a]))
            } by {
            if candidates@[a] == candidates@[b] {
                lemma_pair_self(bs, candidates@[a]);
            } else {
                lemma_pairwise_antisymmetric(bs, candidates@[a], candidates@[b]);
            }
        }
    }
    let g = graph(&candidates, &counts);
    proof {
        assert(g@.map_values(|row: Vec<bool>| row@) =~= beats_matrix(bs, candidates@)) by {
            assert forall|a: int| 0 <= a < candidates@.len() implies g@.map_values(|row: Vec<bool>| row@)[a]
                =~= beats_matrix(bs, candidates@)[a] by {
                assert forall|b: int| 0 <= b < candidates@.len() implies g@[a]@[b] == beats_matrix(bs, candidates@)[a][b] by {}
            }
        }
    }
    let smith_set = smith_set(&candidates, &g);
    let condorcet = if smith_set.len() == 1 {
        Some(smith_set[0])
    } else {
        None
    };
    (pairwise_preferences, smith_set, condorcet)
}

/// Tabulates a preprocessed contest and assembles its report: the rounds,
/// the winner, the non-write-in candidate count, per-candidate totals, the
/// pairwise table, the Smith set and Condorcet winner, and both crosstabs,
/// over the candidates in the order of their totals.
#[verifier::spinoff_prover]
#[verifier::rlimit(100)]
pub fn generate_report(election: &ElectionPreprocessed) -> (r: Result<ContestReport, TabulateError>)
    requires
        election.ballots.candidates@.len() <= u32::MAX,
        total_len(views(election.ballots.ballots@)) < u32::MAX,
        election.ballots.ballots@.len() <= u32::MAX,
    ensures
        r is Err <==> forall|i: int|
            0 <= i < election.ballots.ballots@.len() ==> (#[trigger] election.ballots.ballots@[i]).choices@.len() == 0,
        r matches Ok(rep) ==> {
            let bs = election.ballots.ballots@;
            let order = rep.total_votes@.map_values(|v: CandidateVotes| v.candidate);
            let finalists = listed_ids(rep.rounds@.last().allocations@);
            &&& same_info(rep.info, election.info)
            &&& same_candidates(rep.candidates@, election.ballots.candidates@)
            &&& rep.ballot_count == bs.len()
            &&& is_tabulation(views(bs), rep.rounds@)
            &&& rep.rounds@.len() >= 1
            &&& is_final_round(rep.rounds@.last())
            &&& rep.winner == round_votes(rep.rounds@.last())[0].0
            &&& rep.num_candidates == regular_count(election.ballots.candidates@)
            &&& total_votes_of(rep.total_votes@, rep.rounds@)
            &&& pairwise_table_of(rep.pairwise_preferences, order, bs)
            &&& rep.smith_set@ == select(order, smith_members(beats_matrix(bs, order), order.len()))
            &&& rep.smith_set@.no_duplicates()
            &&& rep.condorcet == if rep.smith_set@.len() == 1 {
                Some(rep.smith_set@[0])
            } else {
                None
            }
            &&& first_alternate_of(rep.first_alternate, order, bs)
            &&& first_final_of(rep.first_final, order, finalists, bs)
        },
{
    let ballots = &election.ballots.ballots;
    let rounds = match tabulate(ballots) {
        Ok(rounds) => rounds,
        Err(e) => {
            return Err(e);
        },
    };
    let last = rounds.len() - 1;
    proof {
        assert(round_votes(rounds@[last as int]).len() > 0);
        assert(rounds@[last as int].allocations@[0] == rounds@[last as int].allocations@.take(
            rounds@[last as int].allocations@.len() - 1,
        )[0]);
    }
    let winner = winner(&rounds);
    let num_candidates = count_regular(&election.ballots.candidates);
    let total_votes = total_votes(&rounds);
    let mut candidates: Vec<CandidateId> = Vec::new();
    let mut i: usize = 0;
    while i < total_votes.len()
        invariant
            i <= total_votes@.len(),
            candidates@ == total_votes@.take(i as int).map_values(|v: CandidateVotes| v.candidate),
        decreases total_votes@.len() - i,
    {
        candidates.push(total_votes[i].candidate);
        i += 1;
        assert(candidates@ =~= total_votes@.take(i as int).map_values(|v: CandidateVotes| v.candidate));
    }
    assert(total_votes@.take(i as int) =~= total_votes@);
    assert(candidates@ == total_votes@.map_values(|v: CandidateVotes| v.candidate));
    let (pairwise_preferences, smith_set, condorcet) = pairwise_analysis(&candidates, ballots);
    let first_alternate = generate_first_alternate(&candidates, ballots);
    let finalists = round_candidates(&rounds[last]);
    let first_final = generate_first_final(&candidates, ballots, &finalists);
    Ok(
        ContestReport {
            info: copy_info(&election.info),
            ballot_count: ballots.len() as u32,
            candidates: copy_candidates(&election.ballots.candidates),
            rounds,
            winner,
            condorcet,
            num_candidates,
            total_votes,
            pairwise_preferences,
            first_alternate,
            first_final,
            smith_set,
        },
    )
}

} // verus!
