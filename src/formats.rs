//! The parts of raw-format reading that are pure data handling: mapping
//! external candidate ids to dense ids, recognizing data-format tags, and
//! the records of NIST SP 1500-103 cast-vote-record exports.

use crate::model::{CandidateId, Choice};
use crate::normalizers::str_equals;
use vstd::string::StrSliceExecFns;
use vstd::prelude::*;

verus! {

/// The dense id that `ext` maps to in `ids`, if any.
pub open spec fn lookup(ids: Seq<(u32, CandidateId)>, ext: u32) -> Option<CandidateId>
    decreases ids.len(),
{
    if ids.len() == 0 {
        None
    } else if ids.last().0 == ext {
        Some(ids.last().1)
    } else {
        lookup(ids.drop_last(), ext)
    }
}

/// `o` is no id, or an id below `n`.
pub open spec fn in_range(o: Option<CandidateId>, n: nat) -> bool {
    match o {
        Some(c) => (c.0 as nat) < n,
        None => true,
    }
}

/// Assigns dense candidate ids, in order of addition, to the candidates of
/// a raw format, which names them by external numbers.
pub struct CandidateMap {
    ids: Vec<(u32, CandidateId)>,
    candidates: Vec<crate::model::Candidate>,
}

impl CandidateMap {
    /// The dense id of each external id.
    pub closed spec fn id_map(&self) -> Seq<(u32, CandidateId)> {
        self.ids@
    }

    /// The candidates added so far; the one at index `i` has id `i`.
    pub closed spec fn candidate_list(&self) -> Seq<crate::model::Candidate> {
        self.candidates@
    }

    /// Every mapped id names an added candidate.
    pub open spec fn wf(&self) -> bool {
        forall|ext: u32| in_range(#[trigger] lookup(self.id_map(), ext), self.candidate_list().len())
    }

    pub fn new() -> (r: CandidateMap)
        ensures
            r.wf(),
            r.candidate_list().len() == 0,
            forall|ext: u32| #[trigger] lookup(r.id_map(), ext) is None,
    {
        CandidateMap { ids: Vec::new(), candidates: Vec::new() }
    }

    /// Adds a candidate under the next dense id, and maps `external_candidate_id` to it.
    pub fn add(&mut self, external_candidate_id: u32, candidate: crate::model::Candidate)
        requires
            old(self).wf(),
            old(self).candidate_list().len() < u32::MAX,
        ensures
            final(self).wf(),
            final(self).candidate_list() == old(self).candidate_list().push(candidate),
            lookup(final(self).id_map(), external_candidate_id) == Some(
                CandidateId(old(self).candidate_list().len() as u32),
            ),
            forall|ext: u32|
                ext != external_candidate_id ==> #[trigger] lookup(final(self).id_map(), ext) == lookup(
                    old(self).id_map(),
                    ext,
                ),
    {
        let id = CandidateId(self.candidates.len() as u32);
        let ghost before = self.ids@;
        self.ids.push((external_candidate_id, id));
        self.candidates.push(candidate);
        proof {
            assert(self.ids@.drop_last() =~= before);
            assert forall|ext: u32| in_range(#[trigger] lookup(self.ids@, ext), self.candidates@.len()) by {
                if ext != external_candidate_id {
                    assert(lookup(self.ids@, ext) == lookup(before, ext));
                }
            }
        }
    }

    /// The vote for the candidate that `external_candidate_id` names.
    pub fn id_to_choice(&self, external_candidate_id: u32) -> (r: Choice)
        requires
            lookup(self.id_map(), external_candidate_id) is Some,
        ensures
            r == Choice::Vote(lookup(self.id_map(), external_candidate_id)->Some_0),
    {
        let mut i: usize = self.ids.len();
        assert(self.ids@.take(i as int) =~= self.ids@);
        while i > 0 && self.ids[i - 1].0 != external_candidate_id
            invariant
                i <= self.ids@.len(),
                lookup(self.ids@, external_candidate_id) == lookup(self.ids@.take(i as int), external_candidate_id),
            decreases i,
        {
            assert(self.ids@.take(i as int).drop_last() =~= self.ids@.take(i - 1));
            i -= 1;
        }
        if i == 0 {
            proof {
                assert(self.ids@.take(0) =~= Seq::<(u32, CandidateId)>::empty());
            }
            return Choice::Vote(CandidateId(0));
        }
        proof {
            assert(self.ids@.take(i as int).last() == self.ids@[i - 1]);
        }
        Choice::Vote(self.ids[i - 1].1)
    }

    /// The vote for `external_candidate_id`, adding `candidate` under it
    /// first if it is not mapped yet.
    pub fn add_id_to_choice(&mut self, external_candidate_id: u32, candidate: crate::model::Candidate) -> (r: Choice)
        requires
            old(self).wf(),
            old(self).candidate_list().len() < u32::MAX,
        ensures
            final(self).wf(),
            lookup(old(self).id_map(), external_candidate_id) is Some ==> final(self).candidate_list()
                == old(self).candidate_list() && final(self).id_map() == old(self).id_map(),
            lookup(old(self).id_map(), external_candidate_id) is None ==> final(self).candidate_list()
                == old(self).candidate_list().push(candidate),
            r == Choice::Vote(lookup(final(self).id_map(), external_candidate_id)->Some_0),
            lookup(final(self).id_map(), external_candidate_id) is Some,
    {
        if !self.contains(external_candidate_id) {
            self.add(external_candidate_id, candidate);
        }
        self.id_to_choice(external_candidate_id)
    }

    /// Whether `external_candidate_id` is mapped.
    fn contains(&self, external_candidate_id: u32) -> (r: bool)
        ensures
            r == lookup(self.id_map(), external_candidate_id) is Some,
    {
        let mut i: usize = self.ids.len();
        assert(self.ids@.take(i as int) =~= self.ids@);
        while i > 0
            invariant
                i <= self.ids@.len(),
                lookup(self.ids@, external_candidate_id) == lookup(self.ids@.take(i as int), external_candidate_id),
            decreases i,
        {
            assert(self.ids@.take(i as int).drop_last() =~= self.ids@.take(i - 1));
            if self.ids[i - 1].0 == external_candidate_id {
                return true;
            }
            i -= 1;
        }
        assert(self.ids@.take(0) =~= Seq::<(u32, CandidateId)>::empty());
        false
    }

    /// The candidates, indexed by their dense ids.
    pub fn into_vec(self) -> (r: Vec<crate::model::Candidate>)
        ensures
            r@ == self.candidate_list(),
    {
        self.candidates
    }
}

/// The raw data formats that contests can be read from.
#[derive(Clone, Copy, Debug, PartialEq, Eq, Structural)]
pub enum DataFormat {
    UsCaSfo,
    NistSp1500,
    UsVtBtv,
    DominionRcr,
    UsMe,
}

/// The data format that the tag `format` names, if any.
pub open spec fn data_format_of(format: Seq<char>) -> Option<DataFormat> {
    if format == "us_ca_sfo"@ {
        Some(DataFormat::UsCaSfo)
    } else if format == "nist_sp_1500"@ {
        Some(DataFormat::NistSp1500)
    } else if format == "us_vt_btv"@ {
        Some(DataFormat::UsVtBtv)
    } else if format == "dominion_rcr"@ {
        Some(DataFormat::DominionRcr)
    } else if format == "us_me"@ {
        Some(DataFormat::UsMe)
    } else {
        None
    }
}

/// Looks up the raw data format named by a contest's format tag.
pub fn get_reader_for_format(format: &str) -> (r: Option<DataFormat>)
    ensures
        r == data_format_of(format@),
{
    proof {
        reveal_strlit("us_ca_sfo");
        reveal_strlit("nist_sp_1500");
        reveal_strlit("us_vt_btv");
        reveal_strlit("dominion_rcr");
        reveal_strlit("us_me");
    }
    if str_equals(format, "us_ca_sfo") {
        Some(DataFormat::UsCaSfo)
    } else if str_equals(format, "nist_sp_1500") {
        Some(DataFormat::NistSp1500)
    } else if str_equals(format, "us_vt_btv") {
        Some(DataFormat::UsVtBtv)
    } else if str_equals(format, "dominion_rcr") {
        Some(DataFormat::DominionRcr)
    } else if str_equals(format, "us_me") {
        Some(DataFormat::UsMe)
    } else {
        None
    }
}

/// One mark on a cast-vote record.
#[derive(Clone, Copy, Debug, PartialEq, Eq, Structural)]
pub struct Mark {
    pub candidate_id: u32,
    pub party_id: Option<u32>,
    pub rank: u32,
    pub mark_density: u32,
    pub is_ambiguous: bool,
    pub is_vote: bool,
}

/// The marks of one contest on a cast-vote record.
#[derive(Clone, Debug, PartialEq, Eq)]
pub struct ContestMarks {
    pub id: u32,
    pub marks: Vec<Mark>,
}

/// One card of a paper ballot.
#[derive(Clone, Debug, PartialEq, Eq)]
pub struct Card {
    pub id: u32,
    pub paper_index: u32,
    pub contests: Vec<ContestMarks>,
}

/// A ballot as scanned or as adjudicated; it lists its contests either
/// directly or by card.
#[derive(Clone, Debug, PartialEq, Eq)]
pub struct SessionBallot {
    pub precinct_portion_id: u32,
    pub ballot_type_id: u32,
    pub is_current: bool,
    pub contests: Option<Vec<ContestMarks>>,
    pub cards: Option<Vec<Card>>,
}

/// One cast-vote record: the ballot as scanned, and its adjudicated
/// version if there is one.
#[derive(Clone, Debug, PartialEq, Eq)]
pub struct Session {
    pub tabulator_id: u32,
    pub batch_id: u32,
    pub record_id: u32,
    pub counting_group_id: u32,
    pub image_mask: String,
    pub original: SessionBallot,
    pub modified: Option<SessionBallot>,
}

/// A cast-vote-record export.
#[derive(Clone, Debug, PartialEq, Eq)]
pub struct CvrExport {
    pub version: String,
    pub election_id: String,
    pub sessions: Vec<Session>,
}

/// How a candidate of a cast-vote-record export stands.
#[derive(Clone, Copy, Debug, PartialEq, Eq, Structural)]
pub enum CandidateType {
    WriteIn,
    Regular,
    QualifiedWriteIn,
}

/// A candidate of a cast-vote-record export.
#[derive(Clone, Debug, PartialEq, Eq)]
pub struct Candidate {
    pub description: String,
    pub id: u32,
    pub external_id: Option<String>,
    pub contest_id: u32,
    pub candidate_type: CandidateType,
}

/// The candidate list of a cast-vote-record export.
#[derive(Clone, Debug, PartialEq, Eq)]
pub struct CandidateManifest {
    pub version: String,
    pub list: Vec<Candidate>,
}

/// A contest of a cast-vote-record export.
#[derive(Clone, Debug, PartialEq, Eq)]
pub struct Contest {
    pub description: String,
    pub id: Option<u32>,
    pub external_id: Option<String>,
    pub vote_for: u32,
    pub num_of_ranks: u32,
}

/// The contest list of a cast-vote-record export.
#[derive(Clone, Debug, PartialEq, Eq)]
pub struct ContestManifest {
    pub version: String,
    pub list: Vec<Contest>,
}

/// The (id, marks) view of a list of contest marks.
pub open spec fn marks_view(c: Seq<ContestMarks>) -> Seq<(u32, Seq<Mark>)> {
    c.map_values(|m: ContestMarks| (m.id, m.marks@))
}

/// The contests of the cards `cards`, card by card.
pub open spec fn card_contests(cards: Seq<Card>) -> Seq<(u32, Seq<Mark>)>
    decreases cards.len(),
{
    if cards.len() == 0 {
        Seq::empty()
    } else {
        card_contests(cards.drop_last()) + marks_view(cards.last().contests@)
    }
}

impl Session {
    /// The ballot that counts: the adjudicated one if there is one.
    pub open spec fn counted(&self) -> SessionBallot {
        match self.modified {
            Some(b) => b,
            None => self.original,
        }
    }

    /// The ballot that counts: the adjudicated one if there is one.
    pub fn ballot(&self) -> (r: &SessionBallot)
        ensures
            *r == self.counted(),
    {
        match &self.modified {
            Some(b) => b,
            None => &self.original,
        }
    }

    /// The contests of the record: those listed on the scanned ballot if it
    /// lists them, else those of the cards of the counted ballot.
    pub fn contests(&self) -> (r: Vec<ContestMarks>)
        requires
            self.original.contests is Some || self.counted().cards is Some,
        ensures
            marks_view(r@) == match self.original.contests {
                Some(c) => marks_view(c@),
                None => card_contests(self.counted().cards->Some_0@),
            },
    {
        match &self.original.contests {
            Some(c) => copy_contests(c),
            None => {
                let cards = match &self.ballot().cards {
                    Some(cards) => cards,
                    None => {
                        return Vec::new();
                    },
                };
                let mut r: Vec<ContestMarks> = Vec::new();
                let mut i: usize = 0;
                while i < cards.len()
                    invariant
                        i <= cards@.len(),
                        marks_view(r@) == card_contests(cards@.take(i as int)),
                    decreases cards@.len() - i,
                {
                    let ghost before = r@;
                    let contests = &cards[i].contests;
                    let mut j: usize = 0;
                    while j < contests.len()
                        invariant
                            j <= contests@.len(),
                            marks_view(r@) == marks_view(before) + marks_view(contests@.take(j as int)),
                        decreases contests@.len() - j,
                    {
                        let ghost prev = r@;
                        r.push(copy_marks(&contests[j]));
                        proof {
                            assert(marks_view(r@) =~= marks_view(prev).push((contests@[j as int].id, contests@[j as int].marks@)));
                            assert(marks_view(contests@.take(j + 1)) =~= marks_view(contests@.take(j as int)).push(
                                (contests@[j as int].id, contests@[j as int].marks@),
                            ));
                        }
                        j += 1;
                    }
                    proof {
                        assert(contests@.take(j as int) =~= contests@);
                        assert(cards@.take(i + 1).drop_last() =~= cards@.take(i as int));
                    }
                    i += 1;
                }
                proof {
                    assert(cards@.take(i as int) =~= cards@);
                }
                r
            },
        }
    }
}

/// A copy of one contest's marks.
fn copy_marks(c: &ContestMarks) -> (r: ContestMarks)
    ensures
        r.id == c.id,
        r.marks@ == c.marks@,
{
    let mut marks: Vec<Mark> = Vec::new();
    let mut k: usize = 0;
    while k < c.marks.len()
        invariant
            k <= c.marks@.len(),
            marks@ == c.marks@.take(k as int),
        decreases c.marks@.len() - k,
    {
        marks.push(c.marks[k]);
        k += 1;
        assert(marks@ =~= c.marks@.take(k as int));
    }
    assert(c.marks@.take(k as int) =~= c.marks@);
    ContestMarks { id: c.id, marks }
}

/// A copy of a list of contest marks.
fn copy_contests(c: &Vec<ContestMarks>) -> (r: Vec<ContestMarks>)
    ensures
        marks_view(r@) == marks_view(c@),
{
    let mut r: Vec<ContestMarks> = Vec::new();
    let mut i: usize = 0;
    while i < c.len()
        invariant
            i <= c@.len(),
            marks_view(r@) == marks_view(c@.take(i as int)),
        decreases c@.len() - i,
    {
        let ghost prev = r@;
        r.push(copy_marks(&c[i]));
        proof {
            assert(marks_view(r@) =~= marks_view(prev).push((c@[i as int].id, c@[i as int].marks@)));
            assert(marks_view(c@.take(i + 1)) =~= marks_view(c@.take(i as int)).push((c@[i as int].id, c@[i as int].marks@)));
        }
        i += 1;
    }
    assert(c@.take(i as int) =~= c@);
    r
}


/// The text `s` split at its commas.
pub open spec fn split_commas(s: Seq<char>) -> Seq<Seq<char>>
    decreases s.len(),
{
    if s.len() == 0 {
        seq![Seq::empty()]
    } else {
        let prev = split_commas(s.drop_last());
        if s.last() == ',' {
            prev.push(Seq::empty())
        } else {
            prev.update(prev.len() - 1, prev.last().push(s.last()))
        }
    }
}

pub open spec fn is_digit(c: char) -> bool {
    '0' <= c <= '9'
}

/// The number that the decimal digits `d` write.
pub open spec fn digits_value(d: Seq<char>) -> int
    decreases d.len(),
{
    if d.len() == 0 {
        0
    } else {
        10 * digits_value(d.drop_last()) + (d.last() as int - '0' as int)
    }
}

/// A rank of a BTV ballot line: candidates joined by `=` (an overvote), or
/// `C` and the candidate's 1-based number.
pub open spec fn rank_ok(r: Seq<char>) -> bool {
    r.contains('=') || (r.len() >= 2 && r[0] == 'C' && (forall|k: int| 1 <= k < r.len() ==> is_digit(#[trigger] r[k]))
        && 1 <= digits_value(r.drop_first()) <= u32::MAX)
}

/// The choice that a well-formed rank records.
pub open spec fn rank_choice(r: Seq<char>) -> Choice {
    if r.contains('=') {
        Choice::Overvote
    } else {
        Choice::Vote(CandidateId((digits_value(r.drop_first()) - 1) as u32))
    }
}

proof fn lemma_split_grows(s: Seq<char>, i: int)
    requires
        0 <= i <= s.len(),
    ensures
        split_commas(s.take(i)).len() <= split_commas(s).len(),
        split_commas(s.take(i)).len() >= 1,
        forall|k: int|
            0 <= k < split_commas(s.take(i)).len() - 1 ==> #[trigger] split_commas(s.take(i))[k] == split_commas(s)[k],
    decreases s.len() - i,
{
    if i == s.len() {
        assert(s.take(i) =~= s);
        lemma_split_nonempty(s);
    } else {
        lemma_split_grows(s, i + 1);
        assert(s.take(i + 1).drop_last() =~= s.take(i));
        lemma_split_nonempty(s.take(i));
        let prev = split_commas(s.take(i));
        let next = split_commas(s.take(i + 1));
        assert(next.len() >= prev.len());
        assert forall|k: int| 0 <= k < prev.len() - 1 implies #[trigger] prev[k] == split_commas(s)[k] by {
            assert(next[k] == prev[k]);
        }
    }
}

proof fn lemma_split_nonempty(s: Seq<char>)
    ensures
        split_commas(s).len() >= 1,
    decreases s.len(),
{
    if s.len() > 0 {
        lemma_split_nonempty(s.drop_last());
    }
}

proof fn lemma_digits_prefix(d: Seq<char>, k: int)
    requires
        0 <= k <= d.len(),
        forall|q: int| 0 <= q < d.len() ==> is_digit(#[trigger] d[q]),
    ensures
        0 <= digits_value(d.take(k)) <= digits_value(d),
    decreases d.len() - k,
{
    if k == d.len() {
        assert(d.take(k) =~= d);
        lemma_digits_nonneg(d);
    } else {
        lemma_digits_prefix(d, k + 1);
        assert(d.take(k + 1).drop_last() =~= d.take(k));
        lemma_digits_nonneg(d.take(k));
    }
}

proof fn lemma_digits_nonneg(d: Seq<char>)
    requires
        forall|q: int| 0 <= q < d.len() ==> is_digit(#[trigger] d[q]),
    ensures
        digits_value(d) >= 0,
    decreases d.len(),
{
    if d.len() > 0 {
        lemma_digits_nonneg(d.drop_last());
    }
}

/// The choice that the well-formed rank `r` records.
fn rank_to_choice(r: &Vec<char>) -> (c: Choice)
    requires
        rank_ok(r@),
    ensures
        c == rank_choice(r@),
{
    let mut k: usize = 0;
    while k < r.len()
        invariant
            k <= r@.len(),
            forall|q: int| 0 <= q < k ==> r@[q] != '=',
        decreases r@.len() - k,
    {
        if r[k] == '=' {
            proof {
                assert(r@.contains('='));
            }
            return Choice::Overvote;
        }
        k += 1;
    }
    let ghost d = r@.drop_first();
    proof {
        assert forall|q: int| 0 <= q < d.len() implies is_digit(#[trigger] d[q]) by {
            assert(d[q] == r@[q + 1]);
        }
    }
    let mut value: u64 = 0;
    let mut i: usize = 1;
    while i < r.len()
        invariant
            1 <= i <= r@.len(),
            d == r@.drop_first(),
            forall|q: int| 0 <= q < d.len() ==> is_digit(#[trigger] d[q]),
            digits_value(d) <= u32::MAX,
            value == digits_value(d.take(i - 1)),
        decreases r@.len() - i,
    {
        proof {
            lemma_digits_prefix(d, i as int);
            assert(d.take(i as int).drop_last() =~= d.take(i - 1));
            assert(d.take(i as int).last() == r@[i as int]);
            assert(is_digit(d[i - 1]));
        }
        value = value * 10 + (r[i] as u64 - '0' as u64);
        i += 1;
    }
    proof {
        assert(d.take(i - 1) =~= d);
    }
    Choice::Vote(CandidateId((value - 1) as u32))
}

/// Parses the ranks of one ballot line of a BTV results file: the ranks are
/// separated by commas; a rank is `C` and the candidate's 1-based number,
/// or several candidates joined by `=` for an overvote. An empty line has no
/// ranks.
pub fn parse_ballot(source: &str) -> (r: Vec<Choice>)
    requires
        source@.len() == 0 || forall|k: int| 0 <= k < split_commas(source@).len() ==> rank_ok(#[trigger] split_commas(source@)[k]),
    ensures
        r@ == if source@.len() == 0 {
            Seq::empty()
        } else {
            split_commas(source@).map_values(|x: Seq<char>| rank_choice(x))
        },
{
    let n = source.unicode_len();
    if n == 0 {
        return Vec::new();
    }
    let ghost s = source@;
    let mut done: Vec<Choice> = Vec::new();
    let mut cur: Vec<char> = Vec::new();
    let mut i: usize = 0;
    while i < n
        invariant
            n == s.len(),
            s == source@,
            n > 0,
            i <= n,
            forall|k: int| 0 <= k < split_commas(s).len() ==> rank_ok(#[trigger] split_commas(s)[k]),
            done@ == split_commas(s.take(i as int)).drop_last().map_values(|x: Seq<char>| rank_choice(x)),
            cur@ == split_commas(s.take(i as int)).last(),
        decreases n - i,
    {
        let ch = source.get_char(i);
        let ghost prev = split_commas(s.take(i as int));
        proof {
            assert(s.take(i + 1).drop_last() =~= s.take(i as int));
            assert(s.take(i + 1).last() == ch);
            lemma_split_nonempty(s.take(i as int));
        }
        if ch == ',' {
            proof {
                lemma_split_grows(s, i + 1);
                assert(split_commas(s.take(i + 1)) == prev.push(Seq::empty()));
                assert(split_commas(s.take(i + 1))[prev.len() - 1] == prev.last());
                assert(prev.last() == split_commas(s)[prev.len() - 1]);
            }
            let c = rank_to_choice(&cur);
            done.push(c);
            cur = Vec::new();
            proof {
                assert(done@ =~= split_commas(s.take(i + 1)).drop_last().map_values(|x: Seq<char>| rank_choice(x)));
            }
        } else {
            cur.push(ch);
            proof {
                assert(split_commas(s.take(i + 1)).drop_last() =~= prev.drop_last());
            }
        }
        i += 1;
    }
    proof {
        assert(s.take(n as int) =~= s);
        lemma_split_nonempty(s);
        assert(split_commas(s).last() == split_commas(s)[split_commas(s).len() - 1]);
    }
    let c = rank_to_choice(&cur);
    done.push(c);
    proof {
        assert(done@ =~= split_commas(s).map_values(|x: Seq<char>| rank_choice(x)));
    }
    done
}

} // verus!
