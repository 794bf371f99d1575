use rcv_tabulator::model::{Ballot, Candidate, CandidateId, Choice, Election, NormalizedBallot};
use rcv_tabulator::normalizers::{
    get_normalizer_for_format, maine_normalizer, normalize_election, simple_normalizer, NormalizeError,
    Normalizer,
};

#[test]
fn simple_test_pass_through() {
    let c1 = Choice::Vote(CandidateId(1));
    let c2 = Choice::Vote(CandidateId(2));
    let c3 = Choice::Vote(CandidateId(3));
    let b = Ballot::new("1".into(), vec![c1, c2, c3]);

    let normalized = simple_normalizer(b);
    assert_eq!(
        vec![CandidateId(1), CandidateId(2), CandidateId(3)],
        normalized.choices()
    );
    assert_eq!(false, normalized.overvoted);
    assert_eq!("1", normalized.id);
}

#[test]
fn simple_test_remove_duplicate() {
    let c1 = Choice::Vote(CandidateId(1));
    let c2 = Choice::Vote(CandidateId(2));
    let b = Ballot::new("1".into(), vec![c1, c2, c1]);

    let normalized = simple_normalizer(b);
    assert_eq!(vec![CandidateId(1), CandidateId(2)], normalized.choices());
    assert_eq!(false, normalized.overvoted);
    assert_eq!("1", normalized.id);
}

#[test]
fn simple_test_remove_multiple() {
    let c1 = Choice::Vote(CandidateId(1));
    let b = Ballot::new("1".into(), vec![c1, c1, c1, c1]);

    let normalized = simple_normalizer(b);
    assert_eq!(vec![CandidateId(1)], normalized.choices());
    assert_eq!(false, normalized.overvoted);
    assert_eq!("1", normalized.id);
}

#[test]
fn simple_test_undervote() {
    let c1 = Choice::Vote(CandidateId(1));
    let c2 = Choice::Vote(CandidateId(2));
    let b = Ballot::new("1".into(), vec![c1, Choice::Undervote, c2]);

    let normalized = simple_normalizer(b);
    assert_eq!(vec![CandidateId(1), CandidateId(2)], normalized.choices());
    assert_eq!(false, normalized.overvoted);
    assert_eq!("1", normalized.id);
}

#[test]
fn simple_test_overvote() {
    let c1 = Choice::Vote(CandidateId(1));
    let c2 = Choice::Vote(CandidateId(2));
    let b = Ballot::new("1".into(), vec![c1, Choice::Overvote, c2]);

    let normalized = simple_normalizer(b);
    assert_eq!(vec![CandidateId(1)], normalized.choices());
    assert_eq!(true, normalized.overvoted);
    assert_eq!("1", normalized.id);
}

#[test]
fn maine_test_pass_through() {
    let c1 = Choice::Vote(CandidateId(1));
    let c2 = Choice::Vote(CandidateId(2));
    let c3 = Choice::Vote(CandidateId(3));
    let b = Ballot::new("1".into(), vec![c1, c2, c3]);

    assert_eq!(Ballot::new("1".into(), vec![c1, c2, c3]), maine_normalizer(b));
}

#[test]
fn maine_test_remove_duplicate() {
    let c1 = Choice::Vote(CandidateId(1));
    let c2 = Choice::Vote(CandidateId(2));
    let b = Ballot::new("1".into(), vec![c1, c2, c1]);

    assert_eq!(Ballot::new("1".into(), vec![c1, c2]), maine_normalizer(b));
}

#[test]
fn maine_test_remove_multiple() {
    let c1 = Choice::Vote(CandidateId(1));
    let b = Ballot::new("1".into(), vec![c1, c1, c1, c1]);

    assert_eq!(Ballot::new("1".into(), vec![c1]), maine_normalizer(b));
}

#[test]
fn maine_test_undervote() {
    let c1 = Choice::Vote(CandidateId(1));
    let c2 = Choice::Vote(CandidateId(2));
    let b = Ballot::new("1".into(), vec![c1, Choice::Undervote, c2]);

    assert_eq!(Ballot::new("1".into(), vec![c1, c2]), maine_normalizer(b));
}

#[test]
fn maine_test_overvote() {
    let c1 = Choice::Vote(CandidateId(1));
    let c2 = Choice::Vote(CandidateId(2));
    let b = Ballot::new("1".into(), vec![c1, Choice::Overvote, c2]);

    assert_eq!(
        Ballot::new("1".into(), vec![c1, Choice::Overvote]),
        maine_normalizer(b)
    );
}

#[test]
fn test_skipped_vote() {
    let c1 = Choice::Vote(CandidateId(1));
    let c2 = Choice::Vote(CandidateId(2));
    let b = Ballot::new("1".into(), vec![c1, Choice::Undervote, c2]);

    assert_eq!(Ballot::new("1".into(), vec![c1, c2]), maine_normalizer(b));
}

#[test]
fn test_two_skipped_vote() {
    let c1 = Choice::Vote(CandidateId(1));
    let c2 = Choice::Vote(CandidateId(2));
    let b = Ballot::new("1".into(), vec![c1, Choice::Undervote, Choice::Undervote, c2]);

    assert_eq!(
        Ballot::new("1".into(), vec![c1, Choice::Undervote]),
        maine_normalizer(b)
    );
}

#[test]
fn test_two_nonsequential_skipped_vote() {
    let c1 = Choice::Vote(CandidateId(1));
    let c2 = Choice::Vote(CandidateId(2));
    let c3 = Choice::Vote(CandidateId(3));
    let b = Ballot::new("1".into(), vec![c1, Choice::Undervote, c2, Choice::Undervote, c3]);

    assert_eq!(Ballot::new("1".into(), vec![c1, c2, c3]), maine_normalizer(b));
}

fn three_candidates() -> Vec<Candidate> {
    vec![
        Candidate::new("A".into(), false),
        Candidate::new("B".into(), false),
        Candidate::new("C".into(), false),
    ]
}

#[test]
fn normalizer_tags() {
    assert_eq!(Some(Normalizer::Simple), get_normalizer_for_format("simple"));
    assert_eq!(Some(Normalizer::Maine), get_normalizer_for_format("maine"));
    assert_eq!(None, get_normalizer_for_format("vermont"));
    assert_eq!(None, get_normalizer_for_format(""));
}

#[test]
fn overvote_exhaustion_simple() {
    let a = Choice::Vote(CandidateId(0));
    let b = Choice::Vote(CandidateId(1));
    let e = Election::new(
        three_candidates(),
        vec![
            Ballot::new("1".into(), vec![a, Choice::Overvote, b]),
            Ballot::new("2".into(), vec![b]),
            Ballot::new("3".into(), vec![a]),
        ],
    );
    let n = normalize_election("simple", e).unwrap();
    assert_eq!(3, n.candidates.len());
    assert_eq!(vec![CandidateId(0)], n.ballots[0].choices());
    assert!(n.ballots[0].overvoted);
    assert_eq!(vec![CandidateId(1)], n.ballots[1].choices());
    assert!(!n.ballots[1].overvoted);
    assert_eq!("3", n.ballots[2].id);
}

#[test]
fn maine_double_skip() {
    let a = Choice::Vote(CandidateId(0));
    let b = Choice::Vote(CandidateId(1));
    let e = Election::new(
        three_candidates(),
        vec![Ballot::new("1".into(), vec![a, Choice::Undervote, Choice::Undervote, b])],
    );
    let n = normalize_election("maine", e).unwrap();
    assert_eq!(vec![CandidateId(0)], n.ballots[0].choices());
    assert!(!n.ballots[0].overvoted);
}

#[test]
fn maine_overvote_sets_flag() {
    let a = Choice::Vote(CandidateId(0));
    let b = Choice::Vote(CandidateId(1));
    let e = Election::new(
        three_candidates(),
        vec![Ballot::new("1".into(), vec![a, Choice::Overvote, b])],
    );
    let n = normalize_election("maine", e).unwrap();
    assert_eq!(vec![CandidateId(0)], n.ballots[0].choices());
    assert!(n.ballots[0].overvoted);
}

#[test]
fn unknown_normalizer_is_an_error() {
    let e = Election::new(three_candidates(), vec![]);
    match normalize_election("nyc", e) {
        Err(NormalizeError::UnknownNormalizer(tag)) => assert_eq!("nyc", tag),
        _ => panic!("expected an unknown normalizer error"),
    }
}

#[test]
fn out_of_range_candidate_is_an_error() {
    let e = Election::new(
        three_candidates(),
        vec![
            Ballot::new("1".into(), vec![Choice::Vote(CandidateId(1))]),
            Ballot::new("2".into(), vec![Choice::Undervote, Choice::Vote(CandidateId(7))]),
        ],
    );
    match normalize_election("simple", e) {
        Err(NormalizeError::CandidateOutOfRange { ballot, candidate }) => {
            assert_eq!(1, ballot);
            assert_eq!(CandidateId(7), candidate);
        }
        _ => panic!("expected an out-of-range error"),
    }
}

#[test]
fn normalizing_twice_changes_nothing() {
    let a = Choice::Vote(CandidateId(0));
    let c = Choice::Vote(CandidateId(2));
    let once = simple_normalizer(Ballot::new("9".into(), vec![c, a, c, Choice::Overvote, a]));
    let mut marks: Vec<Choice> = once.choices().into_iter().map(Choice::Vote).collect();
    if once.overvoted {
        marks.push(Choice::Overvote);
    }
    let twice = simple_normalizer(Ballot::new(once.id.clone(), marks));
    assert_eq!(once, twice);
}

#[test]
fn normalized_ballot_top_vote() {
    let b = NormalizedBallot::new("1".into(), vec![CandidateId(2), CandidateId(0)], true);
    assert_eq!(Choice::Vote(CandidateId(2)), b.top_vote());
    let b = b.pop_top_vote();
    assert_eq!(Choice::Vote(CandidateId(0)), b.top_vote());
    let b = b.pop_top_vote();
    assert_eq!(Choice::Overvote, b.top_vote());
    let b = b.pop_top_vote();
    assert_eq!(Choice::Overvote, b.top_vote());
    let u = NormalizedBallot::new("2".into(), vec![], false);
    assert_eq!(Choice::Undervote, u.top_vote());
}
