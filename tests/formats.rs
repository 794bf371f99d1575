use rcv_tabulator::formats::{
    get_reader_for_format, parse_ballot, Card, CandidateMap, ContestMarks, DataFormat, Mark, Session, SessionBallot,
};
use rcv_tabulator::model::{Candidate, CandidateId, Choice};

#[test]
fn candidate_map_assigns_dense_ids() {
    let mut map = CandidateMap::new();
    map.add(17, Candidate::new("Ann".into(), false));
    map.add(4, Candidate::new("Bo".into(), false));
    assert_eq!(Choice::Vote(CandidateId(0)), map.id_to_choice(17));
    assert_eq!(Choice::Vote(CandidateId(1)), map.id_to_choice(4));
    let c = map.add_id_to_choice(9, Candidate::new("Write-in".into(), true));
    assert_eq!(Choice::Vote(CandidateId(2)), c);
    let again = map.add_id_to_choice(17, Candidate::new("Ann again".into(), false));
    assert_eq!(Choice::Vote(CandidateId(0)), again);
    let list = map.into_vec();
    assert_eq!(3, list.len());
    assert_eq!("Bo", list[1].name);
    assert!(list[2].write_in);
}

#[test]
fn data_format_tags() {
    assert_eq!(Some(DataFormat::UsCaSfo), get_reader_for_format("us_ca_sfo"));
    assert_eq!(Some(DataFormat::NistSp1500), get_reader_for_format("nist_sp_1500"));
    assert_eq!(Some(DataFormat::UsVtBtv), get_reader_for_format("us_vt_btv"));
    assert_eq!(Some(DataFormat::DominionRcr), get_reader_for_format("dominion_rcr"));
    assert_eq!(Some(DataFormat::UsMe), get_reader_for_format("us_me"));
    assert_eq!(None, get_reader_for_format("us_ny_nyc2"));
}

fn mark(candidate_id: u32, rank: u32) -> Mark {
    Mark {
        candidate_id,
        party_id: None,
        rank,
        mark_density: 100,
        is_ambiguous: false,
        is_vote: true,
    }
}

fn ballot(contests: Option<Vec<ContestMarks>>, cards: Option<Vec<Card>>) -> SessionBallot {
    SessionBallot { precinct_portion_id: 1, ballot_type_id: 2, is_current: true, contests, cards }
}

#[test]
fn session_prefers_adjudicated_ballot() {
    let original = ballot(None, Some(vec![]));
    let modified = ballot(
        None,
        Some(vec![
            Card { id: 1, paper_index: 0, contests: vec![ContestMarks { id: 5, marks: vec![mark(1, 1)] }] },
            Card { id: 2, paper_index: 1, contests: vec![ContestMarks { id: 6, marks: vec![mark(2, 1), mark(3, 2)] }] },
        ]),
    );
    let s = Session {
        tabulator_id: 1,
        batch_id: 1,
        record_id: 42,
        counting_group_id: 0,
        image_mask: "img".into(),
        original,
        modified: Some(modified.clone()),
    };
    assert_eq!(&modified, s.ballot());
    let contests = s.contests();
    assert_eq!(2, contests.len());
    assert_eq!(5, contests[0].id);
    assert_eq!(vec![mark(2, 1), mark(3, 2)], contests[1].marks);
}

#[test]
fn session_uses_listed_contests() {
    let listed = vec![ContestMarks { id: 9, marks: vec![mark(4, 1)] }];
    let s = Session {
        tabulator_id: 1,
        batch_id: 1,
        record_id: 7,
        counting_group_id: 0,
        image_mask: "img".into(),
        original: ballot(Some(listed.clone()), None),
        modified: None,
    };
    assert_eq!(listed, s.contests());
}

#[test]
fn test_parse_ballot() {
    assert_eq!(Vec::new() as Vec<Choice>, parse_ballot(""));

    assert_eq!(vec![Choice::Vote(CandidateId(3))], parse_ballot("C04"));

    assert_eq!(
        vec![Choice::Vote(CandidateId(3)), Choice::Vote(CandidateId(2))],
        parse_ballot("C04,C03")
    );

    assert_eq!(
        vec![Choice::Overvote, Choice::Vote(CandidateId(2))],
        parse_ballot("C04=C06,C03")
    );
}

#[test]
fn parse_ballot_multi_digit_ids() {
    assert_eq!(
        vec![Choice::Vote(CandidateId(11)), Choice::Vote(CandidateId(0)), Choice::Overvote],
        parse_ballot("C12,C1,C02=C03=C05")
    );
}
