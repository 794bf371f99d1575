use rcv_tabulator::model::{
    Candidate, CandidateId, Choice, ElectionInfo, ElectionPreprocessed, NormalizedBallot, NormalizedElection,
};
use rcv_tabulator::report::{generate_report, winner, PairShare};
use rcv_tabulator::schema::{Allocatee, TabulatorAllocation, TabulatorRound, Transfer};
use rcv_tabulator::tabulator::{tabulate, Allocations, TabulateError, TabulatorState};

const A: CandidateId = CandidateId(0);
const B: CandidateId = CandidateId(1);
const C: CandidateId = CandidateId(2);
const D: CandidateId = CandidateId(3);

fn ballots(groups: &[(usize, &[CandidateId])]) -> Vec<NormalizedBallot> {
    let mut out = Vec::new();
    for (n, prefs) in groups {
        for _ in 0..*n {
            out.push(NormalizedBallot::new(format!("{}", out.len()), prefs.to_vec(), false));
        }
    }
    out
}

fn cand(c: CandidateId, votes: u32) -> TabulatorAllocation {
    TabulatorAllocation { allocatee: Allocatee::Candidate(c), votes }
}

fn exhausted(votes: u32) -> TabulatorAllocation {
    TabulatorAllocation { allocatee: Allocatee::Exhausted, votes }
}

fn total(round: &TabulatorRound) -> u32 {
    round.allocations.iter().map(|a| a.votes).sum()
}

#[test]
fn trivial_majority() {
    let bs = ballots(&[(3, &[A]), (1, &[B]), (1, &[C])]);
    let rounds = tabulate(&bs).unwrap();
    assert_eq!(1, rounds.len());
    assert_eq!(
        vec![cand(A, 3), cand(B, 1), cand(C, 1), exhausted(0)],
        rounds[0].allocations
    );
    assert!(rounds[0].transfers.is_empty());
    assert_eq!(5, rounds[0].continuing_ballots);
    assert_eq!(A, winner(&rounds));
}

#[test]
fn two_round_elimination() {
    let bs = ballots(&[(2, &[A, C]), (2, &[B, C]), (1, &[C, A])]);
    let rounds = tabulate(&bs).unwrap();
    assert_eq!(2, rounds.len());
    assert_eq!(
        vec![cand(A, 2), cand(B, 2), cand(C, 1), exhausted(0)],
        rounds[0].allocations
    );
    assert_eq!(vec![cand(A, 3), cand(B, 2), exhausted(0)], rounds[1].allocations);
    assert_eq!(
        vec![Transfer { from: C, to: Allocatee::Candidate(A), count: 1 }],
        rounds[1].transfers
    );
    assert_eq!(A, winner(&rounds));
}

#[test]
fn majority_over_all_others_ends_at_once() {
    let bs = ballots(&[(5, &[A]), (1, &[B]), (1, &[C])]);
    let rounds = tabulate(&bs).unwrap();
    assert_eq!(1, rounds.len());
    assert_eq!(A, winner(&rounds));
}

#[test]
fn overvote_exhaustion_rounds() {
    let mut bs = vec![NormalizedBallot::new("0".into(), vec![A], true)];
    bs.extend(ballots(&[(1, &[B]), (1, &[A])]));
    let rounds = tabulate(&bs).unwrap();
    assert_eq!(1, rounds.len());
    assert_eq!(vec![cand(A, 2), cand(B, 1), exhausted(0)], rounds[0].allocations);
    assert_eq!(A, winner(&rounds));
}

#[test]
fn non_condorcet_irv_winner() {
    let bs = ballots(&[(4, &[A, B, C]), (3, &[B, C, A]), (2, &[C, B, A])]);
    let rounds = tabulate(&bs).unwrap();
    assert_eq!(2, rounds.len());
    assert_eq!(
        vec![cand(A, 4), cand(B, 3), cand(C, 2), exhausted(0)],
        rounds[0].allocations
    );
    assert_eq!(vec![cand(B, 5), cand(A, 4), exhausted(0)], rounds[1].allocations);
    assert_eq!(
        vec![Transfer { from: C, to: Allocatee::Candidate(B), count: 2 }],
        rounds[1].transfers
    );
    assert_eq!(B, winner(&rounds));
}

#[test]
fn batch_elimination_of_two() {
    let bs = ballots(&[(5, &[A]), (4, &[B]), (1, &[C]), (1, &[D, A])]);
    let rounds = tabulate(&bs).unwrap();
    assert_eq!(2, rounds.len());
    assert_eq!(vec![cand(A, 6), cand(B, 4), exhausted(1)], rounds[1].allocations);
    assert_eq!(
        vec![
            Transfer { from: D, to: Allocatee::Candidate(A), count: 1 },
            Transfer { from: C, to: Allocatee::Exhausted, count: 1 },
        ],
        rounds[1].transfers
    );
    assert_eq!(1, rounds[1].undervote);
    assert_eq!(0, rounds[1].overvote);
    assert_eq!(10, rounds[1].continuing_ballots);
}

#[test]
fn tie_for_first_eliminates_higher_id() {
    let bs = ballots(&[(2, &[A]), (2, &[B])]);
    let rounds = tabulate(&bs).unwrap();
    assert_eq!(vec![cand(A, 2), cand(B, 2), exhausted(0)], rounds[0].allocations);
    assert_eq!(vec![cand(A, 2), exhausted(2)], rounds[1].allocations);
    assert_eq!(A, winner(&rounds));
}

#[test]
fn every_round_accounts_for_every_ballot() {
    let mut bs = ballots(&[(4, &[A, B, C]), (3, &[B, C]), (2, &[C]), (2, &[D, B]), (1, &[])]);
    bs.push(NormalizedBallot::new("x".into(), vec![], true));
    let rounds = tabulate(&bs).unwrap();
    for r in &rounds {
        assert_eq!(bs.len() as u32, total(r));
        assert_eq!(r.allocations.last().unwrap().votes, r.undervote + r.overvote);
    }
    assert_eq!(1, rounds[0].undervote);
    assert_eq!(1, rounds[0].overvote);
    let last = rounds.last().unwrap();
    let lead = last.allocations[0].votes;
    assert!(lead > last.continuing_ballots - lead);
}

#[test]
fn no_candidates_is_an_error() {
    let bs = ballots(&[(2, &[])]);
    assert_eq!(Err(TabulateError::NoCandidates), tabulate(&bs));
    assert_eq!(Err(TabulateError::NoCandidates), tabulate(&Vec::new()));
}

#[test]
fn allocations_order_and_final_test() {
    let a = Allocations::new(vec![(C, 2), (A, 5), (B, 2)], 1);
    assert_eq!(vec![(A, 5), (B, 2), (C, 2)], a.votes);
    assert_eq!(9, a.continuing());
    assert!(a.is_final());
    let v = a.to_vec();
    assert_eq!(vec![cand(A, 5), cand(B, 2), cand(C, 2), exhausted(1)], v);
    let b = Allocations::new(vec![(A, 4), (B, 4)], 0);
    assert!(!b.is_final());
}

#[test]
fn state_round_and_elimination() {
    let bs = ballots(&[(2, &[A, C]), (2, &[B, C]), (1, &[C, A])]);
    let s = TabulatorState::new(&bs);
    let round = s.as_round();
    assert_eq!(5, round.continuing_ballots);
    let s = s.do_elimination();
    assert_eq!(vec![C], s.eliminated);
    let counts = s.allocations();
    assert_eq!(vec![(A, 3), (B, 2)], counts.votes);
}

#[test]
fn allocatee_conversions() {
    assert_eq!(Allocatee::Candidate(B), Allocatee::from_choice(Choice::Vote(B)));
    assert_eq!(Allocatee::Exhausted, Allocatee::from_choice(Choice::Overvote));
    assert_eq!(Allocatee::Exhausted, Allocatee::from_choice(Choice::Undervote));
    assert_eq!(Some(C), Allocatee::Candidate(C).candidate_id());
    assert_eq!(None, Allocatee::Exhausted.candidate_id());
}

fn info() -> ElectionInfo {
    ElectionInfo {
        name: "Mayor".into(),
        date: "2026-01-01".into(),
        data_format: "simple_json".into(),
        tabulation: "irv".into(),
        office: "mayor".into(),
        loader_params: None,
        jurisdiction_path: "us/xx".into(),
        election_path: "us/xx/2026".into(),
        jurisdiction_name: "Somewhere".into(),
        office_name: "Mayor".into(),
        election_name: "General".into(),
    }
}

#[test]
fn report_for_non_condorcet_scenario() {
    let bs = ballots(&[(4, &[A, B, C]), (3, &[B, C, A]), (2, &[C, B, A])]);
    let election = ElectionPreprocessed {
        info: info(),
        ballots: NormalizedElection {
            candidates: vec![
                Candidate::new("A".into(), false),
                Candidate::new("B".into(), false),
                Candidate::new("C".into(), false),
                Candidate::new("W".into(), true),
            ],
            ballots: bs,
        },
    };
    let rep = generate_report(&election).unwrap();
    assert_eq!(9, rep.ballot_count);
    assert_eq!(3, rep.num_candidates);
    assert_eq!(B, rep.winner);
    assert_eq!(Some(B), rep.condorcet);
    assert_eq!(vec![B], rep.smith_set);
    assert!(!rep.is_non_condorcet());
    assert_eq!("Mayor", rep.info.name);
    assert_eq!("us/xx/2026", rep.info.election_path);
    assert_eq!(4, rep.candidates.len());
    assert_eq!("W", rep.candidates[3].name);
    assert!(rep.candidates[3].write_in);
    assert_eq!(2, rep.rounds.len());

    let order: Vec<CandidateId> = rep.total_votes.iter().map(|v| v.candidate).collect();
    assert_eq!(vec![B, A, C], order);
    assert_eq!(3, rep.total_votes[0].first_round_votes);
    assert_eq!(2, rep.total_votes[0].transfer_votes);
    assert_eq!(None, rep.total_votes[0].round_eliminated);
    assert_eq!(Some(1), rep.total_votes[2].round_eliminated);
    assert_eq!(0, rep.total_votes[2].transfer_votes);

    // Rows and columns follow `order`: B, A, C.
    let p = &rep.pairwise_preferences.entries;
    assert_eq!(None, p[0][0]);
    assert_eq!(Some(PairShare { part: 5, count: 9 }), p[0][1]);
    assert_eq!(Some(PairShare { part: 4, count: 9 }), p[1][0]);
    assert_eq!(Some(PairShare { part: 7, count: 9 }), p[0][2]);
    assert_eq!(Some(PairShare { part: 4, count: 9 }), p[1][2]);
    assert_eq!(Some(PairShare { part: 5, count: 9 }), p[2][1]);

    // First choice A (row 1) goes to B (col 0) on all four ballots.
    let fa = &rep.first_alternate;
    assert_eq!(4, fa.cols.len());
    assert_eq!(Allocatee::Exhausted, fa.cols[3]);
    assert_eq!(Some(PairShare { part: 4, count: 4 }), fa.entries[1][0]);
    assert_eq!(None, fa.entries[1][2]);
    assert_eq!(Some(PairShare { part: 3, count: 3 }), fa.entries[0][2]);

    let ff = &rep.first_final;
    assert_eq!(vec![Allocatee::Candidate(C)], ff.rows);
    assert_eq!(
        vec![Allocatee::Candidate(B), Allocatee::Candidate(A), Allocatee::Exhausted],
        ff.cols
    );
    assert_eq!(vec![Some(PairShare { part: 2, count: 2 }), None, None], ff.entries[0]);
}

#[test]
fn report_flags_non_condorcet_winner() {
    // A wins once B is eliminated, but B beats both A and C head to head.
    let bs = ballots(&[(4, &[A, B]), (4, &[C, B]), (2, &[B, A])]);
    let election = ElectionPreprocessed {
        info: info(),
        ballots: NormalizedElection {
            candidates: vec![
                Candidate::new("A".into(), false),
                Candidate::new("B".into(), false),
                Candidate::new("C".into(), false),
            ],
            ballots: bs,
        },
    };
    let rep = generate_report(&election).unwrap();
    assert_eq!(Some(B), rep.condorcet);
    assert_eq!(A, rep.winner);
    assert!(rep.is_non_condorcet());
}

#[test]
fn report_without_candidates_is_an_error() {
    let election = ElectionPreprocessed {
        info: info(),
        ballots: NormalizedElection { candidates: vec![], ballots: ballots(&[(1, &[])]) },
    };
    assert!(generate_report(&election).is_err());
}

#[test]
fn ballot_order_does_not_change_rounds() {
    let forward = ballots(&[(4, &[A, B, C]), (3, &[B, C, A]), (2, &[C, B, A]), (1, &[D, C])]);
    let mut backward = forward.clone();
    backward.reverse();
    backward.swap(0, 5);
    let r1 = tabulate(&forward).unwrap();
    let r2 = tabulate(&backward).unwrap();
    assert_eq!(r1, r2);
}

#[test]
fn condorcet_cycle_has_no_condorcet_winner() {
    let bs = ballots(&[(1, &[A, B, C]), (1, &[B, C, A]), (1, &[C, A, B])]);
    let election = ElectionPreprocessed {
        info: info(),
        ballots: NormalizedElection {
            candidates: vec![
                Candidate::new("A".into(), false),
                Candidate::new("B".into(), false),
                Candidate::new("C".into(), false),
            ],
            ballots: bs,
        },
    };
    let rep = generate_report(&election).unwrap();
    assert_eq!(A, rep.winner);
    assert_eq!(3, rep.smith_set.len());
    assert_eq!(None, rep.condorcet);
    assert!(!rep.is_non_condorcet());
}

#[test]
fn exhausted_transfers_account_for_every_ballot() {
    let bs = ballots(&[(5, &[A]), (4, &[B]), (1, &[C]), (1, &[D, A])]);
    let rounds = tabulate(&bs).unwrap();
    let to_exhausted: u32 = rounds[1]
        .transfers
        .iter()
        .filter(|t| t.to == Allocatee::Exhausted)
        .map(|t| t.count)
        .sum();
    assert_eq!(
        bs.len() as u32,
        rounds[1].continuing_ballots + rounds[0].undervote + rounds[0].overvote + to_exhausted
    );
}
