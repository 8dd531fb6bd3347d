use urne::parser::parse_text;
use urne::types::Election;
use urne::vote::smith_irv::{condorcet_winner, pairwise_matrix, smith_set};
use urne::vote::VotingAlgorithm;
use urne::vote::baldwin::Baldwin;
use urne::vote::borda::Borda;
use urne::vote::bucklin::Bucklin;
use urne::vote::copeland::Copeland;
use urne::vote::copeland_borda::CopelandBorda;
use urne::vote::irv::IRV;
use urne::vote::plurality::Plurality;
use urne::vote::schulze::{strongest_paths, Schulze};
use urne::vote::smith_irv::SmithIRV;
use urne::vote::trs::Trs;

fn election(text: &str) -> Election {
    match parse_text(text) {
        Ok(e) => e,
        Err(err) => panic!("unexpected parse error: {:?}", err),
    }
}

#[test]
fn duel_matrix_counts_preferences() {
    let e = election("A;B;C\nA>B>C\nB>C\nC\n");
    assert_eq!(pairwise_matrix(&e), vec![vec![0, 1, 1], vec![1, 0, 2], vec![2, 1, 0]]);
}

#[test]
fn condorcet_winner_found_and_missing() {
    let wins = vec![vec![0, 3, 4], vec![2, 0, 2], vec![1, 2, 0]];
    assert_eq!(condorcet_winner(&wins, &[0, 1, 2]), Some(0));
    assert_eq!(condorcet_winner(&wins, &[1, 2]), None);
    let cycle = vec![vec![0, 5, 3], vec![2, 0, 5], vec![4, 2, 0]];
    assert_eq!(condorcet_winner(&cycle, &[0, 1, 2]), None);
    assert_eq!(condorcet_winner(&cycle, &[2]), Some(2));
}

#[test]
fn smith_set_of_cycle_and_of_condorcet_winner() {
    let cycle = election("A;B;C\nA>B>C\nA>B>C\nB>C>A\nB>C>A\nC>A>B\nC>A>B\nA>B>C\n");
    assert_eq!(smith_set(&cycle), vec![0, 1, 2]);
    let cond = election("X;Y;Z;W\nY>X>Z\nX>Y>W\nZ>X\nW>X>Y\nX>Z>Y\n");
    assert_eq!(smith_set(&cond), vec![0]);
    let pair = election("A;B;C;D\nA>B>C>D\nB>C>A\nC>B>A\nD>C>B>A\nA>D\nB>A\nC>A>D\n");
    assert_eq!(smith_set(&pair), vec![1, 2]);
}

#[test]
fn strongest_paths_use_margins() {
    let mut text = String::from("A;B;C;D;E\n");
    let groups: [(&str, usize); 8] = [
        ("A>C>B>E>D", 5), ("A>D>E>C>B", 5), ("B>E>D>A>C", 8), ("C>A>B>E>D", 3),
        ("C>A>E>B>D", 7), ("C>B>A>D>E", 2), ("D>C>E>B>A", 7), ("E>B>A>D>C", 8),
    ];
    for (b, k) in groups.iter() {
        for _ in 0..*k {
            text.push_str(b);
            text.push('\n');
        }
    }
    let e = election(&text);
    let p = strongest_paths(&e);
    assert_eq!(p, vec![
        vec![0, 11, 11, 15, 3],
        vec![5, 0, 11, 21, 3],
        vec![5, 13, 0, 13, 3],
        vec![5, 11, 11, 0, 3],
        vec![5, 11, 11, 17, 0],
    ]);
    assert_eq!(Schulze.compute(&e).ranking[0], 4);
}

#[test]
fn method_names() {
    assert_eq!(Plurality.name(), "Plurality");
    assert_eq!(Trs.name(), "TRS");
    assert_eq!(IRV.name(), "IRV");
    assert_eq!(Borda.name(), "Borda");
    assert_eq!(Bucklin.name(), "Bucklin");
    assert_eq!(Baldwin.name(), "Baldwin");
    assert_eq!(Copeland.name(), "Copeland");
    assert_eq!(CopelandBorda.name(), "Copeland+Borda");
    assert_eq!(Schulze.name(), "Schulze");
    assert_eq!(SmithIRV.name(), "Smith+IRV");
}

#[test]
fn single_candidate_wins_everywhere() {
    let e = election("Solo\nSolo\n");
    let methods: Vec<Box<dyn VotingAlgorithm>> = vec![
        Box::new(Plurality), Box::new(Trs), Box::new(IRV), Box::new(Borda), Box::new(Bucklin),
        Box::new(Baldwin), Box::new(Copeland), Box::new(CopelandBorda), Box::new(Schulze), Box::new(SmithIRV),
    ];
    for m in methods.iter() {
        assert_eq!(m.compute(&e).ranking, vec![0]);
    }
}

#[test]
fn borda_gives_first_place_n_minus_one_points() {
    // A: 2 (first of 3), B: 2 (first of 3), C: 1 (second of 3); the tie A, B goes by name.
    let e = election("A;B;C\nA\nB>C\n");
    assert_eq!(Borda.compute(&e).ranking, vec![0, 1, 2]);
    // C is named on both ballots, low: B 2 + 1, C 1 + 0, A 0 + 2.
    let f = election("A;B;C\nB>C\nA>B>C\n");
    assert_eq!(Borda.compute(&f).ranking, vec![1, 0, 2]);
}

#[test]
fn bucklin_counts_places_until_majority() {
    // No first-place majority (1 of 3 each); with second places B has 3, A 1, C 2.
    let e = election("A;B;C\nA>B\nB>C\nC>B\n");
    assert_eq!(Bucklin.compute(&e).ranking, vec![1, 2, 0]);
}

#[test]
fn irv_breaks_ties_towards_greater_index() {
    // A and B tie with one ballot each: B (greater index) is eliminated.
    let e = election("A;B\nA\nB\n");
    assert_eq!(IRV.compute(&e).ranking, vec![0, 1]);
}

#[test]
fn trs_runoff_between_two_leaders() {
    // First round: A 2, B 2, C 1, D 2 -> no majority; A and B lead (by name), B wins 4 to 2.
    let e = election("A;B;C;D\nA>B\nA>C\nB>C\nB>A\nC>B\nD>B\nD>C\n");
    assert_eq!(Trs.compute(&e).ranking, vec![1, 0, 3, 2]);
}
