use urne::parser::parse_text;
use urne::types::Election;
use urne::vote::VotingAlgorithm;
use urne::vote::baldwin::Baldwin;
use urne::vote::borda::Borda;
use urne::vote::bucklin::Bucklin;
use urne::vote::copeland::Copeland;
use urne::vote::copeland_borda::CopelandBorda;
use urne::vote::irv::IRV;
use urne::vote::plurality::Plurality;
use urne::vote::schulze::{strongest_paths, Schulze};
use urne::vote::smith_irv::{pairwise_matrix, smith_set, SmithIRV};
use urne::vote::trs::Trs;

fn election(text: &str) -> Election {
    match parse_text(text) {
        Ok(e) => e,
        Err(err) => panic!("unexpected parse error: {:?}", err),
    }
}

fn all_methods() -> Vec<Box<dyn VotingAlgorithm>> {
    vec![
        Box::new(Plurality), Box::new(Trs), Box::new(IRV), Box::new(Borda), Box::new(Bucklin),
        Box::new(Baldwin), Box::new(Copeland), Box::new(CopelandBorda), Box::new(Schulze), Box::new(SmithIRV),
    ]
}

fn is_permutation(r: &Vec<usize>, n: usize) -> bool {
    let mut seen = vec![false; n];
    if r.len() != n {
        return false;
    }
    for &c in r.iter() {
        if c >= n || seen[c] {
            return false;
        }
        seen[c] = true;
    }
    true
}

#[test]
fn every_method_ranks_each_candidate_once() {
    let texts = [
        "A;B;C;D\nA>B>C>D\nB>C>A\nC>B>A\nD>C>B>A\nA>D\nB>A\nC>A>D\n",
        "A;B;C\nA>B>C\nA>B>C\nB>C>A\nB>C>A\nC>A>B\nC>A>B\nA>B>C\n",
        "P;Q;R;S;T\nT\nS>R\nQ>P>T\nR>S>T>P>Q\n",
    ];
    for t in texts.iter() {
        let e = election(t);
        for m in all_methods().iter() {
            assert!(is_permutation(&m.compute(&e).ranking, e.candidates.len()), "{}", m.name());
        }
    }
}

#[test]
fn majority_candidate_wins_majority_methods() {
    // B has 3 of 5 first places.
    let e = election("A;B;C\nB>A\nB\nA>C>B\nC>A\nB>C\n");
    assert_eq!(Plurality.compute(&e).ranking[0], 1);
    assert_eq!(Trs.compute(&e).ranking[0], 1);
    assert_eq!(IRV.compute(&e).ranking[0], 1);
    assert_eq!(Bucklin.compute(&e).ranking[0], 1);
    assert_eq!(Copeland.compute(&e).ranking[0], 1);
    assert_eq!(CopelandBorda.compute(&e).ranking[0], 1);
    assert_eq!(Schulze.compute(&e).ranking[0], 1);
    assert_eq!(SmithIRV.compute(&e).ranking[0], 1);
}

#[test]
fn condorcet_winner_wins_condorcet_methods() {
    // X wins every duel but has only 2 of 5 first places.
    let e = election("X;Y;Z;W\nY>X>Z\nX>Y>W\nZ>X\nW>X>Y\nX>Z>Y\n");
    assert_eq!(Copeland.compute(&e).ranking[0], 0);
    assert_eq!(CopelandBorda.compute(&e).ranking[0], 0);
    assert_eq!(Schulze.compute(&e).ranking[0], 0);
    assert_eq!(SmithIRV.compute(&e).ranking[0], 0);
}

#[test]
fn schulze_never_ranks_a_candidate_after_one_it_beats() {
    let e = election("A;B;C;D\nA>B>C>D\nB>C>A\nC>B>A\nD>C>B>A\nA>D\nB>A\nC>A>D\n");
    let p = urne::vote::schulze::strongest_paths(&e);
    let r = Schulze.compute(&e).ranking;
    for i in 0..r.len() {
        for j in (i + 1)..r.len() {
            assert!(!(p[r[j]][r[i]] > p[r[i]][r[j]]));
        }
    }
}

#[test]
fn smith_members_beat_outsiders() {
    let e = election("A;B;C;D\nA>B>C>D\nB>C>A\nC>B>A\nD>C>B>A\nA>D\nB>A\nC>A>D\n");
    let s = urne::vote::smith_irv::smith_set(&e);
    let w = urne::vote::smith_irv::pairwise_matrix(&e);
    for &b in s.iter() {
        for a in 0..e.candidates.len() {
            if !s.contains(&a) {
                assert!(w[b][a] > w[a][b]);
            }
        }
    }
}

#[test]
fn irv_ignores_the_order_of_ballots() {
    let e1 = election("A;B;C;D\nA>B\nB>C>A\nC>D\nD>C>B\nA>C\nB>A>D\nC\n");
    let e2 = election("A;B;C;D\nC\nB>A>D\nD>C>B\nA>B\nC>D\nA>C\nB>C>A\n");
    assert_eq!(IRV.compute(&e1).ranking, IRV.compute(&e2).ranking);
}

#[test]
fn plurality_winner_keeps_winning_with_one_more_first_place() {
    let e1 = election("A;B;C\nB>A\nA>C\nC>B\nB\nA\n");
    let w = Plurality.compute(&e1).ranking[0];
    assert_eq!(w, 0);
    let mut e2 = e1.clone();
    e2.ballots.push(urne::types::Ballot { ranking: vec![w, 2] });
    assert_eq!(Plurality.compute(&e2).ranking[0], w);
}

#[test]
fn duel_counts_add_over_ballot_lists() {
    let e1 = election("A;B;C\nA>B>C\nC>B\n");
    let e2 = election("A;B;C\nB>A\nC>A>B\nB\n");
    let mut e3 = e1.clone();
    e3.ballots.extend(e2.ballots.iter().cloned());
    let (m1, m2, m3) = (pairwise_matrix(&e1), pairwise_matrix(&e2), pairwise_matrix(&e3));
    for i in 0..3 {
        for j in 0..3 {
            assert_eq!(m3[i][j], m1[i][j] + m2[i][j]);
        }
    }
}

#[test]
fn written_election_reads_back() {
    let names = vec!["Jean Dupont", "Zoé", "B"];
    let ballots: Vec<Vec<usize>> = vec![vec![1, 0, 2], vec![2], vec![0, 2]];
    let mut text = names.join(";");
    text.push('\n');
    for b in ballots.iter() {
        let line: Vec<&str> = b.iter().map(|&c| names[c]).collect();
        text.push_str(&line.join(">"));
        text.push('\n');
    }
    let e = election(&text);
    assert_eq!(e.candidates, names.iter().map(|s| s.to_string()).collect::<Vec<String>>());
    let read: Vec<Vec<usize>> = e.ballots.iter().map(|b| b.ranking.clone()).collect();
    assert_eq!(read, ballots);
}

#[test]
fn smith_set_is_inside_every_dominating_set() {
    // A, B, C beat each other in a cycle and all beat D; {A, B, C} and {A, B, C, D} dominate.
    let e = election("A;B;C;D\nA>B>C>D\nB>C>A>D\nC>A>B>D\n");
    assert_eq!(smith_set(&e), vec![0, 1, 2]);
}

#[test]
fn strongest_path_is_the_width_of_a_path() {
    // A beats B by 2, B beats C by 4, A and C tie: the path A, B, C is 2 wide.
    let e = election("A;B;C\nA>B>C\nA>B>C\nA>B>C\nB>C>A\nB>C>A\nC>A>B\n");
    let p = strongest_paths(&e);
    assert_eq!(p[0][2], 2);
    assert_eq!(p[2][0], 0);
}

#[test]
fn baldwin_elects_condorcet_winner_on_full_ballots() {
    // C wins both of its duels, 4 to 2, while each candidate has two first places.
    let e = election("A;B;C\nA>C>B\nA>C>B\nB>C>A\nB>C>A\nC>B>A\nC>A>B\n");
    assert_eq!(Baldwin.compute(&e).ranking[0], 2);
}
