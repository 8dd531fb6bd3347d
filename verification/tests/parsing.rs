use urne::parser::{parse_text, ParseError};
use urne::types::Election;

fn ok(text: &str) -> Election {
    match parse_text(text) {
        Ok(e) => e,
        Err(err) => panic!("unexpected parse error: {:?}", err),
    }
}

fn rankings(e: &Election) -> Vec<Vec<usize>> {
    e.ballots.iter().map(|b| b.ranking.clone()).collect()
}

#[test]
fn parse_reads_names_and_ballots() {
    let e = ok("Alice;Bob;Carol\nBob>Alice\nCarol\n");
    assert_eq!(e.candidates, vec!["Alice".to_string(), "Bob".to_string(), "Carol".to_string()]);
    assert_eq!(rankings(&e), vec![vec![1, 0], vec![2]]);
}

#[test]
fn parse_trims_names_and_skips_blank_lines() {
    let e = ok("  Alice ; Bob;;\t\nBob >  Alice\n\n   \n Alice\r\n");
    assert_eq!(e.candidates, vec!["Alice".to_string(), "Bob".to_string()]);
    assert_eq!(rankings(&e), vec![vec![1, 0], vec![0]]);
}

#[test]
fn parse_accepts_crlf_and_no_final_newline() {
    let e = ok("A;B\r\nA>B\r\nB");
    assert_eq!(e.candidates, vec!["A".to_string(), "B".to_string()]);
    assert_eq!(rankings(&e), vec![vec![0, 1], vec![1]]);
}

#[test]
fn parse_keeps_non_ascii_names() {
    let e = ok("Élise;Zoé\nZoé>Élise\n");
    assert_eq!(e.candidates, vec!["Élise".to_string(), "Zoé".to_string()]);
    assert_eq!(rankings(&e), vec![vec![1, 0]]);
}

#[test]
fn parse_rejects_empty_text() {
    assert!(matches!(parse_text(""), Err(ParseError::EmptyFile)));
}

#[test]
fn parse_rejects_header_without_names() {
    assert!(matches!(parse_text("\nA>B\n"), Err(ParseError::NoCandidates)));
    assert!(matches!(parse_text(" ; ;\nA\n"), Err(ParseError::NoCandidates)));
}

#[test]
fn parse_rejects_duplicate_candidate() {
    assert!(matches!(parse_text("A;B; A\nA\n"), Err(ParseError::DuplicateCandidate)));
}

#[test]
fn parse_rejects_empty_name_in_ballot() {
    assert!(matches!(parse_text("A;B\nA>>B\n"), Err(ParseError::InvalidBallotSyntax)));
    assert!(matches!(parse_text("A;B\nA>\n"), Err(ParseError::InvalidBallotSyntax)));
}

#[test]
fn parse_rejects_repeated_candidate_in_ballot() {
    assert!(matches!(parse_text("A;B\nA>B>A\n"), Err(ParseError::RepeatedInBallot)));
}

#[test]
fn parse_rejects_unknown_candidate_and_names_it() {
    match parse_text("A;B\nA>Chloé \n") {
        Err(ParseError::UnknownCandidate(name)) => assert_eq!(name, "Chloé".to_string()),
        other => panic!("unexpected result: {:?}", other),
    }
}

#[test]
fn parse_rejects_text_without_ballots() {
    assert!(matches!(parse_text("A;B\n"), Err(ParseError::NoBallots)));
    assert!(matches!(parse_text("A;B\n  \n\n"), Err(ParseError::NoBallots)));
}

#[test]
fn parse_reports_first_fault() {
    assert!(matches!(parse_text("A;B\nA>A\nC\n"), Err(ParseError::RepeatedInBallot)));
    assert!(matches!(parse_text("A;B\nC\nA>A\n"), Err(ParseError::UnknownCandidate(_))));
}
