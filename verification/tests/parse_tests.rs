use solver::{parse_dimacs_file, solve, Formula, State};

#[test]
fn reads_comments_declaration_and_clauses() {
    let text = "c a small instance\nc with two comment lines\np cnf 2 2\n1 2 0\n-1 0\n";
    let f = parse_dimacs_file(text).expect("well formed");
    assert_eq!(f.clauses(), &vec![vec![1, 2], vec![-1]]);
    assert_eq!(f.assignments(), &Vec::<isize>::new());
}

#[test]
fn declaration_line_is_skipped_by_position_only() {
    // whatever stands on the first non-comment line is not read
    let f = parse_dimacs_file("not a real declaration\n1 0\n").expect("well formed");
    assert_eq!(f.clauses(), &vec![vec![1]]);
}

#[test]
fn empty_document_has_no_clauses() {
    let f = parse_dimacs_file("").expect("well formed");
    assert_eq!(f.clauses(), &Vec::<Vec<isize>>::new());
}

#[test]
fn tokens_after_the_zero_sentinel_are_ignored() {
    let f = parse_dimacs_file("p cnf 3 1\n1 -2 0 junk\n").expect("well formed");
    assert_eq!(f.clauses(), &vec![vec![1, -2]]);
}

#[test]
fn line_without_sentinel_still_ends_the_clause() {
    let f = parse_dimacs_file("p cnf 2 1\n1 -2\n").expect("well formed");
    assert_eq!(f.clauses(), &vec![vec![1, -2]]);
}

#[test]
fn carriage_returns_are_stripped() {
    let f = parse_dimacs_file("c x\r\np cnf 1 1\r\n1 0\r\n").expect("well formed");
    assert_eq!(f.clauses(), &vec![vec![1]]);
}

#[test]
fn malformed_token_reports_the_offending_line() {
    let e = parse_dimacs_file("p cnf 2 2\n1 2 0\n1 x 0\n").expect_err("bad token");
    let line: String = e.line.iter().collect();
    assert_eq!(line, "1 x 0");
}

#[test]
fn overflowing_literal_is_an_error() {
    let e = parse_dimacs_file("p\n99999999999999999999999999 0\n").expect_err("too large");
    let line: String = e.line.iter().collect();
    assert_eq!(line, "99999999999999999999999999 0");
}

#[test]
fn signed_literals_parse_to_their_values() {
    let f = parse_dimacs_file("p\n+1 -2 0\n").expect("well formed");
    assert_eq!(f.clauses(), &vec![vec![1, -2]]);
}

#[test]
fn empty_lines_become_empty_clauses() {
    let f = parse_dimacs_file("p cnf 1 1\n\n1 0\n").expect("well formed");
    assert_eq!(f.clauses(), &vec![vec![], vec![1]]);
}

#[test]
fn parsed_formula_runs_through_the_solver() {
    let text = "c solvable\np cnf 2 2\n1 2 0\n-1 2 0\n";
    let f = parse_dimacs_file(text).expect("well formed");
    assert!(f.literals_ok());
    let mut state = State::default();
    let r = solve(&mut state, f);
    let a = r.expect("satisfiable");
    assert!(a.contains(&2));
}

#[test]
fn all_comment_document_has_no_clauses() {
    let f: Formula = parse_dimacs_file("c only\nc comments\n").expect("well formed");
    assert_eq!(f.clauses(), &Vec::<Vec<isize>>::new());
}
