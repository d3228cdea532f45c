use rustsat::dimacs::{lits_of_dimacs, parse_dimacs};
use rustsat::solver::Solver;
use rustsat::types::Value;

fn parse(text: &str) -> Option<(usize, usize, Vec<Vec<i64>>)> {
    parse_dimacs(&text.as_bytes().to_vec())
}

#[test]
fn s5_dimacs_round_trip() {
    let text = "p cnf 3 2\n1 -2 0\n2 3 0\n";
    let (n_var, n_clause, clauses) = parse(text).expect("well-formed input");
    assert_eq!(n_var, 3);
    assert_eq!(n_clause, 2);
    assert_eq!(clauses, vec![vec![1, -2], vec![2, 3]]);

    let lits = lits_of_dimacs(n_var, &clauses).expect("literals in range");
    let mut solver = Solver::new();
    for _ in 0..n_var {
        let _ = solver.new_var();
    }
    for cl in lits {
        assert!(solver.add_clause(cl));
    }
    assert!(solver.solve());
    let model = solver.assignment();
    let sat = |x: i64| {
        let v = model[(x.abs() - 1) as usize];
        if x > 0 {
            v == Value::True
        } else {
            v == Value::False
        }
    };
    for cl in &clauses {
        assert!(cl.iter().any(|&x| sat(x)));
    }
}

#[test]
fn crlf_line_endings_are_accepted() {
    let r = parse("p cnf 2 1\r\n1 2 0\r\n");
    assert_eq!(r, Some((2, 1, vec![vec![1, 2]])));
}

#[test]
fn repeated_spaces_separate_tokens() {
    let r = parse("p  cnf  2  1\n 1   2  0 \n");
    assert_eq!(r, Some((2, 1, vec![vec![1, 2]])));
}

#[test]
fn material_after_the_clauses_is_ignored() {
    let r = parse("p cnf 1 1\n1 0\nanything goes here\n");
    assert_eq!(r, Some((1, 1, vec![vec![1]])));
}

#[test]
fn header_must_say_p_cnf() {
    assert_eq!(parse("q cnf 1 1\n1 0\n"), None);
    assert_eq!(parse("p dnf 1 1\n1 0\n"), None);
    assert_eq!(parse("p cnf 1\n1 0\n"), None);
    assert_eq!(parse(""), None);
}

#[test]
fn header_counts_must_be_numerals() {
    assert_eq!(parse("p cnf one 1\n1 0\n"), None);
    assert_eq!(parse("p cnf 1 -1\n1 0\n"), None);
}

#[test]
fn clause_lines_must_end_in_zero() {
    assert_eq!(parse("p cnf 2 1\n1 2\n"), None);
    assert_eq!(parse("p cnf 2 1\n0 1 0\n"), None);
    assert_eq!(parse("p cnf 2 1\n1 x 0\n"), None);
    assert_eq!(parse("p cnf 2 1\n\n"), None);
}

#[test]
fn missing_clause_lines_are_an_error() {
    assert_eq!(parse("p cnf 2 2\n1 2 0\n"), None);
}

#[test]
fn literal_conversion_checks_the_range() {
    assert!(lits_of_dimacs(2, &vec![vec![1, -2]]).is_some());
    assert!(lits_of_dimacs(2, &vec![vec![3]]).is_none());
    assert!(lits_of_dimacs(2, &vec![vec![-3]]).is_none());
    assert!(lits_of_dimacs(2, &vec![vec![0]]).is_none());
}

#[test]
fn literal_conversion_drops_repeats() {
    let lits = lits_of_dimacs(2, &vec![vec![1, 1, -2, -2, 1]]).unwrap();
    assert_eq!(lits.len(), 1);
    assert_eq!(lits[0].len(), 2);
    assert_eq!(lits[0][0].var_id(), 0);
    assert!(!lits[0][0].is_negated());
    assert_eq!(lits[0][1].var_id(), 1);
    assert!(lits[0][1].is_negated());
}

#[test]
fn integers_cover_the_dimacs_domain() {
    // ten-digit values below 2^31 are accepted, anything larger is not
    let r = parse("p cnf 2147483647 1\n1 -2147483647 0\n");
    assert_eq!(r, Some((2147483647, 1, vec![vec![1, -2147483647]])));
    assert_eq!(parse("p cnf 2147483648 0\n"), None);
    assert_eq!(parse("p cnf 3 1\n1 12345678901 0\n"), None);
}
