use rustsat::solver::Solver;
use rustsat::types::{Literal, Value, Var};

fn pos(v: Var) -> Literal {
    Literal::new(v, false)
}

fn neg(v: Var) -> Literal {
    Literal::new(v, true)
}

fn new_vars(solver: &mut Solver, n: usize) -> Vec<Var> {
    (0..n).map(|_| solver.new_var()).collect()
}

fn clause_satisfied(solver: &Solver, clause: &[Literal]) -> bool {
    clause
        .iter()
        .any(|&l| solver.get_assignment_lit(l) == Value::True)
}

/// Exhaustive truth-table check for small formulas: clauses as signed
/// variable indices, `k` for variable `k - 1`, negative for negation.
fn brute_force_sat(n_var: usize, clauses: &[Vec<i32>]) -> bool {
    assert!(n_var <= 20);
    for mask in 0u32..(1u32 << n_var) {
        let ok = clauses.iter().all(|cl| {
            cl.iter().any(|&x| {
                let v = (x.unsigned_abs() - 1) as usize;
                let val = mask & (1 << v) != 0;
                if x > 0 {
                    val
                } else {
                    !val
                }
            })
        });
        if ok {
            return true;
        }
    }
    false
}

fn solve_ints(n_var: usize, clauses: &[Vec<i32>]) -> (Solver, bool) {
    let mut solver = Solver::new();
    let vars = new_vars(&mut solver, n_var);
    let mut consistent = true;
    for cl in clauses {
        let lits: Vec<Literal> = cl
            .iter()
            .map(|&x| {
                if x > 0 {
                    pos(vars[(x - 1) as usize])
                } else {
                    neg(vars[(-x - 1) as usize])
                }
            })
            .collect();
        if !solver.add_clause(lits) {
            consistent = false;
        }
    }
    if !consistent {
        return (solver, false);
    }
    let r = solver.solve();
    (solver, r)
}

#[test]
fn s1_small_unsat() {
    // {x | y, x | !y, !x | !y, y | !z, !x | z}
    let clauses = vec![
        vec![1, 2],
        vec![1, -2],
        vec![-1, -2],
        vec![2, -3],
        vec![-1, 3],
    ];
    let (_, r) = solve_ints(3, &clauses);
    assert!(!r);
}

#[test]
fn s2_unit_contradiction() {
    let mut solver = Solver::new();
    let x = solver.new_var();
    assert!(solver.add_clause(vec![pos(x)]));
    // the opposite unit clause contradicts the root-level assignment
    assert!(!solver.add_clause(vec![neg(x)]));
}

#[test]
fn s3_sat_forces_z() {
    // {x | y, !x | z, !y | z}: every model sets z
    let clauses = vec![vec![1, 2], vec![-1, 3], vec![-2, 3]];
    let (solver, r) = solve_ints(3, &clauses);
    assert!(r);
    let model = solver.assignment();
    assert_eq!(model.len(), 3);
    assert!(model.iter().all(|&v| v != Value::Undet));
    assert_eq!(model[2], Value::True);
}

#[test]
fn s4_empty_formula() {
    let mut solver = Solver::new();
    let _ = new_vars(&mut solver, 3);
    assert!(solver.solve());
    let model = solver.assignment();
    assert_eq!(model.len(), 3);
    assert!(model.iter().all(|&v| v != Value::Undet));
}

#[test]
fn s6_pigeonhole_unsat() {
    // PHP(5 -> 4): pigeon p in hole h is variable 4 * p + h + 1
    let n = 4;
    let mut clauses: Vec<Vec<i32>> = Vec::new();
    for p in 0..(n + 1) as i32 {
        clauses.push((0..n as i32).map(|h| n as i32 * p + h + 1).collect());
    }
    for h in 0..n as i32 {
        for p1 in 0..(n + 1) as i32 {
            for p2 in (p1 + 1)..(n + 1) as i32 {
                clauses.push(vec![-(n as i32 * p1 + h + 1), -(n as i32 * p2 + h + 1)]);
            }
        }
    }
    let (solver, r) = solve_ints(n * (n + 1), &clauses);
    assert!(!r);
    let stats = solver.stats();
    assert!(stats.n_conflict > 0);
}

#[test]
fn empty_clause_is_rejected() {
    let mut solver = Solver::new();
    let _ = solver.new_var();
    assert!(!solver.add_clause(vec![]));
}

#[test]
fn model_satisfies_every_input_clause() {
    let clauses = vec![
        vec![1, 2, 3],
        vec![-1, 4],
        vec![-2, -4, 5],
        vec![-3, 5],
        vec![1, -5, 6],
        vec![-6, 2],
    ];
    let (solver, r) = solve_ints(6, &clauses);
    assert!(r);
    for cl in &clauses {
        let lits: Vec<Literal> = cl
            .iter()
            .map(|&x| {
                if x > 0 {
                    pos(Var((x - 1) as usize))
                } else {
                    neg(Var((-x - 1) as usize))
                }
            })
            .collect();
        assert!(clause_satisfied(&solver, &lits));
    }
}

#[test]
fn agrees_with_truth_table_oracle() {
    // fixed small instances, satisfiable and not, checked exhaustively
    let cases: Vec<(usize, Vec<Vec<i32>>)> = vec![
        (1, vec![vec![1], vec![-1]]),
        (2, vec![vec![1, 2], vec![-1, 2], vec![1, -2], vec![-1, -2]]),
        (3, vec![vec![1, 2], vec![-2, 3], vec![-1, -3], vec![2, 3]]),
        (4, vec![vec![1, 2, 3], vec![-1, -2], vec![-2, -3], vec![-1, -3], vec![4]]),
        (
            5,
            vec![
                vec![1, -2],
                vec![2, -3],
                vec![3, -4],
                vec![4, -5],
                vec![5, -1],
                vec![1, 2, 3, 4, 5],
                vec![-1, -2, -3, -4, -5],
            ],
        ),
        (
            6,
            vec![
                vec![1, 2],
                vec![3, 4],
                vec![5, 6],
                vec![-1, -3],
                vec![-3, -5],
                vec![-1, -5],
                vec![-2, -4],
                vec![-4, -6],
                vec![-2, -6],
            ],
        ),
    ];
    for (n_var, clauses) in cases {
        let expected = brute_force_sat(n_var, &clauses);
        let (solver, got) = solve_ints(n_var, &clauses);
        assert_eq!(got, expected);
        if got {
            let model = solver.assignment();
            assert!(model.iter().all(|&v| v != Value::Undet));
        }
    }
}

#[test]
fn statistics_are_reported() {
    let clauses = vec![vec![1, 2], vec![-1, 2], vec![1, -2]];
    let (solver, r) = solve_ints(2, &clauses);
    assert!(r);
    let stats = solver.stats();
    assert!(stats.n_propagation > 0);
    assert_eq!(stats.n_restart, 0);
}

#[test]
fn unit_clauses_propagate_at_root() {
    // units chain: x1, x1 -> x2, x2 -> x3; all must hold in the model
    let clauses = vec![vec![1], vec![-1, 2], vec![-2, 3]];
    let (solver, r) = solve_ints(3, &clauses);
    assert!(r);
    let model = solver.assignment();
    assert_eq!(model[0], Value::True);
    assert_eq!(model[1], Value::True);
    assert_eq!(model[2], Value::True);
}

#[test]
fn unassigned_variables_carry_the_level_marker() {
    let mut s = Solver::new();
    let x = s.new_var();
    assert_eq!(s.level[x.0], rustsat::solver::LEVEL_NONE);
    // a root-level unit assignment records level 0
    assert!(s.add_clause(vec![pos(x)]));
    assert_eq!(s.level[x.0], 0);
}

#[test]
fn solver_reports_variable_count() {
    let mut solver = Solver::new();
    assert_eq!(solver.num_var(), 0);
    let v = solver.new_var();
    let w = solver.new_var();
    assert_eq!(solver.num_var(), 2);
    assert_eq!(v.0, 0);
    assert_eq!(w.0, 1);
    assert_eq!(solver.get_assignment(v), Value::Undet);
    assert_eq!(solver.get_assignment_lit(neg(w)), Value::Undet);
}
