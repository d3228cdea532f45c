use rustsat::activity::Activity;
use rustsat::types::{Literal, Value, Var};

#[test]
fn literal_codes_pair_variable_and_polarity() {
    let v = Var(5);
    let p = Literal::new(v, false);
    let n = Literal::new(v, true);
    assert_eq!(p.var_id(), 5);
    assert_eq!(n.var_id(), 5);
    assert!(!p.is_negated());
    assert!(n.is_negated());
    assert_eq!(p.value(), Value::True);
    assert_eq!(n.value(), Value::False);
    assert_eq!(v.literal(), p);
}

#[test]
fn negation_is_an_involution() {
    let p = Literal::new(Var(3), false);
    assert_eq!(p.negate().negate(), p);
    assert_eq!(p.negate().var_id(), 3);
    assert!(p.negate().is_negated());
    assert_eq!(Value::True.negate(), Value::False);
    assert_eq!(Value::False.negate(), Value::True);
    assert_eq!(Value::Undet.negate(), Value::Undet);
}

#[test]
fn bump_strictly_increases_the_entry() {
    let mut act = Activity::new(20, 19);
    act.add_entry();
    act.add_entry();
    let before = act.scores[0];
    act.bump(0);
    assert!(act.scores[0] > before);
    assert_eq!(act.scores[1], 0);
}

#[test]
fn decay_grows_the_increment() {
    let mut act = Activity::new(20, 19);
    act.add_entry();
    let inc0 = act.inc;
    for _ in 0..100 {
        act.decay();
    }
    assert!(act.inc > inc0);
    // a later bump is now worth more than an earlier one
    act.add_entry();
    act.bump(1);
    act.bump(0);
    assert!(act.scores[0] == act.scores[1]);
    act.decay();
    act.bump(0);
    assert!(act.scores[0] > act.scores[1]);
}

#[test]
fn rescale_preserves_relative_order() {
    let mut act = Activity::new(20, 19);
    act.add_entry();
    act.add_entry();
    // grow the increment to the rescale threshold
    while act.inc <= 1u64 << 50 {
        act.decay();
    }
    act.bump(0);
    act.bump(1);
    act.bump(1);
    assert!(act.scores[0] < act.scores[1]);
    // the next decay rescales every score by the same divisor
    act.decay();
    assert!(act.scores[0] > 0);
    assert!(act.scores[0] < act.scores[1]);
}

#[test]
fn find_undecided_prefers_high_activity_then_low_index() {
    let mut act = Activity::new(20, 19);
    for _ in 0..4 {
        act.add_entry();
    }
    act.bump(2);
    let mut assignment = vec![Value::Undet; 4];
    assert_eq!(act.find_undecided(&assignment), Some(Var(2)));
    assignment[2] = Value::True;
    // remaining candidates are tied at zero: the lowest index wins
    assert_eq!(act.find_undecided(&assignment), Some(Var(0)));
    assignment[0] = Value::False;
    assignment[1] = Value::True;
    assignment[3] = Value::False;
    assert_eq!(act.find_undecided(&assignment), None);
}
