use dataflow::df::{DataFlow, State};

fn all_states() -> Vec<State> {
    vec![State::Undef, State::Const(1), State::Const(2), State::NAC]
}

#[test]
fn meet_table() {
    assert_eq!(State::Undef.meet(&State::Undef), State::Undef);
    assert_eq!(State::Undef.meet(&State::Const(3)), State::Const(3));
    assert_eq!(State::Const(3).meet(&State::Undef), State::Const(3));
    assert_eq!(State::Const(3).meet(&State::Const(3)), State::Const(3));
    assert_eq!(State::Const(3).meet(&State::Const(4)), State::NAC);
    assert_eq!(State::NAC.meet(&State::Undef), State::NAC);
    assert_eq!(State::Undef.meet(&State::NAC), State::NAC);
    assert_eq!(State::Const(3).meet(&State::NAC), State::NAC);
    assert_eq!(State::NAC.meet(&State::Const(3)), State::NAC);
}

#[test]
fn meet_commutative() {
    for a in all_states() {
        for b in all_states() {
            assert_eq!(a.meet(&b), b.meet(&a));
        }
    }
}

#[test]
fn meet_associative() {
    for a in all_states() {
        for b in all_states() {
            for c in all_states() {
                assert_eq!(a.meet(&b).meet(&c), a.meet(&b.meet(&c)));
            }
        }
    }
}

#[test]
fn meet_idempotent() {
    for a in all_states() {
        assert_eq!(a.meet(&a), a);
    }
}

#[test]
fn foldable_operations() {
    let df = DataFlow::new();
    for op in ["add", "sub", "mul", "div", "mod", "eq", "lt", "gt", "le", "ge", "ne"] {
        assert!(df.is_foldable_operation(op));
    }
    assert!(!df.is_foldable_operation("const"));
    assert!(!df.is_foldable_operation("id"));
    assert!(!df.is_foldable_operation("jmp"));
    assert!(!df.is_foldable_operation(""));
}

fn fold(op: &str, a: i64, b: i64) -> State {
    let df = DataFlow::new();
    df.fold_operation(op, &vec![State::Const(a), State::Const(b)])
}

#[test]
fn fold_arithmetic() {
    assert_eq!(fold("add", 4, 2), State::Const(6));
    assert_eq!(fold("sub", 4, 9), State::Const(-5));
    assert_eq!(fold("mul", -3, 7), State::Const(-21));
    assert_eq!(fold("div", 7, 2), State::Const(3));
    assert_eq!(fold("div", -7, 2), State::Const(-3));
    assert_eq!(fold("mod", 7, 2), State::Const(1));
    assert_eq!(fold("mod", -7, 2), State::Const(-1));
}

#[test]
fn fold_wraps_at_64_bits() {
    assert_eq!(fold("add", i64::MAX, 1), State::Const(i64::MIN));
    assert_eq!(fold("sub", i64::MIN, 1), State::Const(i64::MAX));
    assert_eq!(fold("mul", i64::MAX, 2), State::Const(-2));
    assert_eq!(fold("div", i64::MIN, -1), State::Const(i64::MIN));
    assert_eq!(fold("mod", i64::MIN, -1), State::Const(0));
}

#[test]
fn fold_by_zero_is_nac() {
    assert_eq!(fold("div", 5, 0), State::NAC);
    assert_eq!(fold("mod", 5, 0), State::NAC);
}

#[test]
fn fold_comparisons() {
    assert_eq!(fold("eq", 3, 3), State::Const(1));
    assert_eq!(fold("eq", 3, 4), State::Const(0));
    assert_eq!(fold("ne", 3, 4), State::Const(1));
    assert_eq!(fold("lt", 3, 4), State::Const(1));
    assert_eq!(fold("lt", 4, 4), State::Const(0));
    assert_eq!(fold("le", 4, 4), State::Const(1));
    assert_eq!(fold("gt", 5, 4), State::Const(1));
    assert_eq!(fold("ge", 4, 5), State::Const(0));
}

#[test]
fn fold_non_constant_arguments() {
    let df = DataFlow::new();
    assert_eq!(df.fold_operation("add", &vec![State::Const(1)]), State::NAC);
    assert_eq!(df.fold_operation("add", &vec![State::Const(1), State::NAC]), State::NAC);
    assert_eq!(df.fold_operation("add", &vec![State::Undef, State::Const(1)]), State::NAC);
    assert_eq!(df.fold_operation("what", &vec![State::Const(1), State::Const(2)]), State::NAC);
}
