use evenio::bool_expr::BoolExpr;

const A: u32 = 0;
const B: u32 = 1;
const C: u32 = 2;
const D: u32 = 3;

fn assign(a: bool, b: bool) -> impl Fn(u32) -> bool {
    move |var| match var {
        A => a,
        B => b,
        _ => false,
    }
}

const PAIRS: [(bool, bool); 4] = [(false, false), (true, false), (false, true), (true, true)];

#[test]
fn xor_truth_table() {
    let expr = BoolExpr::with(A).xor(&BoolExpr::with(B));
    assert!(!expr.eval(assign(false, false)));
    assert!(expr.eval(assign(true, false)));
    assert!(expr.eval(assign(false, true)));
    assert!(!expr.eval(assign(true, true)));
}

#[test]
fn and_or_not_truth_tables() {
    for (a, b) in PAIRS {
        let and = BoolExpr::with(A).and(&BoolExpr::with(B));
        let or = BoolExpr::with(A).or(&BoolExpr::with(B));
        let not = BoolExpr::with(A).and(&BoolExpr::without(B)).not();
        assert_eq!(and.eval(assign(a, b)), a && b);
        assert_eq!(or.eval(assign(a, b)), a || b);
        assert_eq!(not.eval(assign(a, b)), !(a && !b));
    }
}

#[test]
fn with_and_without() {
    for (a, b) in PAIRS {
        assert_eq!(BoolExpr::with(A).eval(assign(a, b)), a);
        assert_eq!(BoolExpr::without(A).eval(assign(a, b)), !a);
    }
}

#[test]
fn zero_and_one() {
    for (a, b) in PAIRS {
        assert!(!BoolExpr::<u32>::zero().eval(assign(a, b)));
        assert!(BoolExpr::<u32>::one().eval(assign(a, b)));
        assert!(!BoolExpr::<u32>::one().not().eval(assign(a, b)));
        assert!(BoolExpr::<u32>::zero().not().eval(assign(a, b)));
    }
}

#[test]
fn contradiction_is_never_true() {
    let expr = BoolExpr::with(A).and(&BoolExpr::without(A));
    for (a, b) in PAIRS {
        assert!(!expr.eval(assign(a, b)));
    }
}

#[test]
fn is_disjoint_examples() {
    assert!(!BoolExpr::with(A).is_disjoint(&BoolExpr::with(B)));
    assert!(BoolExpr::with(A).is_disjoint(&BoolExpr::without(A)));
    let left = BoolExpr::with(A).and(&BoolExpr::without(A));
    let right = BoolExpr::with(C).and(&BoolExpr::with(D));
    assert!(left.is_disjoint(&right));
    assert!(BoolExpr::<u32>::zero().is_disjoint(&BoolExpr::one()));
    assert!(!BoolExpr::<u32>::one().is_disjoint(&BoolExpr::one()));
}

#[test]
fn clone_keeps_meaning() {
    let expr = BoolExpr::with(A).or(&BoolExpr::without(B));
    let copy = expr.clone();
    for (a, b) in PAIRS {
        assert_eq!(copy.eval(assign(a, b)), expr.eval(assign(a, b)));
        assert_eq!(copy.eval(assign(a, b)), a || !b);
    }
}

#[test]
fn zero_absorbs_and_one_is_identity() {
    for (a, b) in PAIRS {
        let x = BoolExpr::with(A).or(&BoolExpr::without(B));
        assert!(!x.clone().and(&BoolExpr::zero()).eval(assign(a, b)));
        assert_eq!(x.clone().and(&BoolExpr::one()).eval(assign(a, b)), x.eval(assign(a, b)));
    }
}
