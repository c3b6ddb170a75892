use rand::Rng;
use randcli::decimal::Decimal;
use randcli::eval::{compile, Step};
use randcli::expr::CalcError;
use randcli::prng::PRNG;

fn dec(negative: bool, int_digits: Vec<u8>, frac_digits: Vec<u8>) -> Decimal {
    Decimal { negative, int_digits, frac_digits }
}

fn err(input: &str) -> CalcError {
    match compile(input.to_string()) {
        Err(e) => e,
        Ok(_) => panic!("{} should fail", input),
    }
}

fn steps(input: &str) -> Vec<Step> {
    match compile(input.to_string()) {
        Ok(s) => s,
        Err(e) => panic!("{} failed: {:?}", input, e),
    }
}

#[test]
fn domain_rejection() {
    for input in ["gauss(0, 0)", "gauss(0, -1)", "exp(0)", "exp(-1)", "binom(5, 1.5)", "binom(-1, 0.5)", "uniform(1, 1)", "uniform(2, 1)"] {
        assert_eq!(err(input), CalcError::Domain(0), "{}", input);
    }
    assert_eq!(err("binom(2.5, 0.5)"), CalcError::Domain(0));
    assert_eq!(err("bernoulli(-0.1)"), CalcError::Domain(0));
    assert_eq!(err("bernoulli(1.01)"), CalcError::Domain(0));
    assert_eq!(err("uniform(-0.5, -0.75)"), CalcError::Domain(0));
    assert_eq!(err("binom(99999999999999999999999, 0.5)"), CalcError::Domain(0));
}

#[test]
fn arity_rejection() {
    assert_eq!(err("seed(1,2)"), CalcError::Arity(0));
    assert_eq!(err("uniform(1,2,3)"), CalcError::Arity(0));
    assert_eq!(err("binom(5)"), CalcError::Arity(0));
    assert_eq!(err("seed"), CalcError::Arity(0));
    assert_eq!(err("int(1)"), CalcError::Arity(0));
    assert_eq!(err("exp(1, 2)"), CalcError::Arity(0));
}

#[test]
fn unknown_operation() {
    assert_eq!(err("frobnicate"), CalcError::UnknownOperation(0));
    assert_eq!(err("seed(1) | Seed(2)"), CalcError::UnknownOperation(1));
}

#[test]
fn first_error_wins() {
    assert_eq!(err("seed(1) | exp(0) | nope"), CalcError::Domain(1));
    assert_eq!(err("nope | exp(0)"), CalcError::UnknownOperation(0));
    assert_eq!(err("nope | exp(0"), CalcError::Parse(12));
}

#[test]
fn defaults_fill_missing_arguments() {
    match &steps("uniform()")[..] {
        [Step::Uniform(a, b)] => {
            assert_eq!(*a, dec(false, vec![0], vec![]));
            assert_eq!(*b, dec(false, vec![1], vec![]));
        }
        _ => panic!("expected one uniform step"),
    }
    match &steps("gauss(5)")[..] {
        [Step::Gauss(m, v)] => {
            assert_eq!(*m, dec(false, vec![5], vec![]));
            assert_eq!(*v, dec(false, vec![1], vec![]));
        }
        _ => panic!("expected one gauss step"),
    }
    match &steps("exp")[..] {
        [Step::Exp(l)] => assert_eq!(*l, dec(false, vec![1], vec![])),
        _ => panic!("expected one exp step"),
    }
    match &steps("bernoulli")[..] {
        [Step::Binom(1, p)] => assert_eq!(*p, dec(false, vec![0], vec![5])),
        _ => panic!("expected one binom step"),
    }
    match &steps("uniform(0.5)")[..] {
        [Step::Uniform(a, b)] => {
            assert_eq!(*a, dec(false, vec![0], vec![5]));
            assert_eq!(*b, dec(false, vec![1], vec![]));
        }
        _ => panic!("expected one uniform step"),
    }
}

#[test]
fn every_name_selects_its_operation() {
    let s = steps("seed(7) | int | floor | round | uniform(-1, .5) | gaussian | normal(1,2) | norm | exponential(2) | binom(3, 0.25) | bernoulli(1)");
    assert_eq!(s.len(), 11);
    assert!(matches!(s[0], Step::Seed(7)));
    assert!(matches!(s[1], Step::Floor));
    assert!(matches!(s[2], Step::Floor));
    assert!(matches!(s[3], Step::Round));
    assert!(matches!(s[4], Step::Uniform(_, _)));
    assert!(matches!(s[5], Step::Gauss(_, _)));
    assert!(matches!(s[6], Step::Gauss(_, _)));
    assert!(matches!(s[7], Step::Gauss(_, _)));
    assert!(matches!(s[8], Step::Exp(_)));
    assert!(matches!(s[9], Step::Binom(3, _)));
    assert!(matches!(s[10], Step::Binom(1, _)));
}

#[test]
fn seeds_truncate_into_range() {
    assert!(matches!(steps("seed(42.9)")[..], [Step::Seed(42)]));
    assert!(matches!(steps("seed(-3)")[..], [Step::Seed(0)]));
    assert!(matches!(steps("seed(18446744073709551615)")[..], [Step::Seed(u64::MAX)]));
    assert!(matches!(steps("seed(99999999999999999999999)")[..], [Step::Seed(u64::MAX)]));
    assert!(matches!(steps("binom(0, 0) | binom(-0, 1)")[..], [Step::Binom(0, _), Step::Binom(0, _)]));
}

#[test]
fn decimal_comparisons() {
    let a = dec(false, vec![0, 1], vec![5]);
    let b = dec(false, vec![2], vec![]);
    assert!(a.lt(&b));
    assert!(!b.lt(&a));
    let c = dec(true, vec![0], vec![0, 0]);
    let z = Decimal::zero();
    assert!(!c.lt(&z) && !z.lt(&c));
    assert!(dec(true, vec![3], vec![]).lt(&dec(true, vec![2], vec![9, 9])));
    assert!(dec(false, vec![1], vec![0, 0]).probability());
    assert!(!dec(false, vec![1], vec![0, 1]).probability());
    assert!(!c.positive());
    assert_eq!(dec(false, vec![1, 2], vec![]).int_part_u64(), Some(12));
}

#[test]
fn seeded_runs_repeat() {
    let first = steps("seed(1) | uniform(0,1)");
    let second = steps("seed(1) | uniform(0,1)");
    assert!(matches!(first[..], [Step::Seed(1), Step::Uniform(_, _)]));
    assert!(matches!(second[..], [Step::Seed(1), Step::Uniform(_, _)]));
    let mut a = PRNG::new();
    let mut b = PRNG::new();
    a.setseed(1);
    b.setseed(1);
    let x: f64 = a.rng.gen_range(0.0..1.0);
    let y: f64 = b.rng.gen_range(0.0..1.0);
    assert_eq!(x, y);
    a.setseed(42);
    let u: f64 = a.rng.gen_range(10.0..20.0);
    a.setseed(42);
    let v: f64 = a.rng.gen_range(10.0..20.0);
    assert_eq!(u, v);
    assert!((10.0..20.0).contains(&u));
}
