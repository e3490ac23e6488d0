use symmath::expr::{Constant, Expr, FuncIdentifier};
use symmath::num::Frac;
use symmath::simplify::{SimplifcationOpts, SimplifyError};

#[test]
fn create_eqn() {
    let expr = Expr::frac(1, 2).add(Expr::frac(3, 2));
    println!("{}", expr.to_ascii());
}

#[test]
fn literal_sum_folds_to_integer() {
    let mut expr = Expr::frac(1, 2).add(Expr::frac(3, 2));
    expr.simplify(&SimplifcationOpts::default()).unwrap();
    assert_eq!(expr.to_ascii(), "2");
}

#[test]
fn zero_factor_absorbs_product() {
    let mut expr = Expr::var("x").mul(Expr::integer(0));
    expr.simplify(&SimplifcationOpts::default()).unwrap();
    assert_eq!(expr.to_ascii(), "0");
}

#[test]
fn sine_of_zero_folds() {
    let mut expr = Expr::func(FuncIdentifier::Sine, vec![Expr::integer(0)]);
    expr.simplify(&SimplifcationOpts::default()).unwrap();
    assert_eq!(expr.to_ascii(), "0");
}

#[test]
fn subtraction_lowers_to_signed_addition() {
    let mut expr = Expr::var("x").sub(Expr::var("y"));
    expr.simplify(&SimplifcationOpts::default()).unwrap();
    assert_eq!(expr.to_ascii(), "(x + (y * -1))");
}

#[test]
fn fraction_reduces_once() {
    let mut f = Frac::new(4, 6);
    let changed = f.simplify();
    assert!(changed);
    assert_eq!(f.num, 2);
    assert_eq!(f.denom, 3);
    assert_eq!(Expr::frac_cpy(&f).to_ascii(), "(2/3)");
}

#[test]
fn literal_reduces_under_engine() {
    let mut expr = Expr::frac(4, 6);
    expr.simplify(&SimplifcationOpts::default()).unwrap();
    assert_eq!(expr.to_ascii(), "(2/3)");
}

#[test]
fn division_by_literal_inverts() {
    let mut expr = Expr::var("x").div(Expr::frac(2, 3));
    expr.simplify(&SimplifcationOpts::default()).unwrap();
    assert_eq!(expr.to_ascii(), "(x * (3/2))");
}

#[test]
fn integer_target_prefers_division() {
    let mut expr = Expr::var("x").mul(Expr::frac(1, 2));
    expr.simplify(&SimplifcationOpts::integers()).unwrap();
    assert_eq!(expr.to_ascii(), "(x / 2)");
}

#[test]
fn expand_distributes_literal_over_sum() {
    let mut expr = (Expr::var("x").add(Expr::var("y"))).mul(Expr::frac(3, 1));
    expr.simplify(&SimplifcationOpts::expand()).unwrap();
    assert_eq!(expr.to_ascii(), "((x * 3) + (y * 3))");
}

#[test]
fn division_by_zero_literal_reports_arithmetic() {
    let mut expr = Expr::var("x").div(Expr::integer(0));
    let r = expr.simplify(&SimplifcationOpts::default());
    assert_eq!(r, Err(SimplifyError::Arithmetic));
}

#[test]
fn fraction_arithmetic_reduces() {
    let s = Frac::new(1, 6).add(Frac::new(1, 3));
    assert_eq!(s.num, 1);
    assert_eq!(s.denom, 2);
    let p = Frac::new(2, 3).mul(Frac::new(3, 4));
    assert_eq!(p.num, 1);
    assert_eq!(p.denom, 2);
    let d = Frac::new(1, 2).sub(Frac::new(1, 3));
    assert_eq!(d.num, 1);
    assert_eq!(d.denom, 6);
    let q = Frac::new(1, 2).div(Frac::new(3, 2));
    assert_eq!(q.num, 1);
    assert_eq!(q.denom, 3);
    assert!(Frac::new(0, 5).is_zero());
    assert!(Frac::new(7, 7).is_one());
    assert!(Frac::new(9, 1).is_int());
    assert!(Frac::new(-1, 2).is_negative());
    assert!(!Frac::new(-1, -2).is_negative());
    let inv = Frac::new(2, 5).inv();
    assert_eq!(inv.num, 5);
    assert_eq!(inv.denom, 2);
}

#[test]
fn gcd_and_lcm_on_words() {
    assert_eq!(symmath::num::gcdi64(12, 8), 4);
    assert_eq!(symmath::num::gcdi64(-12, 8), -4);
    assert_eq!(symmath::num::lcmi64(4, 6), 12);
}

#[test]
fn names_render() {
    assert_eq!(FuncIdentifier::Sine.get_name(), "sin");
    assert_eq!(FuncIdentifier::Cosine.get_name(), "cos");
    assert_eq!(FuncIdentifier::Tangent.get_name(), "tan");
    assert_eq!(FuncIdentifier::Abs.get_name(), "abs");
    assert_eq!(FuncIdentifier::Name(String::from("f")).get_name(), "f");
    assert_eq!(Constant::Pi.get_name(), "pi");
    assert_eq!(Constant::E.get_name(), "e");
    assert_eq!(Expr::pi().to_ascii(), "pi");
    assert_eq!(Expr::e().to_ascii(), "e");
    assert_eq!(Expr::integer(-5).to_ascii(), "-5");
    assert_eq!(Expr::var("velocity").to_ascii(), "velocity");
    let app = Expr::func(
        FuncIdentifier::Name(String::from("g")),
        vec![Expr::var("x"), Expr::integer(2)],
    );
    assert_eq!(app.to_ascii(), "g(x, 2)");
    let pw = Expr::new(
        symmath::expr::Operator::Pow,
        Some(vec![Expr::var("x"), Expr::integer(2)]),
    );
    assert_eq!(pw.to_ascii(), "(x ^ 2)");
}

#[test]
fn absolute_value_transform() {
    let mut lit = Expr::frac(-1, 2);
    lit.abs();
    assert_eq!(lit.to_ascii(), "(1/2)");
    let mut v = Expr::var("x");
    v.abs();
    assert_eq!(v.to_ascii(), "abs(x)");
    let mut s = Expr::var("x").sub(Expr::var("y"));
    s.abs();
    assert_eq!(s.to_ascii(), "abs((x - y))");
    let mut m = Expr::frac(-1, 2).mul(Expr::frac(1, -3));
    m.abs();
    assert_eq!(m.to_ascii(), "((1/2) * (-1/-3))");
}

#[test]
fn abs_application_consumed_by_engine() {
    let mut expr = Expr::func(FuncIdentifier::Abs, vec![Expr::frac(-2, 3)]);
    expr.simplify(&SimplifcationOpts::default()).unwrap();
    assert_eq!(expr.to_ascii(), "(2/3)");
}

#[test]
fn simplify_value_dispatch() {
    let kept = FuncIdentifier::Cosine.simplify_value(vec![Expr::integer(0)]);
    assert_eq!(kept.to_ascii(), "cos(0)");
    let folded = FuncIdentifier::Sine.simplify_value(vec![Expr::integer(0)]);
    assert_eq!(folded.to_ascii(), "0");
    let opaque = FuncIdentifier::Sine.simplify_value(vec![Expr::var("x")]);
    assert_eq!(opaque.to_ascii(), "sin(x)");
}

#[test]
fn rerun_is_stable() {
    let mut expr = Expr::pi()
        .add(Expr::frac(1, 2))
        .add(Expr::frac(4, 5))
        .add(Expr::frac(3, 2).mul(Expr::frac(4, 2).mul(Expr::integer(10))));
    expr.simplify(&SimplifcationOpts::default()).unwrap();
    let first = expr.to_ascii();
    expr.simplify(&SimplifcationOpts::default()).unwrap();
    assert_eq!(expr.to_ascii(), first);
}

#[test]
fn lowering_is_reported_and_folds_fully() {
    let mut expr = Expr::integer(1).sub(Expr::integer(2));
    expr.simplify(&SimplifcationOpts::default()).unwrap();
    assert_eq!(expr.to_ascii(), "-1");
}

#[test]
fn zero_anywhere_absorbs_product() {
    let mut expr = Expr::new(
        symmath::expr::Operator::Mul,
        Some(vec![Expr::integer(0), Expr::var("x"), Expr::integer(2)]),
    );
    expr.simplify(&SimplifcationOpts::default()).unwrap();
    assert_eq!(expr.to_ascii(), "0");
}

#[test]
fn structural_equality_is_elementwise() {
    let a = Expr::var("x").add(Expr::frac(1, 2));
    let b = Expr::var("x").add(Expr::frac(1, 2));
    let c = Expr::var("x").add(Expr::frac(2, 4));
    assert!(a.struct_eq(&b));
    assert!(!a.struct_eq(&c));
    assert!(!a.struct_eq(&Expr::var("x")));
    assert!(Expr::pi().struct_eq(&Expr::pi()));
    assert!(!Expr::pi().struct_eq(&Expr::e()));
    assert!(!Expr::var("x").struct_eq(&Expr::var("y")));
    let f = Expr::func(FuncIdentifier::Sine, vec![Expr::var("x")]);
    let g = Expr::func(FuncIdentifier::Sine, vec![Expr::var("x")]);
    let h = Expr::func(FuncIdentifier::Cosine, vec![Expr::var("x")]);
    assert!(f.struct_eq(&g));
    assert!(!f.struct_eq(&h));
}

#[test]
fn abs_reports_whether_it_was_complete() {
    let mut clipped = Expr::frac(i64::MIN, 3);
    assert!(!clipped.abs_checked());
    let mut plain = Expr::frac(-2, 3);
    assert!(plain.abs_checked());
    assert_eq!(plain.to_ascii(), "(2/3)");
}
