use mandel::cplx::Cplx;
use mandel::fixed::{div_trunc, fix_div, fix_mul, FIX_ONE};
use mandel::log2::{fast_ln, fast_log2, LN2_FIX};
use mandel::vec2::Vec2;

const ONE: i64 = FIX_ONE;

#[test]
fn fixed_products_rescale_exactly() {
    assert_eq!(fix_mul(3 * ONE, 2 * ONE), 6 * ONE);
    assert_eq!(fix_mul(ONE / 2, ONE / 2), ONE / 4);
    assert_eq!(fix_mul(-3 * ONE / 2, ONE / 2), -3 * ONE / 4);
    // truncation is toward zero on both sides
    assert_eq!(fix_mul(-3, 2), 0);
    assert_eq!(fix_mul(3, -2), 0);
}

#[test]
fn fixed_quotients_rescale_exactly() {
    assert_eq!(fix_div(6 * ONE, 2 * ONE), 3 * ONE);
    assert_eq!(fix_div(ONE, 3 * ONE), 1431655765);
    assert_eq!(fix_div(-ONE, 2 * ONE), -(ONE / 2));
}

#[test]
fn plain_division_truncates_toward_zero() {
    assert_eq!(div_trunc(7, 2), 3);
    assert_eq!(div_trunc(-7, 2), -3);
    assert_eq!(div_trunc(7, -2), -3);
    assert_eq!(div_trunc(-7, -2), 3);
}

#[test]
fn complex_sum_difference_negation() {
    let a = Cplx { re: 3 * ONE, im: -ONE };
    let b = Cplx { re: ONE, im: 2 * ONE };
    let s = a.add(b);
    assert_eq!((s.re, s.im), (4 * ONE, ONE));
    let d = a.sub(b);
    assert_eq!((d.re, d.im), (2 * ONE, -3 * ONE));
    let n = a.neg();
    assert_eq!((n.re, n.im), (-3 * ONE, ONE));
}

#[test]
fn complex_product_uses_the_general_formula() {
    // (1 + 2i)(3 + 4i) = -5 + 10i
    let a = Cplx { re: ONE, im: 2 * ONE };
    let b = Cplx { re: 3 * ONE, im: 4 * ONE };
    let p = a.mul(b);
    assert_eq!((p.re, p.im), (-5 * ONE, 10 * ONE));
}

#[test]
fn complex_square_matches_product() {
    // (1 + 2i)^2 = -3 + 4i
    let a = Cplx { re: ONE, im: 2 * ONE };
    let s = a.square();
    assert_eq!((s.re, s.im), (-3 * ONE, 4 * ONE));
}

#[test]
fn squared_magnitude_and_magnitude() {
    let z = Cplx { re: 3 * ONE, im: 4 * ONE };
    assert_eq!(z.sq_abs(), 25 * ONE);
    assert_eq!(z.abs(), 5 * ONE);
}

#[test]
fn complex_division_inverts_the_product() {
    // (-5 + 10i) / (3 + 4i) = 1 + 2i
    let n = Cplx { re: -5 * ONE, im: 10 * ONE };
    let d = Cplx { re: 3 * ONE, im: 4 * ONE };
    let q = n.div(d).unwrap();
    assert_eq!((q.re, q.im), (ONE, 2 * ONE));
}

#[test]
fn complex_division_by_zero_fails() {
    let n = Cplx { re: ONE, im: ONE };
    assert!(n.div(Cplx { re: 0, im: 0 }).is_none());
}

#[test]
fn log2_exact_at_powers_of_two() {
    assert_eq!(fast_log2(ONE), 0);
    assert_eq!(fast_log2(2 * ONE), ONE);
    assert_eq!(fast_log2(1024 * ONE), 10 * ONE);
    assert_eq!(fast_log2(ONE / 2), -ONE);
}

#[test]
fn log2_of_three_matches_the_quadratic() {
    assert_eq!(fast_log2(3 * ONE), 6800364885);
}

#[test]
fn natural_log_is_rescaled_log2() {
    assert_eq!(fast_ln(ONE), 0);
    assert_eq!(fast_ln(2 * ONE), LN2_FIX);
}

#[test]
fn vector_componentwise_arithmetic() {
    let a = Vec2 { x: 5, y: -3 };
    let b = Vec2 { x: 2, y: 7 };
    assert_eq!(a.add(b), Vec2 { x: 7, y: 4 });
    assert_eq!(a.sub(b), Vec2 { x: 3, y: -10 });
    assert_eq!(a.neg(), Vec2 { x: -5, y: 3 });
    assert_eq!(a.mul(3), Vec2 { x: 15, y: -9 });
    assert_eq!(a.div(2), Vec2 { x: 2, y: -1 });
    let mut c = a;
    c.add_assign(b);
    assert_eq!(c, Vec2 { x: 7, y: 4 });
    c.sub_assign(b);
    assert_eq!(c, a);
    c.mul_assign(-2);
    assert_eq!(c, Vec2 { x: -10, y: 6 });
    c.div_assign(5);
    assert_eq!(c, Vec2 { x: -2, y: 1 });
}
