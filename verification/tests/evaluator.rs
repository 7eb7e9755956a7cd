use mandel::cplx::Cplx;
use mandel::fixed::FIX_ONE;
use mandel::mandel::{Mandel, Sample};

const ONE: i64 = FIX_ONE;

fn smooth_at(re: i64, im: i64, bound: usize) -> Sample {
    let mut m = Mandel::new(Cplx { re, im }, bound);
    m.calculate_mandel_smooth();
    m.get_finished().unwrap()
}

#[test]
fn origin_is_interior_at_every_bound() {
    // the known interior point c = 0 yields the interior sentinel
    assert_eq!(smooth_at(0, 0, 1), Sample::Interior);
    assert_eq!(smooth_at(0, 0, 2), Sample::Interior);
    assert_eq!(smooth_at(0, 0, 256), Sample::Interior);
    assert_eq!(smooth_at(0, 0, 65536), Sample::Interior);
}

#[test]
fn far_coordinates_escape_immediately_with_exact_value() {
    assert_eq!(smooth_at(2 * ONE, 0, 64), Sample::Finite(4863793323));
    assert_eq!(smooth_at(40 * ONE, 0, 64), Sample::Finite(-3815292167));
    assert_eq!(smooth_at(80 * ONE, 0, 64), Sample::Finite(-4829157995));
}

#[test]
fn smoothed_value_decays_as_magnitude_grows() {
    let mut last = i64::MAX;
    let mut c = 40 * ONE;
    while c <= 2560 * ONE {
        match smooth_at(c, 0, 64) {
            Sample::Finite(v) => {
                assert!(v < last);
                last = v;
            },
            Sample::Interior => panic!("|c| > 2 must escape"),
        }
        c *= 2;
    }
}

#[test]
fn fresh_evaluator_reports_nothing() {
    let m = Mandel::new(Cplx { re: ONE, im: ONE }, 64);
    assert!(m.get_finished().is_none());
    assert!(m.get_shadow().is_none());
}

#[test]
fn shadow_field_is_never_populated() {
    let mut m = Mandel::new(Cplx { re: 2 * ONE, im: 0 }, 64);
    m.calculate_mandel_smooth();
    assert!(m.get_finished().is_some());
    assert!(m.get_shadow().is_none());
}

#[test]
fn empty_evaluator_has_documented_defaults() {
    let mut m = Mandel::new_empty();
    assert!(m.get_finished().is_none());
    m.calculate_mandel_smooth();
    assert_eq!(m.get_finished(), Some(Sample::Interior));
}

#[test]
fn raw_escape_count_matches_the_radius_two_test() {
    let m = Mandel::new(Cplx { re: 2 * ONE, im: 0 }, 64);
    assert_eq!(m.get_mandel(), 1);
    let m = Mandel::new(Cplx { re: ONE, im: 0 }, 64);
    assert_eq!(m.get_mandel(), 2);
    let m = Mandel::new(Cplx { re: 0, im: 0 }, 64);
    assert_eq!(m.get_mandel(), 64);
}

#[test]
fn julia_iteration_from_interior_seed() {
    let m = Mandel::new(Cplx { re: 0, im: 0 }, 64);
    assert_eq!(m.get_julia_smooth(Cplx { re: 0, im: 0 }), Sample::Interior);
    // a seed far outside escapes at once whatever the parameter
    let m = Mandel::new(Cplx { re: 64 * ONE, im: 0 }, 64);
    let s = m.get_julia_smooth(Cplx { re: 0, im: 0 });
    assert_eq!(s, Sample::Finite(-4520174395));
}

#[test]
fn sample_is_finite_distinguishes_the_sentinel() {
    assert!(Sample::Finite(0).is_finite());
    assert!(!Sample::Interior.is_finite());
}
