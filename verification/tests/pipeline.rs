use mandel::cplx::Cplx;
use mandel::events::{iter_down, iter_up, recenter, resize_view, zoom_in, zoom_out};
use mandel::fixed::FIX_ONE;
use mandel::mandel::{Mandel, Sample};
use mandel::raster::Raster;
use mandel::sched::{area, border_samples, Region};
use mandel::viewport::{cplx_to_pos, pos_to_cplx, Config};

const ONE: i64 = FIX_ONE;

fn interior_4x4() -> Config {
    // every pixel maps near c = -0.5, deep inside the main cardioid
    Config { size: (4, 4), zoom: 16 * ONE, offset: Cplx { re: -(ONE / 2), im: 0 }, iter_max: 256 }
}

fn point_two() -> Config {
    // a 1-by-1 raster whose single pixel maps exactly to c = 2 + 0i
    Config { size: (1, 1), zoom: ONE, offset: Cplx { re: 2 * ONE, im: 0 }, iter_max: 64 }
}

fn far_outside_8x8() -> Config {
    // every pixel maps near c = 1024 + 1024i, far beyond the escape radius
    Config {
        size: (8, 8),
        zoom: ONE,
        offset: Cplx { re: 1024 * ONE, im: 1024 * ONE },
        iter_max: 64,
    }
}

#[test]
fn center_pixel_maps_to_the_offset() {
    let cfg = Config::default_view();
    let z = pos_to_cplx(320, 240, &cfg);
    assert_eq!((z.re, z.im), (-(ONE / 2), 0));
}

#[test]
fn corner_pixel_of_the_default_view() {
    let cfg = Config::default_view();
    let z = pos_to_cplx(0, 0, &cfg);
    assert_eq!((z.re, z.im), (-13600729768, -8589934592));
}

#[test]
fn mapping_round_trip_stays_within_one_pixel() {
    let cfg = Config {
        size: (640, 480),
        zoom: 1024 * ONE,
        offset: Cplx { re: -(ONE / 2), im: 0 },
        iter_max: 256,
    };
    let mut x = 0usize;
    while x < 640 {
        let mut y = 0usize;
        while y < 480 {
            let z = pos_to_cplx(x, y, &cfg);
            let (px, py) = cplx_to_pos(z, &cfg);
            assert!((px - x as i64).abs() <= 1, "x: {} came back as {}", x, px);
            assert!((py - y as i64).abs() <= 1, "y: {} came back as {}", y, py);
            y += 97;
        }
        x += 89;
    }
}

#[test]
fn round_trip_holds_at_the_deepest_zoom() {
    let cfg = Config {
        size: (320, 200),
        zoom: 32768 * ONE,
        offset: Cplx { re: -(ONE / 2), im: ONE / 8 },
        iter_max: 64,
    };
    for &(x, y) in &[(0usize, 0usize), (319, 199), (160, 100), (7, 123)] {
        let z = pos_to_cplx(x, y, &cfg);
        let (px, py) = cplx_to_pos(z, &cfg);
        assert!((px - x as i64).abs() <= 1);
        assert!((py - y as i64).abs() <= 1);
    }
}

#[test]
fn zooming_at_the_center_keeps_the_offset() {
    let cfg = Config::default_view();
    let zi = zoom_in(&cfg, 320, 240);
    assert_eq!(zi.zoom, 2 * cfg.zoom);
    assert_eq!(zi.offset, cfg.offset);
    assert_eq!(zi.size, cfg.size);
    let zo = zoom_out(&cfg, 320, 240);
    assert_eq!(zo.zoom, cfg.zoom / 2);
    assert_eq!(zo.offset, cfg.offset);
}

#[test]
fn zooming_in_preserves_the_clicked_point() {
    // the parameter under the clicked pixel stays put up to rounding
    let cfg = Config::default_view();
    let before = pos_to_cplx(100, 50, &cfg);
    let zi = zoom_in(&cfg, 100, 50);
    let after = pos_to_cplx(100, 50, &zi);
    assert!((after.re - before.re).abs() <= 64);
    assert!((after.im - before.im).abs() <= 64);
}

#[test]
fn recentering_moves_the_clicked_point_to_the_middle() {
    let cfg = Config::default_view();
    let target = pos_to_cplx(0, 0, &cfg);
    let rc = recenter(&cfg, 0, 0);
    assert_eq!(rc.offset, target);
    assert_eq!((rc.offset.re, rc.offset.im), (-13600729768, -8589934592));
}

#[test]
fn iteration_bound_doubles_and_halves_with_a_floor() {
    let cfg = Config::default_view();
    assert_eq!(iter_up(&cfg).iter_max, 512);
    assert_eq!(iter_down(&cfg).iter_max, 128);
    let mut low = cfg;
    low.iter_max = 32;
    assert_eq!(iter_down(&low).iter_max, 32);
    let mut huge = cfg;
    huge.iter_max = 0x4000_0000;
    assert_eq!(iter_up(&huge).iter_max, 0x4000_0000);
}

#[test]
fn resizing_keeps_the_mapping_but_rejects_wild_shapes() {
    let cfg = Config::default_view();
    let r = resize_view(&cfg, 800, 600);
    assert_eq!(r.size, (800, 600));
    assert_eq!(r.offset, cfg.offset);
    let bad = resize_view(&cfg, 65536, 1);
    assert_eq!(bad.size, cfg.size);
}

#[test]
fn interior_region_is_classified_closed() {
    let cfg = interior_4x4();
    let rect = Region { left: 0, top: 0, width: 4, height: 4 };
    let (border, closed) = border_samples(&cfg, &rect);
    assert!(closed);
    assert_eq!(border.len(), 16);
    for e in border.iter() {
        assert_eq!(e.2, Sample::Interior);
    }
}

#[test]
fn closed_region_fills_only_the_perimeter() {
    // a 4x4 region inside the set: 12 perimeter cells hold the sentinel,
    // the 4 interior cells stay unresolved after a full drain
    let cfg = interior_4x4();
    let rect = Region { left: 0, top: 0, width: 4, height: 4 };
    let mut out = Vec::new();
    area(&cfg, rect, &mut out);
    assert_eq!(out.len(), 16);
    let mut raster = Raster::new(4, 4);
    raster.apply_all(&out);
    for x in 0..4usize {
        for y in 0..4usize {
            let cell = raster.get(x, y);
            if x == 0 || x == 3 || y == 0 || y == 3 {
                assert_eq!(cell, Some(Sample::Interior));
            } else {
                assert!(cell.is_none());
            }
        }
    }
}

#[test]
fn fully_escaping_region_emits_every_pixel() {
    // nothing is silently skipped outside the set's bounding disk
    let cfg = far_outside_8x8();
    let rect = Region { left: 0, top: 0, width: 8, height: 8 };
    let (_, closed) = border_samples(&cfg, &rect);
    assert!(!closed);
    let mut out = Vec::new();
    area(&cfg, rect, &mut out);
    // border pass (32) plus the full 6x6 interior
    assert_eq!(out.len(), 68);
    let mut raster = Raster::new(8, 8);
    raster.apply_all(&out);
    for x in 0..8usize {
        for y in 0..8usize {
            match raster.get(x, y) {
                Some(Sample::Finite(_)) => (),
                other => panic!("pixel ({}, {}) ended as {:?}", x, y, other),
            }
        }
    }
}

#[test]
fn single_pixel_region_agrees_with_a_standalone_evaluation() {
    let cfg = point_two();
    let rect = Region { left: 0, top: 0, width: 1, height: 1 };
    let mut out = Vec::new();
    area(&cfg, rect, &mut out);
    // the two row sweeps and the two column sweeps each visit the pixel
    assert_eq!(out.len(), 4);
    let mut raster = Raster::new(1, 1);
    raster.apply_all(&out);
    let mut m = Mandel::new(Cplx { re: 2 * ONE, im: 0 }, 64);
    m.calculate_mandel_smooth();
    let expected = m.get_finished().unwrap();
    assert_eq!(expected, Sample::Finite(4863793323));
    assert_eq!(raster.get(0, 0), Some(expected));
}

#[test]
fn two_runs_emit_identical_results() {
    // determinism: one viewport, one rectangle, two independent runs
    let cfg = far_outside_8x8();
    let rect = Region { left: 0, top: 0, width: 8, height: 8 };
    let mut first = Vec::new();
    area(&cfg, rect, &mut first);
    let mut second = Vec::new();
    area(&cfg, rect, &mut second);
    assert_eq!(first, second);
}

#[test]
fn raster_tracks_three_states_and_ignores_strays() {
    let mut raster = Raster::new(3, 2);
    assert!(raster.get(1, 1).is_none());
    raster.apply(1, 1, Sample::Finite(7));
    raster.apply(2, 0, Sample::Interior);
    raster.apply(9, 9, Sample::Finite(1));
    assert_eq!(raster.get(1, 1), Some(Sample::Finite(7)));
    assert_eq!(raster.get(2, 0), Some(Sample::Interior));
    assert!(raster.get(0, 0).is_none());
    assert!(raster.get(9, 9).is_none());
    assert_eq!(raster.get_width(), 3);
    assert_eq!(raster.get_height(), 2);
}
