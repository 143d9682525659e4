use riddle::bleed::{
    bleed_grow, bleed_new, drown_frame, droplet, drowned, lattice, Bleed, Droplet, Lattice, Radius,
};
use riddle::fb::{Action, BBox, Shade};
use riddle::noise::splat_seed;

fn radius(r: f32) -> Radius {
    Radius {
        bits: r.to_bits(),
        whole: r as u32,
        squared: (r * r) as u64,
        reach: (r * 1.6) as i32 + 2,
    }
}

fn even(w: i32, h: i32, ox: i32, oy: i32, g: u8) -> Bleed {
    bleed_new(w, h, ox, oy, 1, |_: Lattice, _: Lattice, _: Lattice| g, |_: Droplet| (0, 0))
}

/// The absorbency of paper: three octaves of value noise.
fn blend(a: Lattice, b: Lattice, c: Lattice) -> u8 {
    let mut n = 0.0f32;
    for (l, amp) in [(a, 0.35f32), (b, 0.30), (c, 0.35)] {
        let (fx, fy) = (l.x as f32 / l.span as f32, l.y as f32 / l.span as f32);
        let (tx, ty) = (fx - fx.floor(), fy - fy.floor());
        let v = |k: u32| k as f32 / 1000.0;
        n += amp
            * (v(l.a) * (1.0 - tx) * (1.0 - ty)
                + v(l.b) * tx * (1.0 - ty)
                + v(l.c) * (1.0 - tx) * ty
                + v(l.d) * tx * ty);
    }
    ((0.55 + n) * 64.0) as u8
}

#[test]
fn lattices_are_fixed_to_the_paper() {
    let l = |scale| lattice(5, scale, 30, 60);
    assert_eq!(l(0), Lattice { a: 519, b: 972, c: 502, d: 144, x: 30, y: 60, span: 11 });
    assert_eq!(l(1), Lattice { a: 801, b: 531, c: 608, d: 931, x: 30, y: 60, span: 25 });
    assert_eq!(l(2), Lattice { a: 583, b: 466, c: 863, d: 878, x: 30, y: 60, span: 55 });
}

#[test]
fn droplets_are_fixed_to_the_place() {
    let seed = splat_seed(100, 200);
    assert_eq!(droplet(seed, 0), Droplet { threshold: 39, angle: 3022, throw: 134, size: 2 });
    assert_eq!(droplet(seed, 1), Droplet { threshold: 193, angle: 2088, throw: 162, size: 3 });
    assert_eq!(droplet(seed, 2), Droplet { threshold: 177, angle: 4943, throw: 126, size: 3 });
}

#[test]
fn a_bleed_covers_its_page_with_samples() {
    let seen = |a: Lattice, b: Lattice, c: Lattice| {
        (a.a % 50 + 11 * (b.x % 5) + 3 * (c.y % 4)) as u8
    };
    let b = bleed_new(9, 6, 2, 3, 77, seen, |d: Droplet| (d.threshold as i32, d.size));
    assert_eq!((b.ox, b.oy, b.w, b.h, b.fw, b.seed), (2, 3, 9, 6, 4, 77));
    assert_eq!(b.field.len(), 4 * 3);
    for y in 0..3u32 {
        for x in 0..4u32 {
            let at = |s| lattice(77, s, x, y);
            assert_eq!(b.field[(y * 4 + x) as usize], seen(at(0), at(1), at(2)));
        }
    }
    assert_eq!(b.flung.len(), 40);
    assert_eq!(b.flung[3], (droplet(77, 3).threshold as i32, droplet(77, 3).size));
    assert_eq!(b.r, Radius { bits: 0, whole: 0, squared: 0, reach: 0 });
    assert!(b.bbox.is_empty());
}

#[test]
fn even_paper_bleeds_in_a_disc() {
    let mut b = even(20, 20, 10, 10, 64);
    let g = bleed_grow(&mut b, radius(2.0));
    let disc: Vec<(i32, i32)> = (0..20)
        .flat_map(|y| (0..20).map(move |x| (x, y)))
        .filter(|&(x, y)| (x - 10) * (x - 10) + (y - 10) * (y - 10) <= 4)
        .collect();
    assert_eq!(g.pixels, disc);
    assert!(g.drops.is_empty());
    assert_eq!(b.bbox, BBox { x0: 7, y0: 7, x1: 13, y1: 13 });
    assert_eq!(b.r, radius(2.0));
}

#[test]
fn the_tip_is_inked_first() {
    let mut b = bleed_new(400, 300, 50, 60, splat_seed(50, 60), blend, |_: Droplet| (0, 0));
    let g = bleed_grow(&mut b, radius(8.0));
    assert!(g.pixels.contains(&(50, 60)));
    assert!(!bleed_grow(&mut b, radius(20.0)).pixels.contains(&(50, 60)));
    let mut dry = even(9, 9, 4, 4, 0);
    assert_eq!(bleed_grow(&mut dry, radius(8.0)).pixels, vec![(4, 4)]);
}

#[test]
fn the_field_stays_with_the_paper() {
    let at = |x, y| bleed_new(400, 300, x, y, 77, blend, |_: Droplet| (0, 0)).field;
    assert_eq!(at(5, 5), at(390, 120));
    let other = bleed_new(400, 300, 5, 5, 78, blend, |_: Droplet| (0, 0));
    assert_ne!(at(5, 5), other.field);
}

#[test]
fn frames_leave_the_same_stain() {
    let start = || bleed_new(400, 300, 90, 80, 5, blend, |d: Droplet| (d.size * 9, -d.size));
    let (mut slow, mut quick) = (start(), start());
    let first = bleed_grow(&mut slow, radius(60.0));
    let second = bleed_grow(&mut slow, radius(150.0));
    let whole = bleed_grow(&mut quick, radius(150.0));
    let sorted = |mut v: Vec<(i32, i32)>| {
        v.sort();
        v
    };
    assert_eq!(sorted([first.pixels, second.pixels].concat()), sorted(whole.pixels));
    assert_eq!(first.drops.len() + second.drops.len(), whole.drops.len());
    for drop in &whole.drops {
        assert!(first.drops.contains(drop) || second.drops.contains(drop));
    }
    assert_eq!((slow.r, slow.bbox), (quick.r, quick.bbox));
}

#[test]
fn a_box_holds_its_droplets() {
    let mut b = bleed_new(400, 300, 90, 80, 5, blend, |d: Droplet| (d.threshold as i32, 30));
    let g = bleed_grow(&mut b, radius(150.0));
    assert!(!g.drops.is_empty());
    for drop in &g.drops {
        match *drop {
            Action::Stamp { x, y, r, .. } => {
                assert!(b.bbox.x0 <= x - r && x + r <= b.bbox.x1);
                assert!(b.bbox.y0 <= y - r && y + r <= b.bbox.y1);
            }
            _ => panic!("no blot"),
        }
    }
}

#[test]
fn drowning_goes_on_until_the_corners_are_under() {
    let mut b = even(30, 40, 0, 0, 64);
    let early = drown_frame(&mut b, radius(48.0));
    assert!(!early.done && !early.growth.pixels.is_empty());
    let late = drown_frame(&mut b, radius(49.0));
    assert!(late.done);
    assert_eq!(b.r, radius(49.0));
    let again = drown_frame(&mut b, radius(10.0));
    assert!(again.done && again.growth.pixels.is_empty());
}

#[test]
fn no_pixel_is_inked_twice() {
    let paper = |_: Lattice, _: Lattice, c: Lattice| 35 + (c.x * 7 % 60) as u8;
    let start = || bleed_new(60, 60, 20, 25, 3, paper, |_: Droplet| (0, 0));
    let mut slow = start();
    let mut parts = Vec::new();
    for r in [5.0, 9.5, 14.0, 30.0] {
        parts.extend(bleed_grow(&mut slow, radius(r)).pixels);
    }
    let mut quick = start();
    let mut whole = bleed_grow(&mut quick, radius(30.0)).pixels;
    let count = parts.len();
    parts.sort();
    parts.dedup();
    assert_eq!(parts.len(), count);
    whole.sort();
    assert_eq!(parts, whole);
    assert_eq!(slow.bbox, quick.bbox);
}

#[test]
fn a_bleed_never_shrinks() {
    let mut b = even(20, 20, 10, 10, 64);
    bleed_grow(&mut b, radius(4.0));
    let bbox = b.bbox;
    for r in [4.0, 1.0, 0.0, -0.0, -1.0, -400.0, f32::NEG_INFINITY] {
        let g = bleed_grow(&mut b, radius(r));
        assert!(g.pixels.is_empty() && g.drops.is_empty());
        assert_eq!(b.r, radius(4.0));
        assert_eq!(b.bbox, bbox);
    }
}

#[test]
fn zero_has_no_sign() {
    let mut b = even(20, 20, 10, 10, 64);
    b.r = radius(-0.0);
    assert!(bleed_grow(&mut b, radius(0.0)).pixels.is_empty());
    assert_eq!(b.r, radius(-0.0));
    assert!(bleed_grow(&mut b, radius(2.0)).pixels.contains(&(10, 10)));
}

#[test]
fn what_is_no_number_is_not_compared() {
    let mut b = even(20, 20, 10, 10, 64);
    bleed_grow(&mut b, radius(4.0));
    for nan in [f32::NAN, -f32::NAN] {
        let g = bleed_grow(&mut b, radius(nan));
        assert!(g.pixels.is_empty() && g.drops.is_empty());
        assert_eq!(b.r.bits, nan.to_bits());
    }
    let g = bleed_grow(&mut b, radius(400.0));
    assert_eq!(g.pixels.len(), 399);
    assert!(!g.pixels.contains(&(10, 10)));
    assert!(g.drops.is_empty());
    assert_eq!(b.r, radius(400.0));
}

#[test]
fn a_droplet_falls_when_its_threshold_is_crossed() {
    let seed = splat_seed(100, 200);
    let dry = |_: Lattice, _: Lattice, _: Lattice| 0u8;
    let fling = |d: Droplet| (d.threshold as i32, -(d.size));
    let mut b = bleed_new(400, 400, 100, 200, seed, dry, fling);
    assert!(bleed_grow(&mut b, radius(11.5)).drops.is_empty());
    let mut fallen = Vec::new();
    for r in [38.9, 39.0, 150.0, 400.0] {
        fallen.push(bleed_grow(&mut b, radius(r)).drops);
    }
    let first = Action::Stamp { x: 139, y: 198, r: 2, shade: Shade::Black };
    assert!(!fallen[0].contains(&first));
    assert!(fallen[1].contains(&first));
    assert_eq!(fallen.iter().map(Vec::len).sum::<usize>(), 40);
    assert!(b.bbox.x0 <= 136 && b.bbox.y1 >= 201);
}

#[test]
fn a_droplet_off_the_page_is_lost() {
    let fling = |_: Droplet| (1000, 0);
    let mut b = bleed_new(10, 10, 5, 5, 1, |_: Lattice, _: Lattice, _: Lattice| 0u8, fling);
    assert!(bleed_grow(&mut b, radius(400.0)).drops.is_empty());
    let near = |_: Droplet| (24, -24);
    let mut b = bleed_new(10, 10, 5, 5, 1, |_: Lattice, _: Lattice, _: Lattice| 0u8, near);
    assert_eq!(bleed_grow(&mut b, radius(400.0)).drops.len(), 40);
    let past = |_: Droplet| (25, 0);
    let mut b = bleed_new(10, 10, 5, 5, 1, |_: Lattice, _: Lattice, _: Lattice| 0u8, past);
    assert!(bleed_grow(&mut b, radius(400.0)).drops.is_empty());
}

#[test]
fn paper_is_neither_too_dry_nor_too_thirsty() {
    let b = bleed_new(400, 300, 5, 5, splat_seed(5, 5), blend, |_: Droplet| (0, 0));
    assert!(b.field.iter().all(|&g| (35..=99).contains(&g)));
    assert!(b.field.iter().any(|&g| g != b.field[0]));
}

#[test]
fn the_page_drowns_when_its_corners_do() {
    let mut b = even(30, 40, 0, 0, 64);
    bleed_grow(&mut b, radius(48.0));
    assert!(!drowned(&b));
    bleed_grow(&mut b, radius(49.0));
    assert!(drowned(&b));
    let mut far = even(1620, 2160, 0, 0, 35);
    far.r = radius(6000.0);
    assert!(drowned(&far));
}
