use riddle::draw::{
    bounds, coordinates, fit, hand, lay_out, pen_steps, seed_from, sketch_of, wobble_stroke, Fit,
    Hand, Leg, Stretch, CANVAS, FLOOR, GREATEST, LEAST,
};
use riddle::fb::{SCREEN_H, SCREEN_W};

type Sketch = Vec<Vec<(f32, f32)>>;

const MARGIN_X: i32 = 120;

fn to_bits(sketch: &Sketch) -> Vec<Vec<(u32, u32)>> {
    sketch
        .iter()
        .map(|s| s.iter().map(|&(x, y)| (x.to_bits(), y.to_bits())).collect())
        .collect()
}

fn parse(inner: &str) -> Option<Sketch> {
    let read = |t: &str| t.parse::<f32>().ok().map(f32::to_bits);
    riddle::draw::parse(inner, read).map(|sketch| {
        sketch
            .iter()
            .map(|s| s.iter().map(|&(x, y)| (f32::from_bits(x), f32::from_bits(y))).collect())
            .collect()
    })
}

/// Where a point lands on the page.
fn land(p: (u32, u32), jitter: (u32, u32), fit: Fit) -> (f32, f32) {
    let f = f32::from_bits;
    let (x0, y0) = (f(fit.bounds.x0), f(fit.bounds.y0));
    let bw = (f(fit.bounds.x1) - x0).max(1.0);
    let bh = (f(fit.bounds.y1) - y0).max(1.0);
    let mut scale = (900.0f32 / 100.0).min((SCREEN_W as i32 - 2 * MARGIN_X) as f32 / 100.0);
    scale = scale.min(fit.room as f32 / bh);
    let ox = (SCREEN_W as f32 - bw * scale) / 2.0 - x0 * scale;
    let oy = fit.y_top as f32 - y0 * scale;
    let off = |v: u32| v as f32 / 100.0 - 1.5;
    (f(p.0) * scale + ox + off(jitter.0), f(p.1) * scale + oy + off(jitter.1))
}

fn dot(p: (u32, u32), jitter: (u32, u32), fit: Fit) -> (i32, i32) {
    let (x, y) = land(p, jitter, fit);
    (x.round() as i32, y.round() as i32)
}

/// A leg is walked in steps of two and a half.
fn measure(leg: Leg, fit: Fit) -> Stretch {
    let (ax, ay) = land(leg.from, leg.from_jitter, fit);
    let (bx, by) = land(leg.to, leg.to_jitter, fit);
    let (dx, dy) = (bx - ax, by - ay);
    let len = (dx * dx + dy * dy).sqrt();
    Stretch {
        steps: (len / 2.5).ceil().max(1.0) as u32,
        along: (f32::from_bits(leg.along) + len).to_bits(),
    }
}

/// The hand wobbles slowly.
fn mark(leg: Leg, fit: Fit, i: u32, steps: u32) -> (i32, i32) {
    let (ax, ay) = land(leg.from, leg.from_jitter, fit);
    let (bx, by) = land(leg.to, leg.to_jitter, fit);
    let (dx, dy) = (bx - ax, by - ay);
    let len = (dx * dx + dy * dy).sqrt();
    let (nx, ny) = if len > 0.0 { (-dy / len, dx / len) } else { (0.0, 0.0) };
    let t = i as f32 / steps as f32;
    let envelope = (t * (1.0 - t) * 4.0).min(1.0);
    let phase = leg.phase as f32 / 100.0;
    let along = (f32::from_bits(leg.along) + t * len) / 70.0 * std::f32::consts::TAU + phase;
    let w = along.sin() * 1.6 * envelope;
    ((ax + dx * t + nx * w).round() as i32, (ay + dy * t + ny * w).round() as i32)
}

fn place(sketch: &Sketch, y_top: i32, seed: u32) -> Option<(Vec<Vec<(i32, i32)>>, i32)> {
    riddle::draw::place(&to_bits(sketch), y_top, seed, dot, measure, mark)
}

#[test]
fn parse_strokes_and_dots() {
    let s = parse("draw: 0,0 100,100; 50,50").unwrap();
    assert_eq!(s.len(), 2);
    assert_eq!(s[0], vec![(0.0, 0.0), (100.0, 100.0)]);
    assert_eq!(s[1], vec![(50.0, 50.0)]);
}

#[test]
fn parse_tolerates_case_newlines_and_junk() {
    let s = parse("DRAW\n 10,20 nonsense 30,40 ;; 5,5").unwrap();
    assert_eq!(s.len(), 2);
    assert_eq!(s[0], vec![(10.0, 20.0), (30.0, 40.0)]);
}

#[test]
fn parse_clamps_to_canvas() {
    let s = parse("draw: -50,300").unwrap();
    assert_eq!(s[0], vec![(0.0, 100.0)]);
}

#[test]
fn parse_rejects_empty_and_alien_blocks() {
    assert!(parse("draw:").is_none());
    assert!(parse("draw: x,y ;").is_none());
    assert!(parse("show:3").is_none());
}

#[test]
fn place_scales_centers_and_stays_on_page() {
    let sketch: Sketch = vec![vec![(0.0, 0.0), (100.0, 100.0)]];
    let (strokes, bottom) = place(&sketch, 300, 7).unwrap();
    let all: Vec<(i32, i32)> = strokes.concat();
    let (min_x, max_x) = (
        all.iter().map(|p| p.0).min().unwrap(),
        all.iter().map(|p| p.0).max().unwrap(),
    );
    let min_y = all.iter().map(|p| p.1).min().unwrap();
    assert!(min_x >= MARGIN_X - 4, "left edge {min_x}");
    assert!(max_x <= SCREEN_W as i32 - MARGIN_X + 4, "right edge {max_x}");
    assert!((min_y - 300).abs() <= 4, "top {min_y}");
    assert!(bottom > 300 + 400, "diagonal should be tall, bottom {bottom}");
    assert!(bottom <= FLOOR + 4);
    // Centered: midpoint of the span sits near the page middle.
    assert!(((min_x + max_x) / 2 - SCREEN_W as i32 / 2).abs() < 20);
}

#[test]
fn place_subdivides_into_pen_steps() {
    let sketch: Sketch = vec![vec![(0.0, 50.0), (100.0, 50.0)]];
    let (strokes, _) = place(&sketch, 300, 7).unwrap();
    assert!(strokes[0].len() > 300, "only {} points", strokes[0].len());
}

#[test]
fn place_refuses_a_full_page() {
    let sketch: Sketch = vec![vec![(0.0, 0.0), (100.0, 100.0)]];
    assert!(place(&sketch, SCREEN_H as i32 - 150, 7).is_none());
}

#[test]
fn place_fits_height_to_remaining_room() {
    let sketch: Sketch = vec![vec![(0.0, 0.0), (100.0, 100.0)]];
    let y_top = SCREEN_H as i32 - 140 - 300; // exactly 300px of room
    let (_, bottom) = place(&sketch, y_top, 7).unwrap();
    assert!(bottom <= FLOOR + 4, "bottom {bottom} spills past the page");
}

#[test]
fn place_is_deterministic() {
    let sketch: Sketch = vec![vec![(10.0, 10.0), (90.0, 40.0), (20.0, 80.0)]];
    assert_eq!(place(&sketch, 400, 42), place(&sketch, 400, 42));
    assert_ne!(place(&sketch, 400, 42), place(&sketch, 400, 43));
}

#[test]
fn a_written_sketch_is_read_back() {
    let sketch: Sketch = vec![
        vec![(0.0, 0.0), (100.0, 99.9), (0.1, 1e-7)],
        vec![(50.0, 50.0)],
        vec![(33.333332, 7.25), (7.25, 33.333332)],
    ];
    let strokes: Vec<String> = sketch
        .iter()
        .map(|s| s.iter().map(|(x, y)| format!("{x},{y}")).collect::<Vec<_>>().join(" "))
        .collect();
    assert_eq!(parse(&format!("draw: {}", strokes.join("; "))), Some(sketch));
}

#[test]
fn a_colon_that_opens_the_first_point_is_lost() {
    let draft = coordinates("draw: :1,2").unwrap();
    assert_eq!(draft, vec![vec![("1".to_string(), "2".to_string())]]);
}

#[test]
fn a_dot_is_the_same_in_every_phase() {
    let sketch = to_bits(&vec![vec![(50.0, 50.0)]]);
    let f = fit(&sketch, 300).unwrap();
    let dot = |p: (u32, u32), j: (u32, u32), _: Fit| (p.0 as i32 + j.0 as i32, j.1 as i32);
    let measure = |_: Leg, _: Fit| Stretch { steps: 0, along: 0 };
    let mark = |l: Leg, _: Fit, _: u32, _: u32| (l.phase as i32, 2);
    let steps = |s: &Vec<(u32, u32)>, phase| {
        let jitter = vec![(1, 2); s.len()];
        wobble_stroke(s, f, &Hand { phase, jitter }, &dot, &measure, &mark)
    };
    assert_eq!(steps(&vec![(30, 40)], 5), vec![(31, 2)]);
    assert_eq!(steps(&vec![(30, 40)], 600), vec![(31, 2)]);
    assert_eq!(steps(&vec![], 5), vec![]);
    assert_eq!(steps(&vec![], 600), vec![]);
    assert_eq!(steps(&vec![(0, 0), (1, 1)], 5), vec![(5, 2)]);
}

#[test]
fn a_stroke_is_walked_leg_by_leg() {
    let stroke = vec![(10, 11), (20, 21), (30, 31)];
    let f = fit(&to_bits(&vec![vec![(1.0, 1.0)]]), 300).unwrap();
    let hand = Hand { phase: 7, jitter: vec![(1, 2), (3, 4), (5, 6)] };
    let first = Leg {
        from: (10, 11),
        to: (20, 21),
        from_jitter: (1, 2),
        to_jitter: (3, 4),
        phase: 7,
        along: 0,
    };
    let second = Leg {
        from: (20, 21),
        to: (30, 31),
        from_jitter: (3, 4),
        to_jitter: (5, 6),
        phase: 7,
        along: 99,
    };
    let measure = |l: Leg, _: Fit| {
        assert!(l == first || l == second);
        Stretch { steps: if l == first { 2 } else { 1 }, along: l.along + 99 }
    };
    let mark = |l: Leg, _: Fit, i: u32, n: u32| (l.along as i32 + i as i32, n as i32);
    let steps = wobble_stroke(&stroke, f, &hand, &dot, &measure, &mark);
    assert_eq!(steps, vec![(0, 2), (1, 2), (2, 2), (99, 1), (100, 1)]);
}

#[test]
fn what_has_points_is_drawn_where_there_is_room() {
    let dots = |n: usize| vec![vec![(50.0f32, 50.0f32)]; n];
    assert_eq!(place(&dots(3), 300, 7).unwrap().0.len(), 3);
    assert!(place(&dots(3), 300, 7).unwrap().0.iter().all(|s| s.len() == 1));
    assert_eq!(place(&vec![vec![], vec![(1.0, 1.0)], vec![]], 300, 7).unwrap().0.len(), 1);
    assert!(place(&vec![vec![], vec![]], 300, 7).is_none());
    assert!(place(&vec![], 300, 7).is_none());
    assert!(place(&dots(1), FLOOR - 220, 7).is_some());
    assert!(place(&dots(1), FLOOR - 219, 7).is_none());
    let read = parse("draw: 1,1 junk; 2,2 3,3; ;").unwrap();
    assert_eq!(place(&read, 300, 7).unwrap().0.len(), 2);
}

#[test]
fn coordinates_are_taken_apart() {
    let draft = coordinates("  dRaW:: 1,2 junk 3,4,5 ;\u{a0}; ,7\n").unwrap();
    let pair = |x: &str, y: &str| (x.to_string(), y.to_string());
    assert_eq!(draft, vec![vec![pair("1", "2"), pair("3", "4,5")], vec![], vec![pair("", "7")]]);
    assert_eq!(coordinates("draw").unwrap(), vec![Vec::<(String, String)>::new()]);
    assert!(coordinates("dra").is_none());
    assert!(coordinates("").is_none());
}

#[test]
fn letters_wider_than_a_byte_do_no_harm() {
    assert!(parse("dra\u{20ac}").is_none());
    assert!(parse("\u{20ac}").is_none());
    assert_eq!(parse("draw \u{20ac},1 2,3").unwrap(), vec![vec![(2.0, 3.0)]]);
}

#[test]
fn numbers_without_end_are_skipped() {
    let s = parse("draw: inf,1 1,-inf NaN,2 1e9,-0 3,4 1e-3,5").unwrap();
    assert_eq!(s, vec![vec![(100.0, 0.0), (3.0, 4.0), (0.001, 5.0)]]);
    assert!(parse("draw: inf,inf").is_none());
}

#[test]
fn readings_become_a_sketch() {
    let one = 1.0f32.to_bits();
    let readings = vec![
        vec![(Some(one), None), (None, Some(one)), (None, None)],
        vec![(Some(one), Some(CANVAS + 1)), (Some((-1.0f32).to_bits()), Some(one))],
        vec![],
    ];
    assert_eq!(sketch_of(&readings), Some(vec![vec![(one, CANVAS), (0, one)]]));
    assert_eq!(sketch_of(&vec![]), None);
}

#[test]
fn every_point_of_a_sketch_is_on_the_canvas() {
    let s = parse("draw: 1e30,-1e30 55.5,12 ; -0.5,100.001").unwrap();
    for &(x, y) in s.iter().flatten() {
        assert!((0.0..=100.0).contains(&x) && (0.0..=100.0).contains(&y));
    }
    assert_eq!(s[1], vec![(0.0, 100.0)]);
}

#[test]
fn case_of_the_opening_word_does_not_matter() {
    assert_eq!(parse("draw 1,2"), parse("DrAw 1,2"));
    assert_eq!(coordinates("draw:3,4"), coordinates("DRAW:3,4"));
}

#[test]
fn bounds_hold_every_point_and_nothing_more() {
    let b = bounds(&to_bits(&vec![vec![(3.0, 9.0), (7.5, 1.0)], vec![(5.0, 20.0)]]));
    assert_eq!(f32::from_bits(b.x0), 3.0);
    assert_eq!(f32::from_bits(b.x1), 7.5);
    assert_eq!(f32::from_bits(b.y0), 1.0);
    assert_eq!(f32::from_bits(b.y1), 20.0);
    let none = bounds(&vec![vec![]]);
    assert_eq!((none.x0, none.y0, none.x1, none.y1), (GREATEST, GREATEST, LEAST, LEAST));
    assert_eq!(f32::from_bits(GREATEST), f32::MAX);
    assert_eq!(f32::from_bits(LEAST), f32::MIN);
    assert_eq!(f32::from_bits(CANVAS), 100.0);
}

#[test]
fn bounds_pass_over_what_is_no_number() {
    let nan = f32::NAN.to_bits();
    let b = bounds(&vec![vec![(nan, nan), (0xFFC0_0000, 5)]]);
    assert_eq!((b.x0, b.x1), (GREATEST, LEAST));
    assert_eq!((b.y0, b.y1), (5, 5));
}

#[test]
fn fit_needs_something_to_draw_and_room_for_it() {
    let dot = to_bits(&vec![vec![(1.0, 2.0)]]);
    let f = fit(&dot, 1800).unwrap();
    assert_eq!((f.y_top, f.room), (1800, 220));
    assert!(fit(&dot, 1801).is_none());
    assert!(fit(&vec![], 0).is_none());
    assert!(fit(&vec![vec![], vec![]], 0).is_none());
    assert_eq!(fit(&dot, i32::MIN).unwrap().room, i32::MAX);
}

#[test]
fn hand_is_unsteady_but_repeatable() {
    let h = hand(7, 0, 2);
    assert_eq!(h.phase, 549);
    assert_eq!(h.jitter, vec![(234, 292), (71, 78)]);
    assert!(hand(7, 1, 0).jitter.is_empty());
    assert_ne!(hand(8, 0, 2).jitter, h.jitter);
}

#[test]
fn pen_never_stands_still() {
    let raw = vec![(1, 1), (1, 1), (2, 1), (1, 1), (1, 1), (1, 1)];
    assert_eq!(pen_steps(&raw), vec![(1, 1), (2, 1), (1, 1)]);
    assert_eq!(pen_steps(&vec![]), vec![]);
    assert_eq!(pen_steps(&vec![(3, 4)]), vec![(3, 4)]);
    let sketch = to_bits(&vec![vec![(0.0, 0.0), (100.0, 0.0)]]);
    let steps = wobble_stroke(&sketch[0], fit(&sketch, 300).unwrap(), &hand(7, 0, 2), &dot, &measure, &mark);
    assert!(steps.len() > 300);
    assert!(steps.windows(2).all(|w| w[0] != w[1]));
}

#[test]
fn bottom_lies_below_every_point() {
    let (strokes, bottom) =
        lay_out(vec![vec![(0, 5), (1, 90)], vec![], vec![(4, 30)]], 10).unwrap();
    assert_eq!(strokes, vec![vec![(0, 5), (1, 90)], vec![(4, 30)]]);
    assert_eq!(bottom, 90);
    assert_eq!(lay_out(vec![vec![(0, 5)]], 10).unwrap().1, 10);
    assert!(lay_out(vec![vec![]], 10).is_none());
}

#[test]
fn place_hands_each_stroke_its_own_hand() {
    let sketch = to_bits(&vec![vec![(0.0, 0.0)], vec![(9.0, 9.0), (8.0, 8.0)]]);
    let dot = |_: (u32, u32), j: (u32, u32), f: Fit| (j.0 as i32, f.room);
    let measure = |_: Leg, _: Fit| Stretch { steps: 3, along: 0 };
    let mark = |l: Leg, f: Fit, _: u32, _: u32| (l.phase as i32, f.room);
    let (strokes, bottom) = riddle::draw::place(&sketch, 20, 7, dot, measure, mark).unwrap();
    // The dot has no wobble between its points, the line has that of the second stroke.
    let off = hand(7, 0, 1).jitter[0].0 as i32;
    assert_eq!(strokes, vec![vec![(off, 2000)], vec![(hand(7, 1, 0).phase as i32, 2000)]]);
    assert_eq!(bottom, 2000);
}

#[test]
fn same_drawing_has_the_same_seed() {
    let sketch = to_bits(&vec![vec![(10.0, 10.0), (90.0, 40.0)], vec![(20.0, 80.0)]]);
    let cell = |x: u32, y: u32| {
        ((f32::from_bits(x) * 7.0) as u32, (f32::from_bits(y) * 13.0) as u32)
    };
    assert_eq!(riddle::draw::sketch_seed(&sketch, cell), 0x9947_D1FA);
    assert_eq!(seed_from(&vec![vec![(70, 130), (630, 520), (140, 1040)]]), 0x9947_D1FA);
    assert_eq!(seed_from(&vec![]), 0x51D2);
}
