use riddle::fb::{Action, BBox, Shade};
use riddle::plan::draw_some;

#[test]
fn the_hand_moves_on_by_its_budget() {
    let strokes: Vec<Vec<(i32, i32)>> = vec![vec![(1, 1), (5, 1)], vec![], vec![(9, 9)]];
    let (mut i, mut j) = (0, 0);
    let (acts, dirty) = draw_some(&strokes, &mut i, &mut j, 2);
    assert_eq!(
        acts,
        vec![
            Action::Stamp { x: 1, y: 1, r: 2, shade: Shade::Black },
            Action::Brush { x0: 1, y0: 1, x1: 5, y1: 1, r: 2, shade: Shade::Black },
        ]
    );
    assert_eq!(dirty, BBox { x0: -3, y0: -3, x1: 9, y1: 5 });
    assert_eq!((i, j), (0, 2));
    let (acts, dirty) = draw_some(&strokes, &mut i, &mut j, 2);
    assert_eq!(acts, vec![Action::Stamp { x: 9, y: 9, r: 2, shade: Shade::Black }]);
    assert_eq!(dirty, BBox { x0: 5, y0: 5, x1: 13, y1: 13 });
    assert_eq!((i, j), (3, 0));
    let (acts, dirty) = draw_some(&strokes, &mut i, &mut j, 2);
    assert!(acts.is_empty() && dirty.is_empty());
}

#[test]
fn a_spent_budget_leaves_the_hand_in_its_stroke() {
    let strokes: Vec<Vec<(i32, i32)>> = vec![vec![(1, 1)]];
    let (mut i, mut j) = (0, 0);
    draw_some(&strokes, &mut i, &mut j, 1);
    assert_eq!((i, j), (0, 1));
    draw_some(&strokes, &mut i, &mut j, 1);
    assert_eq!((i, j), (1, 0));
}

#[test]
fn remembered_ink_keeps_its_radii() {
    let strokes = vec![vec![(0, 0, 2), (4, 0, 9), (8, 0, 1)]];
    let (mut i, mut j) = (0, 0);
    let (acts, dirty) = draw_some(&strokes, &mut i, &mut j, 48);
    assert_eq!(
        acts,
        vec![
            Action::Stamp { x: 0, y: 0, r: 2, shade: Shade::Faded },
            Action::Brush { x0: 0, y0: 0, x1: 4, y1: 0, r: 3, shade: Shade::Faded },
            Action::Brush { x0: 4, y0: 0, x1: 8, y1: 0, r: 1, shade: Shade::Faded },
        ]
    );
    assert_eq!(dirty, BBox { x0: -7, y0: -11, x1: 15, y1: 11 });
}

#[test]
fn steps_add_up_to_the_whole() {
    let strokes: Vec<Vec<(i32, i32)>> =
        (0..5).map(|k| (0..k * 7).map(|n| (n, k)).collect()).collect();
    let (mut a, mut b) = (0, 0);
    let (whole, _) = draw_some(&strokes, &mut a, &mut b, 1000);
    assert_eq!(whole.len(), 70);
    let (mut i, mut j) = (0, 0);
    let mut parts = Vec::new();
    while i < strokes.len() {
        parts.extend(draw_some(&strokes, &mut i, &mut j, 26).0);
    }
    assert_eq!(parts, whole);
}
