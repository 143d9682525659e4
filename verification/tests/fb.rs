use riddle::fb::{blank_page, minus, plus, show, Action, BBox, Shade};

#[test]
fn sums_stop_at_the_ends() {
    assert_eq!(plus(2, 3), 5);
    assert_eq!(plus(i32::MAX, 1), i32::MAX);
    assert_eq!(plus(i32::MIN, -1), i32::MIN);
    assert_eq!(minus(2, 3), -1);
    assert_eq!(minus(i32::MIN, 1), i32::MIN);
    assert_eq!(minus(0, i32::MIN), i32::MAX);
}

#[test]
fn an_empty_box_frames_nothing() {
    let b = BBox::empty();
    assert!(b.is_empty());
    assert_eq!(b.rect(), (0, 0, 0, 0));
}

#[test]
fn a_box_grows_round_its_points() {
    let mut b = BBox::empty();
    b.add(10, 20, 3);
    assert_eq!(b, BBox { x0: 7, y0: 17, x1: 13, y1: 23 });
    assert_eq!(b.rect(), (7, 17, 7, 7));
    b.add(8, 40, 0);
    assert_eq!(b, BBox { x0: 7, y0: 17, x1: 13, y1: 40 });
    assert!(!b.is_empty());
}

#[test]
fn joined_boxes_hold_both() {
    let mut b = BBox { x0: 0, y0: 0, x1: 1, y1: 1 };
    b.join(BBox::empty());
    assert_eq!(b, BBox { x0: 0, y0: 0, x1: 1, y1: 1 });
    b.join(BBox { x0: 5, y0: -2, x1: 6, y1: 0 });
    assert_eq!(b, BBox { x0: 0, y0: -2, x1: 6, y1: 1 });
}

#[test]
fn the_widest_frame_still_fits() {
    let b = BBox { x0: i32::MIN, y0: 0, x1: i32::MAX, y1: 0 };
    assert_eq!(b.rect(), (i32::MIN, 0, i32::MAX, 1));
}

#[test]
fn showing_follows_the_frame() {
    let b = BBox { x0: 1, y0: 2, x1: 3, y1: 5 };
    assert_eq!(show(b, true), Action::Update { x: 1, y: 2, w: 3, h: 4, fast: true });
}

#[test]
fn the_page_is_blanked_whole() {
    assert_eq!(
        blank_page(),
        vec![
            Action::Fill { x: 0, y: 0, w: 1620, h: 2160, shade: Shade::White },
            Action::UpdateAll,
        ]
    );
}
