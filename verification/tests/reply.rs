use riddle::fb::BBox;
use riddle::reply::{append_reply, conjure, plan_reply, TracedLine};

fn line(width: i32, strokes: Vec<Vec<(i32, i32)>>) -> TracedLine {
    TracedLine { width, strokes }
}

#[test]
fn lines_are_centred_and_sway() {
    let lines = vec![
        line(620, vec![vec![(0, 0), (10, 20)], vec![]]),
        line(1621, vec![vec![(0, 0)]]),
        line(1625, vec![vec![(0, 0)]]),
    ];
    let plan = plan_reply(&lines, Some(100));
    assert_eq!(
        plan.strokes,
        vec![
            vec![(500, 102), (510, 122)],
            vec![],
            vec![(0, 100 + 120 - 3)],
            vec![(-2, 100 + 240 + 1)],
        ]
    );
    assert_eq!((plan.stroke_i, plan.point_i), (0, 0));
    assert_eq!(plan.next_y, 460);
    assert_eq!(plan.region, BBox { x0: -7, y0: 97, x1: 515, y1: 346 });
}

#[test]
fn a_first_chunk_is_placed_by_its_height() {
    let lines = |n: usize| (0..n).map(|_| line(0, vec![])).collect::<Vec<_>>();
    assert_eq!(plan_reply(&lines(0), None).next_y, 720);
    assert_eq!(plan_reply(&lines(3), None).next_y, 600 + 360);
    assert_eq!(plan_reply(&lines(16), None).next_y, 80 + 1920);
    assert_eq!(plan_reply(&lines(17), None).next_y, 60 + 2040);
    assert_eq!(plan_reply(&lines(40), None).next_y, 60 + 4800);
    assert!(plan_reply(&lines(2), None).region.is_empty());
}

#[test]
fn a_reply_lies_within_its_region() {
    let lines = vec![line(300, vec![vec![(-40, 3), (900, 80)], vec![(7, 7)]])];
    let plan = plan_reply(&lines, None);
    for &(x, y) in plan.strokes.iter().flatten() {
        assert!(plan.region.x0 <= x && x <= plan.region.x1);
        assert!(plan.region.y0 <= y && y <= plan.region.y1);
    }
}

#[test]
fn a_further_chunk_goes_below() {
    let mut plan = plan_reply(&vec![line(20, vec![vec![(0, 0)]])], Some(100));
    plan.point_i = 1;
    append_reply(&mut plan, &vec![line(20, vec![vec![(5, 5)]])]);
    assert_eq!(plan.strokes, vec![vec![(800, 102)], vec![(805, 227)]]);
    assert_eq!((plan.stroke_i, plan.point_i), (0, 1));
    assert_eq!(plan.next_y, 340);
    assert_eq!(plan.region, BBox { x0: 795, y0: 97, x1: 810, y1: 232 });
}

#[test]
fn a_chunk_without_ink_changes_nothing() {
    let mut plan = plan_reply(&vec![line(20, vec![vec![(0, 0)]])], Some(100));
    let region = plan.region;
    append_reply(&mut plan, &vec![line(20, vec![]), line(20, vec![])]);
    append_reply(&mut plan, &vec![]);
    assert_eq!(plan.strokes, vec![vec![(800, 102)]]);
    assert_eq!(plan.next_y, 220);
    assert_eq!(plan.region, region);
}

#[test]
fn a_chunk_of_empty_strokes_still_moves_on() {
    let mut plan = plan_reply(&vec![line(20, vec![vec![(0, 0)]])], Some(100));
    append_reply(&mut plan, &vec![line(20, vec![vec![]])]);
    assert_eq!(plan.strokes.len(), 2);
    assert_eq!(plan.next_y, 340);
    let plane = BBox { x0: i32::MIN, y0: i32::MIN, x1: i32::MAX, y1: i32::MAX };
    assert_eq!(plan.region, plane);
}

#[test]
fn a_remembered_page_has_date_ink_and_reply() {
    let date = line(20, vec![vec![(1, 2)]]);
    let own = vec![vec![(30, 500, 4), (31, 600, 5)]];
    let old = Some(vec![line(20, vec![vec![(0, 0)]])]);
    let plan = conjure(&date, own, &old);
    assert_eq!(
        plan.strokes,
        vec![
            vec![(801, 66, 1)],
            vec![(30, 500, 4), (31, 600, 5)],
            vec![(800, 732, 2)],
        ]
    );
    assert_eq!((plan.stroke_i, plan.point_i), (0, 0));
    assert_eq!(plan.region, BBox { x0: 24, y0: 63, x1: 804, y1: 736 });
}

#[test]
fn an_old_reply_stays_on_the_page() {
    let date = line(20, vec![]);
    let old = Some(vec![line(20, vec![vec![(0, 0)]])]);
    let low = conjure(&date, vec![vec![(0, 2100, 2)]], &old);
    assert_eq!(low.strokes[1], vec![(800, 1762, 2)]);
    let bare = conjure(&date, vec![], &old);
    assert_eq!(bare.strokes, vec![vec![(800, 64 + 130 + 2, 2)]]);
    let silent = conjure(&date, vec![], &None);
    assert!(silent.strokes.is_empty());
    assert!(silent.region.is_empty());
}
