use riddle::fb::BBox;
use riddle::surface::{region_all_white, Surface};

fn page() -> Surface {
    Surface { w: 3, h: 2, pixels: vec![255, 200, 199, 255, 255, 255] }
}

#[test]
fn off_the_page_there_is_only_white() {
    let p = page();
    assert_eq!(p.luma(0, 0), 255);
    assert_eq!(p.luma(2, 0), 199);
    assert_eq!(p.luma(1, 0), 200);
    assert_eq!(p.luma(-1, 0), 255);
    assert_eq!(p.luma(0, -1), 255);
    assert_eq!(p.luma(3, 0), 255);
    assert_eq!(p.luma(0, 2), 255);
}

#[test]
fn one_dark_pixel_is_enough() {
    let p = page();
    assert!(!region_all_white(&p, BBox { x0: 0, y0: 0, x1: 2, y1: 1 }));
    assert!(!region_all_white(&p, BBox { x0: 2, y0: 0, x1: 2, y1: 0 }));
    assert!(region_all_white(&p, BBox { x0: 0, y0: 0, x1: 1, y1: 1 }));
    assert!(region_all_white(&p, BBox { x0: -5, y0: 1, x1: 9, y1: 9 }));
}

#[test]
fn an_empty_region_is_white() {
    assert!(region_all_white(&page(), BBox::empty()));
    assert!(region_all_white(&page(), BBox { x0: 2, y0: 1, x1: 2, y1: 0 }));
}
