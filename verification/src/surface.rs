//! The page as it looks: how bright each pixel is.
use crate::fb::BBox;
use vstd::prelude::*;

verus! {

/// Brightness from which a pixel passes for bare paper.
pub const PAPER: u8 = 200;

/// A page of `w` by `h` pixels, each from 0 (black) to 255 (white), row by row.
pub struct Surface {
    pub w: usize,
    pub h: usize,
    pub pixels: Vec<u8>,
}

impl Surface {
    /// There is one brightness for each pixel.
    pub open spec fn wf(self) -> bool {
        self.pixels@.len() == self.w * self.h
    }

    /// The brightness at `x`, `y`; off the page there is only white.
    pub open spec fn brightness(self, x: int, y: int) -> u8 {
        if 0 <= x < self.w && 0 <= y < self.h {
            self.pixels@[y * self.w + x]
        } else {
            255
        }
    }

    /// The brightness at `x`, `y`; off the page there is only white.
    pub fn luma(&self, x: i32, y: i32) -> (l: u8)
        requires
            self.wf(),
        ensures
            l == self.brightness(x as int, y as int),
    {
        if x < 0 || y < 0 || x as usize >= self.w || y as usize >= self.h {
            return 255;
        }
        let (x, y): (usize, usize) = (x as usize, y as usize);
        assert(self.pixels.len() <= usize::MAX);
        assert(y * self.w + self.w <= self.w * self.h) by (nonlinear_arith)
            requires
                y < self.h,
        ;
        self.pixels[y * self.w + x]
    }
}

/// Is every pixel of the region as bright as bare paper?
pub open spec fn bare(surf: Surface, region: BBox) -> bool {
    forall|x: int, y: int|
        #![trigger surf.brightness(x, y)]
        region.holds(x, y) ==> surf.brightness(x, y) >= PAPER
}

/// Does the region hold no dark pixel any more?
pub fn region_all_white(surf: &Surface, region: BBox) -> (white: bool)
    requires
        surf.wf(),
    ensures
        white == (forall|x: int, y: int|
            #![trigger surf.brightness(x, y)]
            region.holds(x, y) ==> surf.brightness(x, y) >= PAPER),
        white == bare(*surf, region),
{
    if region.is_empty() {
        return true;
    }
    let mut y: i64 = region.y0 as i64;
    while y <= region.y1 as i64
        invariant
            surf.wf(),
            region.x0 <= region.x1,
            region.y0 <= y <= region.y1 + 1,
            forall|px: int, py: int|
                #![trigger surf.brightness(px, py)]
                region.holds(px, py) && py < y ==> surf.brightness(px, py) >= PAPER,
        decreases region.y1 + 1 - y,
    {
        let mut x: i64 = region.x0 as i64;
        while x <= region.x1 as i64
            invariant
                surf.wf(),
                region.y0 <= y <= region.y1,
                region.x0 <= x <= region.x1 + 1,
                forall|px: int, py: int|
                    #![trigger surf.brightness(px, py)]
                    region.holds(px, py) && (py < y || (py == y && px < x)) ==> surf.brightness(
                        px,
                        py,
                    ) >= PAPER,
            decreases region.x1 + 1 - x,
        {
            if surf.luma(x as i32, y as i32) < PAPER {
                assert(region.holds(x as int, y as int));
                assert(surf.brightness(x as int, y as int) < PAPER);
                return false;
            }
            x += 1;
        }
        y += 1;
    }
    true
}

/// The pixels of a page lie row by row: a look at one finds its own brightness, and one beyond
/// the edge finds white.
pub proof fn pixels_lie_row_by_row(s: Surface, x: i32, y: i32, l: u8)
    requires
        call_ensures(Surface::luma, (&s, x, y), l),
    ensures
        0 <= x < s.w && 0 <= y < s.h ==> l == s.pixels@[s.w * y + x],
        x < 0 || y < 0 || x >= s.w || y >= s.h ==> l == 255,
{
    assert(y * s.w == s.w * y) by (nonlinear_arith);
}

/// Is the pixel at `x`, `y` on the page, and darker than paper?
pub open spec fn dark_at(s: Surface, x: int, y: int) -> bool {
    0 <= x < s.w && 0 <= y < s.h && s.pixels@[y * s.w + x] < 200
}

/// A region passes for bare where no pixel of it, its edges included, is darker than 200; the
/// pixels outside have no say.
pub proof fn bare_region_has_no_dark_pixel(s: Surface, region: BBox, white: bool)
    requires
        call_ensures(region_all_white, (&s, region), white),
    ensures
        white <==> !exists|x: int, y: int|
            region.x0 <= x <= region.x1 && region.y0 <= y <= region.y1 && #[trigger] dark_at(
                s,
                x,
                y,
            ),
{
    if bare(s, region) {
        assert forall|x: int, y: int|
            region.x0 <= x <= region.x1 && region.y0 <= y <= region.y1 implies !#[trigger] dark_at(
            s,
            x,
            y,
        ) by {
            assert(region.holds(x, y));
            assert(s.brightness(x, y) >= PAPER);
        }
    } else {
        let (x, y) = choose|x: int, y: int|
            #![trigger s.brightness(x, y)]
            region.holds(x, y) && s.brightness(x, y) < PAPER;
        assert(dark_at(s, x, y));
    }
}

} // verus!
