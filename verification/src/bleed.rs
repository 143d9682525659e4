//! An ink bleed that spreads over the page, from the first pool to the drowned sheet.
//!
//! A pixel is inked once its distance from the tip is no more than the bleed's radius times the
//! paper's absorbency there. The absorbency is a field fixed to the paper, so the front keeps
//! meeting new paper as it grows.
use crate::fb::{
    fitted, greater, grown_is_least, lesser, minus, plus, Action, BBox, Shade, SCREEN_H, SCREEN_W,
};
use crate::noise::{mixed, splat_hash};
use crate::reply::{lemma_with_stroke_least, stroke_is_covered, with_stroke};
use crate::single::{at_most, is_at_most, is_nan, nan, rank, rank_of};
use vstd::prelude::*;

verus! {

/// The absorbency is sampled once per square of this many pixels a side.
pub const BLEED_CELL: i32 = 4;

/// Droplets that a bleed can fling ahead of its front.
pub const DROPLETS: u32 = 40;

/// A radius in single precision, with what is read off it.
#[derive(Clone, Copy, Debug, PartialEq, Eq, Structural)]
pub struct Radius {
    /// The bits of the number, by which radii are ordered.
    pub bits: u32,
    /// Its whole part.
    pub whole: u32,
    /// The whole part of its square.
    pub squared: u64,
    /// How far from the tip, along either axis, its front can be.
    pub reach: i32,
}

/// A bleed that started at `ox`, `oy` on a page of `w` by `h` pixels.
pub struct Bleed {
    pub ox: i32,
    pub oy: i32,
    pub w: i32,
    pub h: i32,
    /// Paper absorbency times 64, row by row.
    pub field: Vec<u8>,
    /// Samples in a row of `field`.
    pub fw: i32,
    /// Where each droplet lands, relative to the tip.
    pub flung: Vec<(i32, i32)>,
    pub r: Radius,
    pub bbox: BBox,
    pub seed: u32,
}

/// Samples of absorbency along `n` pixels.
pub open spec fn samples(n: int) -> int {
    n / BLEED_CELL as int + 2
}

/// What is known of one sample at one scale: the values at the four lattice points round it, in
/// thousandths, its own place, and the spacing of the lattice.
#[derive(Clone, Copy, Debug, PartialEq, Eq, Structural)]
pub struct Lattice {
    pub a: u32,
    pub b: u32,
    pub c: u32,
    pub d: u32,
    pub x: u32,
    pub y: u32,
    pub span: u32,
}

/// The spacing of the lattice at each of the three scales, in samples.
pub open spec fn lattice_span(scale: int) -> u32 {
    if scale == 0 {
        11
    } else if scale == 1 {
        25
    } else {
        55
    }
}

/// The value at a lattice point, in thousandths.
pub open spec fn lattice_value(seed: u32, scale: int, lx: int, ly: int) -> u32 {
    mixed(seed ^ ((0x1000 * (scale + 1)) as u32), (ly * 977 + lx) as u32) % 1000
}

/// The lattice round the sample `x`, `y`.
pub open spec fn lattice_at(seed: u32, scale: int, x: int, y: int) -> Lattice {
    let n = lattice_span(scale) as int;
    Lattice {
        a: lattice_value(seed, scale, x / n, y / n),
        b: lattice_value(seed, scale, x / n + 1, y / n),
        c: lattice_value(seed, scale, x / n, y / n + 1),
        d: lattice_value(seed, scale, x / n + 1, y / n + 1),
        x: x as u32,
        y: y as u32,
        span: n as u32,
    }
}

/// The value at a lattice point, in thousandths.
fn lattice_point(seed: u32, scale: u32, lx: u32, ly: u32) -> (v: u32)
    requires
        scale < 3,
        ly * 977 + lx <= u32::MAX,
    ensures
        v == lattice_value(seed, scale as int, lx as int, ly as int),
{
    splat_hash(seed ^ (0x1000 * (scale + 1)), ly * 977 + lx) % 1000
}

/// The lattice round the sample `x`, `y`, at one of three scales from fine to coarse.
pub fn lattice(seed: u32, scale: u32, x: u32, y: u32) -> (l: Lattice)
    requires
        scale < 3,
        (y / lattice_span(scale as int) + 1) * 977 + x / lattice_span(scale as int) + 1 <= i32::MAX,
    ensures
        l == lattice_at(seed, scale as int, x as int, y as int),
{
    let span: u32 = if scale == 0 {
        11
    } else if scale == 1 {
        25
    } else {
        55
    };
    let lx: u32 = x / span;
    let ly: u32 = y / span;
    Lattice {
        a: lattice_point(seed, scale, lx, ly),
        b: lattice_point(seed, scale, lx + 1, ly),
        c: lattice_point(seed, scale, lx, ly + 1),
        d: lattice_point(seed, scale, lx + 1, ly + 1),
        x,
        y,
        span,
    }
}

/// A droplet: when it appears, how it is flung, and how large it is.
#[derive(Clone, Copy, Debug, PartialEq, Eq, Structural)]
pub struct Droplet {
    /// The radius of the bleed at which it appears.
    pub threshold: u32,
    /// Its direction, in thousandths of a radian.
    pub angle: u32,
    /// How far it is flung, in hundredths of its threshold.
    pub throw: u32,
    /// Its own radius.
    pub size: i32,
}

/// Droplet `i` of a bleed.
pub open spec fn droplet_at(seed: u32, i: u32) -> Droplet {
    let h = mixed(seed ^ 0xD09, i);
    Droplet {
        threshold: (12 + h % 300) as u32,
        angle: (h >> 9) % 6283,
        throw: (125 + (h >> 20) % 80) as u32,
        size: (2 + (h >> 27) % 6) as i32,
    }
}

/// Droplet `i` of a bleed.
pub fn droplet(seed: u32, i: u32) -> (d: Droplet)
    ensures
        d == droplet_at(seed, i),
{
    let h: u32 = splat_hash(seed ^ 0xD09, i);
    Droplet {
        threshold: 12 + h % 300,
        angle: (h >> 9) % 6283,
        throw: 125 + (h >> 20) % 80,
        size: 2 + ((h >> 27) % 6) as i32,
    }
}

impl Bleed {
    /// The field covers the page, and every droplet has a place to land.
    pub open spec fn wf(self) -> bool {
        &&& 0 <= self.w <= i32::MAX - 20
        &&& 0 <= self.h <= i32::MAX - 20
        &&& self.fw == samples(self.w as int)
        &&& self.field@.len() == self.fw * samples(self.h as int)
        &&& self.flung@.len() == DROPLETS
    }

    /// Is `x`, `y` on the page?
    pub open spec fn on_page(self, x: int, y: int) -> bool {
        0 <= x < self.w && 0 <= y < self.h
    }

    /// The absorbency at `x`, `y`, times 64.
    pub open spec fn absorbency(self, x: int, y: int) -> u8 {
        self.field@[(y / BLEED_CELL as int) * self.fw + x / BLEED_CELL as int]
    }

    /// The square of the distance from the tip to `x`, `y`.
    pub open spec fn distance2(self, x: int, y: int) -> int {
        (x - self.ox) * (x - self.ox) + (y - self.oy) * (y - self.oy)
    }

    /// Has a bleed whose radius squares to `r2` come to `x`, `y`?
    pub open spec fn claimed(self, x: int, y: int, r2: int) -> bool {
        self.distance2(x, y) * 4096 <= r2 * (self.absorbency(x, y) * self.absorbency(x, y))
    }

    /// Is `x`, `y` on the page and within `reach` of the tip along either axis?
    pub open spec fn within(self, x: int, y: int, reach: int) -> bool {
        &&& self.on_page(x, y)
        &&& self.ox - reach <= x <= self.ox + reach
        &&& self.oy - reach <= y <= self.oy + reach
    }

    /// Has the bleed inked `x`, `y`? One that has not grown yet, whose radius is zero, has inked
    /// nothing, not even its tip.
    pub open spec fn inked(self, x: int, y: int) -> bool {
        rank(self.r.bits) != 0 && self.claimed(x, y, self.r.squared as int)
    }

    /// Does growing from `r` to `to` ink `x`, `y`?
    pub open spec fn newly(self, x: int, y: int, to: Radius) -> bool {
        &&& self.within(x, y, to.reach as int)
        &&& self.claimed(x, y, to.squared as int)
        &&& !self.inked(x, y)
    }

    /// Where droplet `i` lands.
    pub open spec fn landing(self, i: int) -> (int, int) {
        (self.ox + self.flung@[i].0, self.oy + self.flung@[i].1)
    }

    /// Does growing from `r` to `to` let droplet `i` fall on or near the page? A radius that is no
    /// number crosses no threshold.
    pub open spec fn falls(self, i: int, to: Radius) -> bool {
        let (px, py) = self.landing(i);
        &&& !nan(self.r.bits)
        &&& !nan(to.bits)
        &&& self.r.whole < droplet_at(self.seed, i as u32).threshold <= to.whole
        &&& -20 < px < self.w + 20
        &&& -20 < py < self.h + 20
    }

    /// Those of the first `n` droplets that fall, each as a blot.
    pub open spec fn fallen(self, n: int, to: Radius) -> Seq<Action>
        decreases n,
    {
        if n <= 0 {
            Seq::empty()
        } else if self.falls(n - 1, to) {
            self.fallen(n - 1, to).push(
                Action::Stamp {
                    x: self.landing(n - 1).0 as i32,
                    y: self.landing(n - 1).1 as i32,
                    r: droplet_at(self.seed, (n - 1) as u32).size,
                    shade: Shade::Black,
                },
            )
        } else {
            self.fallen(n - 1, to)
        }
    }
}

/// Does `p` come before `q` when the page is read row by row?
pub open spec fn before(p: (i32, i32), q: (i32, i32)) -> bool {
    p.1 < q.1 || (p.1 == q.1 && p.0 < q.0)
}

/// A box once it has taken in each blot of a list with a margin of one.
pub open spec fn with_blots(b: BBox, blots: Seq<Action>) -> BBox
    decreases blots.len(),
{
    if blots.len() == 0 {
        b
    } else {
        match blots.last() {
            Action::Stamp { x, y, r, shade } => with_blots(b, blots.drop_last()).grown(
                x,
                y,
                fitted(r + 1),
            ),
            _ => with_blots(b, blots.drop_last()),
        }
    }
}

/// May `blend` give the sample `x`, `y` the absorbency `value`?
pub open spec fn blends<B: Fn(Lattice, Lattice, Lattice) -> u8>(
    blend: B,
    seed: u32,
    x: int,
    y: int,
    value: u8,
) -> bool {
    call_ensures(
        blend,
        (lattice_at(seed, 0, x, y), lattice_at(seed, 1, x, y), lattice_at(seed, 2, x, y)),
        value,
    )
}

/// Is `field` the absorbency that `blend` may give to each sample of a page that `fw` by `fh`
/// of them cover?
pub open spec fn blended<B: Fn(Lattice, Lattice, Lattice) -> u8>(
    blend: B,
    seed: u32,
    fw: int,
    fh: int,
    field: Seq<u8>,
) -> bool {
    &&& field.len() == fw * fh
    &&& forall|x: int, y: int|
        0 <= x < fw && 0 <= y < fh ==> #[trigger] blends(blend, seed, x, y, field[y * fw + x])
}

/// Are there so few samples that they can be counted and told apart?
pub open spec fn countable(fw: int, fh: int) -> bool {
    &&& fw * fh <= i32::MAX
    &&& (fh / 11 + 1) * 977 + fw / 11 + 1 <= i32::MAX
}

/// The absorbency of the sample `x`, `y`.
fn blend_sample<B: Fn(Lattice, Lattice, Lattice) -> u8>(seed: u32, x: u32, y: u32, blend: &B) -> (value:
    u8)
    requires
        (y / 11 + 1) * 977 + x / 11 + 1 <= i32::MAX,
        forall|a: Lattice, b: Lattice, c: Lattice| call_requires(*blend, (a, b, c)),
    ensures
        blends(*blend, seed, x as int, y as int, value),
{
    assert(y / 55 <= y / 25 <= y / 11 && x / 55 <= x / 25 <= x / 11);
    blend(lattice(seed, 0, x, y), lattice(seed, 1, x, y), lattice(seed, 2, x, y))
}

/// The absorbency of each sample in row `y`.
fn blend_row<B: Fn(Lattice, Lattice, Lattice) -> u8>(seed: u32, fw: u32, y: u32, blend: &B) -> (row:
    Vec<u8>)
    requires
        (y / 11 + 1) * 977 + fw / 11 + 1 <= i32::MAX,
        forall|a: Lattice, b: Lattice, c: Lattice| call_requires(*blend, (a, b, c)),
    ensures
        row@.len() == fw,
        forall|x: int| 0 <= x < fw ==> blends(*blend, seed, x, y as int, #[trigger] row@[x]),
{
    let mut row: Vec<u8> = Vec::new();
    let mut x: u32 = 0;
    while x < fw
        invariant
            (y / 11 + 1) * 977 + fw / 11 + 1 <= i32::MAX,
            forall|a: Lattice, b: Lattice, c: Lattice| call_requires(*blend, (a, b, c)),
            x <= fw,
            row@.len() == x,
            forall|k: int| 0 <= k < x ==> blends(*blend, seed, k, y as int, #[trigger] row@[k]),
        decreases fw - x,
    {
        row.push(blend_sample(seed, x, y, blend));
        x += 1;
    }
    row
}

/// The place of sample `x`, `y` among rows of `fw`.
proof fn lemma_row(x: int, y: int, fw: int, rows: int)
    requires
        0 <= x < fw,
        0 <= y < rows,
    ensures
        0 <= y * fw,
        y * fw + x < fw * rows,
{
    assert(0 <= y * fw) by (nonlinear_arith)
        requires
            0 <= y,
            0 <= fw,
    ;
    assert(y * fw + fw <= fw * rows) by (nonlinear_arith)
        requires
            y + 1 <= rows,
            0 <= fw,
    ;
}

/// The absorbency of each sample, row by row.
fn blend_field<B: Fn(Lattice, Lattice, Lattice) -> u8>(seed: u32, fw: u32, fh: u32, blend: B) -> (field:
    Vec<u8>)
    requires
        countable(fw as int, fh as int),
        forall|a: Lattice, b: Lattice, c: Lattice| call_requires(blend, (a, b, c)),
    ensures
        blended(blend, seed, fw as int, fh as int, field@),
{
    let mut field: Vec<u8> = Vec::new();
    let mut y: u32 = 0;
    while y < fh
        invariant
            countable(fw as int, fh as int),
            forall|a: Lattice, b: Lattice, c: Lattice| call_requires(blend, (a, b, c)),
            y <= fh,
            blended(blend, seed, fw as int, y as int, field@),
        decreases fh - y,
    {
        let mut row = blend_row(seed, fw, y, &blend);
        let ghost was = field@;
        let ghost fresh = row@;
        field.append(&mut row);
        proof {
            assert(fw * (y + 1) == fw * y + fw) by (nonlinear_arith);
            assert forall|px: int, py: int| 0 <= px < fw && 0 <= py < y + 1 implies #[trigger] blends(
                blend,
                seed,
                px,
                py,
                field@[py * fw + px],
            ) by {
                if py < y {
                    lemma_row(px, py, fw as int, y as int);
                    assert(field@[py * fw + px] == was[py * fw + px]);
                    assert(blends(blend, seed, px, py, was[py * fw + px]));
                } else {
                    assert(py * fw == fw * y) by (nonlinear_arith)
                        requires
                            py == y,
                    ;
                    assert(field@[py * fw + px] == fresh[px]);
                }
            }
        }
        y += 1;
    }
    field
}

/// Start a bleed at `ox`, `oy` on a page of `w` by `h` pixels, not yet grown. `blend` makes the
/// absorbency of a sample, times 64, out of the lattices round it; `fling` tells where a droplet
/// lands, relative to the tip.
pub fn bleed_new<B: Fn(Lattice, Lattice, Lattice) -> u8, F: Fn(Droplet) -> (i32, i32)>(
    w: i32,
    h: i32,
    ox: i32,
    oy: i32,
    seed: u32,
    blend: B,
    fling: F,
) -> (b: Bleed)
    requires
        0 <= w <= i32::MAX - 20,
        0 <= h <= i32::MAX - 20,
        countable(samples(w as int), samples(h as int)),
        forall|a: Lattice, b: Lattice, c: Lattice| call_requires(blend, (a, b, c)),
        forall|d: Droplet| call_requires(fling, (d,)),
    ensures
        b.wf(),
        b.ox == ox,
        b.oy == oy,
        b.w == w,
        b.h == h,
        blended(blend, seed, samples(w as int), samples(h as int), b.field@),
        forall|i: int|
            0 <= i < DROPLETS ==> call_ensures(
                fling,
                (droplet_at(seed, i as u32),),
                #[trigger] b.flung@[i],
            ),
        b.seed == seed,
        b.r == (Radius { bits: 0, whole: 0, squared: 0, reach: 0 }),
        b.bbox == BBox::nothing(),
{
    let fw: i32 = w / BLEED_CELL + 2;
    let fh: i32 = h / BLEED_CELL + 2;
    let field = blend_field(seed, fw as u32, fh as u32, blend);
    let mut flung: Vec<(i32, i32)> = Vec::new();
    let mut i: u32 = 0;
    while i < DROPLETS
        invariant
            forall|d: Droplet| call_requires(fling, (d,)),
            i <= DROPLETS,
            flung@.len() == i,
            forall|k: int|
                0 <= k < i ==> call_ensures(
                    fling,
                    (droplet_at(seed, k as u32),),
                    #[trigger] flung@[k],
                ),
        decreases DROPLETS - i,
    {
        flung.push(fling(droplet(seed, i)));
        i += 1;
    }
    Bleed {
        ox,
        oy,
        w,
        h,
        field,
        fw,
        flung,
        r: Radius { bits: 0, whole: 0, squared: 0, reach: 0 },
        bbox: BBox::empty(),
        seed,
    }
}

/// A pixel of the page has a sample in the field.
proof fn lemma_sample(b: Bleed, x: int, y: int)
    requires
        b.wf(),
        b.on_page(x, y),
    ensures
        0 <= (y / BLEED_CELL as int) * b.fw + x / BLEED_CELL as int,
        (y / BLEED_CELL as int) * b.fw + x / BLEED_CELL as int <= b.field@.len() - 1,
        (y / BLEED_CELL as int) * b.fw <= b.field@.len(),
{
    let row = y / BLEED_CELL as int;
    let rows = samples(b.h as int);
    let fw = b.fw as int;
    assert(0 <= row <= rows - 2);
    assert(0 <= x / BLEED_CELL as int <= fw - 2);
    assert(0 <= row * fw <= (rows - 2) * fw) by (nonlinear_arith)
        requires
            0 <= row <= rows - 2,
            0 <= fw,
    ;
    assert((rows - 2) * fw + 2 * fw == fw * rows) by (nonlinear_arith);
}

/// Has the bleed, were its radius to square to `r2`, come to `x`, `y`?
fn is_claimed(b: &Bleed, x: i32, y: i32, r2: u64) -> (c: bool)
    requires
        b.wf(),
        b.on_page(x as int, y as int),
    ensures
        c == b.claimed(x as int, y as int, r2 as int),
{
    proof {
        lemma_sample(*b, x as int, y as int);
        assert(b.field.len() <= usize::MAX);
    }
    let at: usize = (y / BLEED_CELL) as usize * b.fw as usize + (x / BLEED_CELL) as usize;
    let g: i128 = b.field[at] as i128;
    let dx: i128 = x as i128 - b.ox as i128;
    let dy: i128 = y as i128 - b.oy as i128;
    let r2: i128 = r2 as i128;
    assert(0 <= dx * dx <= 0x1_0000_0000_0000_0000) by (nonlinear_arith)
        requires
            -0x1_0000_0000 <= dx <= 0x1_0000_0000,
    ;
    assert(0 <= dy * dy <= 0x1_0000_0000_0000_0000) by (nonlinear_arith)
        requires
            -0x1_0000_0000 <= dy <= 0x1_0000_0000,
    ;
    assert(0 <= g * g <= 0x1_0000) by (nonlinear_arith)
        requires
            0 <= g <= 255,
    ;
    assert(0 <= r2 * (g * g) <= 0x1_0000_0000_0000_0000_0000) by (nonlinear_arith)
        requires
            0 <= r2 <= 0xffff_ffff_ffff_ffff,
            0 <= g * g <= 0x1_0000,
    ;
    (dx * dx + dy * dy) * 4096 <= r2 * (g * g)
}

/// Are all four corners of the page under ink?
pub open spec fn corners_claimed(b: Bleed) -> bool {
    let r2 = b.r.squared as int;
    &&& b.claimed(0, 0, r2)
    &&& b.claimed(b.w - 1, 0, r2)
    &&& b.claimed(0, b.h - 1, r2)
    &&& b.claimed(b.w - 1, b.h - 1, r2)
}

/// Are all four corners of the page under ink?
pub fn drowned(b: &Bleed) -> (d: bool)
    requires
        b.wf(),
        b.w > 0,
        b.h > 0,
    ensures
        d == corners_claimed(*b),
{
    let r2: u64 = b.r.squared;
    is_claimed(b, 0, 0, r2) && is_claimed(b, b.w - 1, 0, r2) && is_claimed(b, 0, b.h - 1, r2)
        && is_claimed(b, b.w - 1, b.h - 1, r2)
}

/// What one spurt of growth inks.
pub struct Growth {
    /// The pixels of the front, row by row.
    pub pixels: Vec<(i32, i32)>,
    /// The droplets that fell ahead of it, each as a blot.
    pub drops: Vec<Action>,
}

/// Is `g` what growing the bleed `b` to the radius `to` inks?
pub open spec fn growth_of(b: Bleed, to: Radius, g: Growth) -> bool {
    &&& forall|x: int, y: int| #[trigger]
        b.newly(x, y, to) ==> g.pixels@.contains((x as i32, y as i32))
    &&& forall|i: int|
        0 <= i < g.pixels@.len() ==> b.newly(
            (#[trigger] g.pixels@[i]).0 as int,
            g.pixels@[i].1 as int,
            to,
        )
    &&& forall|i: int, j: int|
        0 <= i < j < g.pixels@.len() ==> before(#[trigger] g.pixels@[i], #[trigger] g.pixels@[j])
    &&& g.drops@ == b.fallen(DROPLETS as int, to)
}

/// Is `is` what the bleed `was` has become, and `g` what it inked, on growing to the radius
/// `to`? A radius no greater than its own changes nothing. One that is no number is not
/// compared: the bleed takes it on.
pub open spec fn grown_to(was: Bleed, to: Radius, g: Growth, is: Bleed) -> bool {
    if at_most(to.bits, was.r.bits) {
        &&& is == was
        &&& g.pixels@.len() == 0
        &&& g.drops@.len() == 0
    } else {
        &&& growth_of(was, to, g)
        &&& is == (Bleed {
            r: to,
            bbox: with_blots(with_stroke(was.bbox, g.pixels@, 1), g.drops@),
            ..was
        })
    }
}

/// Is `x`, `y` read before the place `cx`, `cy`?
spec fn read_before(x: int, y: int, cx: int, cy: int) -> bool {
    y < cy || (y == cy && x < cx)
}

/// The pixels of the front, row by row.
fn front(b: &Bleed, to: Radius) -> (pixels: Vec<(i32, i32)>)
    requires
        b.wf(),
    ensures
        forall|x: int, y: int| #[trigger]
            b.newly(x, y, to) ==> pixels@.contains((x as i32, y as i32)),
        forall|i: int|
            0 <= i < pixels@.len() ==> b.newly(
                (#[trigger] pixels@[i]).0 as int,
                pixels@[i].1 as int,
                to,
            ),
        forall|i: int, j: int|
            0 <= i < j < pixels@.len() ==> before(#[trigger] pixels@[i], #[trigger] pixels@[j]),
{
    let mut pixels: Vec<(i32, i32)> = Vec::new();
    let x0: i32 = greater(minus(b.ox, to.reach), 0);
    let x1: i32 = lesser(plus(b.ox, to.reach), b.w - 1);
    let y0: i32 = greater(minus(b.oy, to.reach), 0);
    let y1: i32 = lesser(plus(b.oy, to.reach), b.h - 1);
    assert(forall|x: int, y: int| #[trigger]
        b.within(x, y, to.reach as int) ==> x0 <= x <= x1 && y0 <= y <= y1);
    let mut y: i32 = y0;
    while y <= y1
        invariant
            b.wf(),
            y0 <= y,
            0 <= x0,
            x1 < b.w,
            0 <= y0,
            y1 < b.h,
            x0 == (if b.ox - to.reach >= 0 { fitted(b.ox - to.reach) } else { 0 }),
            y0 == (if b.oy - to.reach >= 0 { fitted(b.oy - to.reach) } else { 0 }),
            x1 == (if fitted(b.ox + to.reach) <= b.w - 1 { fitted(b.ox + to.reach) } else { (b.w - 1) as i32 }),
            y1 == (if fitted(b.oy + to.reach) <= b.h - 1 { fitted(b.oy + to.reach) } else { (b.h - 1) as i32 }),
            forall|px: int, py: int|
                #[trigger] b.newly(px, py, to) && py < y ==> pixels@.contains(
                    (px as i32, py as i32),
                ),
            forall|i: int|
                0 <= i < pixels@.len() ==> b.newly(
                    (#[trigger] pixels@[i]).0 as int,
                    pixels@[i].1 as int,
                    to,
                ) && pixels@[i].1 < y,
            forall|i: int, j: int|
                0 <= i < j < pixels@.len() ==> before(
                    #[trigger] pixels@[i],
                    #[trigger] pixels@[j],
                ),
        decreases y1 + 1 - y,
    {
        let mut x: i32 = x0;
        while x <= x1
            invariant
                b.wf(),
                y0 <= y <= y1,
                x0 <= x,
                0 <= x0,
                x1 < b.w,
                0 <= y0,
                y1 < b.h,
                x0 == (if b.ox - to.reach >= 0 { fitted(b.ox - to.reach) } else { 0 }),
                y0 == (if b.oy - to.reach >= 0 { fitted(b.oy - to.reach) } else { 0 }),
                x1 == (if fitted(b.ox + to.reach) <= b.w - 1 { fitted(b.ox + to.reach) } else { (b.w - 1) as i32 }),
                y1 == (if fitted(b.oy + to.reach) <= b.h - 1 { fitted(b.oy + to.reach) } else { (b.h - 1) as i32 }),
                forall|px: int, py: int|
                    #[trigger] b.newly(px, py, to) && read_before(px, py, x as int, y as int)
                        ==> pixels@.contains((px as i32, py as i32)),
                forall|i: int|
                    0 <= i < pixels@.len() ==> b.newly(
                        (#[trigger] pixels@[i]).0 as int,
                        pixels@[i].1 as int,
                        to,
                    ) && read_before(
                        pixels@[i].0 as int,
                        pixels@[i].1 as int,
                        x as int,
                        y as int,
                    ),
                forall|i: int, j: int|
                    0 <= i < j < pixels@.len() ==> before(
                        #[trigger] pixels@[i],
                        #[trigger] pixels@[j],
                    ),
            decreases x1 + 1 - x,
        {
            let ghost was = pixels@;
            if is_claimed(b, x, y, to.squared) && (rank_of(b.r.bits) == 0 || !is_claimed(
                b,
                x,
                y,
                b.r.squared,
            )) {
                pixels.push((x, y));
                assert(b.newly(x as int, y as int, to));
                assert(pixels@[was.len() as int] == (x, y));
            }
            proof {
                assert forall|px: int, py: int|
                    #[trigger] b.newly(px, py, to) && read_before(
                        px,
                        py,
                        x + 1,
                        y as int,
                    ) implies pixels@.contains((px as i32, py as i32)) by {
                    if read_before(px, py, x as int, y as int) {
                        let k = choose|k: int|
                            0 <= k < was.len() && was[k] == (px as i32, py as i32);
                        assert(pixels@[k] == (px as i32, py as i32));
                    } else {
                        assert(px == x && py == y);
                        assert(pixels@.len() > was.len());
                        assert(pixels@[was.len() as int] == (px as i32, py as i32));
                    }
                }
            }
            x += 1;
        }
        proof {
            assert forall|px: int, py: int|
                #[trigger] b.newly(px, py, to) && py < y + 1 implies pixels@.contains(
                (px as i32, py as i32),
            ) by {
                assert(b.within(px, py, to.reach as int));
                assert(read_before(px, py, x as int, y as int));
            }
        }
        y += 1;
    }
    proof {
        assert forall|px: int, py: int| #[trigger]
            b.newly(px, py, to) implies pixels@.contains((px as i32, py as i32)) by {
            assert(b.within(px, py, to.reach as int));
        }
    }
    pixels
}

/// The droplets that fall, each as a blot.
fn fall(b: &Bleed, to: Radius) -> (drops: Vec<Action>)
    requires
        b.wf(),
    ensures
        drops@ == b.fallen(DROPLETS as int, to),
{
    let mut drops: Vec<Action> = Vec::new();
    let counted = !is_nan(b.r.bits) && !is_nan(to.bits);
    let mut i: u32 = 0;
    while i < DROPLETS
        invariant
            b.wf(),
            i <= DROPLETS,
            counted == (!nan(b.r.bits) && !nan(to.bits)),
            drops@ == b.fallen(i as int, to),
        decreases DROPLETS - i,
    {
        let d = droplet(b.seed, i);
        let (fx, fy) = b.flung[i as usize];
        let px: i64 = b.ox as i64 + fx as i64;
        let py: i64 = b.oy as i64 + fy as i64;
        if counted && b.r.whole < d.threshold && d.threshold <= to.whole && px > -20 && py > -20
            && px < b.w as i64 + 20 && py < b.h as i64 + 20 {
            drops.push(
                Action::Stamp { x: px as i32, y: py as i32, r: d.size, shade: Shade::Black },
            );
        }
        i += 1;
    }
    drops
}

/// Grow the bleed to the radius `to`: ink every pixel that the front claims on the way, and
/// let fall the droplets whose threshold it crosses. A radius no greater than the bleed's own
/// changes nothing.
pub fn bleed_grow(b: &mut Bleed, to: Radius) -> (g: Growth)
    requires
        old(b).wf(),
    ensures
        final(b).wf(),
        grown_to(*old(b), to, g, *final(b)),
{
    if is_at_most(to.bits, b.r.bits) {
        return Growth { pixels: Vec::new(), drops: Vec::new() };
    }
    let pixels = front(b, to);
    let drops = fall(b, to);
    let ghost start = b.bbox;
    let mut bbox = b.bbox;
    let mut i: usize = 0;
    assert(pixels@.take(0) =~= Seq::empty());
    while i < pixels.len()
        invariant
            i <= pixels@.len(),
            bbox == with_stroke(start, pixels@.take(i as int), 1),
        decreases pixels@.len() - i,
    {
        let (x, y) = pixels[i];
        bbox.add(x, y, 1);
        assert(pixels@.take(i + 1).drop_last() =~= pixels@.take(i as int));
        i += 1;
    }
    assert(pixels@.take(pixels@.len() as int) =~= pixels@);
    let ghost middle = bbox;
    let mut k: usize = 0;
    assert(drops@.take(0) =~= Seq::empty());
    while k < drops.len()
        invariant
            k <= drops@.len(),
            bbox == with_blots(middle, drops@.take(k as int)),
        decreases drops@.len() - k,
    {
        assert(drops@.take(k + 1).drop_last() =~= drops@.take(k as int));
        match drops[k] {
            Action::Stamp { x, y, r, .. } => {
                bbox.add(x, y, plus(r, 1));
            },
            _ => {},
        }
        k += 1;
    }
    assert(drops@.take(drops@.len() as int) =~= drops@);
    b.r = to;
    b.bbox = bbox;
    Growth { pixels, drops }
}

/// One frame of the drowning.
pub struct Frame {
    pub growth: Growth,
    /// The page has drowned.
    pub done: bool,
}

/// Grow a bleed that drowns the page, and see whether it has.
pub fn drown_frame(b: &mut Bleed, to: Radius) -> (f: Frame)
    requires
        old(b).wf(),
        old(b).w > 0,
        old(b).h > 0,
    ensures
        final(b).wf(),
        grown_to(*old(b), to, f.growth, *final(b)),
        f.done == corners_claimed(*final(b)),
{
    let growth = bleed_grow(b, to);
    let done = drowned(b);
    Frame { growth, done }
}

/// The greatest absorbency that paper has, times 64.
pub const THIRSTIEST: u8 = 99;

impl Bleed {
    /// Is the paper nowhere thirstier than paper can be?
    pub open spec fn paper(self) -> bool {
        forall|i: int| 0 <= i < self.field@.len() ==> #[trigger] self.field@[i] <= THIRSTIEST
    }

    /// The bleed once it has grown to the radius `to`.
    pub open spec fn at(self, to: Radius) -> Bleed {
        Bleed { r: to, ..self }
    }
}

impl Radius {
    /// Does the reach go beyond anything that the thirstiest paper lets the front claim?
    pub open spec fn far_reaching(self) -> bool {
        &&& 0 <= self.reach
        &&& self.squared * (THIRSTIEST * THIRSTIEST) < 4096 * ((self.reach + 1) * (self.reach + 1))
    }

    /// Is `self` no smaller than `other` in any respect?
    pub open spec fn no_less(self, other: Radius) -> bool {
        &&& at_most(other.bits, self.bits)
        &&& self.whole >= other.whole
        &&& self.squared >= other.squared
        &&& self.reach >= other.reach
    }
}

/// Ink never leaves a pixel: what a bleed has claimed, it still claims at any greater radius.
pub proof fn claims_only_grow(b: Bleed, x: int, y: int, r2: int, larger2: int)
    requires
        b.claimed(x, y, r2),
        r2 <= larger2,
    ensures
        b.claimed(x, y, larger2),
{
    let g2 = b.absorbency(x, y) * b.absorbency(x, y);
    assert(0 <= g2) by (nonlinear_arith)
        requires
            g2 == b.absorbency(x, y) * b.absorbency(x, y),
    ;
    assert(r2 * g2 <= larger2 * g2) by (nonlinear_arith)
        requires
            0 <= g2,
            r2 <= larger2,
    ;
}

/// The window that growth scans misses nothing: every pixel of the page that a bleed claims
/// lies within its reach.
pub proof fn front_within_reach(b: Bleed, x: int, y: int, r: Radius)
    requires
        b.wf(),
        b.paper(),
        r.far_reaching(),
        b.on_page(x, y),
        b.claimed(x, y, r.squared as int),
    ensures
        b.within(x, y, r.reach as int),
{
    lemma_sample(b, x, y);
    let g = b.absorbency(x, y) as int;
    let dx = x - b.ox;
    let dy = y - b.oy;
    let n = r.reach + 1;
    let r2 = r.squared as int;
    assert(0 <= g * g <= THIRSTIEST * THIRSTIEST) by (nonlinear_arith)
        requires
            0 <= g <= THIRSTIEST,
    ;
    assert(r2 * (g * g) <= r2 * (THIRSTIEST * THIRSTIEST)) by (nonlinear_arith)
        requires
            0 <= r2,
            0 <= g * g <= THIRSTIEST * THIRSTIEST,
    ;
    assert(0 <= dx * dx && 0 <= dy * dy) by (nonlinear_arith);
    if dx >= n || dx <= -n {
        assert(dx * dx >= n * n) by (nonlinear_arith)
            requires
                0 <= n,
                dx >= n || dx <= -n,
        ;
    }
    if dy >= n || dy <= -n {
        assert(dy * dy >= n * n) by (nonlinear_arith)
            requires
                0 <= n,
                dy >= n || dy <= -n,
        ;
    }
}

/// Growing by way of a middle radius inks exactly what growing at once does, and no pixel
/// twice.
pub proof fn growth_adds_up(b: Bleed, mid: Radius, to: Radius, x: int, y: int)
    requires
        b.wf(),
        b.paper(),
        rank(mid.bits) != 0,
        mid.far_reaching(),
        mid.no_less(b.r),
        to.no_less(mid),
    ensures
        b.newly(x, y, to) == (b.newly(x, y, mid) || b.at(mid).newly(x, y, to)),
        !(b.newly(x, y, mid) && b.at(mid).newly(x, y, to)),
{
    let m = b.at(mid);
    assert(forall|r2: int| m.claimed(x, y, r2) == b.claimed(x, y, r2));
    assert(m.within(x, y, to.reach as int) == b.within(x, y, to.reach as int));
    if b.claimed(x, y, b.r.squared as int) {
        claims_only_grow(b, x, y, b.r.squared as int, mid.squared as int);
    }
    if b.claimed(x, y, mid.squared as int) {
        claims_only_grow(b, x, y, mid.squared as int, to.squared as int);
        if b.on_page(x, y) {
            front_within_reach(b, x, y, mid);
        }
    }
}

/// A pixel is inked once its distance from the tip is no more than the radius times the
/// absorbency there: the first growth of a bleed inks every pixel of the page that it claims.
pub proof fn claimed_pixels_are_inked(b: Bleed, to: Radius, x: int, y: int)
    requires
        b.wf(),
        b.paper(),
        rank(b.r.bits) == 0,
        to.far_reaching(),
        b.on_page(x, y),
    ensures
        b.newly(x, y, to) == b.claimed(x, y, to.squared as int),
{
    if b.claimed(x, y, to.squared as int) {
        front_within_reach(b, x, y, to);
    }
}

/// The tip itself is inked by the first growth, whatever the paper.
pub proof fn tip_is_inked(b: Bleed, to: Radius)
    requires
        b.wf(),
        rank(b.r.bits) == 0,
        to.reach >= 0,
        b.on_page(b.ox as int, b.oy as int),
    ensures
        b.newly(b.ox as int, b.oy as int, to),
{
    let g = b.absorbency(b.ox as int, b.oy as int) as int;
    let r2 = to.squared as int;
    assert(0 <= r2 * (g * g)) by (nonlinear_arith)
        requires
            0 <= r2,
            0 <= g,
    ;
}

/// A droplet falls once: on the way to the middle radius or on the way from it, never both.
pub proof fn droplet_falls_once(b: Bleed, mid: Radius, to: Radius, i: int)
    requires
        mid.no_less(b.r),
        to.no_less(mid),
    ensures
        b.falls(i, to) == (b.falls(i, mid) || b.at(mid).falls(i, to)),
        !(b.falls(i, mid) && b.at(mid).falls(i, to)),
{
}

/// Does the blot reach `x`, `y`?
pub open spec fn blotted(a: Action, x: int, y: int) -> bool {
    match a {
        Action::Stamp { x: cx, y: cy, r, .. } => {
            &&& cx - r <= x <= cx + r
            &&& cy - r <= y <= cy + r
        },
        _ => false,
    }
}

proof fn lemma_blots_are_covered(b: BBox, blots: Seq<Action>, x: int, y: int)
    requires
        i32::MIN <= x <= i32::MAX,
        i32::MIN <= y <= i32::MAX,
        b.holds(x, y) || exists|i: int| 0 <= i < blots.len() && blotted(#[trigger] blots[i], x, y),
    ensures
        with_blots(b, blots).holds(x, y),
    decreases blots.len(),
{
    if blots.len() > 0 {
        let rest = blots.drop_last();
        if b.holds(x, y) {
            lemma_blots_are_covered(b, rest, x, y);
        } else {
            let i = choose|i: int| 0 <= i < blots.len() && blotted(#[trigger] blots[i], x, y);
            if i < rest.len() {
                assert(rest[i] == blots[i]);
                lemma_blots_are_covered(b, rest, x, y);
            }
        }
    }
}

/// The box of a bleed holds all that it has inked, front and droplets, so that taking back the
/// box takes back the bleed.
pub proof fn bleed_lies_in_its_box(was: Bleed, to: Radius, g: Growth, is: Bleed, x: int, y: int)
    requires
        grown_to(was, to, g, is),
        i32::MIN <= x <= i32::MAX,
        i32::MIN <= y <= i32::MAX,
        was.bbox.holds(x, y) || g.pixels@.contains((x as i32, y as i32)) || exists|i: int|
            0 <= i < g.drops@.len() && blotted(#[trigger] g.drops@[i], x, y),
    ensures
        is.bbox.holds(x, y),
{
    if !at_most(to.bits, was.r.bits) {
        let front = with_stroke(was.bbox, g.pixels@, 1);
        if was.bbox.holds(x, y) || g.pixels@.contains((x as i32, y as i32)) {
            stroke_is_covered(was.bbox, g.pixels@, 1, x, y);
        }
        lemma_blots_are_covered(front, g.drops@, x, y);
    }
}

/// Does the box `c` take in all of `b`?
spec fn covers(c: BBox, b: BBox) -> bool {
    c.x0 <= b.x0 && c.y0 <= b.y0 && c.x1 >= b.x1 && c.y1 >= b.y1
}

/// Does the box `c` take in the square of reach `r` round `x`, `y`?
spec fn covers_square(c: BBox, x: i32, y: i32, r: i32) -> bool {
    c.x0 <= fitted(x - r) && c.y0 <= fitted(y - r) && c.x1 >= fitted(x + r) && c.y1 >= fitted(y + r)
}

/// Does the box `c` take in the blot with its margin?
spec fn covers_blot(c: BBox, a: Action) -> bool {
    match a {
        Action::Stamp { x, y, r, .. } => covers_square(c, x, y, fitted(r + 1)),
        _ => true,
    }
}

/// Does the box `c` take in all that growth inks, with its margin?
spec fn covers_growth(c: BBox, g: Growth) -> bool {
    &&& forall|p: (i32, i32)| #[trigger] g.pixels@.contains(p) ==> covers_square(c, p.0, p.1, 1)
    &&& forall|a: Action| #[trigger] g.drops@.contains(a) ==> covers_blot(c, a)
}

proof fn lemma_covers_stroke(c: BBox, b: BBox, s: Seq<(i32, i32)>)
    ensures
        covers(c, with_stroke(b, s, 1)) <==> covers(c, b) && forall|p: (i32, i32)| #[trigger]
            s.contains(p) ==> covers_square(c, p.0, p.1, 1),
    decreases s.len(),
{
    if s.len() > 0 {
        let rest = s.drop_last();
        lemma_covers_stroke(c, b, rest);
        assert(s.contains(s.last()));
        assert forall|p: (i32, i32)| #[trigger] rest.contains(p) implies s.contains(p) by {
            let i = choose|i: int| 0 <= i < rest.len() && rest[i] == p;
            assert(s[i] == p);
        }
        assert forall|p: (i32, i32)| #[trigger] s.contains(p) implies p == s.last()
            || rest.contains(p) by {
            let i = choose|i: int| 0 <= i < s.len() && s[i] == p;
            if i < rest.len() {
                assert(rest[i] == p);
            }
        }
    }
}

proof fn lemma_covers_blots(c: BBox, b: BBox, blots: Seq<Action>)
    ensures
        covers(c, with_blots(b, blots)) <==> covers(c, b) && forall|a: Action| #[trigger]
            blots.contains(a) ==> covers_blot(c, a),
    decreases blots.len(),
{
    if blots.len() > 0 {
        let rest = blots.drop_last();
        lemma_covers_blots(c, b, rest);
        assert(blots.contains(blots.last()));
        assert forall|a: Action| #[trigger] rest.contains(a) implies blots.contains(a) by {
            let i = choose|i: int| 0 <= i < rest.len() && rest[i] == a;
            assert(blots[i] == a);
        }
        assert forall|a: Action| #[trigger] blots.contains(a) implies a == blots.last()
            || rest.contains(a) by {
            let i = choose|i: int| 0 <= i < blots.len() && blots[i] == a;
            if i < rest.len() {
                assert(rest[i] == a);
            }
        }
    }
}

/// A box that takes in what a bleed has become takes in what it was and what it inked, and the
/// other way round.
proof fn lemma_covers_grown(c: BBox, was: Bleed, to: Radius, g: Growth, is: Bleed)
    requires
        grown_to(was, to, g, is),
        !at_most(to.bits, was.r.bits),
    ensures
        covers(c, is.bbox) <==> covers(c, was.bbox) && covers_growth(c, g),
{
    lemma_covers_stroke(c, was.bbox, g.pixels@);
    lemma_covers_blots(c, with_stroke(was.bbox, g.pixels@, 1), g.drops@);
}

/// The droplets that fall on the way to a middle radius and those that fall on the way from it
/// are together those that fall at once.
proof fn lemma_fallen_adds_up(b: Bleed, mid: Radius, to: Radius, n: int)
    requires
        mid.no_less(b.r),
        to.no_less(mid),
    ensures
        b.fallen(n, to).to_multiset() == b.fallen(n, mid).to_multiset().add(
            b.at(mid).fallen(n, to).to_multiset(),
        ),
    decreases n,
{
    broadcast use vstd::seq_lib::group_to_multiset_ensures;

    let m = b.at(mid);
    if n <= 0 {
        assert(b.fallen(n, to).to_multiset() =~= b.fallen(n, mid).to_multiset().add(
            m.fallen(n, to).to_multiset(),
        ));
    } else {
        lemma_fallen_adds_up(b, mid, to, n - 1);
        droplet_falls_once(b, mid, to, n - 1);
        assert(b.fallen(n, to).to_multiset() =~= b.fallen(n, mid).to_multiset().add(
            m.fallen(n, to).to_multiset(),
        ));
    }
}

/// How growth is cut into frames does not change the stain. A bleed grown to a middle radius
/// and then on has inked the same pixels as one grown at once, each of them once; it has let
/// fall the same droplets, each as often; and it ends with the same radius and the same box.
pub proof fn frames_do_not_matter(
    b: Bleed,
    mid: Radius,
    to: Radius,
    g1: Growth,
    b1: Bleed,
    g2: Growth,
    b2: Bleed,
    g: Growth,
    at_once: Bleed,
)
    requires
        b.wf(),
        b.paper(),
        rank(mid.bits) != 0,
        rank(b.r.bits) < rank(mid.bits) < rank(to.bits),
        mid.far_reaching(),
        mid.no_less(b.r),
        to.no_less(mid),
        grown_to(b, mid, g1, b1),
        grown_to(b1, to, g2, b2),
        grown_to(b, to, g, at_once),
    ensures
        forall|p: (i32, i32)| #[trigger]
            g.pixels@.contains(p) <==> g1.pixels@.contains(p) || g2.pixels@.contains(p),
        forall|p: (i32, i32)| !(g1.pixels@.contains(p) && #[trigger] g2.pixels@.contains(p)),
        g.drops@.to_multiset() == g1.drops@.to_multiset().add(g2.drops@.to_multiset()),
        b2 == at_once,
{
    let m = b.at(mid);
    assert(forall|x: int, y: int| #[trigger] b1.newly(x, y, to) == m.newly(x, y, to)) by {
        assert(forall|x: int, y: int, r2: int|
            #[trigger] b1.claimed(x, y, r2) == m.claimed(x, y, r2));
    }
    assert forall|p: (i32, i32)|
        (#[trigger] g.pixels@.contains(p) <==> g1.pixels@.contains(p) || g2.pixels@.contains(p))
            && !(g1.pixels@.contains(p) && g2.pixels@.contains(p)) by {
        let (x, y) = (p.0 as int, p.1 as int);
        growth_adds_up(b, mid, to, x, y);
        lemma_pixels(b, to, g, p);
        lemma_pixels(b, mid, g1, p);
        lemma_pixels(b1, to, g2, p);
        assert(b1.newly(x, y, to) == m.newly(x, y, to));
    }
    lemma_same_droplets(b1, m, DROPLETS as int, to);
    lemma_fallen_adds_up(b, mid, to, DROPLETS as int);
    assert forall|a: Action| #[trigger]
        g.drops@.contains(a) <==> g1.drops@.contains(a) || g2.drops@.contains(a) by {
        broadcast use vstd::seq_lib::group_to_multiset_ensures;

        assert(g.drops@.contains(a) <==> g.drops@.to_multiset().count(a) > 0);
        assert(g1.drops@.contains(a) <==> g1.drops@.to_multiset().count(a) > 0);
        assert(g2.drops@.contains(a) <==> g2.drops@.to_multiset().count(a) > 0);
    }
    assert(covers(at_once.bbox, b2.bbox)) by {
        let c = at_once.bbox;
        assert(forall|p: (i32, i32)|
            #[trigger] g1.pixels@.contains(p) ==> g.pixels@.contains(p));
        assert(forall|p: (i32, i32)|
            #[trigger] g2.pixels@.contains(p) ==> g.pixels@.contains(p));
        assert(forall|a: Action| #[trigger] g1.drops@.contains(a) ==> g.drops@.contains(a));
        assert(forall|a: Action| #[trigger] g2.drops@.contains(a) ==> g.drops@.contains(a));
        lemma_covers_grown(c, b, to, g, at_once);
        lemma_covers_grown(c, b, mid, g1, b1);
        lemma_covers_grown(c, b1, to, g2, b2);
    }
    assert(covers(b2.bbox, at_once.bbox)) by {
        let c = b2.bbox;
        lemma_covers_grown(c, b, to, g, at_once);
        lemma_covers_grown(c, b, mid, g1, b1);
        lemma_covers_grown(c, b1, to, g2, b2);
    }
}

/// The pixels of growth are those that it inks.
proof fn lemma_pixels(b: Bleed, to: Radius, g: Growth, p: (i32, i32))
    requires
        growth_of(b, to, g),
    ensures
        g.pixels@.contains(p) == b.newly(p.0 as int, p.1 as int, to),
{
    if g.pixels@.contains(p) {
        let i = choose|i: int| 0 <= i < g.pixels@.len() && g.pixels@[i] == p;
        assert(b.newly(g.pixels@[i].0 as int, g.pixels@[i].1 as int, to));
    }
}

/// The box of a bleed has no part in which droplets fall.
proof fn lemma_same_droplets(a: Bleed, b: Bleed, n: int, to: Radius)
    requires
        a == (Bleed { bbox: a.bbox, ..b }),
    ensures
        a.fallen(n, to) == b.fallen(n, to),
    decreases n,
{
    if n > 0 {
        lemma_same_droplets(a, b, n - 1, to);
    }
}

/// Does `blend` give the same absorbency whenever it is given the same lattices?
pub open spec fn functional<B: Fn(Lattice, Lattice, Lattice) -> u8>(blend: B) -> bool {
    forall|a: Lattice, b: Lattice, c: Lattice, u: u8, v: u8| #[trigger]
        call_ensures(blend, (a, b, c), u) && #[trigger] call_ensures(blend, (a, b, c), v) ==> u == v
}

/// The absorbency is fixed to the paper: where `blend` is a function, two bleeds with the same
/// seed on pages of the same size have the same field, wherever their tips are.
pub proof fn field_is_anchored<B: Fn(Lattice, Lattice, Lattice) -> u8>(
    blend: B,
    seed: u32,
    w: int,
    h: int,
    one: Bleed,
    other: Bleed,
)
    requires
        0 <= w,
        0 <= h,
        blended(blend, seed, samples(w), samples(h), one.field@),
        blended(blend, seed, samples(w), samples(h), other.field@),
        functional(blend),
    ensures
        one.field@ == other.field@,
{
    let (fw, fh) = (samples(w), samples(h));
    assert forall|i: int| 0 <= i < one.field@.len() implies one.field@[i] == other.field@[i] by {
        let (x, y) = (i % fw, i / fw);
        vstd::arithmetic::div_mod::lemma_fundamental_div_mod(i, fw);
        vstd::arithmetic::div_mod::lemma_mod_bound(i, fw);
        vstd::arithmetic::div_mod::lemma_div_pos_is_pos(i, fw);
        assert(y < fh) by (nonlinear_arith)
            requires
                i == fw * y + x,
                0 <= x,
                0 < fw,
                i < fw * fh,
        ;
        assert(y * fw == fw * y) by (nonlinear_arith);
        assert(blends(blend, seed, x, y, one.field@[y * fw + x]));
        assert(blends(blend, seed, x, y, other.field@[y * fw + x]));
    }
    assert(one.field@ =~= other.field@);
}

/// The least absorbency that paper has, times 64.
pub const DRIEST: u8 = 35;

/// The square of the greatest radius that a bleed grows to.
pub const WIDEST2: u64 = 36_000_000;

/// A bleed at its greatest radius drowns the page: with its tip anywhere on a page of the usual
/// size, and on the driest paper, all four corners are under ink.
pub proof fn widest_drowns(b: Bleed)
    requires
        b.wf(),
        b.w <= SCREEN_W,
        b.h <= SCREEN_H,
        b.on_page(b.ox as int, b.oy as int),
        forall|i: int| 0 <= i < b.field@.len() ==> #[trigger] b.field@[i] >= DRIEST,
        b.r.squared >= WIDEST2,
    ensures
        corners_claimed(b),
{
    lemma_widest_claims(b, 0, 0);
    lemma_widest_claims(b, b.w - 1, 0);
    lemma_widest_claims(b, 0, b.h - 1);
    lemma_widest_claims(b, b.w - 1, b.h - 1);
}

proof fn lemma_widest_claims(b: Bleed, x: int, y: int)
    requires
        b.wf(),
        b.w <= SCREEN_W,
        b.h <= SCREEN_H,
        b.on_page(b.ox as int, b.oy as int),
        b.on_page(x, y),
        forall|i: int| 0 <= i < b.field@.len() ==> #[trigger] b.field@[i] >= DRIEST,
        b.r.squared >= WIDEST2,
    ensures
        b.claimed(x, y, b.r.squared as int),
{
    lemma_sample(b, x, y);
    let g = b.absorbency(x, y) as int;
    let dx = x - b.ox;
    let dy = y - b.oy;
    let r2 = b.r.squared as int;
    assert(0 <= dx * dx <= 1619 * 1619) by (nonlinear_arith)
        requires
            -1619 <= dx <= 1619,
    ;
    assert(0 <= dy * dy <= 2159 * 2159) by (nonlinear_arith)
        requires
            -2159 <= dy <= 2159,
    ;
    assert(g * g >= 35 * 35) by (nonlinear_arith)
        requires
            g >= 35,
    ;
    assert(r2 * (g * g) >= 36_000_000 * (35 * 35)) by (nonlinear_arith)
        requires
            r2 >= 36_000_000,
            g * g >= 35 * 35,
    ;
}

/// Is `x`, `y`, on the page, no farther from the tip than a radius that squares to `r2`, once
/// that is stretched by what the paper drinks there? Each four by four pixels drink alike, and
/// paper that drinks 64 stretches nothing.
pub open spec fn front_reaches(b: Bleed, x: int, y: int, r2: int) -> bool {
    let drinks = b.field@[(y / 4) * b.fw + x / 4] as int;
    &&& 0 <= x < b.w && 0 <= y < b.h
    &&& ((x - b.ox) * (x - b.ox) + (y - b.oy) * (y - b.oy)) * (64 * 64) <= r2 * (drinks * drinks)
}

/// A spurt of growth inks exactly the pixels that its front has come to and no earlier one had,
/// each once and row by row. A bleed that had not grown yet had come to none.
pub proof fn front_inks_what_it_comes_to(
    b: &mut Bleed,
    to: Radius,
    g: Growth,
    x: i32,
    y: i32,
    i: int,
    j: int,
)
    requires
        call_ensures(bleed_grow, (b, to), g),
        !at_most(to.bits, old(b).r.bits),
    ensures
        g.pixels@.contains((x, y)) <==> {
            &&& front_reaches(*old(b), x as int, y as int, to.squared as int)
            &&& old(b).ox - to.reach <= x <= old(b).ox + to.reach
            &&& old(b).oy - to.reach <= y <= old(b).oy + to.reach
            &&& rank(old(b).r.bits) == 0 || !front_reaches(
                *old(b),
                x as int,
                y as int,
                old(b).r.squared as int,
            )
        },
        0 <= i < j < g.pixels@.len() ==> g.pixels@[i].1 < g.pixels@[j].1 || (g.pixels@[i].1
            == g.pixels@[j].1 && g.pixels@[i].0 < g.pixels@[j].0),
        final(b).r == to,
{
    lemma_pixels(*old(b), to, g, (x, y));
    if 0 <= i < j < g.pixels@.len() {
        assert(before(g.pixels@[i], g.pixels@[j]));
    }
}

/// On paper that drinks 64 the front is a circle: a bleed that starts there inks what lies
/// within its radius.
pub proof fn front_is_a_circle_on_even_paper(b: &mut Bleed, to: Radius, g: Growth, x: i32, y: i32)
    requires
        call_ensures(bleed_grow, (b, to), g),
        rank(old(b).r.bits) == 0,
        !at_most(to.bits, old(b).r.bits),
        old(b).wf(),
        forall|i: int| 0 <= i < old(b).field@.len() ==> #[trigger] old(b).field@[i] == 64,
        0 <= x < old(b).w,
        0 <= y < old(b).h,
        old(b).ox - to.reach <= x <= old(b).ox + to.reach,
        old(b).oy - to.reach <= y <= old(b).oy + to.reach,
    ensures
        g.pixels@.contains((x, y)) <==> (x - old(b).ox) * (x - old(b).ox) + (y - old(b).oy) * (y
            - old(b).oy) <= to.squared,
{
    let was = *old(b);
    lemma_sample(was, x as int, y as int);
    lemma_pixels(was, to, g, (x, y));
    assert(was.absorbency(x as int, y as int) == 64);
    let d2 = was.distance2(x as int, y as int);
    let r2 = to.squared as int;
    assert(r2 * (64 * 64) == r2 * 4096);
    assert(was.claimed(x as int, y as int, r2) <==> d2 <= r2);
}

/// Growing to no more than its radius leaves a bleed as it is; growing to more moves neither its
/// tip nor its paper nor its droplets, and the box round it only grows.
pub proof fn growing_moves_nothing(b: &mut Bleed, to: Radius, g: Growth)
    requires
        call_ensures(bleed_grow, (b, to), g),
    ensures
        at_most(to.bits, old(b).r.bits) ==> *final(b) == *old(b) && g.pixels@.len() == 0
            && g.drops@.len() == 0,
        *final(b) == (Bleed { r: final(b).r, bbox: final(b).bbox, ..*old(b) }),
{
}

/// The size, direction and distance of a droplet lie within bounds, and so does the radius at
/// which it appears.
pub proof fn droplets_are_small_and_near(seed: u32, i: u32, d: Droplet)
    requires
        call_ensures(droplet, (seed, i), d),
    ensures
        12 <= d.threshold <= 311,
        d.angle < 6283,
        125 <= d.throw <= 204,
        2 <= d.size <= 7,
        ({
            let h = mixed(seed ^ 0xD09, i);
            d.threshold == 12 + h % 300 && d.angle == (h >> 9) % 6283 && d.throw == 125 + (h >> 20)
                % 80 && d.size == 2 + (h >> 27) % 6
        }),
{
}

/// Is this the blot of droplet `i`, and does it fall on or near the page as the radius goes from
/// below its threshold up to it?
pub open spec fn blot_of(b: Bleed, to: Radius, i: int, d: Droplet, blot: Action) -> bool {
    &&& 0 <= i < 40
    &&& d == droplet_at(b.seed, i as u32)
    &&& b.r.whole < d.threshold <= to.whole
    &&& -20 < b.ox + b.flung@[i].0 < b.w + 20
    &&& -20 < b.oy + b.flung@[i].1 < b.h + 20
    &&& blot == (Action::Stamp {
        x: (b.ox + b.flung@[i].0) as i32,
        y: (b.oy + b.flung@[i].1) as i32,
        r: d.size,
        shade: Shade::Black,
    })
}

/// Those of the first `n` droplets that fall, by number.
spec fn falling(b: Bleed, n: int, to: Radius) -> Seq<int>
    decreases n,
{
    if n <= 0 {
        Seq::empty()
    } else if b.falls(n - 1, to) {
        falling(b, n - 1, to).push(n - 1)
    } else {
        falling(b, n - 1, to)
    }
}

proof fn lemma_falling(b: Bleed, n: int, to: Radius)
    requires
        0 <= n <= 40,
    ensures
        falling(b, n, to).len() == b.fallen(n, to).len(),
        forall|k: int|
            0 <= k < falling(b, n, to).len() ==> blot_of(
                b,
                to,
                #[trigger] falling(b, n, to)[k],
                droplet_at(b.seed, falling(b, n, to)[k] as u32),
                b.fallen(n, to)[k],
            ) && falling(b, n, to)[k] < n,
        forall|k: int, m: int|
            0 <= k < m < falling(b, n, to).len() ==> #[trigger] falling(b, n, to)[k]
                < #[trigger] falling(b, n, to)[m],
        forall|i: int|
            0 <= i < n && #[trigger] b.falls(i, to) ==> falling(b, n, to).contains(i),
    decreases n,
{
    if n > 0 {
        lemma_falling(b, n - 1, to);
        let was = falling(b, n - 1, to);
        let all = falling(b, n, to);
        assert forall|i: int| 0 <= i < n && #[trigger] b.falls(i, to) implies all.contains(i) by {
            if i < n - 1 {
                let k = choose|k: int| 0 <= k < was.len() && was[k] == i;
                assert(all[k] == i);
            } else {
                assert(all[all.len() - 1] == i);
            }
        }
    }
}

/// Are these, in order, the numbers of the droplets that fall, and `drops` their blots?
pub open spec fn blots_in_order(b: Bleed, to: Radius, order: Seq<int>, drops: Seq<Action>) -> bool {
    &&& order.len() == drops.len()
    &&& forall|k: int|
        0 <= k < order.len() ==> blot_of(
            b,
            to,
            #[trigger] order[k],
            droplet_at(b.seed, order[k] as u32),
            drops[k],
        )
    &&& forall|k: int, m: int| 0 <= k < m < order.len() ==> #[trigger] order[k] < #[trigger] order[m]
}

/// The droplets that fall ahead of a front are those whose threshold it crosses, each in its own
/// place and size, in order and once.
pub proof fn droplets_fall_as_the_front_passes(b: &mut Bleed, to: Radius, g: Growth, i: int)
    requires
        call_ensures(bleed_grow, (b, to), g),
        !at_most(to.bits, old(b).r.bits),
        0 <= i < 40,
        old(b).wf(),
    ensures
        exists|order: Seq<int>| {
            &&& #[trigger] blots_in_order(*old(b), to, order, g.drops@)
            &&& order.contains(i) <==> {
                let d = droplet_at(old(b).seed, i as u32);
                &&& !nan(old(b).r.bits) && !nan(to.bits)
                &&& old(b).r.whole < d.threshold <= to.whole
                &&& -20 < old(b).ox + old(b).flung@[i].0 < old(b).w + 20
                &&& -20 < old(b).oy + old(b).flung@[i].1 < old(b).h + 20
            }
        },
{
    let was = *old(b);
    let order = falling(was, 40, to);
    lemma_falling(was, 40, to);
    assert(blots_in_order(was, to, order, g.drops@));
    lemma_falling_falls(was, 40, to);
    if was.falls(i, to) {
        assert(order.contains(i));
    }
    if order.contains(i) {
        let k = choose|k: int| 0 <= k < order.len() && order[k] == i;
        assert(was.falls(order[k], to));
    }
}

proof fn lemma_falling_falls(b: Bleed, n: int, to: Radius)
    ensures
        forall|k: int|
            0 <= k < falling(b, n, to).len() ==> b.falls(#[trigger] falling(b, n, to)[k], to),
    decreases n,
{
    if n > 0 {
        lemma_falling_falls(b, n - 1, to);
        let was = falling(b, n - 1, to);
        let all = falling(b, n, to);
        assert forall|k: int| 0 <= k < all.len() implies b.falls(#[trigger] all[k], to) by {
            if k < was.len() {
                assert(all[k] == was[k]);
            }
        }
    }
}

/// The page has drowned exactly when the front has come to all four of its corners.
pub proof fn page_drowns_at_its_corners(b: &mut Bleed, to: Radius, f: Frame)
    requires
        call_ensures(drown_frame, (b, to), f),
        old(b).w > 0,
        old(b).h > 0,
    ensures
        f.done <==> {
            let r2 = final(b).r.squared as int;
            let (w, h) = (final(b).w, final(b).h);
            &&& front_reaches(*final(b), 0, 0, r2)
            &&& front_reaches(*final(b), w - 1, 0, r2)
            &&& front_reaches(*final(b), 0, h - 1, r2)
            &&& front_reaches(*final(b), w - 1, h - 1, r2)
        },
        !at_most(to.bits, old(b).r.bits) ==> final(b).r == to,
{
}

/// The grain of the paper joins up: two neighbouring squares of the lattice share the points on
/// the edge between them, at each scale, and within a square all samples see the same points.
pub proof fn grain_joins_up(seed: u32, scale: u32, x: u32, y: u32, l: Lattice, m: Lattice)
    requires
        scale < 3,
        call_ensures(lattice, (seed, scale, x, y), l),
    ensures
        l.span == seq![11u32, 25, 55][scale as int],
        l.x == x && l.y == y,
        l.a < 1000 && l.b < 1000 && l.c < 1000 && l.d < 1000,
        x + l.span <= u32::MAX && call_ensures(lattice, (seed, scale, (x + l.span) as u32, y), m)
            ==> m.a == l.b && m.c == l.d,
        y + l.span <= u32::MAX && call_ensures(lattice, (seed, scale, x, (y + l.span) as u32), m)
            ==> m.a == l.c && m.b == l.d,
        forall|x2: u32, y2: u32|
            x2 / l.span == x / l.span && y2 / l.span == y / l.span && #[trigger] call_ensures(
                lattice,
                (seed, scale, x2, y2),
                m,
            ) ==> m.a == l.a && m.b == l.b && m.c == l.c && m.d == l.d,
        l.a == mixed(
            seed ^ ((0x1000 * (scale + 1)) as u32),
            ((y / l.span) * 977 + x / l.span) as u32,
        ) % 1000,
{
    assert((x + 11) / 11 == x / 11 + 1 && (x + 25) / 25 == x / 25 + 1 && (x + 55) / 55 == x / 55
        + 1);
    assert((y + 11) / 11 == y / 11 + 1 && (y + 25) / 25 == y / 25 + 1 && (y + 55) / 55 == y / 55
        + 1);
}

/// A fresh bleed has not grown and has inked nothing; what its paper drinks in each four by four
/// pixels is what `blend` makes of the three lattices there, and each droplet is flung as `fling`
/// says.
pub proof fn fresh_bleed_is_dry<
    B: Fn(Lattice, Lattice, Lattice) -> u8,
    F: Fn(Droplet) -> (i32, i32),
>(
    w: i32,
    h: i32,
    ox: i32,
    oy: i32,
    seed: u32,
    blend: B,
    fling: F,
    b: Bleed,
    x: int,
    y: int,
    i: int,
)
    requires
        call_ensures(bleed_new::<B, F>, (w, h, ox, oy, seed, blend, fling), b),
        0 <= x < w,
        0 <= y < h,
        0 <= i < 40,
    ensures
        b.ox == ox && b.oy == oy && b.w == w && b.h == h && b.seed == seed,
        rank(b.r.bits) == 0 && b.r.whole == 0 && b.r.squared == 0 && b.r.reach == 0,
        b.bbox.hollow(),
        b.fw == w / 4 + 2,
        exists|k: Lattice, l: Lattice, m: Lattice| {
            &&& #[trigger] call_ensures(blend, (k, l, m), b.field@[(y / 4) * b.fw + x / 4])
            &&& k == lattice_at(seed, 0, x / 4, y / 4)
            &&& l == lattice_at(seed, 1, x / 4, y / 4)
            &&& m == lattice_at(seed, 2, x / 4, y / 4)
        },
        b.flung@.len() == 40,
        call_ensures(fling, (droplet_at(seed, i as u32),), b.flung@[i]),
{
    assert(blends(blend, seed, x / 4, y / 4, b.field@[(y / 4) * b.fw + x / 4]));
}

/// The box round a bleed is no larger than it must be: any box that holds the old one, each new
/// pixel with a margin of one, and each blot with a margin of one, holds the new one.
pub proof fn bleed_box_is_least(b: &mut Bleed, to: Radius, g: Growth, c: BBox)
    requires
        call_ensures(bleed_grow, (b, to), g),
        c.spans(old(b).bbox),
        forall|i: int|
            0 <= i < g.pixels@.len() ==> c.spans_square(
                (#[trigger] g.pixels@[i]).0 as int,
                g.pixels@[i].1 as int,
                1,
            ),
        forall|i: int|
            0 <= i < g.drops@.len() && #[trigger] g.drops@[i] is Stamp ==> c.spans_square(
                g.drops@[i]->Stamp_x as int,
                g.drops@[i]->Stamp_y as int,
                g.drops@[i]->Stamp_r + 1,
            ),
    ensures
        c.spans(final(b).bbox),
{
    lemma_with_stroke_least(old(b).bbox, g.pixels@, 1, c);
    lemma_with_blots_least(with_stroke(old(b).bbox, g.pixels@, 1), g.drops@, c);
}

proof fn lemma_with_blots_least(b: BBox, blots: Seq<Action>, c: BBox)
    requires
        c.spans(b),
        forall|i: int|
            0 <= i < blots.len() && #[trigger] blots[i] is Stamp ==> c.spans_square(
                blots[i]->Stamp_x as int,
                blots[i]->Stamp_y as int,
                blots[i]->Stamp_r + 1,
            ),
    ensures
        c.spans(with_blots(b, blots)),
    decreases blots.len(),
{
    if blots.len() > 0 {
        let rest = blots.drop_last();
        assert forall|i: int| 0 <= i < rest.len() && #[trigger] rest[i] is Stamp implies c.spans_square(
            rest[i]->Stamp_x as int,
            rest[i]->Stamp_y as int,
            rest[i]->Stamp_r + 1,
        ) by {
            assert(rest[i] == blots[i]);
        }
        lemma_with_blots_least(b, rest, c);
        assert(blots[blots.len() - 1] == blots.last());
        if let Action::Stamp { x, y, r, shade } = blots.last() {
            grown_is_least(with_blots(b, rest), x, y, fitted(r + 1), c);
        }
    }
}

} // verus!
