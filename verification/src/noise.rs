//! Repeatable chance: hashes from which wobbles, spatters and paper grain are drawn.
use vstd::prelude::*;

verus! {

/// The `i`-th number of the stream that `seed` opens.
pub open spec fn mixed(seed: u32, i: u32) -> u32 {
    let a = seed.wrapping_add(i.wrapping_mul(0x9E37_79B1));
    let b = a ^ (a >> 15);
    let c = b.wrapping_mul(0x85EB_CA6B);
    c ^ (c >> 13)
}

/// The `i`-th number of a drawing's stream.
pub fn hash(seed: u32, i: u32) -> (h: u32)
    ensures
        h == mixed(seed, i),
{
    let mut h: u32 = seed.wrapping_add(i.wrapping_mul(0x9E37_79B1));
    h = h ^ (h >> 15);
    h = h.wrapping_mul(0x85EB_CA6B);
    h ^ (h >> 13)
}

/// The `i`-th number of a bleed's stream.
pub fn splat_hash(seed: u32, i: u32) -> (h: u32)
    ensures
        h == mixed(seed, i),
{
    let mut h: u32 = seed.wrapping_add(i.wrapping_mul(0x9E37_79B1));
    h = h ^ (h >> 15);
    h = h.wrapping_mul(0x85EB_CA6B);
    h ^ (h >> 13)
}

/// The seed of a bleed that starts at `x`, `y`.
pub open spec fn stab_seed(x: i32, y: i32) -> u32 {
    let a = (x as u32).wrapping_mul(0x9E37_79B1) ^ (y as u32).wrapping_mul(0x85EB_CA6B);
    let b = a ^ (a >> 13);
    let c = b.wrapping_mul(0xC2B2_AE35);
    c ^ (c >> 16)
}

/// The seed of a bleed that starts at `x`, `y`: the same place always bleeds in the same shape.
pub fn splat_seed(x: i32, y: i32) -> (h: u32)
    ensures
        h == stab_seed(x, y),
{
    let mut h: u32 = (x as u32).wrapping_mul(0x9E37_79B1) ^ (y as u32).wrapping_mul(0x85EB_CA6B);
    h = h ^ (h >> 13);
    h = h.wrapping_mul(0xC2B2_AE35);
    h ^ (h >> 16)
}

/// Multiplying by a factor that has an inverse keeps numbers apart.
proof fn lemma_factor(x: u32, y: u32, c: u32, inverse: int, k: int)
    requires
        c * inverse == 1 + k * 0x1_0000_0000,
        x.wrapping_mul(c) == y.wrapping_mul(c),
    ensures
        x == y,
{
    let p = x as int * c as int;
    let q = y as int * c as int;
    let d = x - y;
    let m = p / 0x1_0000_0000 - q / 0x1_0000_0000;
    assert(p >= 0 && q >= 0) by (nonlinear_arith)
        requires
            p == x as int * c as int,
            q == y as int * c as int,
    ;
    assert(p % 0x1_0000_0000 == q % 0x1_0000_0000);
    assert(p - q == 0x1_0000_0000 * m);
    assert(d * c == p - q) by (nonlinear_arith)
        requires
            d == x - y,
            p == x as int * c as int,
            q == y as int * c as int,
    ;
    let n = m * inverse - d * k;
    assert(d == 0x1_0000_0000 * n) by (nonlinear_arith)
        requires
            d * c == 0x1_0000_0000 * m,
            c * inverse == 1 + k * 0x1_0000_0000,
            n == m * inverse - d * k,
    {
        assert((d * c) * inverse == d * (c * inverse));
        assert(d * (1 + k * 0x1_0000_0000) == d + 0x1_0000_0000 * (d * k));
        assert((0x1_0000_0000 * m) * inverse == 0x1_0000_0000 * (m * inverse));
    }
}

proof fn lemma_mixing(a: u32, b: u32)
    requires
        mixed(a, 0) == mixed(b, 0),
    ensures
        a == b,
{
    let s = a ^ (a >> 15);
    let t = b ^ (b >> 15);
    let u = s.wrapping_mul(0x85EB_CA6B);
    let v = t.wrapping_mul(0x85EB_CA6B);
    assert(a.wrapping_add(0u32.wrapping_mul(0x9E37_79B1)) == a);
    assert(b.wrapping_add(0u32.wrapping_mul(0x9E37_79B1)) == b);
    assert(u ^ (u >> 13) == v ^ (v >> 13));
    assert(u == v) by (bit_vector)
        requires
            u ^ (u >> 13) == v ^ (v >> 13),
    ;
    lemma_factor(s, t, 0x85EB_CA6B, 0xA5CB_9243, 1455126516);
    assert(a == b) by (bit_vector)
        requires
            a ^ (a >> 15) == b ^ (b >> 15),
    ;
}

/// The streams are all parts of one: that of a seed, from its `i`-th number on, is that of the
/// seed moved on by `i` strides.
pub proof fn streams_run_on(seed: u32, i: u32, later: u32, h: u32, g: u32)
    requires
        call_ensures(hash, (seed, i), h),
        later == seed.wrapping_add(i.wrapping_mul(0x9E37_79B1)),
        call_ensures(hash, (later, 0u32), g),
    ensures
        h == g,
{
    assert(later.wrapping_add(0u32.wrapping_mul(0x9E37_79B1)) == later);
}

/// No number comes twice in a stream, and no two streams have the same number in the same place.
pub proof fn no_number_comes_twice(seed: u32, other: u32, i: u32, j: u32, g: u32, h: u32)
    requires
        call_ensures(hash, (seed, i), g),
        call_ensures(hash, (other, j), h),
        g == h,
    ensures
        seed == other ==> i == j,
        i == j ==> seed == other,
{
    let a = seed.wrapping_add(i.wrapping_mul(0x9E37_79B1));
    let b = other.wrapping_add(j.wrapping_mul(0x9E37_79B1));
    assert(a.wrapping_add(0u32.wrapping_mul(0x9E37_79B1)) == a);
    assert(b.wrapping_add(0u32.wrapping_mul(0x9E37_79B1)) == b);
    lemma_mixing(a, b);
    if seed == other {
        lemma_factor(i, j, 0x9E37_79B1, 0x0E8B_2F51, 150801925);
    }
}

/// Bleeds and drawings draw from the same streams.
pub proof fn bleeds_share_the_streams(seed: u32, i: u32, g: u32, h: u32)
    requires
        call_ensures(hash, (seed, i), g),
        call_ensures(splat_hash, (seed, i), h),
    ensures
        g == h,
{
}

/// No two places in a row, nor in a column, bleed in the same shape.
pub proof fn places_bleed_in_their_own_shape(x: i32, y: i32, x2: i32, y2: i32, g: u32, h: u32)
    requires
        call_ensures(splat_seed, (x, y), g),
        call_ensures(splat_seed, (x2, y2), h),
        g == h,
    ensures
        y == y2 ==> x == x2,
        x == x2 ==> y == y2,
{
    let p = (x as u32).wrapping_mul(0x9E37_79B1);
    let q = (y as u32).wrapping_mul(0x85EB_CA6B);
    let p2 = (x2 as u32).wrapping_mul(0x9E37_79B1);
    let q2 = (y2 as u32).wrapping_mul(0x85EB_CA6B);
    let a = p ^ q;
    let b = p2 ^ q2;
    let s = a ^ (a >> 13);
    let t = b ^ (b >> 13);
    let u = s.wrapping_mul(0xC2B2_AE35);
    let v = t.wrapping_mul(0xC2B2_AE35);
    assert(u == v) by (bit_vector)
        requires
            u ^ (u >> 16) == v ^ (v >> 16),
    ;
    lemma_factor(s, t, 0xC2B2_AE35, 0x7ED1_B41D, 1618177690);
    assert(a == b) by (bit_vector)
        requires
            a ^ (a >> 13) == b ^ (b >> 13),
    ;
    if y == y2 {
        assert(p == p2) by (bit_vector)
            requires
                p ^ q == p2 ^ q2,
                q == q2,
        ;
        lemma_factor(x as u32, x2 as u32, 0x9E37_79B1, 0x0E8B_2F51, 150801925);
        assert(x == x2) by (bit_vector)
            requires
                x as u32 == x2 as u32,
        ;
    }
    if x == x2 {
        assert(q == q2) by (bit_vector)
            requires
                p ^ q == p2 ^ q2,
                p == p2,
        ;
        lemma_factor(y as u32, y2 as u32, 0x85EB_CA6B, 0xA5CB_9243, 1455126516);
        assert(y == y2) by (bit_vector)
            requires
                y as u32 == y2 as u32,
        ;
    }
}

} // verus!
