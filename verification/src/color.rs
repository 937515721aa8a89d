//! The colours of the table: gradients over sizes and percentages.

use crate::double::{
    lemma_integer_less, lemma_integer_plus, lemma_integer_positive, lemma_integer_rounded,
    lemma_integer_times, lemma_one_half, lemma_over_itself, less, minus, nearest, negated, normal,
    over, plus, remainder, rounded, times, truncated, usual, whole, zero, Double, Dyadic,
};
use vstd::prelude::*;

verus! {

pub const MIB: u64 = 0x10_0000;

pub const GIB: u64 = 0x4000_0000;

/// Red, green and blue.
pub type Rgb = (u8, u8, u8);

pub const YELLOW_BRIGHT: (u8, u8, u8) = (255, 220, 0);

pub const BLUE_BRIGHT: (u8, u8, u8) = (0, 128, 255);

pub const RED_DESAT: (u8, u8, u8) = (255, 60, 60);

pub const INDIGO_DESAT: (u8, u8, u8) = (111, 81, 161);

pub const WHITE_DIMMER: (u8, u8, u8) = (200, 200, 200);

pub const WHITE_PURE: (u8, u8, u8) = (255, 255, 255);

pub const CYAN_BRIGHT: (u8, u8, u8) = (0, 255, 255);

pub const GRAY_THREAD: (u8, u8, u8) = (120, 120, 120);

pub const GRAY_KERNEL: (u8, u8, u8) = (70, 70, 70);

/// The double closest to a fraction.
pub open spec fn fraction(n: nat, d: nat) -> Dyadic {
    nearest(n, d, 0)
}

/// The quotient of two integers, each of them taken as a double first.
pub open spec fn share(n: int, d: int) -> Dyadic {
    over(whole(n), whole(d))
}

/// `a`, moved to the nearer end of `low..=high` if it lies outside.
pub open spec fn clamped(a: Dyadic, low: Dyadic, high: Dyadic) -> Dyadic {
    if less(a, low) {
        low
    } else if less(high, a) {
        high
    } else {
        a
    }
}

pub open spec fn byte(n: nat) -> u8 {
    if n > 255 {
        255
    } else {
        n as u8
    }
}

/// One colour channel, `t` of the way from `a` to `b`.
pub open spec fn blended(a: u8, b: u8, t: Dyadic) -> u8 {
    byte(rounded(plus(whole(a as int), times(whole(b - a), t))))
}

/// The colour that lies `t` of the way from `from` to `to`.
pub open spec fn blend(from: Rgb, to: Rgb, t: Dyadic) -> Rgb {
    let u = clamped(t, whole(0), whole(1));
    (blended(from.0, to.0, u), blended(from.1, to.1, u), blended(from.2, to.2, u))
}

/// The angle within one turn of 360 degrees.
pub open spec fn turn(h: Dyadic) -> Dyadic {
    let r = remainder(h, whole(360));
    if r.mant < 0 {
        plus(r, whole(360))
    } else {
        r
    }
}

/// The distance from zero.
pub open spec fn magnitude(a: Dyadic) -> Dyadic {
    if a.mant < 0 {
        negated(a)
    } else {
        a
    }
}

/// One channel of a colour on the wheel, between zero and one.
pub open spec fn channel(a: Dyadic, m: Dyadic) -> u8 {
    byte(rounded(times(plus(a, m), whole(255))))
}

/// The colour with hue `h` (in degrees), saturation `s` and value `v`.
pub open spec fn wheel(h: Dyadic, s: Dyadic, v: Dyadic) -> Rgb {
    let sector = over(turn(h), whole(60));
    let c = times(v, s);
    let x = times(
        c,
        minus(whole(1), magnitude(minus(remainder(sector, whole(2)), whole(1)))),
    );
    let m = minus(v, c);
    let n = truncated(sector);
    let (r, g, b) = if n == 0 {
        (c, x, zero())
    } else if n == 1 {
        (x, c, zero())
    } else if n == 2 {
        (zero(), c, x)
    } else if n == 3 {
        (zero(), x, c)
    } else if n == 4 {
        (x, zero(), c)
    } else {
        (c, zero(), x)
    };
    (channel(r, m), channel(g, m), channel(b, m))
}

/// The colour of a proportional or unique set size.
pub open spec fn pss_color(size: u64, limit_red: u64) -> Rgb {
    let pale = 64 * MIB;
    let full = 512 * MIB;
    if size == 0 {
        (0u8, 255u8, 0u8)
    } else if size >= limit_red {
        (255u8, 0u8, 0u8)
    } else if size <= pale {
        blend((0, 255, 0), (255, 255, 230), share(size as int, pale as int))
    } else if size <= full {
        blend((255, 255, 230), (255, 255, 0), share(size - pale, full - pale))
    } else {
        blend((255, 255, 0), (255, 0, 0), share(size - full, limit_red - full))
    }
}

/// `a - b * t` for fractions `a` and `b`.
pub open spec fn fading(a: Dyadic, b: Dyadic, t: Dyadic) -> Dyadic {
    minus(a, times(b, t))
}

/// The size at which resident memory starts to turn gray.
pub open spec fn gray_from(mem_total: u64) -> u64 {
    crate::double::saturated(truncated(times(whole(mem_total as int), fraction(97, 100))))
}

/// The colour of a resident set size.
pub open spec fn rss_color(size: u64, mem_total: u64) -> Rgb {
    let l1 = 8 * MIB;
    let l2 = 10 * MIB;
    let l3 = 128 * MIB;
    let l4 = 136 * MIB;
    let l5 = 1024 * MIB;
    let l6 = 1072 * MIB;
    let l7 = gray_from(mem_total);
    let l8 = mem_total;
    let one = whole(1);
    let round = whole(360);
    if size <= l1 {
        wheel(times(share(size as int, l1 as int), round), one, one)
    } else if size <= l2 {
        wheel(zero(), fading(one, fraction(2, 10), share(size - l1, l2 - l1)), one)
    } else if size <= l3 {
        wheel(times(share(size - l2, l3 - l2), round), fraction(8, 10), one)
    } else if size <= l4 {
        wheel(zero(), fading(fraction(8, 10), fraction(3, 10), share(size - l3, l4 - l3)), one)
    } else if size <= l5 {
        wheel(times(share(size - l4, l5 - l4), round), fraction(5, 10), one)
    } else if size <= l6 {
        wheel(zero(), fading(fraction(5, 10), fraction(3, 10), share(size - l5, l6 - l5)), one)
    } else if size <= l7 {
        wheel(times(share(size - l6, l7 - l6), round), fraction(2, 10), one)
    } else if size <= l8 {
        blend((255, 204, 204), (128, 128, 128), share(size - l7, l8 - l7))
    } else {
        (128u8, 128u8, 128u8)
    }
}

/// The colour of an amount of swap.
pub open spec fn swap_color(size: u64, swap_total: u64) -> Rgb {
    if size >= swap_total {
        (255u8, 0u8, 0u8)
    } else if size >= GIB {
        blend((255, 128, 128), (255, 0, 0), share(size - GIB, swap_total - GIB))
    } else if size > 0 {
        blend(WHITE_PURE, (255, 128, 128), share(size as int, GIB as int))
    } else {
        WHITE_PURE
    }
}

/// The colour of a share of processor time, in percent.
pub open spec fn cpu_color(percent: Dyadic) -> Rgb {
    let p = over(clamped(percent, whole(0), whole(100)), whole(100));
    if less(p, fraction(1, 2)) {
        blend((0, 255, 0), (255, 255, 0), times(p, whole(2)))
    } else {
        blend((255, 255, 0), (255, 0, 0), times(minus(p, fraction(1, 2)), whole(2)))
    }
}

/// The quotient of two integers.
pub(crate) fn share_of(n: u64, d: u64) -> (r: Double)
    requires
        d > 0,
    ensures
        r@ == share(n as int, d as int),
        r.within(600),
{
    let divisor = Double::from_int(d as i128);
    proof {
        crate::double::lemma_nearest_positive(d as nat, 1, 0);
    }
    Double::from_int(n as i128).over(divisor)
}

fn clamp(a: Double, low: Double, high: Double) -> (r: Double)
    requires
        normal(a@),
        normal(low@),
        normal(high@),
    ensures
        r@ == clamped(a@, low@, high@),
        r == a || r == low || r == high,
{
    if a.less(low) {
        low
    } else if high.less(a) {
        high
    } else {
        a
    }
}

fn narrow(n: u64) -> (r: u8)
    ensures
        r == byte(n as nat),
{
    if n > 255 {
        255
    } else {
        n as u8
    }
}

fn blend_channel(a: u8, b: u8, t: Double) -> (r: u8)
    requires
        t.within(usual() + 100_000),
    ensures
        r == blended(a, b, t@),
{
    let step = Double::from_int(b as i128 - a as i128).times(t);
    let sum = Double::from_int(a as i128).plus(step);
    narrow(sum.rounded())
}

/// The colour that lies `t` of the way from one colour to another.
pub fn lerp_color(from: Rgb, to: Rgb, t: Double) -> (r: Rgb)
    requires
        t.within(usual() + 100_000),
    ensures
        r == blend(from, to, t@),
{
    let u = clamp(t, Double::from_int(0), Double::from_int(1));
    (blend_channel(from.0, to.0, u), blend_channel(from.1, to.1, u), blend_channel(
        from.2,
        to.2,
        u,
    ))
}

fn wheel_channel(a: Double, m: Double) -> (r: u8)
    requires
        a.within(500_000),
        m.within(500_000),
    ensures
        r == channel(a@, m@),
{
    narrow(a.plus(m).times(Double::from_int(255)).rounded())
}

/// The colour with hue `h` (in degrees), saturation `s` and value `v`.
pub fn hsv_to_rgb(h: Double, s: Double, v: Double) -> (r: Rgb)
    requires
        h.within(10_000),
        s.within(10_000),
        v.within(10_000),
    ensures
        r == wheel(h@, s@, v@),
{
    proof {
        crate::double::lemma_nearest_positive(360, 1, 0);
        crate::double::lemma_nearest_positive(60, 1, 0);
        crate::double::lemma_nearest_positive(2, 1, 0);
    }
    let full = Double::from_int(360);
    let one = Double::from_int(1);
    let none = Double::from_int(0);
    let rest = h.remainder(full);
    let turned = if rest.mant < 0 { rest.plus(full) } else { rest };
    let sector = turned.over(Double::from_int(60));
    let c = v.times(s);
    let offset = sector.remainder(Double::from_int(2)).minus(one);
    let distance = if offset.mant < 0 { offset.negate() } else { offset };
    let x = c.times(one.minus(distance));
    let m = v.minus(c);
    let n: u64 = sector.truncated();
    let (r, g, b) = match n {
        0 => (c, x, none),
        1 => (x, c, none),
        2 => (none, c, x),
        3 => (none, x, c),
        4 => (x, none, c),
        _ => (c, none, x),
    };
    (wheel_channel(r, m), wheel_channel(g, m), wheel_channel(b, m))
}

/// The colour of a proportional or unique set size: from green over yellow to
/// red, which is reached at `limit_red_bytes`.
pub fn color_pss(size_bytes: u64, limit_red_bytes: u64) -> (r: Rgb)
    ensures
        r == pss_color(size_bytes, limit_red_bytes),
{
    let pale: u64 = 64 * MIB;
    let full: u64 = 512 * MIB;
    if size_bytes == 0 {
        return (0, 255, 0);
    }
    if size_bytes >= limit_red_bytes {
        return (255, 0, 0);
    }
    if size_bytes <= pale {
        return lerp_color((0, 255, 0), (255, 255, 230), share_of(size_bytes, pale));
    }
    if size_bytes <= full {
        return lerp_color(
            (255, 255, 230),
            (255, 255, 0),
            share_of(size_bytes - pale, full - pale),
        );
    }
    lerp_color(
        (255, 255, 0),
        (255, 0, 0),
        share_of(size_bytes - full, limit_red_bytes - full),
    )
}

fn fade(a: Double, b: Double, t: Double) -> (r: Double)
    requires
        a.within(1_000),
        b.within(1_000),
        t.within(1_000),
    ensures
        r@ == fading(a@, b@, t@),
        r.within(4_000),
{
    a.minus(b.times(t))
}

/// The colour of a resident set size: once round the wheel for each range of
/// sizes, ever paler, and gray towards the total memory.
pub fn color_rss(size_bytes: u64, mem_total_bytes: u64) -> (r: Rgb)
    ensures
        r == rss_color(size_bytes, mem_total_bytes),
{
    let l1: u64 = 8 * MIB;
    let l2: u64 = 10 * MIB;
    let l3: u64 = 128 * MIB;
    let l4: u64 = 136 * MIB;
    let l5: u64 = 1024 * MIB;
    let l6: u64 = 1072 * MIB;
    let l7: u64 = Double::from_int(mem_total_bytes as i128).times(
        Double::ratio(97, 100),
    ).truncated();
    let l8: u64 = mem_total_bytes;
    let one = Double::from_int(1);
    let none = Double::from_int(0);
    let round = Double::from_int(360);
    if size_bytes <= l1 {
        return hsv_to_rgb(share_of(size_bytes, l1).times(round), one, one);
    } else if size_bytes <= l2 {
        let t = share_of(size_bytes - l1, l2 - l1);
        return hsv_to_rgb(none, fade(one, Double::ratio(2, 10), t), one);
    } else if size_bytes <= l3 {
        let t = share_of(size_bytes - l2, l3 - l2);
        return hsv_to_rgb(t.times(round), Double::ratio(8, 10), one);
    } else if size_bytes <= l4 {
        let t = share_of(size_bytes - l3, l4 - l3);
        return hsv_to_rgb(none, fade(Double::ratio(8, 10), Double::ratio(3, 10), t), one);
    } else if size_bytes <= l5 {
        let t = share_of(size_bytes - l4, l5 - l4);
        return hsv_to_rgb(t.times(round), Double::ratio(5, 10), one);
    } else if size_bytes <= l6 {
        let t = share_of(size_bytes - l5, l6 - l5);
        return hsv_to_rgb(none, fade(Double::ratio(5, 10), Double::ratio(3, 10), t), one);
    } else if size_bytes <= l7 {
        let t = share_of(size_bytes - l6, l7 - l6);
        return hsv_to_rgb(t.times(round), Double::ratio(2, 10), one);
    } else if size_bytes <= l8 {
        return lerp_color(
            (255, 204, 204),
            (128, 128, 128),
            share_of(size_bytes - l7, l8 - l7),
        );
    }
    (128, 128, 128)
}

/// The colour of an amount of swap: from white over pink, reached at one
/// gibibyte, to red, reached at all of it.
pub fn color_swap(size_bytes: u64, swap_total_bytes: u64) -> (r: Rgb)
    ensures
        r == swap_color(size_bytes, swap_total_bytes),
{
    if size_bytes >= swap_total_bytes {
        return (255, 0, 0);
    }
    if size_bytes >= GIB {
        return lerp_color(
            (255, 128, 128),
            (255, 0, 0),
            share_of(size_bytes - GIB, swap_total_bytes - GIB),
        );
    }
    if size_bytes > 0 {
        return lerp_color(WHITE_PURE, (255, 128, 128), share_of(size_bytes, GIB));
    }
    WHITE_PURE
}

/// The colour of a share of processor time, in percent: from green over yellow
/// to red.
pub fn color_cpu(percent: Double) -> (r: Rgb)
    requires
        percent.within(usual()),
    ensures
        r == cpu_color(percent@),
{
    proof {
        crate::double::lemma_nearest_positive(100, 1, 0);
    }
    let hundred = Double::from_int(100);
    let half = Double::ratio(1, 2);
    let two = Double::from_int(2);
    let p = clamp(percent, Double::from_int(0), hundred).over(hundred);
    if p.less(half) {
        lerp_color((0, 255, 0), (255, 255, 0), p.times(two))
    } else {
        lerp_color((255, 255, 0), (255, 0, 0), p.minus(half).times(two))
    }
}

// Laws

pub(crate) proof fn lemma_blended_ends(a: u8, b: u8)
    ensures
        blended(a, b, whole(0)) == a,
        blended(a, b, whole(1)) == b,
{
    lemma_integer_times(b - a, 0);
    lemma_integer_times(b - a, 1);
    lemma_integer_plus(a as int, 0);
    lemma_integer_plus(a as int, b - a);
    lemma_integer_rounded(a as nat);
    lemma_integer_rounded(b as nat);
    assert((b - a) * 0 == 0);
    assert((b - a) * 1 == b - a);
}

/// A blend goes from the one colour to the other.
pub proof fn lemma_blend_ends(from: Rgb, to: Rgb)
    ensures
        blend(from, to, whole(0)) == from,
        blend(from, to, whole(1)) == to,
{
    lemma_integer_less(0, 0);
    lemma_integer_less(1, 1);
    lemma_integer_less(0, 1);
    lemma_integer_less(1, 0);
    lemma_blended_ends(from.0, to.0);
    lemma_blended_ends(from.1, to.1);
    lemma_blended_ends(from.2, to.2);
}

/// A processor that idles is green, one that is busy all the time is red.
pub proof fn lemma_cpu_color_ends(percent: Dyadic)
    ensures
        less(percent, whole(0)) || percent == whole(0) ==> cpu_color(percent) == (
            0u8,
            255u8,
            0u8,
        ),
        !less(percent, whole(0)) && (less(whole(100), percent) || percent == whole(100))
            ==> cpu_color(percent) == (255u8, 0u8, 0u8),
{
    let hundred = whole(100);
    lemma_integer_less(0, 0);
    lemma_integer_less(100, 0);
    lemma_integer_less(100, 100);
    lemma_integer_less(0, 100);
    lemma_integer_positive(100);
    lemma_one_half();
    lemma_over_itself(hundred);
    lemma_integer_times(0, 2);
    assert(over(whole(0), hundred) == whole(0));
    lemma_blend_ends((0, 255, 0), (255, 255, 0));
    lemma_blend_ends((255, 255, 0), (255, 0, 0));
}

/// Memory is green where there is none and red from the limit on; swap is white
/// where there is none and red where it is all in use.
pub proof fn lemma_memory_color_ends(size: u64, limit: u64)
    ensures
        pss_color(0, limit) == (0u8, 255u8, 0u8),
        0 < size && limit <= size ==> pss_color(size, limit) == (255u8, 0u8, 0u8),
        limit > 0 ==> swap_color(0, limit) == WHITE_PURE,
        limit <= size ==> swap_color(size, limit) == (255u8, 0u8, 0u8),
{
}

} // verus!
