//! How the colours of sizes and of processor time change.

use crate::color::{
    blend, blended, byte, channel, clamped, cpu_color, fading, fraction, gray_from,
    lemma_blend_ends, lemma_blended_ends, magnitude, pss_color, rss_color, share, swap_color, turn,
    wheel, Rgb, GIB, MIB, WHITE_PURE,
};
use crate::double::{
    aligned, lemma_integer_less, lemma_integer_rounded, lemma_less_at, lemma_less_transitive,
    lemma_nearest_close, lemma_nearest_positive, lemma_over_itself, lower_exp, minus, nearest,
    negated, over, plus, remainder, rounded, times, truncated, whole, zero, Dyadic,
};
use crate::rounding::{
    at_most, lemma_evaluated, lemma_exact, lemma_nearest_bounds, lemma_nearest_signed_order,
    lemma_over_double, lemma_over_order, lemma_plus_order, lemma_plus_zero, lemma_rounded_order,
    lemma_times_one, lemma_times_order, lemma_truncated_at,
};
use vstd::arithmetic::div_mod::{
    lemma_fundamental_div_mod_converse, lemma_mod_self_0, lemma_small_mod,
};
use vstd::arithmetic::power2::{
    lemma2_to64, lemma2_to64_rest, lemma_pow2_adds, lemma_pow2_pos, lemma_pow2_strictly_increases,
    pow2,
};
use vstd::prelude::*;

verus! {

// Blends

/// A channel goes in one direction only.
proof fn lemma_blended_order(a: u8, b: u8, t: Dyadic, u: Dyadic)
    requires
        at_most(t, u),
    ensures
        a <= b ==> blended(a, b, t) <= blended(a, b, u),
        b <= a ==> blended(a, b, u) <= blended(a, b, t),
{
    let c = whole(b - a);
    lemma_whole_sign(b - a);
    lemma_times_order(t, u, c);
    if a <= b {
        lemma_plus_order(times(c, t), times(c, u), whole(a as int));
        lemma_rounded_order(plus(whole(a as int), times(c, t)), plus(whole(a as int), times(c, u)));
    }
    if b <= a {
        lemma_plus_order(times(c, u), times(c, t), whole(a as int));
        lemma_rounded_order(plus(whole(a as int), times(c, u)), plus(whole(a as int), times(c, t)));
    }
}

pub(crate) proof fn lemma_whole_sign(n: int)
    ensures
        n >= 0 ==> whole(n).mant >= 0,
        n <= 0 ==> whole(n).mant <= 0,
        n > 0 ==> whole(n).mant > 0,
        whole(0) == zero(),
{
    if n > 0 {
        lemma_nearest_positive(n as nat, 1, 0);
    }
    if n < 0 {
        lemma_nearest_positive((-n) as nat, 1, 0);
    }
}

proof fn lemma_clamped_order(t: Dyadic, u: Dyadic, low: Dyadic, high: Dyadic)
    requires
        at_most(t, u),
        at_most(low, high),
    ensures
        at_most(clamped(t, low, high), clamped(u, low, high)),
        at_most(low, clamped(t, low, high)),
        at_most(clamped(t, low, high), high),
{
    lemma_less_transitive(low, low, low);
    lemma_less_transitive(high, high, high);
    lemma_less_transitive(low, t, u);
    lemma_less_transitive(t, u, high);
    lemma_less_transitive(low, u, high);
}

/// A blend goes from the one colour to the other without turning back.
pub proof fn lemma_blend_order(from: Rgb, to: Rgb, t: Dyadic, u: Dyadic)
    requires
        at_most(t, u),
    ensures
        from.0 <= to.0 ==> from.0 <= blend(from, to, t).0 <= blend(from, to, u).0 <= to.0,
        from.1 <= to.1 ==> from.1 <= blend(from, to, t).1 <= blend(from, to, u).1 <= to.1,
        from.2 <= to.2 ==> from.2 <= blend(from, to, t).2 <= blend(from, to, u).2 <= to.2,
        from.0 >= to.0 ==> from.0 >= blend(from, to, t).0 >= blend(from, to, u).0 >= to.0,
        from.1 >= to.1 ==> from.1 >= blend(from, to, t).1 >= blend(from, to, u).1 >= to.1,
        from.2 >= to.2 ==> from.2 >= blend(from, to, t).2 >= blend(from, to, u).2 >= to.2,
{
    let none = whole(0);
    let all = whole(1);
    let v = clamped(t, none, all);
    let w = clamped(u, none, all);
    lemma_integer_less(1, 0);
    lemma_clamped_order(t, u, none, all);
    lemma_clamped_order(u, u, none, all);
    lemma_channel_order(from.0, to.0, v, w);
    lemma_channel_order(from.1, to.1, v, w);
    lemma_channel_order(from.2, to.2, v, w);
}

proof fn lemma_channel_order(a: u8, b: u8, v: Dyadic, w: Dyadic)
    requires
        at_most(whole(0), v),
        at_most(v, w),
        at_most(w, whole(1)),
    ensures
        a <= b ==> a <= blended(a, b, v) <= blended(a, b, w) <= b,
        a >= b ==> a >= blended(a, b, v) >= blended(a, b, w) >= b,
{
    lemma_blended_ends(a, b);
    lemma_blended_order(a, b, whole(0), v);
    lemma_blended_order(a, b, v, w);
    lemma_blended_order(a, b, w, whole(1));
}

// Shares

pub(crate) proof fn lemma_share_order(m: int, n: int, d: int)
    requires
        m <= n,
        d > 0,
    ensures
        at_most(share(m, d), share(n, d)),
{
    lemma_whole_sign(d);
    lemma_nearest_signed_order(m, n, 1, 0);
    lemma_over_order(whole(m), whole(n), whole(d));
}

pub(crate) proof fn lemma_share_ends(d: int)
    requires
        d > 0,
    ensures
        share(0, d) == whole(0),
        share(d, d) == whole(1),
{
    lemma_whole_sign(0);
    lemma_whole_sign(d);
    lemma_nearest_close(d as nat, 1, 0);
    lemma_over_itself(whole(d));
}

// Memory

/// The more memory, the more red and the less green its colour is, until it is
/// red at the limit.
pub proof fn lemma_pss_color_order(s1: u64, s2: u64, limit: u64)
    requires
        s1 <= s2,
    ensures
        pss_color(s1, limit).0 <= pss_color(s2, limit).0,
        pss_color(s1, limit).1 >= pss_color(s2, limit).1,
{
    if 0 < s1 && s2 < limit {
        let pale = 64 * MIB;
        let full = 512 * MIB;
        let green = (0u8, 255u8, 0u8);
        let cream = (255u8, 255u8, 230u8);
        let yellow = (255u8, 255u8, 0u8);
        let red = (255u8, 0u8, 0u8);
        lemma_share_order(s1 as int, s2 as int, pale as int);
        lemma_share_order(s1 - pale, s2 - pale, full - pale);
        lemma_blend_order(
            green,
            cream,
            share(s1 as int, pale as int),
            share(s2 as int, pale as int),
        );
        lemma_blend_order(
            cream,
            yellow,
            share(s1 - pale, full - pale),
            share(s2 - pale, full - pale),
        );
        if full < limit {
            lemma_share_order(s1 - full, s2 - full, limit - full);
            lemma_blend_order(
                yellow,
                red,
                share(s1 - full, limit - full),
                share(s2 - full, limit - full),
            );
        }
    }
}

/// The colour of swap is white, pink or red: it has all of red and as much green
/// as blue. The more swap, the less green and blue. One gibibyte is pink, unless
/// there is no more.
pub proof fn lemma_swap_color_order(s1: u64, s2: u64, total: u64)
    requires
        s1 <= s2,
    ensures
        swap_color(s1, total).0 == 255,
        swap_color(s1, total).1 == swap_color(s1, total).2,
        swap_color(s1, total).1 >= swap_color(s2, total).1,
        total > GIB ==> swap_color(GIB, total) == (255u8, 128u8, 128u8),
{
    let pink = (255u8, 128u8, 128u8);
    let red = (255u8, 0u8, 0u8);
    lemma_share_order(s1 as int, s2 as int, GIB as int);
    lemma_blend_order(
        WHITE_PURE,
        pink,
        share(s1 as int, GIB as int),
        share(s2 as int, GIB as int),
    );
    if total > GIB {
        lemma_share_order(s1 - GIB, s2 - GIB, total - GIB);
        lemma_blend_order(
            pink,
            red,
            share(s1 - GIB, total - GIB),
            share(s2 - GIB, total - GIB),
        );
        lemma_share_ends(total - GIB);
        lemma_blend_ends(pink, red);
    }
}

// Resident memory

proof fn lemma_powers()
    ensures
        pow2(0) == 1,
        pow2(1) == 2,
        pow2(2) == 4,
        pow2(3) == 8,
        pow2(45) == 0x2000_0000_0000,
        pow2(46) == 0x4000_0000_0000,
        pow2(47) == 0x8000_0000_0000,
        pow2(52) == 0x10_0000_0000_0000,
        pow2(53) == 0x20_0000_0000_0000,
        pow2(54) == 0x40_0000_0000_0000,
        pow2(55) == 0x80_0000_0000_0000,
{
    lemma2_to64();
    lemma2_to64_rest();
}

proof fn lemma_numbers()
    ensures
        whole(1) == (Dyadic { mant: 0x10_0000_0000_0000, exp: -52 }),
        whole(255) == (Dyadic { mant: 0x1f_e000_0000_0000, exp: -45 }),
        fraction(2, 10) == (Dyadic { mant: 7205759403792794, exp: -55 }),
        fraction(3, 10) == (Dyadic { mant: 5404319552844595, exp: -54 }),
        fraction(5, 10) == (Dyadic { mant: 0x10_0000_0000_0000, exp: -53 }),
        fraction(8, 10) == (Dyadic { mant: 7205759403792794, exp: -53 }),
        fraction(97, 100) == (Dyadic { mant: 8736983277098762, exp: -53 }),
{
    lemma_powers();
    lemma_evaluated(1, 1, 0, 52, 0x10_0000_0000_0000, 0, 1);
    lemma_evaluated(255, 1, 0, 45, 0x2000_0000_0000, 0, 1);
    lemma_evaluated(2, 10, 0, 55, 0x80_0000_0000_0000, 0, 1);
    lemma_evaluated(3, 10, 0, 54, 0x40_0000_0000_0000, 0, 1);
    lemma_evaluated(5, 10, 0, 53, 0x20_0000_0000_0000, 0, 1);
    lemma_evaluated(8, 10, 0, 53, 0x20_0000_0000_0000, 0, 1);
    lemma_evaluated(97, 100, 0, 53, 0x20_0000_0000_0000, 0, 1);
}

proof fn lemma_aligned_at(a: Dyadic, e: int, k: nat, p: int)
    requires
        a.exp == e + k,
        p == pow2(k),
    ensures
        aligned(a, e) == a.mant * p,
{
}

proof fn lemma_rounded_to(a: Dyadic, k: nat, p: int, n: nat)
    requires
        a.mant > 0,
        k > 0,
        a.exp == -k,
        p == pow2(k),
        n * (2 * p) <= 2 * a.mant + p < (n + 1) * (2 * p),
    ensures
        rounded(a) == n,
{
    let q = 2 * a.mant + p;
    assert((n + 1) * (2 * p) == n * (2 * p) + 2 * p) by (nonlinear_arith);
    lemma_fundamental_div_mod_converse(q, 2 * p, n as int, q - n * (2 * p));
}

proof fn lemma_rounded_shares()
    ensures
        rounded(Dyadic { mant: 7177611906121726, exp: -47 }) == 51,
        rounded(Dyadic { mant: 0x1f_e000_0000_0000, exp: -46 }) == 128,
        rounded(Dyadic { mant: 7177611906121728, exp: -45 }) == 204,
{
    lemma_powers();
    assert(51 * (2 * 0x8000_0000_0000int) <= 2 * 7177611906121726 + 0x8000_0000_0000);
    assert(2 * 7177611906121726 + 0x8000_0000_0000 < (51 + 1) * (2 * 0x8000_0000_0000int));
    lemma_rounded_to(Dyadic { mant: 7177611906121726, exp: -47 }, 47, 0x8000_0000_0000, 51);
    lemma_rounded_to(Dyadic { mant: 0x1f_e000_0000_0000, exp: -46 }, 46, 0x4000_0000_0000, 128);
    lemma_rounded_to(Dyadic { mant: 7177611906121728, exp: -45 }, 45, 0x2000_0000_0000, 204);
}

/// The full turns of the colour wheel end where they start.
proof fn lemma_full_turns()
    ensures
        turn(zero()) == zero(),
        turn(times(whole(0), whole(360))) == zero(),
        turn(times(whole(1), whole(360))) == zero(),
{
    let round = whole(360);
    lemma_whole_sign(0);
    lemma_whole_sign(360);
    lemma_nearest_close(360, 1, 0);
    lemma_times_one(round);
    lemma_remainder_zero(zero(), round);
    lemma_remainder_zero(round, round);
}

proof fn lemma_remainder_zero(a: Dyadic, b: Dyadic)
    requires
        b.mant > 0,
        a == zero() || a == b,
    ensures
        remainder(a, b) == zero(),
{
    let e = lower_exp(a, b);
    lemma_less_at(b, a, e);
    if a == zero() {
        assert(0 * pow2((0 - e) as nat) == 0);
    }
    lemma_mod_self_0(aligned(b, e));
    lemma_small_mod(0, aligned(b, e) as nat);
}

/// A colour of the wheel where a turn starts.
proof fn lemma_wheel_start(h: Dyadic, s: Dyadic)
    requires
        turn(h) == zero(),
        0x10_0000_0000_0000 <= s.mant < 0x20_0000_0000_0000,
    ensures
        wheel(h, s, whole(1)) == (
            channel(s, minus(whole(1), s)),
            channel(zero(), minus(whole(1), s)),
            channel(zero(), minus(whole(1), s)),
        ),
{
    let one = whole(1);
    lemma_numbers();
    lemma_powers();
    lemma_whole_sign(60);
    lemma_whole_sign(2);
    lemma_times_one(s);
    assert(over(zero(), whole(60)) == zero());
    lemma_remainder_zero(zero(), whole(2));
    let back = negated(one);
    assert(minus(zero(), one) == back) by {
        lemma_exact(one);
        assert(aligned(zero(), -52) == 0);
        lemma_aligned_at(back, -52, 0, 1);
    }
    assert(magnitude(back) == one);
    assert(minus(one, one) == zero()) by {
        lemma_aligned_at(one, -52, 0, 1);
        lemma_aligned_at(back, -52, 0, 1);
    }
    assert(s.mant * 0 == 0);
    assert(times(s, zero()) == zero());
}

/// The colour of the saturation `s` where `m` is what it lacks.
proof fn lemma_wheel_start_at(h: Dyadic, s: Dyadic, m: Dyadic, t: Dyadic)
    requires
        turn(h) == zero(),
        0x10_0000_0000_0000 <= s.mant < 0x20_0000_0000_0000,
        m == zero() || 0x10_0000_0000_0000 <= m.mant < 0x20_0000_0000_0000,
        minus(whole(1), s) == m,
        plus(s, m) == whole(1),
        times(m, whole(255)) == t,
    ensures
        wheel(h, s, whole(1)) == (255u8, byte(rounded(t)), byte(rounded(t))),
{
    lemma_wheel_start(h, s);
    lemma_numbers();
    lemma_times_one(whole(255));
    lemma_integer_rounded(255);
    lemma_plus_zero(m);
}

proof fn lemma_red(h: Dyadic)
    requires
        turn(h) == zero(),
    ensures
        wheel(h, whole(1), whole(1)) == (255u8, 0u8, 0u8),
{
    let one = whole(1);
    lemma_numbers();
    lemma_powers();
    assert(minus(one, one) == zero()) by {
        lemma_aligned_at(one, -52, 0, 1);
        lemma_aligned_at(negated(one), -52, 0, 1);
    }
    lemma_plus_zero(one);
    assert(times(zero(), whole(255)) == zero());
    lemma_wheel_start_at(h, one, zero(), zero());
}

proof fn lemma_light_red(h: Dyadic)
    requires
        turn(h) == zero(),
    ensures
        wheel(h, fraction(8, 10), whole(1)) == (255u8, 51u8, 51u8),
{
    let one = whole(1);
    let s = fraction(8, 10);
    let m = Dyadic { mant: 7205759403792792, exp: -55 };
    let t = Dyadic { mant: 7177611906121726, exp: -47 };
    lemma_numbers();
    lemma_powers();
    assert(minus(one, s) == m) by {
        lemma_aligned_at(one, -53, 1, 2);
        lemma_aligned_at(negated(s), -53, 0, 1);
        lemma_evaluated(1801439850948198, 1, -53, 2, 4, 0, 1);
    }
    assert(plus(s, m) == one) by {
        lemma_aligned_at(s, -55, 2, 4);
        lemma_aligned_at(m, -55, 0, 1);
        lemma_evaluated(0x80_0000_0000_0000, 1, -55, 0, 1, 3, 8);
    }
    assert(times(m, whole(255)) == t) by {
        lemma_evaluated(
            7205759403792792 * 0x1f_e000_0000_0000,
            1,
            -100,
            0,
            1,
            53,
            0x20_0000_0000_0000,
        );
    }
    lemma_wheel_start_at(h, s, m, t);
    lemma_rounded_shares();
}

proof fn lemma_pale_red(h: Dyadic)
    requires
        turn(h) == zero(),
    ensures
        wheel(h, fraction(5, 10), whole(1)) == (255u8, 128u8, 128u8),
{
    let one = whole(1);
    let s = fraction(5, 10);
    let t = Dyadic { mant: 0x1f_e000_0000_0000, exp: -46 };
    lemma_numbers();
    lemma_powers();
    assert(minus(one, s) == s) by {
        lemma_aligned_at(one, -53, 1, 2);
        lemma_aligned_at(negated(s), -53, 0, 1);
        lemma_exact(s);
    }
    assert(plus(s, s) == one) by {
        lemma_aligned_at(s, -53, 0, 1);
        lemma_evaluated(0x20_0000_0000_0000, 1, -53, 0, 1, 1, 2);
    }
    assert(times(s, whole(255)) == t) by {
        lemma_evaluated(
            0x10_0000_0000_0000 * 0x1f_e000_0000_0000,
            1,
            -98,
            0,
            1,
            52,
            0x10_0000_0000_0000,
        );
    }
    lemma_wheel_start_at(h, s, s, t);
    lemma_rounded_shares();
}

proof fn lemma_faint_red(h: Dyadic)
    requires
        turn(h) == zero(),
    ensures
        wheel(h, fraction(2, 10), whole(1)) == (255u8, 204u8, 204u8),
{
    let one = whole(1);
    let s = fraction(2, 10);
    let m = fraction(8, 10);
    let t = Dyadic { mant: 7177611906121728, exp: -45 };
    lemma_numbers();
    lemma_powers();
    assert(minus(one, s) == m) by {
        lemma_faded_once();
    }
    assert(plus(s, m) == one) by {
        lemma_aligned_at(s, -55, 0, 1);
        lemma_aligned_at(m, -55, 2, 4);
        lemma_evaluated(5 * 7205759403792794, 1, -55, 0, 1, 3, 8);
    }
    assert(times(m, whole(255)) == t) by {
        lemma_evaluated(
            7205759403792794 * 0x1f_e000_0000_0000,
            1,
            -98,
            0,
            1,
            53,
            0x20_0000_0000_0000,
        );
    }
    lemma_wheel_start_at(h, s, m, t);
    lemma_rounded_shares();
}

proof fn lemma_faded_once()
    ensures
        minus(whole(1), fraction(2, 10)) == fraction(8, 10),
{
    let one = whole(1);
    let s = fraction(2, 10);
    lemma_numbers();
    lemma_powers();
    lemma_aligned_at(one, -55, 3, 8);
    lemma_aligned_at(negated(s), -55, 0, 1);
    lemma_evaluated(28823037615171174, 1, -55, 0, 1, 2, 4);
}

/// Where the saturation has faded to.
proof fn lemma_faded()
    ensures
        fading(whole(1), fraction(2, 10), whole(1)) == fraction(8, 10),
        fading(fraction(8, 10), fraction(3, 10), whole(1)) == fraction(5, 10),
        fading(fraction(5, 10), fraction(3, 10), whole(1)) == fraction(2, 10),
{
    let s = fraction(3, 10);
    lemma_numbers();
    lemma_powers();
    lemma_faded_once();
    lemma_times_one(fraction(2, 10));
    lemma_times_one(s);
    lemma_aligned_at(negated(s), -54, 0, 1);
    lemma_aligned_at(fraction(8, 10), -54, 1, 2);
    lemma_aligned_at(fraction(5, 10), -54, 1, 2);
    lemma_evaluated(9007199254740993, 1, -54, 0, 1, 1, 2);
    lemma_evaluated(3602879701896397, 1, -54, 1, 2, 0, 1);
}

/// Resident memory has the following colours at the limits between its turns
/// round the wheel.
pub proof fn lemma_rss_color_limits(total: u64)
    ensures
        rss_color(0, total) == (255u8, 0u8, 0u8),
        rss_color((8 * MIB) as u64, total) == (255u8, 0u8, 0u8),
        rss_color((10 * MIB) as u64, total) == (255u8, 51u8, 51u8),
        rss_color((128 * MIB) as u64, total) == (255u8, 51u8, 51u8),
        rss_color((136 * MIB) as u64, total) == (255u8, 128u8, 128u8),
        rss_color((1024 * MIB) as u64, total) == (255u8, 128u8, 128u8),
        rss_color((1072 * MIB) as u64, total) == (255u8, 204u8, 204u8),
        gray_from(total) > 1072 * MIB ==> rss_color(gray_from(total), total) == (
            255u8,
            204u8,
            204u8,
        ),
{
    let start = times(whole(0), whole(360));
    let end = times(whole(1), whole(360));
    lemma_full_turns();
    lemma_faded();
    lemma_share_ends(8 * MIB);
    lemma_share_ends(2 * MIB);
    lemma_share_ends(118 * MIB);
    lemma_share_ends(888 * MIB);
    lemma_share_ends(48 * MIB);
    lemma_red(start);
    lemma_red(end);
    lemma_light_red(zero());
    lemma_light_red(end);
    lemma_pale_red(zero());
    lemma_pale_red(end);
    lemma_faint_red(zero());
    lemma_faint_red(end);
    if gray_from(total) > 1072 * MIB {
        lemma_share_ends(gray_from(total) - 1072 * MIB);
    }
}

/// The memory of the machine has no influence on the colour of up to 1072
/// mebibytes.
pub proof fn lemma_rss_color_absolute(size: u64, total: u64, other: u64)
    requires
        size <= 1072 * MIB,
    ensures
        rss_color(size, total) == rss_color(size, other),
{
}

/// Resident memory starts to turn gray before it takes all memory.
pub proof fn lemma_gray_from(total: u64)
    requires
        total > 0,
    ensures
        gray_from(total) < total,
{
    let w = whole(total as int);
    let f: int = 8736983277098762;
    let m = w.mant;
    let x = w.exp;
    lemma_numbers();
    lemma_powers();
    lemma_whole_bound(total as nat);
    let k = (53 - x) as nat;
    let p = m * f;
    let r = nearest(p as nat, 1, x - 53);
    lemma_product_bound(p as nat, x - 53);
    assert(times(w, fraction(97, 100)) == r);
    lemma_truncated_at(r, k);
    let z = pow2(k) as int;
    let t = truncated(r) as int;
    assert(t * z < total * z);
    assert(t < total) by (nonlinear_arith)
        requires
            t * z < total * z,
            z >= 0,
    ;
}

proof fn lemma_whole_bound(n: nat)
    requires
        0 < n <= u64::MAX,
    ensures
        0x10_0000_0000_0000 <= whole(n as int).mant < 0x20_0000_0000_0000,
        whole(n as int).exp <= 53,
        whole(n as int).mant * 0x20_0000_0000_0000 - 0x10_0000_0000_0000 <= n * pow2(
            (53 - whole(n as int).exp) as nat,
        ),
{
    let w = whole(n as int);
    let m = w.mant;
    let x = w.exp;
    lemma_powers();
    lemma_nearest_close(n, 1, 0);
    if x <= 0 {
        let g = pow2((-x) as nat) as int;
        lemma_pow2_adds((-x) as nat, 53);
        assert(n * g == m);
        assert(n * (g * 0x20_0000_0000_0000) == (n * g) * 0x20_0000_0000_0000) by (nonlinear_arith);
    } else {
        let g = pow2(x as nat) as int;
        assert(1 * g == g);
        assert(2 * (n - m * g) >= -g);
        if x > 53 {
            lemma_pow2_strictly_increases(53, x as nat);
            assert(m * g >= 0x10_0000_0000_0000 * g) by (nonlinear_arith)
                requires
                    m >= 0x10_0000_0000_0000,
                    g >= 0,
            ;
        }
        let h = pow2((53 - x) as nat) as int;
        lemma_pow2_adds(x as nat, (53 - x) as nat);
        assert(g * h == 0x20_0000_0000_0000);
        assert(2 * (n * h) >= 2 * (m * (g * h)) - g * h) by (nonlinear_arith)
            requires
                2 * (n - m * g) >= -g,
                h >= 0,
        ;
    }
}

/// A rounded number is hardly larger than the exact one.
proof fn lemma_product_bound(n: nat, e: int)
    requires
        n >= 0x20_0000_0000_0000,
    ensures
        nearest(n, 1, e).mant > 0,
        nearest(n, 1, e).exp >= e,
        0x10_0000_0000_0000 * aligned(nearest(n, 1, e), e) <= 0x10_0000_0000_0001 * n,
{
    let r = nearest(n, 1, e);
    let m = r.mant;
    lemma_nearest_close(n, 1, e);
    lemma_nearest_bounds(n, 1, e);
    lemma_powers();
    let g = pow2((r.exp - e) as nat) as int;
    lemma_pow2_pos((r.exp - e) as nat);
    assert(2 * (m * g - n) <= g) by {
        assert(1 * g == g);
        assert(n * 1 == n);
    }
    assert(m * g >= 0x10_0000_0000_0000 * g) by (nonlinear_arith)
        requires
            m >= 0x10_0000_0000_0000,
            g >= 0,
    ;
}

/// Resident memory is gray where it takes all memory of the machine, or more,
/// beyond 1072 mebibytes.
pub proof fn lemma_rss_color_gray(size: u64, total: u64)
    requires
        size >= total,
        size > 1072 * MIB,
    ensures
        rss_color(size, total) == (128u8, 128u8, 128u8),
{
    if total > 0 {
        lemma_gray_from(total);
        lemma_share_ends(total - gray_from(total));
        lemma_blend_ends((255, 204, 204), (128, 128, 128));
    } else {
        lemma_whole_sign(0);
        lemma_numbers();
        assert(times(zero(), fraction(97, 100)) == zero());
    }
}

// Processor time

pub(crate) proof fn lemma_times_commutes(a: Dyadic, b: Dyadic)
    ensures
        times(a, b) == times(b, a),
{
    assert(a.mant * b.mant == b.mant * a.mant) by (nonlinear_arith);
}

/// The more processor time, the more red and the less green its colour is; there
/// is no blue in it. Half of the time is yellow.
pub proof fn lemma_cpu_color_order(p1: Dyadic, p2: Dyadic)
    requires
        at_most(p1, p2),
    ensures
        cpu_color(p1).0 <= cpu_color(p2).0,
        cpu_color(p1).1 >= cpu_color(p2).1,
        cpu_color(p1).2 == 0,
        cpu_color(whole(50)) == (255u8, 255u8, 0u8),
{
    let hundred = whole(100);
    let two = whole(2);
    let half = fraction(1, 2);
    let t = over(clamped(p1, whole(0), hundred), hundred);
    let u = over(clamped(p2, whole(0), hundred), hundred);
    lemma_integer_less(100, 0);
    lemma_whole_sign(100);
    lemma_whole_sign(2);
    lemma_clamped_order(p1, p2, whole(0), hundred);
    lemma_over_order(clamped(p1, whole(0), hundred), clamped(p2, whole(0), hundred), hundred);
    lemma_times_order(t, u, two);
    lemma_times_commutes(t, two);
    lemma_times_commutes(u, two);
    let v = minus(t, half);
    let w = minus(u, half);
    lemma_plus_order(t, u, negated(half));
    lemma_times_order(v, w, two);
    lemma_times_commutes(v, two);
    lemma_times_commutes(w, two);
    lemma_less_transitive(half, t, u);
    lemma_blend_order((0, 255, 0), (255, 255, 0), times(t, two), times(u, two));
    lemma_blend_order((255, 255, 0), (255, 0, 0), times(v, two), times(w, two));
    lemma_half_time();
}

proof fn lemma_half_time()
    ensures
        cpu_color(whole(50)) == (255u8, 255u8, 0u8),
{
    let half = fraction(1, 2);
    lemma_integer_less(50, 0);
    lemma_integer_less(100, 50);
    lemma_over_double(50);
    let p = pow2(0) as int;
    assert(half.mant * p + (-half.mant) * p == 0) by (nonlinear_arith);
    assert(minus(half, half) == zero());
    lemma_whole_sign(0);
    assert(times(zero(), whole(2)) == zero());
    lemma_blend_ends((255, 255, 0), (255, 0, 0));
}

} // verus!
