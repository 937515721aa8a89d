//! Rounded arithmetic keeps the order of its operands.

use crate::double::{
    aligned, carried, lemma_exponent_decides, lemma_integer, lemma_less_at, lemma_nearest_at, lemma_over_itself,
    lemma_pow2_bounds, lemma_quotient_bounds, less, lower_exp, nearest, nearest_signed, negated,
    over, plus, round_half_even, rounded, times, truncated, two52, two53, whole, zero, Dyadic,
};
use vstd::arithmetic::div_mod::{
    lemma_div_is_ordered, lemma_fundamental_div_mod, lemma_fundamental_div_mod_converse,
};
use vstd::arithmetic::power2::{lemma_pow2_adds, lemma_pow2_pos, lemma_pow2_unfold, pow2};
use vstd::prelude::*;

verus! {

/// Whether `a` is not the larger number.
pub open spec fn at_most(a: Dyadic, b: Dyadic) -> bool {
    !less(b, a)
}

// Scaling

proof fn lemma_round_doubled(n: nat, d: nat)
    requires
        d > 0,
    ensures
        round_half_even(2 * n, 2 * d) == round_half_even(n, d),
{
    let q = n as int / d as int;
    let r = n as int % d as int;
    lemma_fundamental_div_mod(n as int, d as int);
    assert(2 * n == q * (2 * d) + 2 * r) by (nonlinear_arith)
        requires
            n == d * q + r,
    ;
    lemma_fundamental_div_mod_converse(2 * n as int, 2 * d as int, q, 2 * r);
}

proof fn lemma_twice(n: nat, d: nat, e: int)
    ensures
        nearest(2 * n, d, e - 1) == nearest(n, d, e),
    decreases
            (if n >= d * two53() {
                n - d
            } else {
                0
            }),
{
    if n > 0 && d > 0 && n >= d * two52() {
        assert(2 * n >= d * two53());
        assert(nearest(2 * n, d, e - 1) == nearest(2 * n, 2 * d, e));
        if n >= d * two53() {
            lemma_twice(n, 2 * d, e + 1);
        } else {
            lemma_round_doubled(n, d);
        }
    }
}

/// Rounding does not depend on how numerator and scale share a power of two.
pub proof fn lemma_rescaled(n: nat, d: nat, e: int, k: nat)
    ensures
        nearest(n * pow2(k), d, e - k) == nearest(n, d, e),
    decreases k,
{
    lemma_pow2_bounds();
    if k == 0 {
        assert(n * pow2(0) == n) by (nonlinear_arith)
            requires
                pow2(0) == 1,
        ;
    } else {
        let h = pow2((k - 1) as nat);
        lemma_pow2_unfold(k);
        lemma_rescaled(n, d, e, (k - 1) as nat);
        lemma_twice(n * h, d, e - (k - 1));
        assert(n * pow2(k) == 2 * (n * h)) by (nonlinear_arith)
            requires
                pow2(k) == 2 * h,
        ;
    }
}

proof fn lemma_rescaled_signed(n: int, d: nat, e: int, k: nat)
    ensures
        nearest_signed(n * pow2(k), d, e - k) == nearest_signed(n, d, e),
{
    let p = pow2(k) as int;
    lemma_pow2_pos(k);
    if n < 0 {
        lemma_rescaled((-n) as nat, d, e, k);
        assert((-n) * p == -(n * p)) by (nonlinear_arith);
        assert(n * p < 0) by (nonlinear_arith)
            requires
                n < 0,
                p > 0,
        ;
    } else {
        lemma_rescaled(n as nat, d, e, k);
        assert(n * p >= 0) by (nonlinear_arith)
            requires
                n >= 0,
                p > 0,
        ;
    }
}

/// What a quotient is rounded to, where powers of two bring it into range.
pub(crate) proof fn lemma_evaluated(n: nat, d: nat, e: int, k: nat, p: nat, j: nat, q: nat)
    requires
        d > 0,
        p == pow2(k),
        q == pow2(j),
        (d * q) * two52() <= n * p < (d * q) * two53(),
    ensures
        nearest(n, d, e) == carried(round_half_even(n * p, d * q), e - k + j),
{
    lemma_rescaled(n, d, e, k);
    lemma_nearest_at(n * p, d, e - k, j);
}

proof fn lemma_shifted(n: nat, d: nat, e: int, c: int)
    requires
        n > 0,
        d > 0,
    ensures
        nearest(n, d, e + c) == (Dyadic {
            mant: nearest(n, d, e).mant,
            exp: nearest(n, d, e).exp + c,
        }),
    decreases
            (if n < d * two52() {
                d * two52() - n
            } else if n >= d * two53() {
                n - d
            } else {
                0
            }),
{
    if n < d * two52() {
        lemma_shifted(2 * n, d, e - 1, c);
    } else if n >= d * two53() {
        lemma_shifted(n, 2 * d, e + 1, c);
    }
}

/// A number, over its double, is one half.
pub(crate) proof fn lemma_over_double(n: nat)
    requires
        n > 0,
    ensures
        over(whole(n as int), whole((2 * n) as int)) == nearest(1, 2, 0),
{
    let a = nearest(2 * n, 1, 0);
    let m = a.mant as nat;
    lemma_pow2_bounds();
    lemma_nearest_bounds(2 * n, 1, 0);
    lemma_twice(n, 1, 0);
    lemma_shifted(2 * n, 1, 0, -1);
    assert(whole(n as int) == (Dyadic { mant: a.mant, exp: a.exp - 1 }));
    lemma_over_itself(a);
    lemma_shifted(m, m, 0, -1);
    lemma_shifted(1, 1, 0, -1);
    lemma_evaluated(1, 1, 0, 52, two52(), 0, 1);
    lemma_evaluated(1, 2, 0, 53, two53(), 0, 1);
}

/// A normalised number is what it is rounded to.
pub(crate) proof fn lemma_exact(a: Dyadic)
    requires
        two52() <= a.mant < two53(),
    ensures
        nearest(a.mant as nat, 1, a.exp) == a,
{
    assert(round_half_even(a.mant as nat, 1) == a.mant);
}

/// One, as a factor, changes nothing.
pub(crate) proof fn lemma_times_one(a: Dyadic)
    requires
        two52() <= a.mant < two53(),
    ensures
        times(whole(1), a) == a,
        times(a, whole(1)) == a,
{
    lemma_pow2_bounds();
    lemma_exact(a);
    lemma_evaluated(1, 1, 0, 52, two52(), 0, 1);
    lemma_rescaled(a.mant as nat, 1, a.exp, 52);
    assert(two52() * a.mant == a.mant * two52());
}

/// Zero, as a summand, changes nothing.
pub(crate) proof fn lemma_plus_zero(a: Dyadic)
    requires
        a == zero() || two52() <= a.mant < two53(),
    ensures
        plus(zero(), a) == a,
        plus(a, zero()) == a,
{
    let e = lower_exp(zero(), a);
    let k = (a.exp - e) as nat;
    assert(aligned(zero(), e) == 0) by (nonlinear_arith);
    if a != zero() {
        lemma_exact(a);
        lemma_rescaled_signed(a.mant, 1, a.exp, k);
    } else {
        assert(0 * pow2(k) == 0);
    }
}

// Rounding keeps the order

proof fn lemma_round_order(m: nat, n: nat, d: nat)
    requires
        d > 0,
        m <= n,
    ensures
        round_half_even(m, d) <= round_half_even(n, d),
{
    lemma_fundamental_div_mod(m as int, d as int);
    lemma_fundamental_div_mod(n as int, d as int);
    lemma_div_is_ordered(m as int, n as int, d as int);
}

/// Where a rounded quotient lies.
pub(crate) proof fn lemma_nearest_bounds(n: nat, d: nat, e: int)
    requires
        n > 0,
        d > 0,
    ensures
        two52() <= nearest(n, d, e).mant < two53(),
        n >= d * two52() ==> nearest(n, d, e).exp >= e,
        n < d * two53() ==> nearest(n, d, e).exp <= e || nearest(n, d, e) == (Dyadic {
            mant: two52() as int,
            exp: e + 1,
        }),
    decreases
            (if n < d * two52() {
                d * two52() - n
            } else if n >= d * two53() {
                n - d
            } else {
                0
            }),
{
    if n < d * two52() {
        lemma_nearest_bounds(2 * n, d, e - 1);
    } else if n >= d * two53() {
        lemma_nearest_bounds(n, 2 * d, e + 1);
    } else {
        lemma_quotient_bounds(n, d);
    }
}

proof fn lemma_normal_order(a: Dyadic, b: Dyadic)
    requires
        two52() <= a.mant < two53(),
        two52() <= b.mant < two53(),
        a.exp < b.exp || (a.exp == b.exp && a.mant <= b.mant),
    ensures
        at_most(a, b),
{
    if a.exp < b.exp {
        lemma_exponent_decides(a, b);
    } else {
        lemma_pow2_bounds();
        assert(a.mant * pow2(0) == a.mant && b.mant * pow2(0) == b.mant) by (nonlinear_arith)
            requires
                pow2(0) == 1,
        ;
    }
}

/// A number that is zero or negative is at most one that is zero or positive.
pub(crate) proof fn lemma_sign_order(a: Dyadic, b: Dyadic)
    requires
        a.mant <= 0 <= b.mant,
    ensures
        at_most(a, b),
{
    let e = lower_exp(b, a);
    let p = pow2((a.exp - e) as nat) as int;
    let q = pow2((b.exp - e) as nat) as int;
    assert(a.mant * p <= 0 && b.mant * q >= 0) by (nonlinear_arith)
        requires
            a.mant <= 0,
            b.mant >= 0,
            p >= 0,
            q >= 0,
    ;
}

/// The larger of two quotients is not rounded to the smaller number.
pub proof fn lemma_nearest_order(m: nat, n: nat, d: nat, e: int)
    requires
        m <= n,
    ensures
        at_most(nearest(m, d, e), nearest(n, d, e)),
    decreases
            (if n < d * two52() {
                d * two52() - n
            } else if n >= d * two53() {
                n - d
            } else {
                0
            }),
{
    let a = nearest(m, d, e);
    let b = nearest(n, d, e);
    if m == 0 || d == 0 {
        if n > 0 && d > 0 {
            lemma_nearest_bounds(n, d, e);
        }
        lemma_sign_order(a, b);
    } else {
        lemma_nearest_bounds(m, d, e);
        lemma_nearest_bounds(n, d, e);
        if n < d * two52() {
            lemma_nearest_order(2 * m, 2 * n, d, e - 1);
        } else if m >= d * two53() {
            lemma_nearest_order(m, n, 2 * d, e + 1);
        } else if n >= d * two53() {
            lemma_nearest_bounds(n, 2 * d, e + 1);
            lemma_normal_order(a, b);
        } else if m < d * two52() {
            lemma_nearest_bounds(2 * m, d, e - 1);
            lemma_normal_order(a, b);
        } else {
            lemma_round_order(m, n, d);
            lemma_quotient_bounds(m, d);
            lemma_quotient_bounds(n, d);
            lemma_normal_order(a, b);
        }
    }
}

proof fn lemma_negated_order(a: Dyadic, b: Dyadic)
    ensures
        at_most(negated(a), negated(b)) == at_most(b, a),
{
    let e = lower_exp(a, b);
    let p = pow2((a.exp - e) as nat) as int;
    let q = pow2((b.exp - e) as nat) as int;
    assert((-a.mant) * p == -(a.mant * p)) by (nonlinear_arith);
    assert((-b.mant) * q == -(b.mant * q)) by (nonlinear_arith);
}

pub(crate) proof fn lemma_nearest_signed_order(m: int, n: int, d: nat, e: int)
    requires
        m <= n,
    ensures
        at_most(nearest_signed(m, d, e), nearest_signed(n, d, e)),
{
    if 0 <= m {
        lemma_nearest_order(m as nat, n as nat, d, e);
    } else if n < 0 {
        let a = nearest((-m) as nat, d, e);
        let b = nearest((-n) as nat, d, e);
        lemma_nearest_order((-n) as nat, (-m) as nat, d, e);
        lemma_negated_order(a, b);
    } else {
        if d > 0 {
            lemma_nearest_bounds((-m) as nat, d, e);
            if n > 0 {
                lemma_nearest_bounds(n as nat, d, e);
            }
        }
        lemma_sign_order(nearest_signed(m, d, e), nearest_signed(n, d, e));
    }
}

// The operations keep the order

/// Division by a positive number keeps the order.
pub proof fn lemma_over_order(a: Dyadic, b: Dyadic, c: Dyadic)
    requires
        at_most(a, b),
        c.mant > 0,
    ensures
        at_most(over(a, c), over(b, c)),
{
    let e = lower_exp(a, b);
    let d = c.mant as nat;
    lemma_less_at(b, a, e);
    lemma_rescaled_signed(a.mant, d, a.exp - c.exp, (a.exp - e) as nat);
    lemma_rescaled_signed(b.mant, d, b.exp - c.exp, (b.exp - e) as nat);
    lemma_nearest_signed_order(aligned(a, e), aligned(b, e), d, e - c.exp);
}

/// Multiplication by a number keeps the order, and turns it round if the number
/// is negative.
pub proof fn lemma_times_order(a: Dyadic, b: Dyadic, c: Dyadic)
    requires
        at_most(a, b),
    ensures
        c.mant >= 0 ==> at_most(times(c, a), times(c, b)),
        c.mant <= 0 ==> at_most(times(c, b), times(c, a)),
{
    let e = lower_exp(a, b);
    let p = pow2((a.exp - e) as nat) as int;
    let q = pow2((b.exp - e) as nat) as int;
    let s = c.mant * (a.mant * p);
    let t = c.mant * (b.mant * q);
    lemma_less_at(b, a, e);
    lemma_rescaled_signed(c.mant * a.mant, 1, c.exp + a.exp, (a.exp - e) as nat);
    lemma_rescaled_signed(c.mant * b.mant, 1, c.exp + b.exp, (b.exp - e) as nat);
    assert((c.mant * a.mant) * p == s) by (nonlinear_arith)
        requires
            s == c.mant * (a.mant * p),
    ;
    assert((c.mant * b.mant) * q == t) by (nonlinear_arith)
        requires
            t == c.mant * (b.mant * q),
    ;
    let x = a.mant * p;
    let y = b.mant * q;
    if c.mant >= 0 {
        assert(c.mant * x <= c.mant * y) by (nonlinear_arith)
            requires
                c.mant >= 0,
                x <= y,
        ;
        lemma_nearest_signed_order(s, t, 1, c.exp + e);
    }
    if c.mant <= 0 {
        assert(c.mant * x >= c.mant * y) by (nonlinear_arith)
            requires
                c.mant <= 0,
                x <= y,
        ;
        lemma_nearest_signed_order(t, s, 1, c.exp + e);
    }
}

proof fn lemma_aligned_lower(a: Dyadic, f: int, e: int)
    requires
        e <= f <= a.exp,
    ensures
        aligned(a, f) * pow2((f - e) as nat) == aligned(a, e),
{
    let x = pow2((a.exp - f) as nat) as int;
    let y = pow2((f - e) as nat) as int;
    lemma_pow2_adds((a.exp - f) as nat, (f - e) as nat);
    assert((a.mant * x) * y == a.mant * (x * y)) by (nonlinear_arith);
}

proof fn lemma_plus_at(a: Dyadic, b: Dyadic, e: int)
    requires
        e <= a.exp,
        e <= b.exp,
    ensures
        plus(a, b) == nearest_signed(aligned(a, e) + aligned(b, e), 1, e),
{
    let f = lower_exp(a, b);
    let p = pow2((f - e) as nat) as int;
    let s = aligned(a, f);
    let t = aligned(b, f);
    lemma_aligned_lower(a, f, e);
    lemma_aligned_lower(b, f, e);
    lemma_rescaled_signed(s + t, 1, f, (f - e) as nat);
    assert((s + t) * p == s * p + t * p) by (nonlinear_arith);
}

/// Addition of a number keeps the order.
pub proof fn lemma_plus_order(a: Dyadic, b: Dyadic, c: Dyadic)
    requires
        at_most(a, b),
    ensures
        at_most(plus(c, a), plus(c, b)),
        at_most(plus(a, c), plus(b, c)),
{
    let e = if lower_exp(a, b) <= c.exp {
        lower_exp(a, b)
    } else {
        c.exp
    };
    lemma_less_at(b, a, e);
    lemma_plus_at(c, a, e);
    lemma_plus_at(c, b, e);
    lemma_plus_at(a, c, e);
    lemma_plus_at(b, c, e);
    lemma_nearest_signed_order(aligned(c, e) + aligned(a, e), aligned(c, e) + aligned(b, e), 1, e);
}

proof fn lemma_rounded_at(a: Dyadic, k: nat)
    requires
        a.mant > 0,
        -k <= a.exp,
    ensures
        rounded(a) == (2 * aligned(a, -k) + pow2(k)) / (2 * pow2(k) as int),
{
    let h = pow2(k) as int;
    lemma_pow2_pos(k);
    if a.exp >= 0 {
        let x = a.mant * pow2(a.exp as nat);
        lemma_aligned_lower(a, 0, -k);
        assert(2 * (x * h) + h == x * (2 * h) + h) by (nonlinear_arith);
        lemma_fundamental_div_mod_converse(2 * (x * h) + h, 2 * h, x, h);
    } else {
        let l = pow2((-a.exp) as nat) as int;
        let g = pow2((a.exp + k) as nat) as int;
        lemma_pow2_pos((-a.exp) as nat);
        lemma_pow2_pos((a.exp + k) as nat);
        lemma_pow2_adds((-a.exp) as nat, (a.exp + k) as nat);
        let n = 2 * a.mant + l;
        let q = n / (2 * l);
        let r = n % (2 * l);
        lemma_fundamental_div_mod(n, 2 * l);
        assert(2 * (a.mant * g) + h == q * (2 * h) + r * g && 0 <= r * g < 2 * h)
            by (nonlinear_arith)
            requires
                n == 2 * a.mant + l,
                n == (2 * l) * q + r,
                0 <= r < 2 * l,
                h == l * g,
                g > 0,
        ;
        lemma_fundamental_div_mod_converse(2 * (a.mant * g) + h, 2 * h, q, r * g);
    }
}

/// The integer part is not larger than the number.
pub(crate) proof fn lemma_truncated_at(a: Dyadic, k: nat)
    requires
        -k <= a.exp,
    ensures
        a.mant > 0 ==> truncated(a) * pow2(k) <= aligned(a, -k),
{
    if a.mant > 0 && a.exp >= 0 {
        lemma_aligned_lower(a, 0, -k);
    } else if a.mant > 0 {
        let l = pow2((-a.exp) as nat) as int;
        let g = pow2((a.exp + k) as nat) as int;
        let q = a.mant / l;
        lemma_pow2_pos((-a.exp) as nat);
        lemma_pow2_pos((a.exp + k) as nat);
        lemma_pow2_adds((-a.exp) as nat, (a.exp + k) as nat);
        lemma_fundamental_div_mod(a.mant, l);
        assert(q >= 0) by (nonlinear_arith)
            requires
                q == a.mant / l,
                a.mant > 0,
                l > 0,
        ;
        assert(q * (l * g) <= a.mant * g) by (nonlinear_arith)
            requires
                a.mant == l * q + a.mant % l,
                0 <= a.mant % l,
                g > 0,
        ;
    }
}

/// Rounding to an integer keeps the order.
pub proof fn lemma_rounded_order(a: Dyadic, b: Dyadic)
    requires
        at_most(a, b),
    ensures
        rounded(a) <= rounded(b),
{
    if a.mant > 0 {
        let e = if lower_exp(a, b) <= 0 {
            lower_exp(a, b)
        } else {
            0
        };
        let k = (-e) as nat;
        lemma_less_at(b, a, e);
        lemma_less_at(a, b, e);
        lemma_pow2_pos(k);
        lemma_rounded_at(a, k);
        lemma_rounded_at(b, k);
        lemma_div_is_ordered(
            2 * aligned(a, e) + pow2(k),
            2 * aligned(b, e) + pow2(k),
            2 * pow2(k) as int,
        );
    }
}

// Quotients of integers

proof fn lemma_round_multiplied(n: nat, d: nat, c: nat)
    requires
        d > 0,
        c > 0,
    ensures
        round_half_even(c * n, c * d) == round_half_even(n, d),
{
    let q = n as int / d as int;
    let r = n as int % d as int;
    lemma_fundamental_div_mod(n as int, d as int);
    assert(c * n == q * (c * d) + c * r && 0 <= c * r < c * d) by (nonlinear_arith)
        requires
            n == d * q + r,
            0 <= r < d,
            c > 0,
    ;
    lemma_fundamental_div_mod_converse((c * n) as int, (c * d) as int, q, c * r);
    assert((2 * (c * r) < c * d) == (2 * r < d) && (2 * (c * r) == c * d) == (2 * r == d))
        by (nonlinear_arith)
        requires
            c > 0,
    ;
}

/// Rounding does not depend on a factor of numerator and denominator.
proof fn lemma_multiplied(n: nat, d: nat, e: int, c: nat)
    requires
        c > 0,
        n > 0,
        d > 0,
    ensures
        nearest(c * n, c * d, e) == nearest(n, d, e),
    decreases
            (if n < d * two52() {
                d * two52() - n
            } else if n >= d * two53() {
                n - d
            } else {
                0
            }),
{
    assert(c * n > 0 && c * d > 0) by (nonlinear_arith)
        requires
            c > 0,
            n > 0,
            d > 0,
    ;
    let x = d * two52();
    let y = d * two53();
    assert((c * d) * two52() == c * x) by (nonlinear_arith)
        requires
            x == d * two52(),
    ;
    assert((c * d) * two53() == c * y) by (nonlinear_arith)
        requires
            y == d * two53(),
    ;
    assert((c * n < c * x) == (n < x) && (c * n >= c * y) == (n >= y)) by (nonlinear_arith)
        requires
            c > 0,
    ;
    if n < d * two52() {
        lemma_multiplied(2 * n, d, e - 1, c);
        assert(2 * (c * n) == c * (2 * n)) by (nonlinear_arith);
    } else if n >= d * two53() {
        lemma_multiplied(n, 2 * d, e + 1, c);
        assert(2 * (c * d) == c * (2 * d)) by (nonlinear_arith);
    } else {
        lemma_round_multiplied(n, d, c);
    }
}

/// A quotient that comes out even is exact.
pub(crate) proof fn lemma_over_exact(k: nat, t: nat)
    requires
        k > 0,
        t > 0,
        k * t < two53(),
    ensures
        over(whole((k * t) as int), whole(t as int)) == whole(k as int),
{
    let n = k * t;
    assert(t <= n && 0 < n) by (nonlinear_arith)
        requires
            n == k * t,
            k >= 1,
            t >= 1,
    ;
    let a = lemma_integer(t as int);
    let b = lemma_integer(n as int);
    let p = pow2(a);
    let q = pow2(b);
    let mt = t * p;
    let mk = n * q;
    lemma_pow2_pos(a);
    lemma_pow2_pos(b);
    if a < b {
        let g = pow2((b - a) as nat);
        lemma_pow2_adds(a, (b - a) as nat);
        lemma_pow2_unfold((b - a) as nat);
        lemma_pow2_pos((b - a - 1) as nat);
        assert(n * q >= 2 * (t * p)) by (nonlinear_arith)
            requires
                q == p * g,
                g >= 2,
                n >= t,
                p > 0,
                t > 0,
        ;
    }
    let g = pow2((a - b) as nat);
    lemma_pow2_adds(b, (a - b) as nat);
    assert(k * mt == mk * g) by (nonlinear_arith)
        requires
            mt == t * p,
            mk == n * q,
            n == k * t,
            p == q * g,
    ;
    lemma_multiplied(k, 1, 0, mt);
    assert(mt * k == k * mt && mt * 1 == mt) by (nonlinear_arith);
    lemma_rescaled(mk, mt, (a - b) as int, (a - b) as nat);
}

} // verus!
