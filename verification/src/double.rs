//! Double-precision arithmetic, carried out on integers.
//!
//! A [`Double`] is a finite binary floating-point number with a significand of
//! 53 bits. Its exponent is not limited to the range of the machine format, so
//! nothing here overflows to an infinity or loses bits to gradual underflow.

use vstd::arithmetic::power2::{
    lemma_pow2_adds, lemma_pow2_pos, lemma_pow2_strictly_increases, lemma_pow2_unfold, pow2,
};
use vstd::prelude::*;

verus! {

/// The number `mant * 2^exp`.
pub struct Dyadic {
    pub mant: int,
    pub exp: int,
}

/// Two to the 52nd: the least significand of a nonzero number.
pub open spec fn two52() -> nat {
    0x10_0000_0000_0000
}

/// Two to the 53rd: the first significand that is too wide.
pub open spec fn two53() -> nat {
    0x20_0000_0000_0000
}

pub open spec fn zero() -> Dyadic {
    Dyadic { mant: 0, exp: 0 }
}

pub open spec fn negated(a: Dyadic) -> Dyadic {
    Dyadic { mant: -a.mant, exp: a.exp }
}

/// The integer closest to `n / d`; of two equally close ones the even one.
pub open spec fn round_half_even(n: nat, d: nat) -> nat {
    let q = n / d;
    let r = n % d;
    if 2 * r < d || (2 * r == d && q % 2 == 0) {
        q
    } else {
        q + 1
    }
}

/// The number `m * 2^e` for a significand that rounding may have made 2^53.
pub open spec fn carried(m: nat, e: int) -> Dyadic {
    if m == two53() {
        Dyadic { mant: two52() as int, exp: e + 1 }
    } else {
        Dyadic { mant: m as int, exp: e }
    }
}

/// The double closest to `(n / d) * 2^e`: the quotient is scaled by powers of
/// two until its integer part has 53 bits, and is then rounded half to even.
pub open spec fn nearest(n: nat, d: nat, e: int) -> Dyadic
    decreases
            (if n < d * two52() {
                d * two52() - n
            } else if n >= d * two53() {
                n - d
            } else {
                0
            }),
{
    if n == 0 || d == 0 {
        zero()
    } else if n < d * two52() {
        nearest(2 * n, d, e - 1)
    } else if n >= d * two53() {
        nearest(n, 2 * d, e + 1)
    } else {
        carried(round_half_even(n, d), e)
    }
}

/// [`nearest`] for a numerator of either sign.
pub open spec fn nearest_signed(n: int, d: nat, e: int) -> Dyadic {
    if n < 0 {
        negated(nearest((-n) as nat, d, e))
    } else {
        nearest(n as nat, d, e)
    }
}

/// The double closest to an integer.
pub open spec fn whole(n: int) -> Dyadic {
    nearest_signed(n, 1, 0)
}

/// The significand of `a` when its exponent is lowered to `e`.
pub open spec fn aligned(a: Dyadic, e: int) -> int {
    a.mant * pow2((a.exp - e) as nat)
}

pub open spec fn lower_exp(a: Dyadic, b: Dyadic) -> int {
    if a.exp <= b.exp {
        a.exp
    } else {
        b.exp
    }
}

/// The rounded sum.
pub open spec fn plus(a: Dyadic, b: Dyadic) -> Dyadic {
    let e = lower_exp(a, b);
    nearest_signed(aligned(a, e) + aligned(b, e), 1, e)
}

/// The rounded difference.
pub open spec fn minus(a: Dyadic, b: Dyadic) -> Dyadic {
    plus(a, negated(b))
}

/// The rounded product.
pub open spec fn times(a: Dyadic, b: Dyadic) -> Dyadic {
    nearest_signed(a.mant * b.mant, 1, a.exp + b.exp)
}

/// The rounded quotient.
pub open spec fn over(a: Dyadic, b: Dyadic) -> Dyadic {
    if b.mant < 0 {
        nearest_signed(-a.mant, (-b.mant) as nat, a.exp - b.exp)
    } else {
        nearest_signed(a.mant, b.mant as nat, a.exp - b.exp)
    }
}

/// Whether `a` is the smaller number.
pub open spec fn less(a: Dyadic, b: Dyadic) -> bool {
    let e = lower_exp(a, b);
    aligned(a, e) < aligned(b, e)
}

/// The remainder of a division by a positive number, with the sign of `a`.
pub open spec fn remainder(a: Dyadic, b: Dyadic) -> Dyadic {
    let e = lower_exp(a, b);
    if a.mant < 0 {
        negated(nearest(((-aligned(a, e)) % aligned(b, e)) as nat, 1, e))
    } else {
        nearest((aligned(a, e) % aligned(b, e)) as nat, 1, e)
    }
}

/// The closest natural number, halves going up; zero for negative numbers.
pub open spec fn rounded(a: Dyadic) -> nat {
    if a.mant <= 0 {
        0
    } else if a.exp >= 0 {
        (a.mant * pow2(a.exp as nat)) as nat
    } else {
        ((2 * a.mant + pow2((-a.exp) as nat)) / (2 * pow2((-a.exp) as nat) as int)) as nat
    }
}

/// The integer part; zero for negative numbers.
pub open spec fn truncated(a: Dyadic) -> nat {
    if a.mant <= 0 {
        0
    } else if a.exp >= 0 {
        (a.mant * pow2(a.exp as nat)) as nat
    } else {
        (a.mant / pow2((-a.exp) as nat) as int) as nat
    }
}

/// `n`, or the largest 64-bit number if that is smaller.
pub open spec fn saturated(n: nat) -> u64 {
    if n > u64::MAX {
        u64::MAX
    } else {
        n as u64
    }
}

/// Whether a number has a normalised significand.
pub open spec fn normal(a: Dyadic) -> bool {
    ||| a == zero()
    ||| two52() <= a.mant < two53()
    ||| two52() <= -a.mant < two53()
}

pub open spec fn abs(n: int) -> int {
    if n < 0 {
        -n
    } else {
        n
    }
}

/// The bound on the exponents of operands: far outside of what the machine
/// format reaches, and far inside of what an `i32` holds.
pub open spec fn exp_bound() -> int {
    0x3000_0000
}

/// The bound on the exponents of numbers that are kept. Sums of numbers of the
/// machine format stay below it as long as there are no more summands than a
/// system has tasks.
pub open spec fn usual() -> int {
    0x2000_0000
}

/// The larger of two numbers.
pub open spec fn larger(a: int, b: int) -> int {
    if a < b {
        b
    } else {
        a
    }
}

/// A finite double-precision number, `mant * 2^exp`.
#[derive(Clone, Copy, Debug, PartialEq, Eq, Structural)]
pub struct Double {
    pub mant: i64,
    pub exp: i32,
}

impl View for Double {
    type V = Dyadic;

    open spec fn view(&self) -> Dyadic {
        Dyadic { mant: self.mant as int, exp: self.exp as int }
    }
}

pub(crate) proof fn lemma_pow2_bounds()
    ensures
        pow2(0) == 1,
        pow2(52) == two52(),
        pow2(53) == two53(),
        pow2(64) == 0x1_0000_0000_0000_0000,
        pow2(120) == 0x100_0000_0000_0000_0000_0000_0000_0000,
{
    vstd::arithmetic::power2::lemma2_to64();
    vstd::arithmetic::power2::lemma2_to64_rest();
    lemma_pow2_adds(64, 56);
}

/// [`nearest`] on a quotient whose scale is known.
pub(crate) proof fn lemma_nearest_at(n: nat, d: nat, e: int, j: nat)
    requires
        d > 0,
        d * pow2(j) * two52() <= n < d * pow2(j) * two53(),
    ensures
        nearest(n, d, e) == carried(round_half_even(n, d * pow2(j)), e + j),
    decreases j,
{
    lemma_pow2_pos(j);
    if j == 0 {
        lemma_pow2_bounds();
        assert(d * pow2(0) == d);
    } else {
        lemma_pow2_unfold(j);
        let h = pow2((j - 1) as nat);
        lemma_pow2_pos((j - 1) as nat);
        assert(d * pow2(j) == (2 * d) * h) by (nonlinear_arith)
            requires
                pow2(j) == 2 * h,
        ;
        assert(d * pow2(j) >= 2 * d) by (nonlinear_arith)
            requires
                pow2(j) == 2 * h,
                h >= 1,
        ;
        assert(n >= d * two53());
        lemma_nearest_at(n, 2 * d, e + 1, (j - 1) as nat);
    }
}

pub(crate) proof fn lemma_quotient_bounds(n: nat, d: nat)
    requires
        d > 0,
        d * two52() <= n < d * two53(),
    ensures
        two52() <= n / d < two53(),
{
    assert(n == d * (n / d) + n % d) by (nonlinear_arith)
        requires
            d > 0,
    ;
    assert(n / d >= 0x10_0000_0000_0000) by (nonlinear_arith)
        requires
            d > 0,
            n == d * (n / d) + n % d,
            n % d < d,
            d * 0x10_0000_0000_0000 <= n,
    ;
    assert(n / d < 0x20_0000_0000_0000) by (nonlinear_arith)
        requires
            d > 0,
            n == d * (n / d) + n % d,
            n % d >= 0,
            n < d * 0x20_0000_0000_0000,
    ;
}

/// Rounds `(n / d) * 2^e`.
fn round_quotient(n: u128, d: u128, e: i32) -> (r: Double)
    requires
        0 < n < 0x100_0000_0000_0000_0000_0000_0000_0000,
        0 < d < 0x1_0000_0000_0000_0000,
        -0x7000_0000 <= e <= 0x7000_0000,
    ensures
        r@ == nearest(n as nat, d as nat, e as int),
        two52() <= r.mant < two53(),
        e - 120 <= r.exp <= e + 120,
{
    let mut n: u128 = n;
    let mut d: u128 = d;
    let mut e: i32 = e;
    let ghost n0 = n as nat;
    let ghost d0 = d as nat;
    let ghost e0 = e as int;
    let ghost mut i: nat = 0;
    proof {
        lemma_pow2_bounds();
    }
    while n < d * 0x10_0000_0000_0000
        invariant
            0 < n,
            n < 0x100_0000_0000_0000_0000_0000_0000_0000,
            0 < d < 0x1_0000_0000_0000_0000,
            n0 < d * two52() ==> n < d * two53(),
            n0 >= d * two52() ==> n == n0,
            pow2(i) <= n,
            i <= 120,
            e == e0 - i,
            -0x7000_0000 <= e0 <= 0x7000_0000,
            nearest(n as nat, d as nat, e as int) == nearest(n0, d0, e0),
            d == d0,
        decreases 120 - i,
    {
        proof {
            lemma_pow2_unfold(i + 1);
            lemma_pow2_bounds();
            if i >= 119 {
                lemma_pow2_unfold(120);
                if i == 120 {
                    assert(false);
                }
            }
            i = i + 1;
        }
        n = 2 * n;
        e = e - 1;
    }
    let ghost mut j: nat = 0;
    let ghost e1 = e as int;
    while n >= d * 0x20_0000_0000_0000
        invariant
            0 < n,
            n < 0x100_0000_0000_0000_0000_0000_0000_0000,
            0 < d < 0x800_0000_0000_0000_0000_0000,
            n >= d * two52(),
            pow2(j) <= d,
            j <= 76,
            e == e1 + j,
            e0 - 120 <= e1 <= e0,
            -0x7000_0000 <= e0 <= 0x7000_0000,
            nearest(n as nat, d as nat, e as int) == nearest(n0, d0, e0),
        decreases 76 - j,
    {
        proof {
            lemma_pow2_unfold(j + 1);
            lemma_pow2_bounds();
            if j == 76 {
                lemma_pow2_adds(64, 12);
                vstd::arithmetic::power2::lemma2_to64();
            }
            j = j + 1;
        }
        d = 2 * d;
        e = e + 1;
    }
    let q: u128 = n / d;
    let r: u128 = n % d;
    proof {
        lemma_quotient_bounds(n as nat, d as nat);
    }
    let m: u128 = if 2 * r < d || (2 * r == d && q % 2 == 0) {
        q
    } else {
        q + 1
    };
    if m == 0x20_0000_0000_0000 {
        Double { mant: 0x10_0000_0000_0000, exp: e + 1 }
    } else {
        Double { mant: m as i64, exp: e }
    }
}

/// Adding a number far below the last bit changes nothing.
proof fn lemma_absorbed(m: nat, k: nat, s: int, e: int)
    requires
        two52() <= m < two53(),
        -two53() < s < two53(),
        k > 60 || s == 0,
    ensures
        m * pow2(k) + s > 0,
        nearest((m * pow2(k) + s) as nat, 1, e) == (Dyadic { mant: m as int, exp: e + k }),
{
    lemma_pow2_pos(k);
    lemma_pow2_bounds();
    let p = pow2(k) as int;
    let n = m * p + s;
    if k > 60 {
        lemma_pow2_unfold(k);
        assert(p >= 4 * two53()) by {
            lemma_pow2_adds(53, (k - 53) as nat);
            lemma_pow2_adds(2, (k - 55) as nat);
            lemma_pow2_pos((k - 55) as nat);
            vstd::arithmetic::power2::lemma2_to64();
            let c = pow2((k - 53) as nat);
            assert(two53() * c >= two53() * 4) by (nonlinear_arith)
                requires
                    c >= 4,
            ;
        }
    }
    assert(m * p >= two52() * p && m * p <= (two53() - 1) * p) by (nonlinear_arith)
        requires
            two52() <= m <= two53() - 1,
            p > 0,
    ;
    assert((two53() - 1) * p == two53() * p - p) by (nonlinear_arith);
    assert(1 * pow2(k) * two52() == two52() * p && 1 * pow2(k) * two53() == two53() * p)
        by (nonlinear_arith)
        requires
            p == pow2(k) as int,
    ;
    if s >= 0 {
        lemma_nearest_at(n as nat, 1, e, k);
        vstd::arithmetic::div_mod::lemma_fundamental_div_mod_converse(n, p, m as int, s);
        assert(1 * pow2(k) == pow2(k));
    } else if m > two52() {
        assert(m * p >= two52() * p + p) by (nonlinear_arith)
            requires
                m >= two52() + 1,
                p > 0,
        ;
        assert((m - 1) * p == m * p - p) by (nonlinear_arith);
        assert(1 * pow2(k) * two52() <= n < 1 * pow2(k) * two53());
        lemma_nearest_at(n as nat, 1, e, k);
        vstd::arithmetic::div_mod::lemma_fundamental_div_mod_converse(n, p, m - 1, p + s);
        assert(1 * pow2(k) == pow2(k));
    } else {
        let h = pow2((k - 1) as nat) as int;
        assert(n == two53() * h + s);
        assert(1 * pow2((k - 1) as nat) * two52() <= n < 1 * pow2((k - 1) as nat) * two53());
        lemma_nearest_at(n as nat, 1, e, (k - 1) as nat);
        vstd::arithmetic::div_mod::lemma_fundamental_div_mod_converse(n, h, two53() - 1, h + s);
        assert(1 * pow2((k - 1) as nat) == pow2((k - 1) as nat));
    }
}

/// [`lemma_absorbed`] for a sum of either sign.
proof fn lemma_sum_absorbed(a: Dyadic, b: Dyadic)
    requires
        normal(a),
        normal(b),
        a.mant != 0,
        (a.exp > b.exp + 60) || b.mant == 0,
    ensures
        plus(a, b) == a,
        plus(b, a) == a,
{
    let e = lower_exp(a, b);
    let k = (a.exp - e) as nat;
    let s = aligned(b, e);
    lemma_pow2_bounds();
    if b.mant == 0 {
        assert(s == 0);
    } else {
        assert((b.exp - e) as nat == 0);
        assert(b.mant * pow2(0) == b.mant) by (nonlinear_arith)
            requires
                pow2(0) == 1,
        ;
    }
    if a.mant > 0 {
        lemma_absorbed(a.mant as nat, k, s, e);
    } else {
        lemma_absorbed((-a.mant) as nat, k, -s, e);
        assert((-a.mant) * pow2(k) == -(a.mant * pow2(k))) by (nonlinear_arith);
    }
}

/// `2^k`.
fn power_of_two(k: u32) -> (r: u128)
    requires
        k <= 120,
    ensures
        r == pow2(k as nat),
        0 < r <= 0x100_0000_0000_0000_0000_0000_0000_0000,
{
    let mut r: u128 = 1;
    let mut i: u32 = 0;
    proof {
        lemma_pow2_bounds();
    }
    while i < k
        invariant
            i <= k <= 120,
            r == pow2(i as nat),
            0 < r <= 0x100_0000_0000_0000_0000_0000_0000_0000,
        decreases k - i,
    {
        proof {
            lemma_pow2_bounds();
            lemma_pow2_unfold((i + 1) as nat);
            if i + 1 < 120 {
                lemma_pow2_strictly_increases((i + 1) as nat, 120);
            }
        }
        r = 2 * r;
        i = i + 1;
    }
    r
}

/// Rounds `(n / d) * 2^e` for a numerator of either sign.
fn round_signed(n: i128, d: u128, e: i32) -> (r: Double)
    requires
        -0x100_0000_0000_0000_0000_0000_0000_0000 < n < 0x100_0000_0000_0000_0000_0000_0000_0000,
        0 < d < 0x1_0000_0000_0000_0000,
        -0x7000_0000 <= e <= 0x7000_0000,
    ensures
        r@ == nearest_signed(n as int, d as nat, e as int),
        normal(r@),
        abs(r.exp as int) <= abs(e as int) + 120,
{
    if n == 0 {
        Double { mant: 0, exp: 0 }
    } else if n > 0 {
        round_quotient(n as u128, d, e)
    } else {
        let m = round_quotient((-n) as u128, d, e);
        Double { mant: -m.mant, exp: m.exp }
    }
}

/// A number of the machine format.
#[derive(Clone, Copy, Debug, PartialEq, Eq, Structural)]
pub enum Number {
    Finite(Double),
    Infinite,
    NegativeInfinite,
    NotANumber,
}

/// The distance from zero of the finite number with the given bits.
pub open spec fn decoded(bits: u64) -> Dyadic {
    let e = bits as int / 0x10_0000_0000_0000 % 2048;
    let f = bits as int % 0x10_0000_0000_0000;
    if e == 0 {
        nearest_signed(f, 1, -1074)
    } else {
        Dyadic { mant: two52() + f, exp: e - 1075 }
    }
}

impl Number {
    /// Whether this is the number with the given bits.
    pub open spec fn has_bits(self, bits: u64) -> bool {
        let negative = bits >= 0x8000_0000_0000_0000;
        let e = bits as int / 0x10_0000_0000_0000 % 2048;
        let f = bits as int % 0x10_0000_0000_0000;
        if e < 2047 {
            self matches Number::Finite(d) && d@ == (if negative {
                negated(decoded(bits))
            } else {
                decoded(bits)
            })
        } else if f > 0 {
            self is NotANumber
        } else if negative {
            self is NegativeInfinite
        } else {
            self is Infinite
        }
    }

    /// The number whose machine representation has the given bits; there is
    /// only one zero.
    pub fn from_bits(bits: u64) -> (r: Number)
        ensures
            r.has_bits(bits),
            r matches Number::Finite(d) ==> d.within(2000),
    {
        let negative = bits >= 0x8000_0000_0000_0000;
        let e: u64 = bits / 0x10_0000_0000_0000 % 2048;
        let f: u64 = bits % 0x10_0000_0000_0000;
        if e < 2047 {
            let d = if e == 0 {
                round_signed(f as i128, 1, -1074)
            } else {
                Double { mant: 0x10_0000_0000_0000 + f as i64, exp: e as i32 - 1075 }
            };
            if negative {
                Number::Finite(Double { mant: -d.mant, exp: d.exp })
            } else {
                Number::Finite(d)
            }
        } else if f > 0 {
            Number::NotANumber
        } else if negative {
            Number::NegativeInfinite
        } else {
            Number::Infinite
        }
    }

    /// The integer part: zero for what is below one or not a number, the
    /// largest number for what is too large.
    pub open spec fn whole_part(self) -> u64 {
        match self {
            Number::Finite(d) => saturated(truncated(d@)),
            Number::Infinite => u64::MAX,
            Number::NegativeInfinite => 0,
            Number::NotANumber => 0,
        }
    }

    /// The integer part.
    pub fn to_whole(self) -> (n: u64)
        requires
            self matches Number::Finite(d) ==> d.within(exp_bound()),
        ensures
            n == self.whole_part(),
    {
        match self {
            Number::Finite(d) => d.truncated(),
            Number::Infinite => u64::MAX,
            Number::NegativeInfinite => 0,
            Number::NotANumber => 0,
        }
    }
}

impl Double {
    /// Normalised, and with an exponent of at most `k` either way.
    pub open spec fn within(self, k: int) -> bool {
        normal(self@) && abs(self.exp as int) <= k
    }

    /// The double closest to `n`.
    pub fn from_int(n: i128) -> (r: Double)
        requires
            -0x1_0000_0000_0000_0000 <= n <= 0x1_0000_0000_0000_0000,
        ensures
            r@ == nearest_signed(n as int, 1, 0),
            r.within(200),
    {
        round_signed(n, 1, 0)
    }

    /// The double closest to `n / d`.
    pub fn ratio(n: u64, d: u64) -> (r: Double)
        requires
            d > 0,
        ensures
            r@ == nearest(n as nat, d as nat, 0),
            r.within(200),
    {
        round_signed(n as i128, d as u128, 0)
    }

    pub fn negate(self) -> (r: Double)
        requires
            normal(self@),
        ensures
            r@ == negated(self@),
            normal(r@),
            r.exp == self.exp,
    {
        Double { mant: -self.mant, exp: self.exp }
    }

    pub fn plus(self, other: Double) -> (r: Double)
        requires
            self.within(exp_bound()),
            other.within(exp_bound()),
        ensures
            r@ == plus(self@, other@),
            normal(r@),
            abs(r.exp as int) <= larger(abs(self.exp as int), abs(other.exp as int)) + 120,
    {
        if self.mant == 0 && other.mant == 0 {
            proof {
                lemma_pow2_bounds();
            }
            return Double { mant: 0, exp: 0 };
        }
        if other.mant == 0 || (self.mant != 0 && self.exp as i64 > other.exp as i64 + 60) {
            proof {
                lemma_sum_absorbed(self@, other@);
            }
            return self;
        }
        if self.mant == 0 || other.exp as i64 > self.exp as i64 + 60 {
            proof {
                lemma_sum_absorbed(other@, self@);
            }
            return other;
        }
        let low: i32 = if self.exp <= other.exp { self.exp } else { other.exp };
        let a = power_of_two((self.exp - low) as u32);
        let b = power_of_two((other.exp - low) as u32);
        proof {
            lemma_pow2_bounds();
            lemma_pow2_small((self.exp - low) as nat);
            lemma_pow2_small((other.exp - low) as nat);
            lemma_product_bound(self.mant as int, a as int);
            lemma_product_bound(other.mant as int, b as int);
        }
        let n: i128 = self.mant as i128 * a as i128 + other.mant as i128 * b as i128;
        round_signed(n, 1, low)
    }

    pub fn minus(self, other: Double) -> (r: Double)
        requires
            self.within(exp_bound()),
            other.within(exp_bound()),
        ensures
            r@ == minus(self@, other@),
            normal(r@),
            abs(r.exp as int) <= larger(abs(self.exp as int), abs(other.exp as int)) + 120,
    {
        self.plus(other.negate())
    }

    pub fn times(self, other: Double) -> (r: Double)
        requires
            self.within(exp_bound()),
            other.within(exp_bound()),
        ensures
            r@ == times(self@, other@),
            normal(r@),
            abs(r.exp as int) <= abs(self.exp as int) + abs(other.exp as int) + 200,
    {
        proof {
            lemma_product_bound(self.mant as int, other.mant as int);
        }
        round_signed(self.mant as i128 * other.mant as i128, 1, self.exp + other.exp)
    }

    pub fn over(self, other: Double) -> (r: Double)
        requires
            self.within(exp_bound()),
            other.within(exp_bound()),
            other.mant != 0,
        ensures
            r@ == over(self@, other@),
            normal(r@),
            abs(r.exp as int) <= abs(self.exp as int) + abs(other.exp as int) + 200,
    {
        if other.mant < 0 {
            round_signed(-(self.mant as i128), (-other.mant) as u128, self.exp - other.exp)
        } else {
            round_signed(self.mant as i128, other.mant as u128, self.exp - other.exp)
        }
    }

    /// Whether this is the smaller number.
    pub fn less(self, other: Double) -> (r: bool)
        requires
            normal(self@),
            normal(other@),
        ensures
            r == less(self@, other@),
    {
        proof {
            let e = lower_exp(self@, other@);
            lemma_less_at(self@, other@, e);
            lemma_less_at(other@, self@, e);
            lemma_pow2_bounds();
            if self.exp == other.exp {
                assert(self.mant * pow2(0) == self.mant && other.mant * pow2(0) == other.mant)
                    by (nonlinear_arith)
                    requires
                        pow2(0) == 1,
                ;
            }
            if self.mant != 0 && other.mant != 0 {
                if self.mant > 0 && other.mant > 0 {
                    if self.exp < other.exp {
                        lemma_exponent_decides(self@, other@);
                    } else if other.exp < self.exp {
                        lemma_exponent_decides(other@, self@);
                    }
                } else if self.mant < 0 && other.mant < 0 {
                    let x = negated(self@);
                    let y = negated(other@);
                    assert(aligned(x, e) == -aligned(self@, e)) by (nonlinear_arith)
                        requires
                            x.mant == -self@.mant,
                            x.exp == self@.exp,
                            aligned(x, e) == x.mant * pow2((x.exp - e) as nat),
                            aligned(self@, e) == self@.mant * pow2((x.exp - e) as nat),
                    ;
                    assert(aligned(y, e) == -aligned(other@, e)) by (nonlinear_arith)
                        requires
                            y.mant == -other@.mant,
                            y.exp == other@.exp,
                            aligned(y, e) == y.mant * pow2((y.exp - e) as nat),
                            aligned(other@, e) == other@.mant * pow2((y.exp - e) as nat),
                    ;
                    if self.exp < other.exp {
                        lemma_exponent_decides(x, y);
                    } else if other.exp < self.exp {
                        lemma_exponent_decides(y, x);
                    }
                }
            }
        }
        if self.mant <= 0 && other.mant > 0 {
            true
        } else if self.mant >= 0 && other.mant <= 0 {
            false
        } else if self.mant < 0 && other.mant >= 0 {
            true
        } else if self.mant > 0 {
            self.exp < other.exp || (self.exp == other.exp && self.mant < other.mant)
        } else {
            self.exp > other.exp || (self.exp == other.exp && self.mant < other.mant)
        }
    }

    /// The remainder of a division by a positive number.
    pub fn remainder(self, other: Double) -> (r: Double)
        requires
            self.within(exp_bound()),
            other.within(exp_bound()),
            other.mant > 0,
        ensures
            r@ == remainder(self@, other@),
            normal(r@),
            abs(r.exp as int) <= abs(self.exp as int) + abs(other.exp as int) + 200,
    {
        let m: u128 = if self.mant < 0 { (-self.mant) as u128 } else { self.mant as u128 };
        let low: i32 = if self.exp <= other.exp { self.exp } else { other.exp };
        let ghost k = (self.exp - low) as nat;
        let ghost divisor = aligned(other@, low as int);
        proof {
            lemma_pow2_bounds();
            lemma_pow2_pos(k);
            lemma_less_at(self@, other@, low as int);
            lemma_less_at(other@, self@, low as int);
            assert((-self.mant) * pow2(k) == -(self.mant * pow2(k))) by (nonlinear_arith);
            assert(m * pow2(k) == abs(aligned(self@, low as int)));
        }
        let mut r: u128;
        if low < other.exp {
            let gap: i32 = other.exp - low;
            proof {
                assert(k == 0);
                assert(m * pow2(0) == m) by (nonlinear_arith)
                    requires
                        pow2(0) == 1,
                ;
            }
            if gap > 60 {
                proof {
                    assert(divisor > m) by {
                        lemma_pow2_strictly_increases(53, gap as nat);
                        assert(other.mant * pow2(gap as nat) >= pow2(gap as nat)) by (nonlinear_arith)
                            requires
                                other.mant >= 1,
                        ;
                    }
                    vstd::arithmetic::div_mod::lemma_small_mod(m as nat, divisor as nat);
                }
                r = m;
            } else {
                let p = power_of_two(gap as u32);
                proof {
                    lemma_pow2_small(gap as nat);
                    lemma_product_bound(other.mant as int, p as int);
                }
                r = m % (other.mant as u128 * p);
            }
        } else {
            let b: u128 = other.mant as u128;
            let gap: i32 = self.exp - low;
            let mut i: i32 = 0;
            r = m % b;
            proof {
                assert(other.mant * pow2(0) == other.mant) by (nonlinear_arith)
                    requires
                        pow2(0) == 1,
                ;
                assert(m * pow2(0) == m) by (nonlinear_arith)
                    requires
                        pow2(0) == 1,
                ;
            }
            while i < gap
                invariant
                    0 <= i <= gap,
                    0 < b < two53(),
                    r == (m * pow2(i as nat)) as nat % b as nat,
                    r < b,
                decreases gap - i,
            {
                proof {
                    lemma_pow2_unfold((i + 1) as nat);
                    lemma_double_modulo((m * pow2(i as nat)) as nat, b as nat);
                    assert(2 * (m * pow2(i as nat)) == m * pow2((i + 1) as nat)) by (nonlinear_arith)
                        requires
                            pow2((i + 1) as nat) == 2 * pow2(i as nat),
                    ;
                }
                r = (2 * r) % b;
                i = i + 1;
            }
        }
        proof {
            assert(r == (m * pow2(k)) as nat % divisor as nat);
        }
        if r == 0 {
            Double { mant: 0, exp: 0 }
        } else {
            let q = round_quotient(r, 1, low);
            if self.mant < 0 {
                q.negate()
            } else {
                q
            }
        }
    }

    /// The closest natural number, halves going up.
    pub fn rounded(self) -> (r: u64)
        requires
            self.within(exp_bound()),
        ensures
            r == saturated(rounded(self@)),
    {
        if self.mant <= 0 {
            return 0;
        }
        if self.exp >= 0 {
            return self.shifted();
        }
        let k: i32 = -self.exp;
        proof {
            lemma_pow2_bounds();
            lemma_pow2_pos(k as nat);
        }
        if k > 60 {
            proof {
                lemma_pow2_strictly_increases(60, k as nat);
                vstd::arithmetic::power2::lemma2_to64_rest();
                vstd::arithmetic::div_mod::lemma_basic_div(
                    2 * self.mant + pow2(k as nat),
                    2 * pow2(k as nat) as int,
                );
            }
            return 0;
        }
        let p = power_of_two(k as u32);
        proof {
            lemma_pow2_small(k as nat);
            assert((2 * self.mant + p) / (2 * p as int) <= 2 * self.mant + p) by (nonlinear_arith)
                requires
                    p > 0,
                    self.mant > 0,
            ;
        }
        let n: u128 = 2 * self.mant as u128 + p;
        let q: u128 = n / (2 * p);
        if q > u64::MAX as u128 {
            u64::MAX
        } else {
            q as u64
        }
    }

    /// The integer part.
    pub fn truncated(self) -> (r: u64)
        requires
            self.within(exp_bound()),
        ensures
            r == saturated(truncated(self@)),
    {
        if self.mant <= 0 {
            return 0;
        }
        if self.exp >= 0 {
            return self.shifted();
        }
        let k: i32 = -self.exp;
        proof {
            lemma_pow2_bounds();
            lemma_pow2_pos(k as nat);
        }
        if k > 60 {
            proof {
                lemma_pow2_strictly_increases(60, k as nat);
                vstd::arithmetic::power2::lemma2_to64_rest();
                vstd::arithmetic::div_mod::lemma_basic_div(self.mant as int, pow2(k as nat) as int);
            }
            return 0;
        }
        let p = power_of_two(k as u32);
        proof {
            assert(self.mant as int / p as int <= self.mant) by (nonlinear_arith)
                requires
                    p > 0,
                    self.mant > 0,
            ;
        }
        (self.mant as u128 / p) as u64
    }

    /// The value of a number that is a positive integer by its exponent.
    fn shifted(self) -> (r: u64)
        requires
            self.within(exp_bound()),
            self.mant > 0,
            self.exp >= 0,
        ensures
            r == saturated((self.mant * pow2(self.exp as nat)) as nat),
    {
        proof {
            lemma_pow2_bounds();
            lemma_pow2_pos(self.exp as nat);
        }
        if self.exp > 60 {
            proof {
                lemma_pow2_strictly_increases(60, self.exp as nat);
                vstd::arithmetic::power2::lemma2_to64_rest();
                assert(self.mant * pow2(self.exp as nat) >= 0x10_0000_0000_0000 * pow2(
                    self.exp as nat,
                )) by (nonlinear_arith)
                    requires
                        self.mant >= 0x10_0000_0000_0000,
                ;
            }
            return u64::MAX;
        }
        let p = power_of_two(self.exp as u32);
        proof {
            lemma_pow2_small(self.exp as nat);
            lemma_product_bound(self.mant as int, p as int);
            assert(self.mant * p > 0) by (nonlinear_arith)
                requires
                    self.mant > 0,
                    p > 0,
            ;
        }
        let n: u128 = self.mant as u128 * p;
        if n > u64::MAX as u128 {
            u64::MAX
        } else {
            n as u64
        }
    }
}

/// Comparing at any common exponent gives the same answer.
pub(crate) proof fn lemma_less_at(a: Dyadic, b: Dyadic, e: int)
    requires
        e <= a.exp,
        e <= b.exp,
    ensures
        less(a, b) <==> aligned(a, e) < aligned(b, e),
        (a.mant < 0) == (aligned(a, e) < 0),
        (a.mant > 0) == (aligned(a, e) > 0),
{
    let f = lower_exp(a, b);
    let p = pow2((f - e) as nat) as int;
    lemma_pow2_pos((f - e) as nat);
    lemma_pow2_pos((a.exp - e) as nat);
    lemma_pow2_adds((a.exp - f) as nat, (f - e) as nat);
    lemma_pow2_adds((b.exp - f) as nat, (f - e) as nat);
    let x = pow2((a.exp - f) as nat) as int;
    let y = pow2((b.exp - f) as nat) as int;
    assert(a.mant * (x * p) == (a.mant * x) * p) by (nonlinear_arith);
    assert(b.mant * (y * p) == (b.mant * y) * p) by (nonlinear_arith);
    let s = a.mant * x;
    let t = b.mant * y;
    assert(s < t <==> s * p < t * p) by (nonlinear_arith)
        requires
            p > 0,
    ;
    let z = pow2((a.exp - e) as nat) as int;
    assert((a.mant < 0) == (a.mant * z < 0) && (a.mant > 0) == (a.mant * z > 0))
        by (nonlinear_arith)
        requires
            z > 0,
            z == pow2((a.exp - e) as nat) as int,
    ;
}

/// The order of numbers is transitive, for strict steps and for weak ones.
pub(crate) proof fn lemma_less_transitive(a: Dyadic, b: Dyadic, c: Dyadic)
    ensures
        less(a, b) && less(b, c) ==> less(a, c),
        !less(b, a) && !less(c, b) ==> !less(c, a),
        !(less(a, b) && less(b, a)),
{
    let e = if lower_exp(a, b) <= c.exp {
        lower_exp(a, b)
    } else {
        c.exp
    };
    lemma_less_at(a, b, e);
    lemma_less_at(b, c, e);
    lemma_less_at(a, c, e);
    lemma_less_at(b, a, e);
    lemma_less_at(c, b, e);
    lemma_less_at(c, a, e);
}

/// Of two positive normalised numbers the one with the larger exponent is
/// larger.
pub(crate) proof fn lemma_exponent_decides(a: Dyadic, b: Dyadic)
    requires
        two52() <= a.mant < two53(),
        two52() <= b.mant < two53(),
        a.exp < b.exp,
    ensures
        less(a, b),
        !less(b, a),
{
    let k = (b.exp - a.exp) as nat;
    lemma_pow2_bounds();
    lemma_pow2_unfold(k);
    lemma_pow2_pos((k - 1) as nat);
    assert(a.mant * pow2(0) == a.mant) by (nonlinear_arith)
        requires
            pow2(0) == 1,
    ;
    assert(b.mant * pow2(k) >= 2 * b.mant) by (nonlinear_arith)
        requires
            pow2(k) >= 2,
            b.mant >= 0,
    ;
}

/// A positive quotient rounds to a positive number.
pub(crate) proof fn lemma_nearest_positive(n: nat, d: nat, e: int)
    requires
        n > 0,
        d > 0,
    ensures
        nearest(n, d, e).mant > 0,
    decreases
            (if n < d * two52() {
                d * two52() - n
            } else if n >= d * two53() {
                n - d
            } else {
                0
            }),
{
    if n < d * two52() {
        lemma_nearest_positive(2 * n, d, e - 1);
    } else if n >= d * two53() {
        lemma_nearest_positive(n, 2 * d, e + 1);
    } else {
        lemma_quotient_bounds(n, d);
    }
}

proof fn lemma_double_modulo(x: nat, m: nat)
    requires
        m > 0,
    ensures
        (2 * (x % m)) % m == (2 * x) % m,
{
    vstd::arithmetic::div_mod::lemma_mul_mod_noop_right(2, x as int, m as int);
}

proof fn lemma_pow2_small(k: nat)
    requires
        k <= 60,
    ensures
        0 < pow2(k) <= 0x1000_0000_0000_0000,
{
    vstd::arithmetic::power2::lemma2_to64();
    vstd::arithmetic::power2::lemma2_to64_rest();
    lemma_pow2_pos(k);
    if k < 60 {
        lemma_pow2_strictly_increases(k, 60);
    }
}

proof fn lemma_product_bound(a: int, b: int)
    by (nonlinear_arith)
    requires
        -0x20_0000_0000_0000 < a < 0x20_0000_0000_0000,
        -0x1000_0000_0000_0000 <= b <= 0x1000_0000_0000_0000,
    ensures
        -0x2_0000_0000_0000_0000_0000_0000_0000 < a * b < 0x2_0000_0000_0000_0000_0000_0000_0000,
{
}

// Small integers are exact

/// A small integer is represented exactly: shifted to the left by `j` bits.
proof fn lemma_small(n: nat, e: int) -> (j: nat)
    requires
        0 < n < two53(),
    ensures
        two52() <= n * pow2(j) < two53(),
        nearest(n, 1, e) == (Dyadic { mant: (n * pow2(j)) as int, exp: e - j }),
    decreases two53() - n,
{
    lemma_pow2_bounds();
    if n < two52() {
        let k = lemma_small(2 * n, e - 1);
        lemma_pow2_unfold(k + 1);
        assert((2 * n) * pow2(k) == n * pow2(k + 1)) by (nonlinear_arith)
            requires
                pow2(k + 1) == 2 * pow2(k),
        ;
        k + 1
    } else {
        assert(n * pow2(0) == n) by (nonlinear_arith)
            requires
                pow2(0) == 1,
        ;
        0
    }
}

/// Shifting a small integer to the left does not change what it stands for.
proof fn lemma_scaled(n: nat, k: nat, e: int)
    requires
        n < two53(),
    ensures
        nearest(n * pow2(k), 1, e - k) == nearest(n, 1, e),
    decreases k,
{
    lemma_pow2_bounds();
    lemma_pow2_pos(k);
    if n == 0 {
        assert(n * pow2(k) == 0) by (nonlinear_arith)
            requires
                n == 0,
        ;
    } else if k == 0 {
        assert(n * pow2(0) == n) by (nonlinear_arith)
            requires
                pow2(0) == 1,
        ;
    } else {
        let j = lemma_small(n, e);
        if k <= j {
            let h = pow2((k - 1) as nat);
            lemma_scaled(n, (k - 1) as nat, e);
            lemma_pow2_unfold(k);
            lemma_pow2_adds(k, (j - k) as nat);
            lemma_pow2_pos((j - k) as nat);
            let r = pow2((j - k) as nat);
            assert(n * pow2(k) == 2 * (n * h)) by (nonlinear_arith)
                requires
                    pow2(k) == 2 * h,
            ;
            assert(n * pow2(k) <= n * pow2(j)) by (nonlinear_arith)
                requires
                    pow2(j) == pow2(k) * r,
                    r >= 1,
                    n >= 0,
                    pow2(k) >= 0,
            ;
            assert(n * h < two52());
            lemma_pow2_pos((k - 1) as nat);
            assert(n * h > 0) by (nonlinear_arith)
                requires
                    n > 0,
                    h > 0,
            ;
        } else {
            let i = (k - j) as nat;
            let m = n * pow2(j);
            lemma_pow2_adds(j, i);
            lemma_pow2_pos(i);
            let p = pow2(i);
            assert(n * pow2(k) == m * p) by (nonlinear_arith)
                requires
                    pow2(k) == pow2(j) * p,
                    m == n * pow2(j),
            ;
            assert(1 * p * two52() <= m * p && m * p < 1 * p * two53()) by (nonlinear_arith)
                requires
                    two52() <= m < two53(),
                    p > 0,
            ;
            lemma_nearest_at(m * p, 1, e - k, i);
            assert(1 * p == p);
            vstd::arithmetic::div_mod::lemma_fundamental_div_mod_converse(
                (m * p) as int,
                p as int,
                m as int,
                0,
            );
        }
    }
}

/// The bits by which an integer is shifted.
pub(crate) proof fn lemma_integer(n: int) -> (j: nat)
    requires
        abs(n) < two53(),
    ensures
        whole(n) == (Dyadic { mant: n * pow2(j), exp: -j }),
        normal(whole(n)),
        n != 0 ==> two52() <= abs(n * pow2(j)) < two53(),
{
    lemma_pow2_bounds();
    if n == 0 {
        assert(n * pow2(0) == 0);
        0
    } else if n > 0 {
        lemma_small(n as nat, 0)
    } else {
        let j = lemma_small((-n) as nat, 0);
        assert(((-n) as nat) * pow2(j) == -(n * pow2(j))) by (nonlinear_arith)
            requires
                n < 0,
        ;
        j
    }
}

proof fn lemma_scaled_signed(n: int, k: nat, e: int)
    requires
        abs(n) < two53(),
    ensures
        nearest_signed(n * pow2(k), 1, e - k) == nearest_signed(n, 1, e),
{
    lemma_pow2_pos(k);
    let p = pow2(k);
    if n < 0 {
        lemma_scaled((-n) as nat, k, e);
        assert(n * p < 0 && -(n * p) == ((-n) as nat) * p) by (nonlinear_arith)
            requires
                n < 0,
                p > 0,
        ;
    } else {
        lemma_scaled(n as nat, k, e);
        assert(n * p >= 0) by (nonlinear_arith)
            requires
                n >= 0,
                p > 0,
        ;
    }
}

/// Sums of small integers are exact.
pub(crate) proof fn lemma_integer_plus(a: int, b: int)
    requires
        abs(a) < two53(),
        abs(b) < two53(),
        abs(a + b) < two53(),
    ensures
        plus(whole(a), whole(b)) == whole(a + b),
{
    let i = lemma_integer(a);
    let j = lemma_integer(b);
    let x = whole(a);
    let y = whole(b);
    let e = lower_exp(x, y);
    let k = (-e) as nat;
    lemma_pow2_adds(i, (k - i) as nat);
    lemma_pow2_adds(j, (k - j) as nat);
    let p = pow2(i);
    let q = pow2((k - i) as nat);
    let r = pow2(j);
    let s = pow2((k - j) as nat);
    assert((a * p) * q == a * (p * q)) by (nonlinear_arith);
    assert((b * r) * s == b * (r * s)) by (nonlinear_arith);
    assert(a * pow2(k) + b * pow2(k) == (a + b) * pow2(k)) by (nonlinear_arith);
    assert(aligned(x, e) + aligned(y, e) == (a + b) * pow2(k));
    lemma_scaled_signed(a + b, k, 0);
}

/// Products of small integers are exact.
pub(crate) proof fn lemma_integer_times(a: int, b: int)
    requires
        abs(a) < two53(),
        abs(b) < two53(),
        abs(a * b) < two53(),
    ensures
        times(whole(a), whole(b)) == whole(a * b),
{
    let i = lemma_integer(a);
    let j = lemma_integer(b);
    lemma_pow2_adds(i, j);
    let p = pow2(i);
    let q = pow2(j);
    assert((a * p) * (b * q) == (a * b) * (p * q)) by (nonlinear_arith);
    lemma_scaled_signed(a * b, i + j, 0);
}

/// A small positive integer has a normalised significand.
pub(crate) proof fn lemma_integer_positive(n: nat)
    requires
        0 < n < two53(),
    ensures
        two52() <= whole(n as int).mant < two53(),
{
    let j = lemma_small(n, 0);
}

/// Small integers are ordered as such.
pub(crate) proof fn lemma_integer_less(a: int, b: int)
    requires
        abs(a) < two53(),
        abs(b) < two53(),
    ensures
        less(whole(a), whole(b)) == (a < b),
{
    let i = lemma_integer(a);
    let j = lemma_integer(b);
    let x = whole(a);
    let y = whole(b);
    let e = lower_exp(x, y);
    let k = (-e) as nat;
    lemma_pow2_adds(i, (k - i) as nat);
    lemma_pow2_adds(j, (k - j) as nat);
    lemma_pow2_pos(k);
    let p = pow2(i);
    let q = pow2((k - i) as nat);
    let r = pow2(j);
    let s = pow2((k - j) as nat);
    let u = pow2(k);
    assert((a * p) * q == a * (p * q)) by (nonlinear_arith);
    assert((b * r) * s == b * (r * s)) by (nonlinear_arith);
    assert((a * u < b * u) == (a < b)) by (nonlinear_arith)
        requires
            u > 0,
    ;
}

/// Small integers are read back exactly.
pub(crate) proof fn lemma_integer_rounded(n: nat)
    requires
        n < two53(),
    ensures
        rounded(whole(n as int)) == n,
{
    let j = lemma_integer(n as int);
    lemma_pow2_pos(j);
    lemma_pow2_bounds();
    if n > 0 {
        let p = pow2(j) as int;
        let m = whole(n as int).mant;
        assert(m == n * p);
        assert(m > 0) by (nonlinear_arith)
            requires
                m == n * p,
                n > 0,
                p > 0,
        ;
        if j == 0 {
            assert(m * pow2(0) == n) by (nonlinear_arith)
                requires
                    m == n * p,
                    p == 1,
                    pow2(0) == 1,
            ;
        } else {
            assert(2 * m + p == n as int * (2 * p) + p) by (nonlinear_arith)
                requires
                    m == n * p,
            ;
            assert((2 * m + p) / (2 * p) == n) by {
                vstd::arithmetic::div_mod::lemma_fundamental_div_mod_converse(
                    2 * m + p,
                    2 * p,
                    n as int,
                    p,
                );
            }
        }
    }
}

/// A positive number divided by itself is one.
pub(crate) proof fn lemma_over_itself(a: Dyadic)
    requires
        two52() <= a.mant < two53(),
    ensures
        over(a, a) == whole(1),
{
    let m = a.mant as nat;
    lemma_pow2_bounds();
    vstd::arithmetic::power2::lemma2_to64_rest();
    assert(m * pow2(51) < m * two52()) by (nonlinear_arith)
        requires
            m > 0,
            pow2(51) < two52(),
    ;
    lemma_doubled(m, m, 52);
    assert(m * two52() < m * two53()) by (nonlinear_arith)
        requires
            m > 0,
    ;
    let n = m * two52();
    vstd::arithmetic::div_mod::lemma_fundamental_div_mod_converse(
        n as int,
        m as int,
        two52() as int,
        0,
    );
    assert(nearest(n, m, -52) == carried(two52(), -52));
    lemma_doubled(1, 1, 52);
    assert(nearest(two52(), 1, -52) == carried(two52(), -52)) by {
        vstd::arithmetic::div_mod::lemma_fundamental_div_mod_converse(
            two52() as int,
            1,
            two52() as int,
            0,
        );
    }
    assert(1 * two52() == two52());
}

/// What is computed with one half.
pub(crate) proof fn lemma_one_half()
    ensures
        less(whole(0), nearest(1, 2, 0)),
        !less(whole(1), nearest(1, 2, 0)),
        times(minus(whole(1), nearest(1, 2, 0)), whole(2)) == whole(1),
{
    lemma_pow2_bounds();
    vstd::arithmetic::power2::lemma2_to64();
    vstd::arithmetic::power2::lemma2_to64_rest();
    lemma_doubled(1, 2, 53);
    lemma_doubled(1, 1, 52);
    lemma_doubled(2, 1, 51);
    let h = nearest(1, 2, 0);
    assert(h == (Dyadic { mant: two52() as int, exp: -53 })) by {
        vstd::arithmetic::div_mod::lemma_fundamental_div_mod_converse(
            two53() as int,
            2,
            two52() as int,
            0,
        );
    }
    let one = Dyadic { mant: two52() as int, exp: -52 };
    let two = Dyadic { mant: two52() as int, exp: -51 };
    assert(whole(1) == one);
    assert(whole(2) == two) by {
        assert(2 * pow2(51) == two52());
    }
    assert(aligned(zero(), -53) == 0);
    assert(aligned(h, -53) == two52()) by {
        assert(two52() * pow2(0) == two52());
    }
    assert(aligned(one, -53) == two53()) by {
        assert(two52() * pow2(1) == two53());
    }
    let minus_h = negated(h);
    assert(aligned(minus_h, -53) == -two52()) by {
        assert((-two52()) * pow2(0) == -two52());
    }
    assert(minus(one, h) == nearest(two52(), 1, -53));
    assert(minus(one, h) == h);
    let n = two52() * two52();
    lemma_nearest_at(n, 1, -104, 52);
    vstd::arithmetic::div_mod::lemma_fundamental_div_mod_converse(
        n as int,
        two52() as int,
        two52() as int,
        0,
    );
    assert(1 * pow2(52) == two52());
    assert(times(h, two) == nearest(n, 1, -104));
}

/// A fraction with its numerator scaled by 2^k.
proof fn lemma_doubled(n: nat, d: nat, k: nat)
    requires
        n > 0,
        d > 0,
        k > 0 ==> n * pow2((k - 1) as nat) < d * two52(),
    ensures
        nearest(n, d, 0) == nearest(n * pow2(k), d, -(k as int)),
    decreases k,
{
    lemma_pow2_bounds();
    if k == 0 {
        assert(n * pow2(0) == n) by (nonlinear_arith)
            requires
                pow2(0) == 1,
        ;
    } else {
        let h = pow2((k - 1) as nat);
        lemma_pow2_pos((k - 1) as nat);
        lemma_pow2_unfold(k);
        if k > 1 {
            let g = pow2((k - 2) as nat);
            lemma_pow2_unfold((k - 1) as nat);
            lemma_pow2_pos((k - 2) as nat);
            assert(n * g < d * two52()) by (nonlinear_arith)
                requires
                    h == 2 * g,
                    n * h < d * two52(),
                    n > 0,
                    g > 0,
            ;
        }
        lemma_doubled(n, d, (k - 1) as nat);
        assert(n * pow2(k) == 2 * (n * h)) by (nonlinear_arith)
            requires
                pow2(k) == 2 * h,
        ;
        assert(n * h > 0) by (nonlinear_arith)
            requires
                n > 0,
                h > 0,
        ;
    }
}

// Rounding goes to the nearest

/// Whether `r` differs from `(n / d) * 2^e` by at most half a unit in its last
/// place.
pub open spec fn close(n: nat, d: nat, e: int, r: Dyadic) -> bool {
    if r.exp <= e {
        2 * abs(n * pow2((e - r.exp) as nat) - r.mant * d) <= d
    } else {
        2 * abs(n - r.mant * (d * pow2((r.exp - e) as nat))) <= d * pow2((r.exp - e) as nat)
    }
}

pub(crate) proof fn lemma_round_close(n: nat, d: nat)
    requires
        d > 0,
    ensures
        2 * abs(n - round_half_even(n, d) * d) <= d,
{
    let q = n / d;
    let r = n % d;
    assert(n == q * d + r && r < d) by (nonlinear_arith)
        requires
            d > 0,
            q == n / d,
            r == n % d,
    ;
    assert((q + 1) * d == q * d + d) by (nonlinear_arith);
}

/// What is rounded differs from the exact value by at most half a unit in its
/// last place, and its significand has 53 bits.
pub proof fn lemma_nearest_close(n: nat, d: nat, e: int)
    requires
        n > 0,
        d > 0,
    ensures
        close(n, d, e, nearest(n, d, e)),
        two52() <= nearest(n, d, e).mant < two53(),
    decreases
            (if n < d * two52() {
                d * two52() - n
            } else if n >= d * two53() {
                n - d
            } else {
                0
            }),
{
    lemma_pow2_bounds();
    vstd::arithmetic::power2::lemma2_to64();
    let r = nearest(n, d, e);
    let m = r.mant;
    if n < d * two52() {
        lemma_nearest_close(2 * n, d, e - 1);
        if r.exp <= e - 1 {
            let k = (e - r.exp) as nat;
            let h = pow2((k - 1) as nat);
            lemma_pow2_unfold(k);
            assert((2 * n) * h == n * pow2(k)) by (nonlinear_arith)
                requires
                    pow2(k) == 2 * h,
            ;
        } else {
            let k = (r.exp - e) as nat;
            let h = pow2(k);
            lemma_pow2_unfold(k + 1);
            assert(d * pow2(k + 1) == 2 * (d * h)) by (nonlinear_arith)
                requires
                    pow2(k + 1) == 2 * h,
            ;
            assert(m * (2 * (d * h)) == 2 * (m * (d * h))) by (nonlinear_arith);
            if k == 0 {
                assert(n * pow2(0) == n) by (nonlinear_arith)
                    requires
                        pow2(0) == 1,
                ;
                assert(d * h == d) by (nonlinear_arith)
                    requires
                        h == 1,
                ;
            }
        }
    } else if n >= d * two53() {
        lemma_nearest_close(n, 2 * d, e + 1);
        if r.exp <= e {
            let k = (e - r.exp) as nat;
            let h = pow2(k);
            lemma_pow2_unfold(k + 1);
            assert(n * pow2(k + 1) == 2 * (n * h)) by (nonlinear_arith)
                requires
                    pow2(k + 1) == 2 * h,
            ;
            assert(m * (2 * d) == 2 * (m * d)) by (nonlinear_arith);
        } else {
            let k = (r.exp - e) as nat;
            let h = pow2((k - 1) as nat);
            lemma_pow2_unfold(k);
            assert((2 * d) * h == d * pow2(k)) by (nonlinear_arith)
                requires
                    pow2(k) == 2 * h,
            ;
            if k == 1 {
                assert(n * pow2(0) == n) by (nonlinear_arith)
                    requires
                        pow2(0) == 1,
                ;
                assert(d * pow2(1) == 2 * d) by (nonlinear_arith)
                    requires
                        pow2(1) == 2,
                ;
            }
        }
    } else {
        let q = round_half_even(n, d);
        lemma_round_close(n, d);
        lemma_quotient_bounds(n, d);
        if q == two53() {
            assert(d * pow2(1) == 2 * d) by (nonlinear_arith)
                requires
                    pow2(1) == 2,
            ;
            assert(two52() * (2 * d) == two53() * d) by (nonlinear_arith);
        } else {
            assert(n * pow2(0) == n) by (nonlinear_arith)
                requires
                    pow2(0) == 1,
            ;
        }
    }
}

} // verus!
