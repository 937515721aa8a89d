//! Numbers as the table and the header show them.

use crate::ansi::{visible, visible_len};
use crate::double::{abs, exp_bound, round_half_even, rounded, saturated, whole, Double, Dyadic};
use crate::text::{
    chars_of, decimal, digit, missing, push_number, push_repeated, right_aligned, same, spaces,
};
use vstd::arithmetic::power2::{
    lemma_pow2_pos, lemma_pow2_strictly_increases, lemma_pow2_unfold, pow2,
};
use vstd::prelude::*;
use vstd::string::StringExecFns;

verus! {

/// A number of tenths, with a decimal point.
pub open spec fn one_place(n: nat) -> Seq<char> {
    decimal(n / 10) + "."@ + decimal(n % 10)
}

/// A number of hundredths, with a decimal point.
pub open spec fn two_places(n: nat) -> Seq<char> {
    decimal(n / 100) + "."@ + decimal(n / 10 % 10) + decimal(n % 10)
}

/// An amount of memory, given in kibibytes. The more mebibytes there are, the
/// fewer places follow the point; a thread has no memory of its own.
pub open spec fn memory_text(kib: u64, is_thread: bool) -> Seq<char> {
    let d = saturated(rounded(whole(kib as int))) as nat;
    if is_thread {
        "---"@
    } else if kib == 0 {
        "0 KiB"@
    } else if d >= 100 * 1024 {
        decimal((d + 512) / 1024) + " MiB"@
    } else if d >= 10 * 1024 {
        one_place(round_half_even(10 * d, 1024)) + " MiB"@
    } else if d >= 1024 {
        two_places(round_half_even(100 * d, 1024)) + " MiB"@
    } else {
        decimal(kib as nat) + " KiB"@
    }
}

/// The tenths in the distance of a number from zero.
pub open spec fn tenths(a: Dyadic) -> nat {
    let m = abs(a.mant) as nat;
    if a.exp >= 0 {
        10 * (m * pow2(a.exp as nat))
    } else {
        round_half_even(10 * m, pow2((-a.exp) as nat))
    }
}

/// A percentage with one place, at least five characters wide.
pub open spec fn percent_text(a: Dyadic) -> Seq<char> {
    let digits = one_place(tenths(a));
    if a.mant < 0 {
        right_aligned("-"@ + digits, 5)
    } else {
        right_aligned(digits, 5)
    }
}

/// A number of seconds as years, days, hours, minutes and seconds.
pub open spec fn uptime_text(s: u64) -> Seq<char> {
    let year = 365 * 86400;
    decimal((s / year as u64) as nat) + "y "@ + decimal((s % year as u64 / 86400) as nat) + "d "@
        + decimal((s % year as u64 % 86400 / 3600) as nat) + "h "@ + decimal(
        (s % year as u64 % 86400 % 3600 / 60) as nat,
    ) + "m "@ + decimal((s % year as u64 % 86400 % 3600 % 60) as nat) + "s"@
}

/// A cell of the table, filled up to its width.
pub open spec fn padded(cell: Seq<char>, width: nat, right: bool) -> Seq<char> {
    let pad = spaces(missing(visible(cell), width));
    if right {
        pad + cell
    } else {
        cell + pad
    }
}

/// The integer closest to `n / d`; of two equally close ones the even one.
fn round_even(n: u128, d: u128) -> (r: u128)
    requires
        0 < d < 0x1000_0000_0000_0000_0000_0000_0000_0000,
        n < 0x1000_0000_0000_0000_0000_0000_0000_0000,
    ensures
        r == round_half_even(n as nat, d as nat),
        r <= n + 1,
{
    let q: u128 = n / d;
    let m: u128 = n % d;
    proof {
        assert(n as int / d as int <= n) by (nonlinear_arith)
            requires
                d > 0,
        ;
    }
    if 2 * m < d || (2 * m == d && q % 2 == 0) {
        q
    } else {
        q + 1
    }
}

/// An amount of memory, given in kibibytes.
pub fn format_memory(kib: u64, is_thread: bool) -> (s: String)
    ensures
        s@ == memory_text(kib, is_thread),
{
    let mut s = String::new();
    if is_thread {
        s.append("---");
        proof {
            assert(s@ =~= "---"@);
        }
        return s;
    }
    if kib == 0 {
        s.append("0 KiB");
        proof {
            assert(s@ =~= "0 KiB"@);
        }
        return s;
    }
    let d: u64 = Double::from_int(kib as i128).rounded();
    if d >= 100 * 1024 {
        push_number(&mut s, ((d as u128 + 512) / 1024) as u64);
        s.append(" MiB");
    } else if d >= 10 * 1024 {
        let n: u64 = round_even(10 * d as u128, 1024) as u64;
        push_number(&mut s, n / 10);
        s.append(".");
        push_number(&mut s, n % 10);
        s.append(" MiB");
    } else if d >= 1024 {
        let n: u64 = round_even(100 * d as u128, 1024) as u64;
        push_number(&mut s, n / 100);
        s.append(".");
        push_number(&mut s, n / 10 % 10);
        push_number(&mut s, n % 10);
        s.append(" MiB");
    } else {
        push_number(&mut s, kib);
        s.append(" KiB");
    }
    proof {
        assert(s@ =~= memory_text(kib, is_thread));
    }
    s
}

/// The number whose digits these are, the least significant one first.
spec fn low_first(d: Seq<u8>) -> nat
    decreases d.len(),
{
    if d.len() == 0 {
        0
    } else {
        d[0] as nat + 10 * low_first(d.skip(1))
    }
}

spec fn are_digits(d: Seq<u8>) -> bool {
    forall|i: int| 0 <= i < d.len() ==> #[trigger] d[i] < 10
}

/// The digits of a number, written in the usual order.
proof fn lemma_digits_written(d: Seq<u8>)
    requires
        are_digits(d),
        d.len() > 0,
        d.len() > 1 ==> d.last() > 0,
    ensures
        decimal(low_first(d)) == Seq::new(d.len(), |i: int| digit(d[d.len() - 1 - i] as nat)),
        d.last() > 0 ==> low_first(d) > 0,
    decreases d.len(),
{
    let t = d.skip(1);
    let w = Seq::new(d.len(), |i: int| digit(d[d.len() - 1 - i] as nat));
    if d.len() == 1 {
        assert(low_first(t) == 0);
        assert(w =~= seq![digit(d[0] as nat)]);
    } else {
        assert forall|i: int| 0 <= i < t.len() implies #[trigger] t[i] < 10 by {
            assert(d[i + 1] < 10);
        }
        lemma_digits_written(t);
        assert(d[0] < 10);
        let n = low_first(d);
        assert(n == d[0] + 10 * low_first(t));
        assert(n / 10 == low_first(t) && n % 10 == d[0]);
        assert(w =~= decimal(low_first(t)).push(digit(d[0] as nat)));
    }
}

proof fn lemma_low_first_push(d: Seq<u8>, x: u8)
    ensures
        low_first(d.push(x)) == low_first(d) + x * vstd::arithmetic::power::pow(10, d.len()),
    decreases d.len(),
{
    vstd::arithmetic::power::lemma_pow0(10);
    if d.len() == 0 {
        assert(d.push(x).skip(1) =~= d);
        assert(low_first(d) == 0);
    } else {
        assert(d.push(x).skip(1) =~= d.skip(1).push(x));
        lemma_low_first_push(d.skip(1), x);
        vstd::arithmetic::power::lemma_pow1(10);
        vstd::arithmetic::power::lemma_pow_adds(10, 1, (d.len() - 1) as nat);
        let p = vstd::arithmetic::power::pow(10, (d.len() - 1) as nat);
        assert(10 * (x * p) == x * (10 * p)) by (nonlinear_arith);
    }
}

/// The digits of twice a number.
fn doubled(d: &Vec<u8>) -> (r: Vec<u8>)
    requires
        are_digits(d@),
        d@.len() > 0,
        d@.len() > 1 ==> d@.last() > 0,
    ensures
        are_digits(r@),
        r@.len() > 0,
        r@.len() > 1 ==> r@.last() > 0,
        low_first(r@) == 2 * low_first(d@),
{
    let mut r: Vec<u8> = Vec::new();
    let mut carry: u8 = 0;
    let mut i: usize = 0;
    proof {
        vstd::arithmetic::power::lemma_pow0(10);
        assert(d@.take(0) =~= Seq::<u8>::empty());
    }
    while i < d.len()
        invariant
            i <= d@.len(),
            r@.len() == i,
            carry <= 1,
            are_digits(d@),
            are_digits(r@),
            low_first(r@) + carry * vstd::arithmetic::power::pow(10, i as nat) == 2 * low_first(
                d@.take(i as int),
            ),
            i > 0 && d@[i - 1] > 0 ==> r@[i - 1] > 0 || carry > 0,
        decreases d.len() - i,
    {
        let x: u8 = d[i];
        proof {
            assert(d@[i as int] < 10);
        }
        let t: u8 = 2 * x + carry;
        let low: u8 = t % 10;
        proof {
            let p = vstd::arithmetic::power::pow(10, i as nat);
            lemma_low_first_push(r@, low);
            lemma_low_first_push(d@.take(i as int), x);
            assert(d@.take(i + 1) =~= d@.take(i as int).push(x));
            vstd::arithmetic::power::lemma_pow1(10);
            vstd::arithmetic::power::lemma_pow_adds(10, 1, i as nat);
            assert(low * p + (t / 10) * (10 * p) == 2 * (x * p) + carry * p) by (nonlinear_arith)
                requires
                    t == 2 * x + carry,
                    low == t % 10,
            ;
            assert forall|k: int| 0 <= k < r@.push(low).len() implies #[trigger] r@.push(low)[k]
                < 10 by {
                if k < r@.len() {
                    assert(r@[k] < 10);
                }
            }
        }
        r.push(low);
        carry = t / 10;
        i = i + 1;
    }
    proof {
        assert(d@.take(d@.len() as int) =~= d@);
    }
    if carry > 0 {
        proof {
            lemma_low_first_push(r@, carry);
        }
        r.push(carry);
    }
    r
}

/// The digits of a number, the least significant one first.
fn digits_of(n: u64) -> (d: Vec<u8>)
    ensures
        are_digits(d@),
        d@.len() > 0,
        d@.len() > 1 ==> d@.last() > 0,
        low_first(d@) == n,
{
    let mut d: Vec<u8> = Vec::new();
    let mut rest: u64 = n;
    let ghost mut p: int = 1;
    proof {
        vstd::arithmetic::power::lemma_pow0(10);
    }
    while rest >= 10
        invariant
            are_digits(d@),
            rest > 0 || d@.len() == 0,
            p == vstd::arithmetic::power::pow(10, d@.len()),
            low_first(d@) + rest * p == n,
        decreases rest,
    {
        proof {
            let x = (rest % 10) as u8;
            lemma_low_first_push(d@, x);
            vstd::arithmetic::power::lemma_pow1(10);
            vstd::arithmetic::power::lemma_pow_adds(10, 1, d@.len());
            assert(x * p + (rest / 10) * (10 * p) == rest * p) by (nonlinear_arith)
                requires
                    x == rest % 10,
            ;
            p = 10 * p;
            assert forall|k: int| 0 <= k < d@.push(x).len() implies #[trigger] d@.push(x)[k]
                < 10 by {
                if k < d@.len() {
                    assert(d@[k] < 10);
                }
            }
        }
        d.push((rest % 10) as u8);
        rest = rest / 10;
    }
    proof {
        lemma_low_first_push(d@, rest as u8);
    }
    d.push(rest as u8);
    d
}

/// Appends `m * 2^k` in decimal.
fn push_scaled(out: &mut String, m: u64, k: u32)
    ensures
        final(out)@ == old(out)@ + decimal(m as nat * pow2(k as nat)),
{
    let mut d = digits_of(m);
    let mut i: u32 = 0;
    proof {
        vstd::arithmetic::power2::lemma2_to64();
    }
    while i < k
        invariant
            i <= k,
            are_digits(d@),
            d@.len() > 0,
            d@.len() > 1 ==> d@.last() > 0,
            low_first(d@) == m as nat * pow2(i as nat),
        decreases k - i,
    {
        proof {
            lemma_pow2_unfold((i + 1) as nat);
            assert(2 * (m as nat * pow2(i as nat)) == m as nat * pow2((i + 1) as nat))
                by (nonlinear_arith)
                requires
                    pow2((i + 1) as nat) == 2 * pow2(i as nat),
            ;
        }
        d = doubled(&d);
        i = i + 1;
    }
    proof {
        lemma_digits_written(d@);
    }
    let ghost start = out@;
    let ghost text = decimal(m as nat * pow2(k as nat));
    let mut j: usize = 0;
    while j < d.len()
        invariant
            j <= d@.len(),
            are_digits(d@),
            text == Seq::new(d@.len(), |i: int| digit(d@[d@.len() - 1 - i] as nat)),
            out@ == start + text.take(j as int),
        decreases d.len() - j,
    {
        let x: u8 = d[d.len() - 1 - j];
        proof {
            assert(d@[d@.len() - 1 - j] < 10);
            assert(text.take(j + 1) =~= text.take(j as int).push(digit(x as nat)));
        }
        out.push((48 + x) as char);
        j = j + 1;
    }
    proof {
        assert(text.take(text.len() as int) =~= text);
    }
}

/// A percentage with one place, at least five characters wide.
pub fn format_percent(a: Double) -> (s: String)
    requires
        a.within(exp_bound()),
    ensures
        s@ == percent_text(a@),
{
    let m: u64 = if a.mant < 0 { (-a.mant) as u64 } else { a.mant as u64 };
    let mut digits = String::new();
    if a.mant < 0 {
        digits.append("-");
    }
    let ghost sign = digits@;
    if a.exp >= 0 {
        push_scaled(&mut digits, m, a.exp as u32);
        digits.append(".0");
        proof {
            let n = m as nat * pow2(a.exp as nat);
            assert(tenths(a@) == 10 * n);
            assert((10 * n) / 10 == n && (10 * n) % 10 == 0);
            reveal_strlit(".0");
            reveal_strlit(".");
            assert(decimal(0) =~= seq!['0']) by {
                assert(digit(0) == '0');
            }
            assert(digits@ =~= sign + one_place(tenths(a@)));
        }
    } else {
        let k: i32 = -a.exp;
        proof {
            lemma_pow2_pos(k as nat);
            vstd::arithmetic::power2::lemma2_to64_rest();
        }
        let n: u64 = if k > 60 {
            proof {
                lemma_pow2_strictly_increases(60, k as nat);
                vstd::arithmetic::div_mod::lemma_basic_div(10 * m as int, pow2(k as nat) as int);
                vstd::arithmetic::div_mod::lemma_small_mod((10 * m) as nat, pow2(k as nat));
            }
            0
        } else {
            let mut p: u128 = 1;
            let mut i: i32 = 0;
            proof {
                vstd::arithmetic::power2::lemma2_to64();
            }
            while i < k
                invariant
                    0 <= i <= k <= 60,
                    p == pow2(i as nat),
                    p <= 0x1000_0000_0000_0000,
                decreases k - i,
            {
                proof {
                    lemma_pow2_unfold((i + 1) as nat);
                    vstd::arithmetic::power2::lemma2_to64_rest();
                    if i + 1 < 60 {
                        lemma_pow2_strictly_increases((i + 1) as nat, 60);
                    }
                }
                p = 2 * p;
                i = i + 1;
            }
            round_even(10 * m as u128, p) as u64
        };
        push_number(&mut digits, n / 10);
        digits.append(".");
        push_number(&mut digits, n % 10);
        proof {
            assert(n == tenths(a@));
            assert(digits@ =~= sign + one_place(tenths(a@)));
        }
    }
    proof {
        assert(sign + one_place(tenths(a@)) =~= if a.mant < 0 {
            "-"@ + one_place(tenths(a@))
        } else {
            one_place(tenths(a@))
        });
    }
    let len = chars_of(digits.as_str()).len();
    let mut s = String::new();
    if len < 5 {
        push_repeated(&mut s, ' ', 5 - len);
    }
    s.append(digits.as_str());
    proof {
        assert(s@ =~= percent_text(a@));
    }
    s
}

/// A number of seconds as years, days, hours, minutes and seconds.
pub fn format_uptime(seconds: u64) -> (s: String)
    ensures
        s@ == uptime_text(seconds),
{
    let year: u64 = 365 * 86400;
    let mut s = String::new();
    push_number(&mut s, seconds / year);
    s.append("y ");
    push_number(&mut s, seconds % year / 86400);
    s.append("d ");
    push_number(&mut s, seconds % year % 86400 / 3600);
    s.append("h ");
    push_number(&mut s, seconds % year % 86400 % 3600 / 60);
    s.append("m ");
    push_number(&mut s, seconds % year % 86400 % 3600 % 60);
    s.append("s");
    proof {
        assert(s@ =~= uptime_text(seconds));
    }
    s
}

/// A cell of the table, filled up to its width; `align` is `"right"` or
/// `"left"`.
pub fn pad_cell(cell: &str, width: usize, align: &str) -> (s: String)
    ensures
        s@ == padded(cell@, width as nat, align@ == "right"@),
{
    let v = visible_len(cell);
    let right = same(&chars_of(align), &chars_of("right"));
    let mut s = String::new();
    let pad: usize = if v < width { width - v } else { 0 };
    if right {
        push_repeated(&mut s, ' ', pad);
    }
    s.append(cell);
    if !right {
        push_repeated(&mut s, ' ', pad);
    }
    proof {
        assert(s@ =~= padded(cell@, width as nat, align@ == "right"@));
    }
    s
}

} // verus!
