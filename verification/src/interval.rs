//! The update interval and the options of the command line.

use crate::double::{abs, exp_bound, two52, two53, Double, Dyadic, Number};
use crate::text::{chars_of, decimal, push_number, same, strings};
use vstd::arithmetic::power2::{lemma_pow2_pos, lemma_pow2_strictly_increases, pow2};
use vstd::prelude::*;
use vstd::string::StringExecFns;

verus! {

/// The allowed intervals, in hundredths of a second.
pub open spec fn intervals() -> Seq<u32> {
    seq![
        5u32, 10u32, 25u32, 50u32, 100u32, 200u32, 300u32, 500u32, 1000u32, 1500u32, 2000u32,
        3000u32, 6000u32, 12000u32, 18000u32, 30000u32,
    ]
}

/// Whether an interval is allowed.
pub open spec fn allowed(h: u32) -> bool {
    intervals().contains(h)
}

/// How far `h` hundredths are from a number, in units that make this an integer.
pub open spec fn distance(h: u32, x: Dyadic) -> int {
    if x.exp >= 0 {
        abs(h - 100 * (x.mant * pow2(x.exp as nat)))
    } else {
        abs(h * pow2((-x.exp) as nat) - 100 * x.mant)
    }
}

/// Whether `h` hundredths is the allowed interval closest to a number of
/// seconds; of two that are equally close, the shorter one.
pub open spec fn closest(h: u32, x: Dyadic) -> bool {
    &&& allowed(h)
    &&& forall|i: int|
        0 <= i < 16 ==> {
            let other = #[trigger] intervals()[i];
            distance(h, x) < distance(other, x) || (distance(h, x) == distance(other, x) && h
                <= other)
        }
}

/// The next longer interval.
pub open spec fn longer(h: u32) -> u32 {
    let i = intervals().index_of(h);
    if allowed(h) && i < 15 {
        intervals()[i + 1]
    } else {
        h
    }
}

/// The next shorter interval.
pub open spec fn shorter(h: u32) -> u32 {
    let i = intervals().index_of(h);
    if allowed(h) && i > 0 {
        intervals()[i - 1]
    } else {
        h
    }
}

/// An interval in seconds.
pub open spec fn interval_text(h: u32) -> Seq<char> {
    let s = decimal((h / 100) as nat);
    if h % 100 == 0 {
        s + "s"@
    } else if h % 10 == 0 {
        s + "."@ + decimal((h / 10 % 10) as nat) + "s"@
    } else {
        s + "."@ + decimal((h / 10 % 10) as nat) + decimal((h % 10) as nat) + "s"@
    }
}

/// An interval in nanoseconds.
pub open spec fn nanoseconds(h: u32) -> nat {
    (h * 10_000_000) as nat
}

/// Whether processor time is read in nanoseconds at an interval: below half a
/// second.
pub open spec fn nano(h: u32) -> bool {
    h < 50
}

/// The allowed interval at a position.
pub fn interval_at(i: usize) -> (h: u32)
    requires
        i < 16,
    ensures
        h == intervals()[i as int],
{
    match i {
        0 => 5,
        1 => 10,
        2 => 25,
        3 => 50,
        4 => 100,
        5 => 200,
        6 => 300,
        7 => 500,
        8 => 1000,
        9 => 1500,
        10 => 2000,
        11 => 3000,
        12 => 6000,
        13 => 12000,
        14 => 18000,
        _ => 30000,
    }
}

/// The allowed intervals grow.
pub proof fn lemma_intervals_grow(i: int, j: int)
    requires
        0 <= i < j < 16,
    ensures
        intervals()[i] < intervals()[j],
{
}

/// Where an interval stands among the allowed ones.
fn position(h: u32) -> (r: Option<usize>)
    ensures
        match r {
            Some(i) => i < 16 && allowed(h) && intervals().index_of(h) == i && intervals()[i as int]
                == h,
            None => !allowed(h),
        },
{
    let mut i: usize = 0;
    while i < 16
        invariant
            i <= 16,
            forall|j: int| 0 <= j < i ==> intervals()[j] != h,
        decreases 16 - i,
    {
        if interval_at(i) == h {
            proof {
                let k = intervals().index_of(h);
                assert(intervals()[i as int] == h);
                assert(intervals()[k] == h);
                if k < i {
                    lemma_intervals_grow(k, i as int);
                } else if i < k {
                    lemma_intervals_grow(i as int, k);
                }
            }
            return Some(i);
        }
        i = i + 1;
    }
    None
}

/// The next longer interval.
pub fn longer_interval(h: u32) -> (r: u32)
    ensures
        r == longer(h),
{
    match position(h) {
        Some(i) => if i < 15 {
            interval_at(i + 1)
        } else {
            h
        },
        None => h,
    }
}

/// The next shorter interval.
pub fn shorter_interval(h: u32) -> (r: u32)
    ensures
        r == shorter(h),
{
    match position(h) {
        Some(i) => if i > 0 {
            interval_at(i - 1)
        } else {
            h
        },
        None => h,
    }
}

/// Changing the interval leads to an allowed one; and unless the end was
/// reached, changing it back leads back.
pub proof fn lemma_interval_steps(h: u32)
    requires
        allowed(h),
    ensures
        allowed(longer(h)),
        allowed(shorter(h)),
        h < 30000 ==> longer(h) > h && shorter(longer(h)) == h,
        h > 5 ==> shorter(h) < h && longer(shorter(h)) == h,
{
    let i = intervals().index_of(h);
    assert(intervals()[i] == h);
    if i < 15 {
        let up = intervals()[i + 1];
        assert(allowed(up));
        lemma_intervals_grow(i, i + 1);
        lemma_index(i + 1);
    } else {
        assert(h == 30000);
    }
    if i > 0 {
        let down = intervals()[i - 1];
        assert(allowed(down));
        lemma_intervals_grow(i - 1, i);
        lemma_index(i - 1);
    } else {
        assert(h == 5);
    }
}

/// The longest interval has no longer one, the shortest no shorter one.
pub proof fn lemma_ends()
    ensures
        longer(30000) == 30000,
        shorter(5) == 5,
{
    assert(intervals()[15] == 30000);
    assert(intervals()[0] == 5);
    lemma_index(15);
    lemma_index(0);
}

/// No allowed interval lies between one and the next.
pub proof fn lemma_next(h: u32, other: u32)
    requires
        allowed(h),
        allowed(other),
    ensures
        other > h ==> h < longer(h) <= other,
        other < h ==> other <= shorter(h) < h,
{
    let i = intervals().index_of(h);
    let j = intervals().index_of(other);
    assert(intervals()[i] == h);
    assert(intervals()[j] == other);
    if i < j {
        lemma_intervals_grow(i, i + 1);
        if i + 1 < j {
            lemma_intervals_grow(i + 1, j);
        }
        lemma_intervals_grow(i, j);
    } else if j < i {
        lemma_intervals_grow(i - 1, i);
        if j < i - 1 {
            lemma_intervals_grow(j, i - 1);
        }
        lemma_intervals_grow(j, i);
    }
}

proof fn lemma_index(i: int)
    requires
        0 <= i < 16,
    ensures
        intervals().index_of(intervals()[i]) == i,
{
    let h = intervals()[i];
    assert(intervals().contains(h));
    let k = intervals().index_of(h);
    if k < i {
        lemma_intervals_grow(k, i);
    } else if i < k {
        lemma_intervals_grow(i, k);
    }
}

/// The distance of an interval from a number with a moderate exponent.
fn distance_of(h: u32, mant: i64, scale: u128) -> (r: i128)
    requires
        scale <= 0x1000_0000_0000_0000,
        -0x20_0000_0000_0000 <= mant <= 0x20_0000_0000_0000,
        h <= 30000,
    ensures
        r == abs(h * scale - 100 * mant),
{
    proof {
        assert(0 <= h * scale <= 30000 * 0x1000_0000_0000_0000) by (nonlinear_arith)
            requires
                0 <= h <= 30000,
                0 <= scale <= 0x1000_0000_0000_0000,
        ;
    }
    let d: i128 = h as i128 * scale as i128 - 100 * mant as i128;
    if d < 0 {
        -d
    } else {
        d
    }
}

/// The allowed interval closest to a number of seconds.
pub fn snap_interval(x: Double) -> (h: u32)
    requires
        x.within(exp_bound()),
    ensures
        closest(h, x@),
{
    if x.mant <= 0 || x.exp < -60 {
        proof {
            lemma_short(x@);
        }
        return 5;
    }
    if x.exp >= 0 {
        proof {
            lemma_long(x@);
        }
        return 30000;
    }
    let k: u32 = (-x.exp) as u32;
    let mut scale: u128 = 1;
    let mut i: u32 = 0;
    proof {
        vstd::arithmetic::power2::lemma2_to64();
        vstd::arithmetic::power2::lemma2_to64_rest();
    }
    while i < k
        invariant
            i <= k <= 60,
            scale == pow2(i as nat),
            scale <= 0x1000_0000_0000_0000,
        decreases k - i,
    {
        proof {
            vstd::arithmetic::power2::lemma_pow2_unfold((i + 1) as nat);
            vstd::arithmetic::power2::lemma2_to64_rest();
            if i + 1 < 60 {
                lemma_pow2_strictly_increases((i + 1) as nat, 60);
            }
        }
        scale = 2 * scale;
        i = i + 1;
    }
    let mut best: u32 = 5;
    let mut least: i128 = distance_of(5, x.mant, scale);
    proof {
        assert(intervals()[0] == 5);
    }
    let mut j: usize = 1;
    while j < 16
        invariant
            1 <= j <= 16,
            x.exp < 0,
            0 < x.mant < two53(),
            scale == pow2((-x.exp) as nat),
            scale <= 0x1000_0000_0000_0000,
            allowed(best),
            least == distance(best, x@),
            forall|i: int|
                0 <= i < j ==> {
                    let other = #[trigger] intervals()[i];
                    best <= intervals()[j - 1] && (least < distance(other, x@) || (least
                        == distance(other, x@) && best <= other))
                },
        decreases 16 - j,
    {
        let h = interval_at(j);
        let d = distance_of(h, x.mant, scale);
        proof {
            lemma_intervals_grow(j - 1, j as int);
        }
        if d < least {
            best = h;
            least = d;
        }
        j = j + 1;
    }
    best
}

/// Whether `h` hundredths is the interval for what was asked for: the closest
/// one, and the first one if all are equally far away.
pub open spec fn suits(h: u32, request: Number) -> bool {
    match request {
        Number::Finite(x) => closest(h, x@),
        Number::Infinite => h == 5,
        Number::NegativeInfinite => h == 5,
        Number::NotANumber => false,
    }
}

/// The interval for a number of seconds that was asked for; none if that is not
/// a number.
pub fn choose_interval(request: Number) -> (r: Option<u32>)
    requires
        request matches Number::Finite(x) ==> x.within(exp_bound()),
    ensures
        match r {
            Some(h) => suits(h, request) && allowed(h),
            None => request is NotANumber,
        },
{
    proof {
        assert(intervals()[0] == 5);
    }
    match request {
        Number::Finite(x) => Some(snap_interval(x)),
        Number::Infinite => Some(5),
        Number::NegativeInfinite => Some(5),
        Number::NotANumber => None,
    }
}

proof fn lemma_short(x: Dyadic)
    requires
        crate::double::normal(x),
        x.mant <= 0 || x.exp < -60,
    ensures
        closest(5, x),
{
    assert(intervals()[0] == 5);
    assert forall|i: int| 0 <= i < 16 implies {
        let other = #[trigger] intervals()[i];
        distance(5, x) < distance(other, x) || (distance(5, x) == distance(other, x) && 5 <= other)
    } by {
        let o = intervals()[i];
        if x.exp >= 0 {
            lemma_pow2_pos(x.exp as nat);
            let p = pow2(x.exp as nat);
            assert(x.mant * p <= 0) by (nonlinear_arith)
                requires
                    x.mant <= 0,
                    p > 0,
            ;
        } else {
            let p = pow2((-x.exp) as nat);
            lemma_pow2_pos((-x.exp) as nat);
            assert(5 * p <= o * p) by (nonlinear_arith)
                requires
                    5 <= o,
                    p > 0,
            ;
            if o > 5 {
                assert(5 * p < o * p) by (nonlinear_arith)
                    requires
                        5 < o,
                        p > 0,
                ;
            }
            if x.mant > 0 {
                lemma_pow2_strictly_increases(60, (-x.exp) as nat);
                vstd::arithmetic::power2::lemma2_to64_rest();
            }
        }
    }
}

proof fn lemma_long(x: Dyadic)
    requires
        crate::double::normal(x),
        x.mant > 0,
        x.exp >= 0,
    ensures
        closest(30000, x),
{
    let p = pow2(x.exp as nat);
    lemma_pow2_pos(x.exp as nat);
    assert(x.mant * p >= two52()) by (nonlinear_arith)
        requires
            x.mant >= two52(),
            p >= 1,
    ;
    assert(intervals()[15] == 30000);
}

/// An interval in seconds.
pub fn format_interval(h: u32) -> (s: String)
    ensures
        s@ == interval_text(h),
{
    let mut s = String::new();
    push_number(&mut s, (h / 100) as u64);
    if h % 100 != 0 {
        s.append(".");
        push_number(&mut s, (h / 10 % 10) as u64);
        if h % 10 != 0 {
            push_number(&mut s, (h % 10) as u64);
        }
    }
    s.append("s");
    proof {
        assert(s@ =~= interval_text(h));
    }
    s
}

/// What the command line asks for.
pub struct Options {
    /// The text behind the last option that sets the interval.
    pub interval: Option<String>,
    pub no_color: bool,
}

/// The options from word `i` on, after what the words before it asked for.
pub open spec fn options(
    args: Seq<Seq<char>>,
    i: int,
    interval: Option<Seq<char>>,
    no_color: bool,
) -> (Option<Seq<char>>, bool)
    decreases args.len() - i,
{
    if i < 0 || i >= args.len() {
        (interval, no_color)
    } else if args[i] == "-i"@ || args[i] == "--interval"@ {
        if i + 1 < args.len() {
            options(args, i + 2, Some(args[i + 1]), no_color)
        } else {
            (interval, no_color)
        }
    } else {
        options(args, i + 1, interval, no_color || args[i] == "--no-color"@)
    }
}

/// Reads the options of a command line, whose first word is the name of the
/// program.
pub fn parse_args(args: &Vec<String>) -> (r: Options)
    ensures
        (match r.interval {
            Some(s) => Some(s@),
            None => None,
        }, r.no_color) == options(strings(args@), 1, None, false),
{
    let ghost all = strings(args@);
    let short = chars_of("-i");
    let long = chars_of("--interval");
    let plain = chars_of("--no-color");
    let mut interval: Option<String> = None;
    let mut no_color = false;
    let mut i: usize = 1;
    while i < args.len()
        invariant
            1 <= i,
            all == strings(args@),
            short@ == "-i"@,
            long@ == "--interval"@,
            plain@ == "--no-color"@,
            options(
                all,
                i as int,
                match interval {
                    Some(s) => Some(s@),
                    None => None,
                },
                no_color,
            ) == options(all, 1, None, false),
        decreases args.len() - i,
    {
        let word = chars_of(args[i].as_str());
        proof {
            assert(all[i as int] == word@);
        }
        if same(&word, &short) || same(&word, &long) {
            if args.len() - i > 1 {
                proof {
                    assert(all[i + 1] == args@[i + 1]@);
                }
                interval = Some(args[i + 1].clone());
                i = i + 1;
            } else {
                return Options { interval, no_color };
            }
        } else if same(&word, &plain) {
            no_color = true;
        }
        i = i + 1;
    }
    Options { interval, no_color }
}

// Laws

/// The allowed intervals are 0.05, 0.1, 0.25, 0.5, 1, 2, 3, 5, 10, 15, 20 and 30
/// seconds and 1, 2, 3 and 5 minutes.
pub proof fn lemma_allowed(h: u32)
    ensures
        allowed(h) <==> (h == 5 || h == 10 || h == 25 || h == 50 || h == 100 || h == 200 || h == 300
            || h == 500 || h == 1000 || h == 1500 || h == 2000 || h == 3000 || h == 6000 || h
            == 12000 || h == 18000 || h == 30000),
{
    let s = intervals();
    assert(s[0] == 5 && s[1] == 10 && s[2] == 25 && s[3] == 50 && s[4] == 100 && s[5] == 200
        && s[6] == 300 && s[7] == 500 && s[8] == 1000 && s[9] == 1500 && s[10] == 2000 && s[11]
        == 3000 && s[12] == 6000 && s[13] == 12000 && s[14] == 18000 && s[15] == 30000);
    assert(s.len() == 16);
}

/// The interval for a number of seconds is an allowed one, and no allowed one is
/// closer; of two that are equally close it is the shorter one.
pub proof fn lemma_snapped(h: u32, other: u32, x: Dyadic)
    requires
        closest(h, x),
        allowed(other),
    ensures
        allowed(h),
        x.exp >= 0 ==> {
            let n = 100 * (x.mant * pow2(x.exp as nat));
            let a = if h <= n {
                n - h
            } else {
                h - n
            };
            let b = if other <= n {
                n - other
            } else {
                other - n
            };
            a < b || (a == b && h <= other)
        },
        x.exp < 0 ==> {
            let p = pow2((-x.exp) as nat);
            let n = 100 * x.mant;
            let a = if h * p <= n {
                n - h * p
            } else {
                h * p - n
            };
            let b = if other * p <= n {
                n - other * p
            } else {
                other * p - n
            };
            a < b || (a == b && h <= other)
        },
{
    let i = intervals().index_of(other);
    assert(intervals()[i] == other);
}

/// Whether an option that sets the interval stands at a place.
pub open spec fn sets_interval(args: Seq<Seq<char>>, i: int) -> bool {
    args[i] == "-i"@ || args[i] == "--interval"@
}

/// Without an option that sets the interval none is set, and the colours are off
/// exactly if the option that turns them off is among the others.
pub proof fn lemma_no_interval_set(
    args: Seq<Seq<char>>,
    i: int,
    interval: Option<Seq<char>>,
    no_color: bool,
)
    requires
        0 <= i <= args.len(),
        forall|k: int| i <= k < args.len() ==> !sets_interval(args, k),
    ensures
        options(args, i, interval, no_color).0 == interval,
        options(args, i, interval, no_color).1 == (no_color || exists|k: int|
            i <= k < args.len() && #[trigger] args[k] == "--no-color"@),
    decreases args.len() - i,
{
    if i < args.len() {
        assert(!sets_interval(args, i));
        let n = no_color || args[i] == "--no-color"@;
        lemma_no_interval_set(args, i + 1, interval, n);
        if exists|k: int| i <= k < args.len() && #[trigger] args[k] == "--no-color"@ {
            let k = choose|k: int| i <= k < args.len() && #[trigger] args[k] == "--no-color"@;
            if k > i {
                assert(i + 1 <= k < args.len() && args[k] == "--no-color"@);
            }
        }
    }
}

/// The interval is what follows the option that sets it.
pub proof fn lemma_interval_set(
    args: Seq<Seq<char>>,
    i: int,
    at: int,
    interval: Option<Seq<char>>,
    no_color: bool,
)
    requires
        0 <= i <= at < args.len() - 1,
        sets_interval(args, at),
        forall|k: int| i <= k < args.len() && k != at && k != at + 1 ==> !sets_interval(args, k),
    ensures
        options(args, i, interval, no_color).0 == Some(args[at + 1]),
        options(args, i, interval, no_color).1 == (no_color || exists|k: int|
            i <= k < args.len() && k != at && k != at + 1 && #[trigger] args[k] == "--no-color"@),
    decreases at - i,
{
    if i < at {
        assert(!sets_interval(args, i));
        let n = no_color || args[i] == "--no-color"@;
        lemma_interval_set(args, i + 1, at, interval, n);
        if exists|k: int|
            i <= k < args.len() && k != at && k != at + 1 && #[trigger] args[k] == "--no-color"@ {
            let k = choose|k: int|
                i <= k < args.len() && k != at && k != at + 1 && #[trigger] args[k]
                    == "--no-color"@;
            if k > i {
                assert(i + 1 <= k < args.len() && args[k] == "--no-color"@);
            }
        }
    } else {
        lemma_no_interval_set(args, at + 2, Some(args[at + 1]), no_color);
        assert(!(args[at] == "--no-color"@)) by {
            reveal_strlit("-i");
            reveal_strlit("--interval");
            reveal_strlit("--no-color");
            assert("--interval"@[2] != "--no-color"@[2]);
            assert("-i"@.len() != "--no-color"@.len());
        }
        if exists|k: int|
            i <= k < args.len() && k != at && k != at + 1 && #[trigger] args[k] == "--no-color"@ {
            let k = choose|k: int|
                i <= k < args.len() && k != at && k != at + 1 && #[trigger] args[k]
                    == "--no-color"@;
            assert(at + 2 <= k < args.len() && args[k] == "--no-color"@);
        }
    }
}

/// An interval is shown in seconds: with as many decimals as it needs.
pub proof fn lemma_interval_shown(h: u32)
    ensures
        h % 100 == 0 ==> interval_text(h) == decimal((h / 100) as nat) + "s"@,
        h < 100 && 0 < h % 10 ==> interval_text(h) == "0."@ + decimal((h / 10) as nat) + decimal(
            (h % 10) as nat,
        ) + "s"@,
        h < 100 && h % 10 == 0 && h > 0 ==> interval_text(h) == "0."@ + decimal((h / 10) as nat)
            + "s"@,
{
    reveal_strlit("0.");
    reveal_strlit(".");
    assert(decimal(0) =~= seq!['0']);
    assert(decimal(0) + "."@ =~= "0."@);
}

} // verus!
