//! Colours and sizes against the same formulas in hardware arithmetic.

use jtop::color::{color_cpu, color_pss, color_rss, color_swap, hsv_to_rgb, lerp_color};
use jtop::double::Double;
use jtop::format::{format_memory, format_percent};

fn lerp(c1: (u8, u8, u8), c2: (u8, u8, u8), t: f64) -> (u8, u8, u8) {
    let t = t.clamp(0.0, 1.0);
    (
        (c1.0 as f64 + (c2.0 as f64 - c1.0 as f64) * t).round() as u8,
        (c1.1 as f64 + (c2.1 as f64 - c1.1 as f64) * t).round() as u8,
        (c1.2 as f64 + (c2.2 as f64 - c1.2 as f64) * t).round() as u8,
    )
}

fn hsv(h: f64, s: f64, v: f64) -> (u8, u8, u8) {
    let h = h.rem_euclid(360.0) / 60.0;
    let c = v * s;
    let x = c * (1.0 - (h % 2.0 - 1.0).abs());
    let m = v - c;
    let (r, g, b) = match h.trunc() as i32 {
        0 => (c, x, 0.0),
        1 => (x, c, 0.0),
        2 => (0.0, c, x),
        3 => (0.0, x, c),
        4 => (x, 0.0, c),
        _ => (c, 0.0, x),
    };
    (
        ((r + m) * 255.0).round() as u8,
        ((g + m) * 255.0).round() as u8,
        ((b + m) * 255.0).round() as u8,
    )
}

fn pss(size: u64, limit_red: u64) -> (u8, u8, u8) {
    let pale: u64 = 64 << 20;
    let full: u64 = 512 << 20;
    if size == 0 {
        return (0, 255, 0);
    }
    if size >= limit_red {
        return (255, 0, 0);
    }
    if size <= pale {
        return lerp((0, 255, 0), (255, 255, 230), size as f64 / pale as f64);
    }
    if size <= full {
        return lerp(
            (255, 255, 230),
            (255, 255, 0),
            (size - pale) as f64 / (full - pale) as f64,
        );
    }
    lerp(
        (255, 255, 0),
        (255, 0, 0),
        (size - full) as f64 / (limit_red - full) as f64,
    )
}

fn rss(size: u64, total: u64) -> (u8, u8, u8) {
    let m: u64 = 1 << 20;
    let (l1, l2, l3, l4, l5, l6) = (8 * m, 10 * m, 128 * m, 136 * m, 1024 * m, 1072 * m);
    let l7 = (total as f64 * 0.97) as u64;
    if size <= l1 {
        hsv((size as f64 / l1 as f64) * 360.0, 1.0, 1.0)
    } else if size <= l2 {
        let t = (size - l1) as f64 / (l2 - l1) as f64;
        hsv(0.0, 1.0 - 0.2 * t, 1.0)
    } else if size <= l3 {
        let t = (size - l2) as f64 / (l3 - l2) as f64;
        hsv(t * 360.0, 0.8, 1.0)
    } else if size <= l4 {
        let t = (size - l3) as f64 / (l4 - l3) as f64;
        hsv(0.0, 0.8 - 0.3 * t, 1.0)
    } else if size <= l5 {
        let t = (size - l4) as f64 / (l5 - l4) as f64;
        hsv(t * 360.0, 0.5, 1.0)
    } else if size <= l6 {
        let t = (size - l5) as f64 / (l6 - l5) as f64;
        hsv(0.0, 0.5 - 0.3 * t, 1.0)
    } else if size <= l7 {
        let t = (size - l6) as f64 / (l7 - l6) as f64;
        hsv(t * 360.0, 0.2, 1.0)
    } else if size <= total {
        lerp(
            (255, 204, 204),
            (128, 128, 128),
            (size - l7) as f64 / (total - l7) as f64,
        )
    } else {
        (128, 128, 128)
    }
}

fn swap(size: u64, total: u64) -> (u8, u8, u8) {
    let pink: u64 = 1 << 30;
    if size >= total {
        return (255, 0, 0);
    }
    if size >= pink {
        return lerp(
            (255, 128, 128),
            (255, 0, 0),
            (size - pink) as f64 / (total - pink) as f64,
        );
    }
    if size > 0 {
        return lerp((255, 255, 255), (255, 128, 128), size as f64 / pink as f64);
    }
    (255, 255, 255)
}

fn cpu(percent: f64) -> (u8, u8, u8) {
    let p = percent.clamp(0.0, 100.0) / 100.0;
    if p < 0.5 {
        lerp((0, 255, 0), (255, 255, 0), p * 2.0)
    } else {
        lerp((255, 255, 0), (255, 0, 0), (p - 0.5) * 2.0)
    }
}

fn memory(kib: u64) -> String {
    if kib == 0 {
        return "0 KiB".to_string();
    }
    let mib = kib as f64 / 1024.0;
    if mib >= 100.0 {
        format!("{} MiB", mib.round() as u64)
    } else if mib >= 10.0 {
        format!("{:.1} MiB", mib)
    } else if mib >= 1.0 {
        format!("{:.2} MiB", mib)
    } else {
        format!("{} KiB", kib)
    }
}

/// A fixed sequence of numbers of all sizes.
struct Numbers(u64);

impl Numbers {
    fn draw(&mut self) -> u64 {
        self.0 ^= self.0 << 13;
        self.0 ^= self.0 >> 7;
        self.0 ^= self.0 << 17;
        self.0
    }

    fn sized(&mut self) -> u64 {
        let shift = self.draw() % 64;
        self.draw() >> shift
    }
}

fn exact(x: f64) -> Double {
    let mut scaled = x;
    let mut exp: i32 = 0;
    while scaled.abs() < 4503599627370496.0 {
        scaled *= 2.0;
        exp -= 1;
    }
    while scaled.abs() >= 9007199254740992.0 {
        scaled /= 2.0;
        exp += 1;
    }
    Double { mant: scaled as i64, exp }
}

#[test]
fn sizes_have_the_colours_of_the_formulas() {
    let mut n = Numbers(0x9e3779b97f4a7c15);
    let mib: u64 = 1 << 20;
    let gib: u64 = 1 << 30;
    for total in [
        16 * gib,
        32 * gib - 4096 * 77,
        8 * gib + 12345,
        gib,
        300 * mib,
        1,
        0,
        u64::MAX,
        u64::MAX / 3,
    ] {
        for _ in 0..1500 {
            let size = n.sized();
            assert_eq!(color_pss(size, total), pss(size, total), "{} {}", size, total);
            assert_eq!(color_rss(size, total), rss(size, total), "{} {}", size, total);
            assert_eq!(color_swap(size, total), swap(size, total), "{} {}", size, total);
        }
    }
    for step in 0..3000u64 {
        let size = step * 531 * 1024 + step % 7;
        let total = 16 * gib - 1000;
        assert_eq!(color_rss(size, total), rss(size, total), "{}", size);
        assert_eq!(color_pss(size, total), pss(size, total), "{}", size);
        assert_eq!(color_swap(size, total), swap(size, total), "{}", size);
    }
}

#[test]
fn ties_have_the_colours_of_the_formulas() {
    let mib: u64 = 1 << 20;
    let total: u64 = 16 << 30;
    for k in 0..2000u64 {
        for size in [
            10 * mib + 59 * (k << 17) / 8,
            136 * mib + 111 * (k << 16) / 8,
            64 * mib + 7 * (k << 18),
            8 * mib + k * 1024,
            k << 14,
            k << 20,
        ] {
            assert_eq!(color_rss(size, total), rss(size, total), "{}", size);
            assert_eq!(color_pss(size, total), pss(size, total), "{}", size);
            assert_eq!(color_swap(size, total), swap(size, total), "{}", size);
        }
    }
}

#[test]
fn memory_reads_as_the_formulas_say() {
    let mut n = Numbers(77);
    for kib in 0..120_000u64 {
        assert_eq!(format_memory(kib, false), memory(kib));
    }
    for _ in 0..4000 {
        let kib = n.sized();
        assert_eq!(format_memory(kib, false), memory(kib), "{}", kib);
    }
    for kib in [
        u64::MAX,
        u64::MAX - 1,
        (1 << 53) + 511,
        (1 << 53) + 1,
        (1 << 53) + 1535,
        (1 << 60) + 12345,
    ] {
        assert_eq!(format_memory(kib, false), memory(kib), "{}", kib);
    }
    assert_eq!(format_memory(123, true), "---");
    assert_eq!(format_memory(0, false), "0 KiB");
    assert_eq!(format_memory(1023, false), "1023 KiB");
    assert_eq!(format_memory(1024, false), "1.00 MiB");
    assert_eq!(format_memory(10240, false), "10.0 MiB");
    assert_eq!(format_memory(102400, false), "100 MiB");
    assert_eq!(format_memory(1024 * 1000 + 512, false), "1001 MiB");
}

#[test]
fn percentages_read_and_shine_as_the_formulas_say() {
    let mut n = Numbers(5);
    for _ in 0..4000 {
        let top = n.sized() as f64;
        let bottom = (n.sized() | 1) as f64;
        let x = top / bottom * 3.0 + 0.001;
        let d = exact(x);
        assert_eq!(format_percent(d), format!("{:5.1}", x));
        assert_eq!(color_cpu(d), cpu(x));
        let e = exact(-x);
        assert_eq!(format_percent(e), format!("{:5.1}", -x));
        assert_eq!(color_cpu(e), cpu(-x));
    }
    for k in 1..2100u32 {
        let x = k as f64 / 20.0;
        assert_eq!(format_percent(exact(x)), format!("{:5.1}", x));
        assert_eq!(color_cpu(exact(x)), cpu(x));
    }
    for x in [1e300, 1e-300, 1.5e18, 2.5e22, 0.25, 0.35, 0.05, 99.95, 100.0] {
        assert_eq!(format_percent(exact(x)), format!("{:5.1}", x));
    }
    assert_eq!(format_percent(Double { mant: 0, exp: 0 }), "  0.0");
}

#[test]
fn arithmetic_rounds_as_the_hardware_does() {
    let mut n = Numbers(123456789);
    for _ in 0..4000 {
        let x = n.sized() as f64 / (n.sized() | 1) as f64 + 1e-9;
        let y = n.sized() as f64 / (n.sized() | 1) as f64 + 1e-9;
        let (a, b) = (exact(x), exact(y));
        assert_eq!(a.plus(b), exact(x + y));
        if x != y {
            assert_eq!(a.minus(b), exact(x - y));
        }
        assert_eq!(a.times(b), exact(x * y));
        assert_eq!(a.over(b), exact(x / y));
        assert_eq!(a.less(b), x < y);
        assert_eq!(a.negate().less(b.negate()), -x < -y);
        assert_eq!(a.rounded(), x.round() as u64);
        assert_eq!(a.truncated(), x as u64);
        if x % y != 0.0 {
            assert_eq!(a.remainder(b), exact(x % y));
            assert_eq!(a.negate().remainder(b), exact(-x % y));
        }
    }
}

#[test]
fn blends_and_hues() {
    let mut n = Numbers(99);
    for _ in 0..2000 {
        let t = n.draw() as f64 / u64::MAX as f64 * 1.4 - 0.2;
        let (from, to) = ((10, 200, 33), (240, 7, 90));
        assert_eq!(lerp_color(from, to, exact(t)), lerp(from, to, t));
        let h = n.draw() as f64 / u64::MAX as f64 * 1000.0 - 500.0;
        let s = (n.draw() % 1001) as f64 / 1000.0 + 1e-6;
        assert_eq!(
            hsv_to_rgb(exact(h), exact(s), exact(0.9)),
            hsv(h, s, 0.9)
        );
    }
    assert_eq!(color_pss(0, 1000), (0, 255, 0));
    assert_eq!(color_pss(1000, 1000), (255, 0, 0));
    assert_eq!(color_swap(0, 1000), (255, 255, 255));
    assert_eq!(color_swap(1000, 1000), (255, 0, 0));
    assert_eq!(color_rss(2001, 2000), hsv(2001.0 / 8388608.0 * 360.0, 1.0, 1.0));
    assert_eq!(color_rss(1 << 40, 1 << 34), (128, 128, 128));
}

#[test]
fn colours_go_in_one_direction() {
    let mib: u64 = 1 << 20;
    let gib: u64 = 1 << 30;
    for limit in [0, 1, 40 * mib, 100 * mib, 700 * mib, gib, gib + 1, 16 * gib, u64::MAX] {
        let mut n = Numbers(limit | 5);
        let mut sizes: Vec<u64> = (0..2000).map(|_| n.sized()).collect();
        sizes.extend([0, 1, 64 * mib, 64 * mib + 1, 512 * mib, 512 * mib + 1, gib - 1, gib, limit]);
        sizes.sort();
        for pair in sizes.windows(2) {
            let (a, b) = (color_pss(pair[0], limit), color_pss(pair[1], limit));
            assert!(a.0 <= b.0 && a.1 >= b.1, "{} {} {}", pair[0], pair[1], limit);
            let (a, b) = (color_swap(pair[0], limit), color_swap(pair[1], limit));
            assert!(a.0 == 255 && a.1 == a.2 && a.1 >= b.1, "{} {} {}", pair[0], pair[1], limit);
        }
    }
    assert_eq!(color_pss(0, 0), (0, 255, 0));
    assert_eq!(color_pss(1, 0), (255, 0, 0));
    assert_eq!(color_swap(0, 0), (255, 0, 0));
    assert_eq!(color_swap(gib, gib + 1), (255, 128, 128));
    assert_eq!(color_swap(gib, 8 * gib), (255, 128, 128));
    assert_eq!(color_swap(gib, gib), (255, 0, 0));
    for step in 0..1200 {
        let p = step as f64 / 10.0 - 10.0;
        let (a, b) = (color_cpu(exact_or_zero(p)), color_cpu(exact_or_zero(p + 0.1)));
        assert!(a.0 <= b.0 && a.1 >= b.1 && a.2 == 0, "{}", p);
    }
    assert_eq!(color_cpu(exact(50.0)), (255, 255, 0));
    assert_eq!(color_cpu(exact(-3.0)), (0, 255, 0));
    assert_eq!(color_cpu(exact(103.0)), (255, 0, 0));
}

fn exact_or_zero(x: f64) -> Double {
    if x == 0.0 {
        Double { mant: 0, exp: 0 }
    } else {
        exact(x)
    }
}

#[test]
fn resident_memory_at_its_limits() {
    let mib: u64 = 1 << 20;
    for total in [0, 1, 500 * mib, 1072 * mib, 1073 * mib, 16 << 30, u64::MAX] {
        assert_eq!(color_rss(0, total), (255, 0, 0));
        assert_eq!(color_rss(8 * mib, total), (255, 0, 0));
        assert_eq!(color_rss(10 * mib, total), (255, 51, 51));
        assert_eq!(color_rss(128 * mib, total), (255, 51, 51));
        assert_eq!(color_rss(136 * mib, total), (255, 128, 128));
        assert_eq!(color_rss(1024 * mib, total), (255, 128, 128));
        assert_eq!(color_rss(1072 * mib, total), (255, 204, 204));
        for size in [3 * mib, 9 * mib, 77 * mib, 130 * mib, 500 * mib, 1050 * mib] {
            assert_eq!(color_rss(size, total), color_rss(size, 4 << 30));
        }
        if total > 1072 * mib {
            assert_eq!(color_rss(total, total), (128, 128, 128));
        }
        for size in [1072 * mib + 1, 1 << 40, u64::MAX] {
            if size >= total {
                assert_eq!(color_rss(size, total), (128, 128, 128));
            }
        }
    }
    let gray_from = ((16u64 << 30) as f64 * 0.97) as u64;
    assert_eq!(color_rss(gray_from, 16 << 30), (255, 204, 204));
    assert_ne!(color_rss(gray_from + (64 << 20), 16 << 30), (255, 204, 204));
}
