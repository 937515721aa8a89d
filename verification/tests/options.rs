//! The update interval and the command line.

use jtop::double::{Double, Number};
use jtop::interval::{
    choose_interval, format_interval, interval_at, longer_interval, parse_args, shorter_interval, snap_interval,
};

const TABLE: [f64; 16] = [
    0.05, 0.1, 0.25, 0.5, 1.0, 2.0, 3.0, 5.0, 10.0, 15.0, 20.0, 30.0, 60.0, 120.0, 180.0, 300.0,
];

fn double(x: f64) -> Double {
    match Number::from_bits(x.to_bits()) {
        Number::Finite(d) => d,
        _ => panic!("not finite"),
    }
}

fn args(words: &[&str]) -> Vec<String> {
    words.iter().map(|w| w.to_string()).collect()
}

#[test]
fn allowed_intervals_stay() {
    for (i, x) in TABLE.iter().enumerate() {
        let h = snap_interval(double(*x));
        assert_eq!(h, interval_at(i));
        assert_eq!(h as f64 / 100.0, *x);
    }
}

#[test]
fn other_intervals_snap_to_the_nearest() {
    for (x, h) in [
        (0.0, 5),
        (-7.0, 5),
        (0.07, 5),
        (0.08, 10),
        (0.2, 25),
        (0.3, 25),
        (0.45, 50),
        (1.4, 100),
        (1.6, 200),
        (4.1, 500),
        (7.0, 500),
        (12.0, 1000),
        (44.0, 3000),
        (46.0, 6000),
        (100.0, 12000),
        (240.1, 30000),
        (1000.0, 30000),
        (1e300, 30000),
        (1e-300, 5),
    ] {
        assert_eq!(snap_interval(double(x)), h);
    }
}

#[test]
fn the_shorter_of_two_equally_close_intervals() {
    for (x, h) in [(0.375, 25), (0.75, 50), (1.5, 100), (2.5, 200), (4.0, 300), (240.0, 18000)] {
        assert_eq!(snap_interval(double(x)), h);
    }
}

#[test]
fn requests_without_a_nearest_interval() {
    assert_eq!(choose_interval(Number::from_bits(f64::INFINITY.to_bits())), Some(5));
    assert_eq!(choose_interval(Number::from_bits(f64::NEG_INFINITY.to_bits())), Some(5));
    assert_eq!(choose_interval(Number::from_bits(f64::NAN.to_bits())), None);
    assert_eq!(choose_interval(Number::from_bits((2.2f64).to_bits())), Some(200));
}

#[test]
fn nearest_interval_agrees_with_hardware() {
    let mut k = 0;
    while k < 32000 {
        let x = k as f64 / 100.0 + 0.001;
        let best = TABLE
            .iter()
            .min_by(|a, b| (**a - x).abs().partial_cmp(&(**b - x).abs()).unwrap())
            .unwrap();
        assert_eq!(snap_interval(double(x)) as f64 / 100.0, *best);
        k += 7;
    }
}

#[test]
fn steps_undo_each_other() {
    for i in 0..16 {
        let h = interval_at(i);
        if i < 15 {
            assert_eq!(longer_interval(h), interval_at(i + 1));
            assert_eq!(shorter_interval(longer_interval(h)), h);
        } else {
            assert_eq!(longer_interval(h), h);
        }
        if i > 0 {
            assert_eq!(shorter_interval(h), interval_at(i - 1));
        } else {
            assert_eq!(shorter_interval(h), h);
        }
    }
    assert_eq!(longer_interval(7), 7);
}

#[test]
fn intervals_as_text() {
    for (i, x) in TABLE.iter().enumerate() {
        assert_eq!(format_interval(interval_at(i)), format!("{}s", x));
    }
}

#[test]
fn options_of_the_command_line() {
    let o = parse_args(&args(&["jtop"]));
    assert!(o.interval.is_none() && !o.no_color);
    let o = parse_args(&args(&["jtop", "-i", "0.5", "--no-color"]));
    assert_eq!(o.interval, Some("0.5".to_string()));
    assert!(o.no_color);
    let o = parse_args(&args(&["jtop", "--interval", "3", "x", "-i", "bad"]));
    assert_eq!(o.interval, Some("bad".to_string()));
    assert!(!o.no_color);
    let o = parse_args(&args(&["jtop", "-i", "4", "-i"]));
    assert_eq!(o.interval, Some("4".to_string()));
    let o = parse_args(&args(&["jtop", "-i", "--no-color"]));
    assert_eq!(o.interval, Some("--no-color".to_string()));
    assert!(!o.no_color);
    let o = parse_args(&args(&["--no-color"]));
    assert!(!o.no_color);
}
