//! Texts, numbers in them, escape sequences and file names.

use jtop::ansi::{
    ansi_bg_rgb, ansi_fg_rgb, ansi_reset, bold_color_rgb, bold_text, color_text_rgb, visible_len,
};
use jtop::format::{format_memory, format_percent, format_uptime, pad_cell};
use jtop::double::{Double, Number};
use jtop::paths::{build_proc_path, build_task_path, write_i32};
use jtop::text::{
    chars_of, contains, fields_of, lines_of, parse_i32, parse_number, piece_of, precedes,
    signed_chars, starts_with, string_of, trim,
};

fn chars(s: &str) -> Vec<char> {
    s.chars().collect()
}

fn text(v: &Vec<char>) -> String {
    v.iter().collect()
}

fn texts(v: &Vec<Vec<char>>) -> Vec<String> {
    v.iter().map(text).collect()
}

fn double(x: f64) -> Double {
    match Number::from_bits(x.to_bits()) {
        Number::Finite(d) => d,
        _ => panic!("not finite"),
    }
}

#[test]
fn lines_end_with_either_terminator() {
    assert_eq!(texts(&lines_of(&chars("a\nb\r\n\nc"))), vec!["a", "b", "", "c"]);
    assert_eq!(texts(&lines_of(&chars("a\n"))), vec!["a"]);
    assert_eq!(texts(&lines_of(&chars("a\r"))), vec!["a\r"]);
    assert!(lines_of(&chars("")).is_empty());
    for s in ["", "x", "\n", "\r\n", "a\r\nb", "a\n\n", "\r", "a\nb\r"] {
        let want: Vec<String> = s.lines().map(|l| l.to_string()).collect();
        assert_eq!(texts(&lines_of(&chars(s))), want);
    }
}

#[test]
fn fields_are_the_words() {
    for s in ["", " ", "a", " a  b\tc\n", "a\u{a0}b", "\u{3000}x\u{2003}y", "a\u{200b}b"] {
        let want: Vec<String> = s.split_whitespace().map(|w| w.to_string()).collect();
        assert_eq!(texts(&fields_of(&chars(s))), want);
        assert_eq!(text(&trim(&chars(s))), s.trim());
    }
}

#[test]
fn white_space_is_that_of_unicode() {
    for n in 0u32..0x11_0000 {
        if let Some(c) = char::from_u32(n) {
            assert_eq!(jtop::text::is_space_char(c), c.is_whitespace());
        }
    }
}

#[test]
fn numbers_are_read_as_the_standard_library_reads_them() {
    for s in [
        "", "0", "7", "+7", "-7", "007", "+", "-", "12a", " 1", "1 ", "18446744073709551615",
        "18446744073709551616", "2147483647", "2147483648", "-2147483648", "-2147483649", "++1",
        "4294967295", "4294967296", "99999999999999999999999999",
    ] {
        assert_eq!(parse_number(&chars(s), u64::MAX), s.parse::<u64>().ok());
        assert_eq!(
            parse_number(&chars(s), u32::MAX as u64),
            s.parse::<u32>().ok().map(|n| n as u64)
        );
        assert_eq!(parse_i32(&chars(s)), s.parse::<i32>().ok());
    }
}

#[test]
fn integers_are_written_and_read_back() {
    for n in [0, 1, -1, 9, 10, 1234567890, i32::MAX, i32::MIN] {
        assert_eq!(text(&signed_chars(n)), n.to_string());
        assert_eq!(parse_i32(&signed_chars(n)), Some(n));
    }
}

#[test]
fn pieces_and_occurrences() {
    let line = chars("root:x:0:0:root:/root");
    assert_eq!(piece_of(&line, ':', 0).map(|p| text(&p)), Some("root".to_string()));
    assert_eq!(piece_of(&line, ':', 2).map(|p| text(&p)), Some("0".to_string()));
    assert_eq!(piece_of(&line, ':', 6), None);
    assert!(contains(&chars("firefox --x"), &chars("fox")));
    assert!(contains(&chars("abc"), &chars("")));
    assert!(!contains(&chars("ab"), &chars("abc")));
    assert!(contains(&chars("aab"), &chars("ab")));
    assert!(starts_with(&chars("cpu  1"), &chars("cpu ")));
    assert!(!starts_with(&chars("cpu0 1"), &chars("cpu ")));
    assert_eq!(string_of(&chars_of("déjà")), "déjà");
}

#[test]
fn order_of_names_ignores_the_case_of_ascii() {
    let words = ["", "a", "A", "ab", "B", "é", "É", "zz", "_", "1", "Ab"];
    for x in words {
        for y in words {
            let want = x
                .chars()
                .map(|c| c.to_ascii_lowercase())
                .lt(y.chars().map(|c| c.to_ascii_lowercase()));
            assert_eq!(precedes(&chars(x), &chars(y)), want);
        }
    }
}

#[test]
fn escape_sequences() {
    assert_eq!(ansi_fg_rgb(1, 20, 255), "\x1b[38;2;1;20;255m");
    assert_eq!(ansi_bg_rgb(0, 9, 100), "\x1b[48;2;0;9;100m");
    assert_eq!(ansi_reset(), "\x1b[0m");
    assert_eq!(color_text_rgb(1, 2, 3, "x"), "\x1b[38;2;1;2;3mx\x1b[39m");
    assert_eq!(bold_text("x"), "\x1b[1mx\x1b[22m");
    assert_eq!(
        bold_color_rgb(1, 2, 3, "x"),
        "\x1b[1m\x1b[38;2;1;2;3mx\x1b[39m\x1b[22m"
    );
}

fn shown(s: &str) -> usize {
    let mut len = 0;
    let mut it = s.chars().peekable();
    while let Some(c) = it.next() {
        if c == '\x1b' && it.next_if_eq(&'[').is_some() {
            while it.peek().map_or(false, |&d| d != 'm') {
                it.next();
            }
            it.next();
        } else {
            len += 1;
        }
    }
    len
}

#[test]
fn visible_length_leaves_out_sequences() {
    for s in [
        "", "abc", "\x1b[1mabc\x1b[22m", "\x1b", "\x1b\x1b[1mx", "\x1bx", "\x1b[", "\x1b[12", "a\x1b[mb",
        "\x1b[38;2;1;2;3mé\x1b[39m", "\x1b\x1b\x1b", "\x1b[\x1b[mz", "│  └─ x",
    ] {
        assert_eq!(visible_len(s), shown(s));
    }
}

#[test]
fn styles_keep_the_width_of_any_text() {
    for s in ["", "ab", "ab\x1b", "\x1b\x1b", "ab\x1b[3", "\x1b[", "\x1b[1mx"] {
        let n = visible_len(s);
        for styled in [
            bold_text(s),
            color_text_rgb(1, 22, 133, s),
            bold_color_rgb(1, 22, 133, s),
        ] {
            assert_eq!(visible_len(&styled), n);
            assert_eq!(visible_len(&(styled + "xyz")), n + 3);
        }
        assert_eq!(visible_len(&pad_cell(s, 9, "right")), 9);
    }
    for s in ["", "ab", "ab\x1b", "\x1b\x1b", "\x1b[1mx"] {
        assert_eq!(visible_len(&pad_cell(s, 9, "left")), 9);
    }
    assert_eq!(visible_len(&pad_cell("ab\x1b[3", 9, "left")), 2);
    assert_eq!(visible_len(&pad_cell("ab\x1b[3", 2, "left")), 2);
}

#[test]
fn cells_are_filled_to_their_width() {
    assert_eq!(pad_cell("ab", 5, "right"), "   ab");
    assert_eq!(pad_cell("ab", 5, "left"), "ab   ");
    assert_eq!(pad_cell("abcdef", 5, "right"), "abcdef");
    assert_eq!(pad_cell("\x1b[1mab\x1b[22m", 3, "left"), "\x1b[1mab\x1b[22m ");
    assert_eq!(visible_len(&pad_cell("\x1b[1mab\x1b[22m", 9, "right")), 9);
}

#[test]
fn amounts_of_memory() {
    assert_eq!(format_memory(5, true), "---");
    assert_eq!(format_memory(0, false), "0 KiB");
    assert_eq!(format_memory(1023, false), "1023 KiB");
    assert_eq!(format_memory(1024, false), "1.00 MiB");
    assert_eq!(format_memory(1536, false), "1.50 MiB");
    assert_eq!(format_memory(10 * 1024, false), "10.0 MiB");
    assert_eq!(format_memory(100 * 1024, false), "100 MiB");
    assert_eq!(format_memory(1024 * 1024, false), "1024 MiB");
    assert_eq!(format_memory(100 * 1024 + 512, false), "101 MiB");
}

#[test]
fn percentages() {
    for x in [0.0, 0.04, 0.05, 0.15, 0.25, 5.55, 12.34, 99.95, 100.0, 1234.5, -0.04, -3.25, 1e-300, 1e20] {
        assert_eq!(format_percent(double(x)), format!("{:5.1}", x));
    }
}

#[test]
fn uptime_in_years_days_hours_minutes_and_seconds() {
    assert_eq!(format_uptime(0), "0y 0d 0h 0m 0s");
    assert_eq!(format_uptime(31536000 + 2 * 86400 + 3 * 3600 + 4 * 60 + 5), "1y 2d 3h 4m 5s");
    assert_eq!(format_uptime(31535999), "0y 364d 23h 59m 59s");
}

#[test]
fn numbers_of_the_machine_format() {
    assert_eq!(Number::from_bits(f64::INFINITY.to_bits()), Number::Infinite);
    assert_eq!(Number::from_bits(f64::NEG_INFINITY.to_bits()), Number::NegativeInfinite);
    assert_eq!(Number::from_bits(f64::NAN.to_bits()), Number::NotANumber);
    for x in [0.0, 1.0, -2.5, 0.1, 1e300, 5e-324, f64::MAX, f64::MIN_POSITIVE] {
        let d = double(x);
        let back = if d.exp < -1000 {
            d.mant as f64 * (2.0f64).powi(-1000) * (2.0f64).powi(d.exp + 1000)
        } else {
            d.mant as f64 * (2.0f64).powi(d.exp)
        };
        assert_eq!(back, x);
    }
    assert_eq!(double(-0.0), Double { mant: 0, exp: 0 });
    for x in [0.0, 0.99, 1.0, 123456.789, -5.0, 1e30, f64::INFINITY, f64::NEG_INFINITY, f64::NAN] {
        assert_eq!(Number::from_bits(x.to_bits()).to_whole(), x as u64);
    }
}

#[test]
fn decimal_digits_in_a_buffer() {
    let mut buf = [b'#'; 12];
    assert_eq!(write_i32(0, &mut buf), 1);
    assert_eq!(&buf[..2], b"0#");
    assert_eq!(write_i32(2147483647, &mut buf), 10);
    assert_eq!(&buf, b"2147483647##");
    assert_eq!(write_i32(105, &mut buf), 3);
    assert_eq!(&buf, b"1057483647##");
}

#[test]
fn file_names_end_in_a_zero_byte() {
    let mut buf = [b'#'; 128];
    let n = build_proc_path(12345, "/stat", &mut buf);
    assert_eq!(n, 16);
    assert_eq!(&buf[..18], b"/proc/12345/stat\0#");
    let n = build_task_path(7, 89, "/schedstat", &mut buf);
    assert_eq!(&buf[..n], b"/proc/7/task/89//schedstat");
    assert_eq!(buf[n], 0);
    let n = build_task_path(2147483647, 2147483647, "/schedstat", &mut buf);
    assert!(n < 128);
}
