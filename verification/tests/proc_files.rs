//! What is read from the files below `/proc`.

use jtop::procfs::{
    build_user_map, first_field, parse_cmdline, parse_loadavg, parse_smaps_rollup, parse_stat,
    parse_status, read_cpu_times_buf, read_meminfo_buf, read_meminfo_small, Memory,
};

#[test]
fn meminfo_entries() {
    let m = read_meminfo_buf("MemTotal:       16303428 kB\nMemFree: 5 kB\nBad line\nX: y\nMemFree: 6\n");
    assert_eq!(m.get("MemTotal"), Some(16303428));
    assert_eq!(m.get("MemFree"), Some(6));
    assert_eq!(m.get("X"), None);
    assert_eq!(m.get("Bad line"), None);
    assert_eq!(m.get_or("SwapTotal", 3), 3);
    assert_eq!(m.get_or("MemFree", 3), 6);
}

#[test]
fn small_meminfo_stops_after_4096_bytes() {
    let mut text = "MemTotal: 1 kB\n".to_string();
    text.push_str(&"#".repeat(4096 - text.len() - 1));
    text.push('\n');
    text.push_str("SwapTotal: 2 kB\n");
    let m = read_meminfo_small(&text);
    assert_eq!(m.get("MemTotal"), Some(1));
    assert_eq!(m.get("SwapTotal"), None);
    assert_eq!(read_meminfo_buf(&text).get("SwapTotal"), Some(2));
}

#[test]
fn small_meminfo_counts_the_bytes_of_each_character() {
    let head = "MemTotal: 1 kB\n";
    let fill = |c: &str, n: usize| {
        let mut text = head.to_string();
        text.push_str(&c.repeat(n));
        text.push_str("\nSwapTotal: 2 kB\n");
        text
    };
    for (c, width) in [("#", 1), ("\u{e9}", 2), ("\u{20ac}", 3), ("\u{1f600}", 4)] {
        let room = (4096 - head.len()) / width;
        let whole = read_meminfo_small(&fill(c, room - 20));
        assert_eq!(whole.get("MemTotal"), Some(1));
        assert_eq!(whole.get("SwapTotal"), Some(2));
        let cut = read_meminfo_small(&fill(c, room));
        assert_eq!(cut.get("MemTotal"), Some(1));
        assert_eq!(cut.get("SwapTotal"), None);
    }
    // A number that the limit divides is read as far as it goes.
    let mut text = "\u{e9}".repeat(2043);
    text.push_str("\nX: 56 kB\n");
    assert_eq!(text.find('6'), Some(4091));
    text.insert_str(0, "1234\n");
    assert_eq!(read_meminfo_small(&text).get("X"), Some(5));
    assert_eq!(read_meminfo_buf(&text).get("X"), Some(56));
}

#[test]
fn cpu_times_of_the_machine() {
    assert_eq!(
        read_cpu_times_buf("intr 5\ncpu  10 20 30 40 50 x 60\ncpu0 1 1 1 1\n"),
        (210, 40)
    );
    assert_eq!(read_cpu_times_buf("cpu  1 2 3\n"), (0, 0));
    assert_eq!(read_cpu_times_buf("cpu0 1 2 3 4\n"), (0, 0));
    assert_eq!(read_cpu_times_buf(""), (0, 0));
}

#[test]
fn users_by_number() {
    let m = build_user_map("root:x:0:0:root:/root:/bin/sh\nbad\na:b:c:d\njo:x:1000:1000::/home/jo\nroot2:x:0:0\n");
    assert_eq!(m.len(), 2);
    assert_eq!(m[&0], "root2");
    assert_eq!(m[&1000], "jo");
}

#[test]
fn stat_of_a_process() {
    let st = parse_stat("42 (a (b) c) S 1 42 42 0 -1 4194560 1 2 3 4 15 16 0 0 20").unwrap();
    assert_eq!(st.state, 'S');
    assert_eq!(st.utime, 15);
    assert_eq!(st.stime, 16);
    assert_eq!(st.name, "a (b) c");
    assert!(parse_stat("42 (short) S 1 2 3").is_none());
    assert!(parse_stat("no brackets at all").is_none());
    assert!(parse_stat("42 (x)").is_none());
    let odd = parse_stat("1 (k) R a b c d e f g h i j bad 7 8").unwrap();
    assert_eq!((odd.state, odd.utime, odd.stime), ('R', 0, 7));
}

#[test]
fn status_of_a_process() {
    assert_eq!(parse_status("Name:\tx\nPPid:\t77\nUid:\t1000\t1\t2\t3\n"), (77, 1000));
    assert_eq!(parse_status("Name:\tx\nPPid:\tx\n"), (1, 0));
    assert_eq!(parse_status(""), (1, 0));
    assert_eq!(parse_status("PPid: 5\nPPid: 6\nUid: 4294967296\n"), (5, 0));
}

#[test]
fn unique_memory_is_private_clean_and_dirty() {
    let text = "00400000-7ff rollup\nRss: 100 kB\nPss: 60 kB\nPss_Dirty: 7 kB\nPrivate_Clean: 12 kB\nPrivate_Dirty: 30 kB\nSwap: 4 kB\nSwapPss: 9 kB\n";
    assert_eq!(
        parse_smaps_rollup(text),
        Memory { pss_kb: 60, uss_kb: 42, rss_kb: 100, swap_kb: 4 }
    );
    assert_eq!(
        parse_smaps_rollup("Rss:\nPss: x\n"),
        Memory { pss_kb: 0, uss_kb: 0, rss_kb: 0, swap_kb: 0 }
    );
}

#[test]
fn command_lines_have_spaces_between_arguments() {
    assert_eq!(parse_cmdline("/bin/sh\0-c\0echo hi\0"), "/bin/sh -c echo hi");
    assert_eq!(parse_cmdline("\0\0"), "");
    assert_eq!(parse_cmdline(&"x".repeat(3000)).len(), 2040);
}

#[test]
fn load_and_first_words() {
    assert_eq!(parse_loadavg("0.10 0.20 0.30 1/200 999\n"), "0.10 0.20 0.30");
    assert_eq!(parse_loadavg("0.10"), "0.10");
    assert_eq!(parse_loadavg(""), "");
    assert_eq!(first_field(" 123.45 6\n"), Some("123.45".to_string()));
    assert_eq!(first_field("  \n"), None);
}
