//! Which rows the table holds, and in which order.

use jtop::app::App;
use jtop::double::{Double, Number};
use jtop::filter::{found_in_command_or_pid, found_in_row, needle, node_passes, row_passes};
use jtop::process::ProcInfo;
use jtop::procfs::read_meminfo_buf;

fn double(x: f64) -> Double {
    match Number::from_bits(x.to_bits()) {
        Number::Finite(d) => d,
        _ => panic!("not finite"),
    }
}

fn row(pid: i32, ppid: i32, user: &str, cmd: &str) -> ProcInfo {
    ProcInfo {
        pid,
        tid: pid,
        ppid,
        user: user.to_string(),
        cmd: cmd.to_string(),
        full_cmd: cmd.to_string(),
        pss_kb: 10,
        uss_kb: 10,
        rss_kb: 10,
        swap_kb: 0,
        state: 'S',
        cpu_percent: Double { mant: 0, exp: 0 },
        is_thread: false,
        is_kernel: false,
        tree_depth: 0,
        tree_mask: 0,
        is_last_child: false,
    }
}

fn thread(pid: i32, tid: i32) -> ProcInfo {
    let mut t = row(pid, pid, "jo", "thread");
    t.tid = tid;
    t.is_thread = true;
    t
}

fn app(rows: Vec<ProcInfo>) -> App {
    let mut a = App::new(200, true, Some((120, 30)), &read_meminfo_buf(""), None, None);
    a.raw_data = rows;
    a
}

fn ids(a: &App) -> Vec<i32> {
    a.filtered_raw.iter().map(|p| p.signal_id()).collect()
}

fn places(a: &App) -> Vec<(i32, u8, u32, bool)> {
    a.filtered_raw
        .iter()
        .map(|p| (p.signal_id(), p.tree_depth, p.tree_mask, p.is_last_child))
        .collect()
}

#[test]
fn each_column_orders_the_rows() {
    let mut rows = vec![
        row(5, 1, "bob", "zsh"),
        row(3, 1, "Alice", "bash"),
        row(9, 1, "carol", "Awk"),
    ];
    for (i, p) in rows.iter_mut().enumerate() {
        p.pss_kb = [7, 8, 6][i];
        p.uss_kb = [1, 3, 2][i];
        p.rss_kb = [9, 4, 5][i];
        p.swap_kb = [0, 2, 1][i];
        p.cpu_percent = double([0.5, 99.0, 0.25][i]);
    }
    let want = [
        vec![3, 5, 9],
        vec![3, 5, 9],
        vec![9, 3, 5],
        vec![9, 5, 3],
        vec![5, 9, 3],
        vec![3, 9, 5],
        vec![5, 9, 3],
        vec![9, 5, 3],
    ];
    for col in 0..8 {
        let mut a = app(rows.clone());
        a.sort_col = col;
        a.sort_reverse = false;
        a.apply_filter_and_sort();
        assert_eq!(ids(&a), want[col]);
        a.sort_reverse = true;
        a.apply_filter_and_sort();
        let mut reversed = want[col].clone();
        reversed.reverse();
        assert_eq!(ids(&a), reversed);
    }
}

#[test]
fn equal_rows_keep_their_order() {
    let mut a = app((0..40).map(|i| row(100 - i, 1, "u", "c")).collect());
    a.sort_col = 3;
    a.sort_reverse = false;
    a.apply_filter_and_sort();
    assert_eq!(ids(&a), (0..40).map(|i| 100 - i).collect::<Vec<i32>>());
    a.sort_reverse = true;
    a.apply_filter_and_sort();
    assert_eq!(ids(&a), (0..40).map(|i| 61 + i).collect::<Vec<i32>>());
}

#[test]
fn order_agrees_with_the_standard_sort() {
    let mut x: u64 = 12345;
    let mut rows = Vec::new();
    for i in 0..200 {
        x = x.wrapping_mul(6364136223846793005).wrapping_add(1442695040888963407);
        let mut p = row(i, 1, "u", "c");
        p.pss_kb = (x >> 33) % 20;
        rows.push(p);
    }
    let mut want: Vec<(u64, i32)> = rows.iter().map(|p| (p.pss_kb, p.pid)).collect();
    want.sort_by_key(|w| w.0);
    want.reverse();
    let mut a = app(rows);
    a.apply_filter_and_sort();
    assert_eq!(
        a.filtered_raw.iter().map(|p| (p.pss_kb, p.pid)).collect::<Vec<_>>(),
        want
    );
}

#[test]
fn filter_looks_at_command_number_and_user() {
    let mut a = app(vec![
        row(1, 0, "root", "/sbin/init"),
        row(77, 1, "jo", "Firefox --new"),
        row(177, 1, "Kim", "vim"),
    ]);
    a.sort_col = 0;
    a.sort_reverse = false;
    for (filter, want) in [
        ("", vec![1, 77, 177]),
        ("FIREFOX", vec![77]),
        ("77", vec![77, 177]),
        ("ROOT", vec![1]),
        ("kim", vec![177]),
        ("nothing", vec![]),
        ("i", vec![1, 77, 177]),
    ] {
        a.filter_string = filter.to_string();
        a.apply_filter_and_sort();
        assert_eq!(ids(&a), want);
    }
}

#[test]
fn filters_are_in_lower_case() {
    assert_eq!(needle("ÄbC"), "äbc");
    assert_eq!(needle(""), "");
    assert!(found_in_command_or_pid("firefox", 12, "fox"));
    assert!(found_in_command_or_pid("firefox", 12, "12"));
    assert!(!found_in_command_or_pid("firefox", 12, "Fox"));
    assert!(found_in_command_or_pid("firefox", -5, "-5"));
    assert!(found_in_row("firefox", 12, "jo", "jo"));
    assert!(!found_in_row("firefox", 12, "Jo", "jo"));
    assert!(row_passes(&row(1, 0, "JO", "Vim"), "jo"));
    assert!(!node_passes(&row(1, 0, "JO", "Vim"), "jo"));
    assert!(node_passes(&row(1, 0, "JO", "Vim"), "vi"));
    assert!(node_passes(&row(1, 0, "JO", "Vim"), ""));
}

#[test]
fn letters_outside_of_ascii_match_in_either_case() {
    let mut a = app(vec![row(1, 0, "u", "Über"), row(2, 0, "u", "unter")]);
    a.filter_string = "ÜB".to_string();
    a.apply_filter_and_sort();
    assert_eq!(ids(&a), vec![1]);
}

#[test]
fn tree_lists_children_below_parents() {
    let mut a = app(vec![
        row(1, 0, "root", "init"),
        row(30, 1, "u", "c"),
        row(20, 1, "u", "b"),
        row(21, 20, "u", "d"),
        row(99, 500, "u", "orphan"),
    ]);
    a.tree_mode = true;
    a.apply_filter_and_sort();
    assert_eq!(
        places(&a),
        vec![
            (1, 0, 0, false),
            (20, 1, 1, false),
            (21, 2, 3, true),
            (30, 1, 1, true),
            (99, 0, 0, true),
        ]
    );
}

#[test]
fn threads_follow_the_children_in_thread_mode() {
    let rows = vec![
        row(1, 0, "root", "init"),
        thread(1, 12),
        row(20, 1, "u", "b"),
        thread(1, 11),
        thread(20, 22),
    ];
    let mut a = app(rows);
    a.tree_mode = true;
    a.thread_mode = true;
    a.apply_filter_and_sort();
    assert_eq!(
        places(&a),
        vec![
            (1, 0, 0, true),
            (20, 1, 0, false),
            (22, 2, 2, true),
            (11, 1, 0, false),
            (12, 1, 0, true),
        ]
    );
    a.thread_mode = false;
    a.apply_filter_and_sort();
    assert_eq!(places(&a), vec![(1, 0, 0, true), (20, 1, 0, false)]);
}

#[test]
fn collapsed_processes_hide_what_is_below() {
    let mut a = app(vec![row(1, 0, "r", "i"), row(2, 1, "u", "b"), row(3, 2, "u", "c"), row(4, 1, "u", "d")]);
    a.tree_mode = true;
    a.collapsed_pids.insert(2);
    a.apply_filter_and_sort();
    assert_eq!(ids(&a), vec![1, 2, 4]);
}

#[test]
fn filtered_tree_keeps_what_is_above_a_match() {
    let mut a = app(vec![
        row(1, 0, "r", "init"),
        row(2, 1, "u", "shell"),
        row(3, 2, "u", "Editor"),
        row(4, 1, "u", "other"),
    ]);
    a.tree_mode = true;
    a.filter_string = "EDIT".to_string();
    a.apply_filter_and_sort();
    assert_eq!(ids(&a), vec![1, 2, 3]);
    a.filter_string = "u".to_string();
    a.apply_filter_and_sort();
    assert!(ids(&a).is_empty());
}

#[test]
fn circles_of_parents_end() {
    let mut a = app(vec![row(2, 3, "u", "a"), row(3, 2, "u", "b"), row(4, 4, "u", "c"), row(5, 0, "u", "d")]);
    a.tree_mode = true;
    a.apply_filter_and_sort();
    assert_eq!(ids(&a), vec![5]);
    a.filter_string = "a".to_string();
    a.apply_filter_and_sort();
    assert!(ids(&a).is_empty());
}

#[test]
fn no_process_stands_twice_in_the_tree() {
    let rows: Vec<ProcInfo> = (1..60).map(|i| row(i, (i * 7) % 13, "u", "c")).collect();
    let mut a = app(rows);
    a.tree_mode = true;
    a.apply_filter_and_sort();
    let mut seen = ids(&a);
    let n = seen.len();
    seen.sort();
    seen.dedup();
    assert_eq!(seen.len(), n);
    for (i, p) in a.filtered_raw.iter().enumerate() {
        assert!(
            p.tree_depth == 0
                || a.filtered_raw[..i]
                    .iter()
                    .any(|q| q.pid == p.ppid && q.tree_depth + 1 == p.tree_depth)
        );
    }
}

#[test]
fn sorting_does_not_matter_in_the_tree() {
    let mut a = app(vec![row(1, 0, "r", "i"), row(3, 1, "u", "b"), row(2, 1, "u", "c")]);
    a.tree_mode = true;
    for col in 0..8 {
        a.sort_col = col;
        a.sort_reverse = col % 2 == 0;
        a.apply_filter_and_sort();
        assert_eq!(ids(&a), vec![1, 2, 3]);
    }
}
