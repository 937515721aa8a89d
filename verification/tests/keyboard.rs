//! What the keys do.

use jtop::app::App;
use jtop::double::Double;
use jtop::keys::{KeyPress, Response};
use jtop::process::{ProcInfo, SystemInfo};
use jtop::procfs::read_meminfo_buf;

fn row(pid: i32) -> ProcInfo {
    ProcInfo {
        pid,
        tid: pid,
        ppid: 1,
        user: "u".to_string(),
        cmd: "c".to_string(),
        full_cmd: "c".to_string(),
        pss_kb: 10,
        uss_kb: 10,
        rss_kb: 10,
        swap_kb: 0,
        state: 'S',
        cpu_percent: Double { mant: 0, exp: 0 },
        is_thread: false,
        is_kernel: false,
        tree_depth: 0,
        tree_mask: 0,
        is_last_child: false,
    }
}

fn app(n: i32) -> App {
    let mut a = App::new(200, false, Some((100, 13)), &read_meminfo_buf(""), None, None);
    a.sort_col = 0;
    a.sort_reverse = false;
    a.refresh(Some(((1..n + 1).map(row).collect(), SystemInfo::default())));
    a
}

fn press(a: &mut App, c: char) -> Response {
    a.press(KeyPress::Char(c))
}

fn marks(a: &App) -> Vec<i32> {
    let mut v: Vec<i32> = a.marked_pids.iter().copied().collect();
    v.sort();
    v
}

#[test]
fn the_start() {
    let m = read_meminfo_buf("MemTotal: 1000 kB\nSwapTotal: 50 kB\n");
    let a = App::new(200, true, None, &m, Some("sue".to_string()), Some("root".to_string()));
    assert_eq!((a.term_width, a.term_height), (80, 24));
    assert_eq!(a.mem_total_bytes, 1_024_000);
    assert_eq!(a.limit_red_bytes, 1_013_760);
    assert_eq!(a.swap_total_bytes, 51_200);
    assert_eq!(a.current_user, "sue");
    assert_eq!(a.widths, vec![0; 8]);
    assert!(a.sort_col == 3 && a.sort_reverse && a.no_color);
    let b = App::new(5, false, Some((10, 20)), &read_meminfo_buf(""), None, Some("jo".to_string()));
    assert_eq!((b.term_width, b.term_height), (10, 20));
    assert_eq!(b.mem_total_bytes, 16 * 1024 * 1024 * 1024);
    assert_eq!(b.swap_total_bytes, 32 * 1024 * 1024 * 1024);
    assert_eq!(b.limit_red_bytes, (b.mem_total_bytes as f64 * 0.99) as u64);
    assert_eq!(b.current_user, "jo");
    let c = App::new(5, false, None, &read_meminfo_buf(""), None, None);
    assert_eq!(c.current_user, "");
}

#[test]
fn quitting() {
    for c in ['q', 'Q'] {
        let mut a = app(3);
        let r = press(&mut a, c);
        assert!(r.quit && !r.dirty && r.kill.is_none());
    }
    let mut a = app(3);
    press(&mut a, '/');
    assert!(!press(&mut a, 'q').quit);
    assert_eq!(a.filter_string, "q");
}

#[test]
fn nothing_is_killed_without_confirmation() {
    let mut a = app(5);
    assert!(a.press(KeyPress::Function(9)).dirty);
    assert!(a.kill_mode && a.kill_selected == 0);
    assert!(!a.press(KeyPress::Enter).dirty);
    assert!(!a.kill_confirming);
    press(&mut a, ' ');
    press(&mut a, ' ');
    assert_eq!(marks(&a), vec![1, 2]);
    assert_eq!(a.kill_selected, 2);
    assert!(a.press(KeyPress::Enter).kill.is_none());
    assert!(a.kill_confirming);
    assert!(press(&mut a, 'x').kill.is_none());
    assert!(a.kill_confirming);
    let r = press(&mut a, 'y');
    let mut killed: Vec<i32> = r.kill.unwrap().into_iter().collect();
    killed.sort();
    assert_eq!(killed, vec![1, 2]);
    assert!(!a.kill_mode && !a.kill_confirming && a.marked_pids.is_empty());
}

#[test]
fn other_answers_spare() {
    for key in [KeyPress::Char('n'), KeyPress::Char('N'), KeyPress::Esc] {
        let mut a = app(5);
        a.press(KeyPress::Function(9));
        press(&mut a, ' ');
        a.press(KeyPress::Enter);
        let r = a.press(key);
        assert!(r.dirty && r.kill.is_none() && !r.quit);
        assert!(!a.kill_mode && !a.kill_confirming && a.marked_pids.is_empty());
    }
    let mut a = app(5);
    a.press(KeyPress::Function(9));
    press(&mut a, ' ');
    let r = a.press(KeyPress::Esc);
    assert!(r.kill.is_none() && !a.kill_mode && a.marked_pids.is_empty());
}

#[test]
fn space_marks_and_unmarks() {
    let mut a = app(3);
    a.press(KeyPress::Function(9));
    press(&mut a, ' ');
    assert_eq!(marks(&a), vec![1]);
    a.press(KeyPress::Up);
    assert_eq!(a.kill_selected, 0);
    press(&mut a, ' ');
    assert!(marks(&a).is_empty());
    press(&mut a, ' ');
    press(&mut a, ' ');
    assert_eq!(marks(&a), vec![2, 3]);
    assert_eq!(a.kill_selected, 2);
    a.press(KeyPress::Down);
    assert_eq!(a.kill_selected, 2);
    a.press(KeyPress::Up);
    a.press(KeyPress::Up);
    a.press(KeyPress::Up);
    assert_eq!(a.kill_selected, 0);
}

#[test]
fn threads_are_marked_by_their_own_numbers() {
    let mut a = app(1);
    let mut t = row(1);
    t.tid = 44;
    t.is_thread = true;
    a.filtered_raw = vec![t];
    a.press(KeyPress::Function(9));
    press(&mut a, ' ');
    assert_eq!(marks(&a), vec![44]);
}

#[test]
fn marking_scrolls_along() {
    let mut a = app(50);
    a.press(KeyPress::Function(9));
    for _ in 0..15 {
        press(&mut a, ' ');
    }
    assert_eq!(a.kill_selected, 15);
    assert_eq!(a.scroll_pos, 6);
    assert_eq!(marks(&a).len(), 15);
}

#[test]
fn kill_mode_needs_rows() {
    let mut a = app(0);
    assert!(!a.press(KeyPress::Function(9)).dirty);
    assert!(!a.kill_mode);
    let mut b = app(2);
    assert!(!b.press(KeyPress::Function(8)).dirty);
    assert!(!b.kill_mode);
}

#[test]
fn a_filter_is_typed_and_cleared() {
    let mut a = app(3);
    press(&mut a, '/');
    assert!(a.searching);
    for c in "fire fox".chars() {
        assert!(press(&mut a, c).dirty);
    }
    assert!(!press(&mut a, 'é').dirty);
    assert!(!a.press(KeyPress::Up).dirty);
    assert_eq!(a.filter_string, "fire fox");
    a.press(KeyPress::Backspace);
    a.press(KeyPress::Delete);
    assert_eq!(a.filter_string, "fire f");
    a.press(KeyPress::Enter);
    assert!(!a.searching && a.filter_string == "fire f");
    a.press(KeyPress::Esc);
    assert_eq!(a.filter_string, "");
    press(&mut a, '/');
    assert!(a.press(KeyPress::Backspace).dirty);
    press(&mut a, 'x');
    a.press(KeyPress::Esc);
    assert!(!a.searching && a.filter_string.is_empty());
}

#[test]
fn switches() {
    let mut a = app(3);
    for c in ['k', 't', 'T', 'h', 'H', 'm', 'M'] {
        let before = (a.show_kernel, a.tree_mode, a.thread_mode, a.mem_override);
        assert!(press(&mut a, c).dirty);
        assert_ne!(before, (a.show_kernel, a.tree_mode, a.thread_mode, a.mem_override));
        press(&mut a, c);
        assert_eq!(before, (a.show_kernel, a.tree_mode, a.thread_mode, a.mem_override));
    }
    assert!(!press(&mut a, 'K').dirty);
    a.collapsed_pids.insert(5);
    press(&mut a, 't');
    assert!(a.tree_mode && a.collapsed_pids.is_empty());
}

#[test]
fn columns() {
    let mut a = app(3);
    for (c, col) in [('2', 1), ('3', 2), ('4', 3), ('8', 7), ('1', 0)] {
        press(&mut a, c);
        assert_eq!((a.sort_col, a.sort_reverse), (col, col > 2));
        press(&mut a, c);
        assert_eq!((a.sort_col, a.sort_reverse), (col, col <= 2));
    }
    assert!(!press(&mut a, '9').dirty && !press(&mut a, '0').dirty);
}

#[test]
fn interval_keys() {
    let mut a = app(3);
    assert!(press(&mut a, '+').dirty);
    assert_eq!(a.interval, 300);
    press(&mut a, '=');
    assert_eq!(a.interval, 500);
    press(&mut a, '-');
    press(&mut a, '-');
    assert_eq!(a.interval, 200);
    a.interval = 30000;
    assert!(!press(&mut a, '+').dirty);
    a.interval = 5;
    assert!(!press(&mut a, '-').dirty);
    assert_eq!(a.interval, 5);
}

#[test]
fn scrolling() {
    let mut a = app(23);
    a.press(KeyPress::Down);
    assert_eq!(a.scroll_pos, 5);
    a.press(KeyPress::Down);
    a.press(KeyPress::Down);
    assert_eq!(a.scroll_pos, 13);
    a.press(KeyPress::Up);
    assert_eq!(a.scroll_pos, 8);
    a.press(KeyPress::Up);
    a.press(KeyPress::Up);
    assert_eq!(a.scroll_pos, 0);
    for _ in 0..3 {
        a.press(KeyPress::Right);
    }
    assert_eq!(a.cmd_offset, 120);
    a.press(KeyPress::Left);
    assert_eq!(a.cmd_offset, 80);
    for _ in 0..60 {
        a.press(KeyPress::Right);
    }
    assert_eq!(a.cmd_offset, 2000);
    for _ in 0..60 {
        a.press(KeyPress::Left);
    }
    assert_eq!(a.cmd_offset, 0);
}

#[test]
fn rows_are_frozen_in_kill_mode() {
    let mut a = app(5);
    assert_eq!(a.redraw(true, false, 0), Some(true));
    assert_eq!(a.redraw(false, true, 0), Some(false));
    assert_eq!(a.redraw(false, false, 1_999_999_999), None);
    assert_eq!(a.redraw(false, false, 2_000_000_000), Some(false));
    a.press(KeyPress::Function(9));
    assert_eq!(a.redraw(true, false, 0), None);
    assert_eq!(a.redraw(true, false, 99_999_999), None);
    assert_eq!(a.redraw(true, false, 100_000_000), Some(false));
    a.press(KeyPress::Esc);
    press(&mut a, '/');
    assert_eq!(a.redraw(false, false, 100_000_000), Some(false));
    assert_eq!(a.redraw(true, false, 0), Some(true));
}

#[test]
fn refreshing_keeps_the_selection_on_the_screen() {
    let mut a = app(50);
    a.press(KeyPress::Function(9));
    a.kill_selected = 30;
    a.refresh(None);
    assert_eq!((a.kill_selected, a.scroll_pos), (30, 21));
    a.kill_selected = 3;
    a.refresh(None);
    assert_eq!((a.kill_selected, a.scroll_pos), (3, 3));
    a.kill_selected = 500;
    a.refresh(None);
    assert_eq!((a.kill_selected, a.scroll_pos), (49, 40));
    a.press(KeyPress::Esc);
    press(&mut a, '/');
    a.refresh(None);
    assert_eq!(a.scroll_pos, 0);
}

#[test]
fn a_new_size() {
    let mut a = app(5);
    assert!(!a.resize(None));
    assert!(!a.resize(Some((100, 13))));
    assert!(a.resize(Some((90, 13))));
    assert!(a.resize(Some((90, 2))));
    assert_eq!((a.term_width, a.term_height), (90, 2));
    assert_eq!(a.page(), 0);
    assert_eq!(a.max_scroll(), 5);
}
