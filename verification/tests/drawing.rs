//! What stands on the screen.

use jtop::ansi::visible_len;
use jtop::app::App;
use jtop::double::{Double, Number};
use jtop::keys::KeyPress;
use jtop::process::{ProcInfo, SystemInfo};
use jtop::procfs::read_meminfo_buf;
use jtop::table::column_title;

fn double(x: f64) -> Double {
    match Number::from_bits(x.to_bits()) {
        Number::Finite(d) => d,
        _ => panic!("not finite"),
    }
}

fn row(pid: i32) -> ProcInfo {
    ProcInfo {
        pid,
        tid: pid,
        ppid: 1,
        user: "jo".to_string(),
        cmd: "vim".to_string(),
        full_cmd: "vim".to_string(),
        pss_kb: 2048,
        uss_kb: 1024,
        rss_kb: 10240,
        swap_kb: 0,
        state: 'S',
        cpu_percent: double(1.25),
        is_thread: false,
        is_kernel: false,
        tree_depth: 0,
        tree_mask: 0,
        is_last_child: false,
    }
}

fn info() -> SystemInfo {
    SystemInfo {
        cpu_percent: double(50.0),
        mem_percent: double(25.0),
        swap_percent: double(0.0),
        load: "0.1 0.2 0.3".to_string(),
        uptime: "0y 1d 2h 3m 4s".to_string(),
        tasks: "9 (1 run, 8 slp, 0 zom)".to_string(),
    }
}

fn app(no_color: bool, width: u16, height: u16, rows: Vec<ProcInfo>) -> App {
    let mut a = App::new(
        200,
        no_color,
        Some((width, height)),
        &read_meminfo_buf(""),
        None,
        Some("jo".to_string()),
    );
    a.refresh(Some((rows, info())));
    a
}

fn lines(frame: &str) -> Vec<String> {
    frame.split("\r\n").map(|l| l.to_string()).collect()
}

#[test]
fn figures_of_the_machine() {
    let a = app(true, 150, 10, vec![]);
    let line = a.build_system_line();
    let want = "   \x1b[1mCPU\x1b[22m ||||      50.0% \x1b[1mMem\x1b[22m ||        25.0% \x1b[1mSwp\x1b[22m        0.0% \x1b[1mLoad 1/5/15min\x1b[22m 0.1 0.2 0.3 \x1b[1mUptime\x1b[22m 0y 1d 2h 3m 4s \x1b[1mTasks:\x1b[22m 9 (1 run, 8 slp, 0 zom)";
    assert!(line.starts_with(want));
    assert_eq!(line.trim_end(), want);
    assert_eq!(visible_len(&line), 150);
}

#[test]
fn figures_are_coloured_by_their_size() {
    let a = app(false, 150, 10, vec![]);
    let line = a.build_system_line();
    assert!(line.contains("\x1b[1mCPU\x1b[22m \x1b[38;2;255;255;0m||||\x1b[39m      50.0%"));
    assert!(line.contains("\x1b[1mMem\x1b[22m \x1b[38;2;128;255;0m||\x1b[39m        25.0%"));
    assert!(line.contains("\x1b[1mSwp\x1b[22m \x1b[38;2;0;255;0m\x1b[39m       0.0%"));
}

#[test]
fn the_first_line_fills_the_terminal() {
    for width in [0, 1, 3, 5, 10, 20, 45, 55, 60, 61, 62, 63, 64, 80, 100, 120, 140, 200] {
        for no_color in [false, true] {
            let a = app(no_color, width, 10, vec![]);
            assert_eq!(visible_len(&a.build_system_line()), width as usize);
        }
    }
}

#[test]
fn figures_that_do_not_fit_are_left_out() {
    let a = app(true, 90, 10, vec![]);
    let line = a.build_system_line();
    assert!(line.contains("Load") && !line.contains("Uptime") && !line.contains("Tasks"));
    let b = app(true, 55, 10, vec![]);
    assert!(!b.build_system_line().contains("Load"));
}

#[test]
fn widths_follow_titles_and_cells() {
    let mut p = row(1234567);
    p.user = "a-long-user".to_string();
    let mut a = app(true, 150, 10, vec![p]);
    assert_eq!(a.widths, vec![7, 11, 40, 8, 8, 8, 6, 6]);
    a.filtered_raw[0].tree_depth = 2;
    a.tree_mode = true;
    a.compute_widths();
    assert_eq!(a.widths[2], 48);
    let empty = app(true, 150, 10, vec![]);
    assert_eq!(empty.widths, vec![5, 6, 17, 5, 5, 5, 6, 6]);
}

#[test]
fn the_header() {
    let a = app(true, 60, 10, vec![]);
    let line = a.build_header_line();
    let mut want = String::new();
    for col in 0..8 {
        want.push_str("\x1b[1m");
        want.push_str(column_title(col));
        want.push_str("\x1b[22m");
        want.push_str(["  ", " ", "  ", "  ", "  ", "  ", "  ", ""][col]);
    }
    assert_eq!(visible_len(&want), 68);
    assert_eq!(line, format!("{}\x1b[0m  ", want));
    let b = app(false, 100, 10, vec![]);
    let line = b.build_header_line();
    assert!(line.contains("\x1b[1m\x1b[38;2;0;255;255m4 PSS\x1b[39m\x1b[22m"));
    assert!(line.contains("\x1b[1m\x1b[38;2;255;255;255m1 PID\x1b[39m\x1b[22m"));
    assert!(line.ends_with("\x1b[48;2;40;40;40m\x1b[0m  "));
    assert_eq!(visible_len(&line), 100);
}

#[test]
fn cells_of_a_row() {
    let a = app(true, 100, 10, vec![]);
    let command = format!("vim{}", " ".repeat(37));
    assert_eq!(
        a.format_row(&row(7)),
        vec!["7", "jo", command.as_str(), "2.00 MiB", "1.00 MiB", "10.0 MiB", "0 KiB", "  1.2"]
    );
    let b = app(false, 100, 10, vec![]);
    let cells = b.format_row(&row(7));
    assert_eq!(cells[0], "\x1b[38;2;255;220;0m7\x1b[39m");
    assert_eq!(cells[1], "\x1b[38;2;0;128;255mjo\x1b[39m");
    assert_eq!(cells[2], format!("\x1b[38;2;200;200;200m{}\x1b[39m", command));
    assert_eq!(cells[6], "\x1b[38;2;255;255;255m0 KiB\x1b[39m");
    let mut p = row(7);
    p.user = "root".to_string();
    assert_eq!(b.format_row(&p)[1], "\x1b[38;2;255;60;60mroot\x1b[39m");
    p.user = "kim".to_string();
    assert_eq!(b.format_row(&p)[1], "\x1b[38;2;111;81;161mkim\x1b[39m");
    p.is_kernel = true;
    for cell in b.format_row(&p) {
        assert!(cell.starts_with("\x1b[38;2;70;70;70m"));
    }
}

#[test]
fn cells_of_a_thread() {
    let b = app(false, 100, 10, vec![]);
    let mut p = row(7);
    p.is_thread = true;
    p.tid = 8;
    let cells = b.format_row(&p);
    assert_eq!(cells[0], "\x1b[38;2;120;120;120m8\x1b[39m");
    for i in 3..7 {
        assert_eq!(cells[i], "\x1b[38;2;120;120;120m---\x1b[39m");
    }
}

#[test]
fn commands_are_indented_in_the_tree() {
    let mut a = app(true, 100, 10, vec![]);
    let mut p = row(7);
    p.tree_depth = 3;
    p.tree_mask = 0b101;
    p.is_last_child = true;
    assert_eq!(a.format_row(&p)[2], format!("vim{}", " ".repeat(37)));
    a.tree_mode = true;
    assert_eq!(a.format_row(&p)[2], format!("│     │  └─ vim{}", " ".repeat(37)));
    p.is_last_child = false;
    assert_eq!(a.format_row(&p)[2], format!("│     │  ├─ vim{}", " ".repeat(37)));
}

#[test]
fn commands_are_scrolled() {
    let mut a = app(true, 100, 10, vec![]);
    let mut p = row(7);
    p.full_cmd = (0..100).map(|i| char::from(b'a' + (i % 26) as u8)).collect();
    let all: Vec<char> = p.full_cmd.chars().collect();
    for (offset, from) in [(0, 0), (40, 40), (80, 60), (2000, 60)] {
        a.cmd_offset = offset;
        assert_eq!(a.format_row(&p)[2], all[from..from + 40].iter().collect::<String>());
    }
    p.full_cmd = "short".to_string();
    assert_eq!(a.format_row(&p)[2], format!("short{}", " ".repeat(35)));
}

#[test]
fn a_whole_frame() {
    let mut a = app(true, 120, 6, vec![row(7)]);
    let frame = a.render();
    let l = lines(&frame);
    assert_eq!(l.len(), 6);
    assert_eq!(l[0], a.build_system_line());
    assert_eq!(l[1], a.build_header_line());
    let cells = format!(
        "{}  {} {}  {}  {}  {}  {}  {}",
        "    7",
        "jo    ",
        format!("vim{}", " ".repeat(37)),
        "2.00 MiB",
        "1.00 MiB",
        "10.0 MiB",
        " 0 KiB",
        "   1.2",
    );
    assert_eq!(l[2], format!("{}{}  ", cells, " ".repeat(118 - cells.len())));
    assert_eq!(l[3], " ".repeat(120));
    assert_eq!(l[4], " ".repeat(120));
    let totals = "PSS: 2.00 MiB  Swap: 0 KiB";
    let left = "2s | +/- change | T tree | H threads | k kernel | m mem-override | q quit | F9 kill | ←→ cmd | ↑↓ scroll";
    let kept: String = left.chars().take(120 - totals.len() - 1).collect();
    assert_eq!(l[5], format!("{} {}", kept, totals));
}

#[test]
fn the_scroll_bar() {
    let mut a = app(false, 100, 13, (1..41).map(row).collect());
    a.scroll_pos = 15;
    let l = lines(&a.render());
    for i in 0..10 {
        let thumb = l[2 + i].ends_with("\x1b[48;2;120;120;120m  \x1b[0m");
        let track = l[2 + i].ends_with("\x1b[48;2;40;40;40m  \x1b[0m");
        assert!(thumb != track);
        let height = ((10.0 * 10.0 / 40.0) as f64).round() as usize;
        let top = ((10 - height) as f64 * (15.0 / 30.0)).round() as usize;
        assert_eq!(thumb, i >= top && i < top + height);
    }
    a.scroll_pos = 1000;
    a.render();
    assert_eq!(a.scroll_pos, 30);
}

#[test]
fn marks_in_kill_mode() {
    let mut a = app(true, 120, 13, vec![row(7), row(8), row(9)]);
    a.sort_col = 0;
    a.sort_reverse = false;
    a.refresh(None);
    a.press(KeyPress::Function(9));
    a.press(KeyPress::Char(' '));
    let l = lines(&a.render());
    assert!(l[2].starts_with("[x]     7  jo"));
    assert!(l[3].starts_with("\x1b[7m[ ]     8  jo"));
    assert!(l[3].contains("\x1b[27m"));
    assert!(l[4].starts_with("        9  jo"));
    assert!(l[12].starts_with("KILL MODE: ↑↓ select | Space mark/advance | Enter confirm | Esc cancel | Marked: 1"));
    a.press(KeyPress::Up);
    assert!(lines(&a.render())[2].starts_with("\x1b[7m[*]     7  jo"));
    a.press(KeyPress::Enter);
    assert!(lines(&a.render())[12].starts_with("Kill 1 marked process(es)/thread(s)? y/n "));
}

#[test]
fn the_status() {
    let mut a = app(true, 200, 5, vec![row(7)]);
    let status = |a: &mut App| lines(&a.render())[4].clone();
    assert!(status(&mut a).ends_with("PSS: 2.00 MiB  Swap: 0 KiB         "));
    assert_eq!(status(&mut a).chars().count(), 200);
    a.filter_string = "vim".to_string();
    assert!(status(&mut a).starts_with("Filter: 'vim' | 4 PSS ↓ | Interval: 2s | / search   "));
    a.sort_reverse = false;
    a.interval = 25;
    assert!(status(&mut a).starts_with("Filter: 'vim' | 4 PSS ↑ [NANO CPU] | Interval: 0.25s | / search  "));
    a.searching = true;
    assert!(status(&mut a).starts_with("Search: vim_ (Enter accept, Esc clear)  "));
    a.searching = false;
    a.filter_string = String::new();
    a.show_kernel = true;
    a.tree_mode = true;
    assert!(status(&mut a).starts_with("[KERNEL] [TREE] [NANO CPU]0.25s | +/- change"));
    a.thread_mode = true;
    assert!(status(&mut a).starts_with("[KERNEL] [TREE+THREADS] [NANO CPU]0.25s | "));
    a.tree_mode = false;
    a.show_kernel = false;
    a.interval = 50;
    assert!(status(&mut a).starts_with("[THREADS]0.5s | "));
    a.searching = true;
    a.cmd_offset = 40;
    a.mem_override = true;
    assert!(status(&mut a).starts_with("Search: _ (Enter accept, Esc clear)  Cmd offset: 40 [MEM OVERRIDE]  "));
}

#[test]
fn backgrounds_of_the_status() {
    let mut a = app(false, 200, 5, vec![row(7)]);
    let status = |a: &mut App| lines(&a.render())[4].clone();
    assert!(status(&mut a).starts_with("\x1b[48;2;60;60;60m\x1b[38;2;255;255;255m2s |"));
    assert!(status(&mut a).ends_with("\x1b[0m"));
    a.show_kernel = true;
    assert!(status(&mut a).starts_with("\x1b[48;2;50;50;60m"));
    a.searching = true;
    assert!(status(&mut a).starts_with("\x1b[48;2;80;100;40m"));
    a.kill_mode = true;
    assert!(status(&mut a).starts_with("\x1b[48;2;40;60;100m"));
    a.kill_confirming = true;
    assert!(status(&mut a).starts_with("\x1b[48;2;180;40;40m"));
}

#[test]
fn totals_leave_out_threads() {
    let mut t = row(8);
    t.is_thread = true;
    let mut p = row(9);
    p.swap_kb = 512;
    let mut a = app(true, 200, 8, vec![row(7), t, p]);
    assert!(a.render().ends_with("PSS: 4.00 MiB  Swap: 512 KiB         "));
}

#[test]
fn no_colours_without_colour() {
    for (kill, search, rows) in [(false, false, 3), (true, false, 40), (false, true, 40)] {
        let mut a = app(true, 90, 13, (1..rows).map(row).collect());
        if kill {
            a.press(KeyPress::Function(9));
            a.press(KeyPress::Char(' '));
        }
        if search {
            a.press(KeyPress::Char('/'));
        }
        let frame = a.render();
        assert!(!frame.contains("\x1b[38;2;") && !frame.contains("\x1b[48;2;"));
    }
    let mut b = app(false, 90, 13, (1..40).map(row).collect());
    assert!(b.render().contains("\x1b[48;2;"));
}

#[test]
fn lines_are_as_wide_as_the_terminal() {
    let mut a = app(false, 120, 13, (1..40).map(row).collect());
    let l = lines(&a.render());
    assert_eq!(l.len(), 13);
    for i in 0..12 {
        assert_eq!(visible_len(&l[i]), 120);
    }
}

#[test]
fn open_sequences_in_coloured_rows_do_not_spread() {
    let strange = |pid: i32| ProcInfo {
        full_cmd: format!("{}\x1b[3", "x".repeat(37)),
        user: "j\x1b".to_string(),
        ..row(pid)
    };
    let mut a = app(false, 120, 13, (1..40).map(strange).collect());
    let l = lines(&a.render());
    for i in 0..12 {
        assert_eq!(visible_len(&l[i]), 120);
    }
}

#[test]
fn tiny_terminals() {
    for (w, h) in [(0, 0), (1, 1), (2, 3), (3, 4), (5, 5)] {
        let mut a = app(false, w, h, (1..10).map(row).collect());
        let l = lines(&a.render());
        assert_eq!(l.len(), 3 + (h as usize).saturating_sub(3));
    }
}
