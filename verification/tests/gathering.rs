//! Gathering rows and figures, and when the worker does it.

use jtop::double::{Double, Number};
use jtop::process::ProcInfo;
use jtop::procfs::{build_user_map, UserMap};
use jtop::schedule::{Action, Demand, Phase, Plan, Worker};
use jtop::worker::{
    gather_data, pid_of, MemoryText, ProcFiles, Settings, SystemFiles, TaskSample, WorkerState,
};

const SECOND: u64 = 1_000_000_000;

fn double(x: f64) -> Double {
    match Number::from_bits(x.to_bits()) {
        Number::Finite(d) => d,
        _ => panic!("not finite"),
    }
}

fn settings(now: u64) -> Settings {
    Settings {
        do_mem: true,
        use_nano_mode: false,
        thread_mode: false,
        show_kernel: false,
        clk_tck: 100,
        num_cpus: 4,
        now,
    }
}

fn stat(pid: i32, name: &str, state: char, utime: u64, stime: u64) -> Option<String> {
    Some(format!(
        "{} ({}) {} 1 2 3 4 5 6 7 8 9 10 {} {} 0 0",
        pid, name, state, utime, stime
    ))
}

fn process(pid: i32, utime: u64, rss: u64) -> ProcFiles {
    ProcFiles {
        name: pid.to_string(),
        stat: stat(pid, "prog", 'S', utime, 0),
        status: "PPid:\t1\nUid:\t1000\t1000\n".to_string(),
        tasks: Vec::new(),
        smaps: MemoryText::Text(format!(
            "Rss: {} kB\nPss: 7 kB\nPrivate_Clean: 1 kB\nPrivate_Dirty: 2 kB\nSwap: 3 kB\n",
            rss
        )),
        cmdline: "/bin/prog\0-x\0".to_string(),
        threads: Vec::new(),
    }
}

fn task(name: &str, runtime: Option<f64>) -> TaskSample {
    TaskSample {
        name: name.to_string(),
        runtime: runtime.map(double),
    }
}

fn machine() -> SystemFiles {
    SystemFiles {
        stat: "cpu  100 0 0 100\n".to_string(),
        meminfo: "MemTotal: 1000 kB\nMemAvailable: 250 kB\nSwapTotal: 200 kB\nSwapFree: 150 kB\n"
            .to_string(),
        loadavg: "0.1 0.2 0.3 1/2 3\n".to_string(),
        uptime: Some(Number::from_bits((3661.5f64).to_bits())),
    }
}

fn users() -> UserMap {
    build_user_map("jo:x:1000:1000::/home/jo\n")
}

fn gather(state: &mut WorkerState, set: Settings, files: Vec<ProcFiles>) -> Vec<ProcInfo> {
    gather_data(set, state, &users(), &files, &machine()).0
}

#[test]
fn numbers_of_processes() {
    assert_eq!(pid_of("123"), Some(123));
    assert_eq!(pid_of("self"), None);
    assert_eq!(pid_of("+5"), None);
    assert_eq!(pid_of("-5"), None);
    assert_eq!(pid_of(""), None);
    assert_eq!(pid_of("2147483648"), None);
}

#[test]
fn a_row_from_its_files() {
    let mut s = WorkerState::new();
    let rows = gather(&mut s, settings(0), vec![process(42, 5, 100)]);
    assert_eq!(rows.len(), 1);
    let p = &rows[0];
    assert_eq!((p.pid, p.tid, p.ppid), (42, 42, 1));
    assert_eq!(p.user, "jo");
    assert_eq!(p.cmd, "/bin/prog -x");
    assert_eq!(p.full_cmd, "/bin/prog -x");
    assert_eq!((p.pss_kb, p.uss_kb, p.rss_kb, p.swap_kb), (7, 3, 100, 3));
    assert_eq!(p.state, 'S');
    assert_eq!(p.cpu_percent, Double { mant: 0, exp: 0 });
    assert!(!p.is_thread && !p.is_kernel);
}

#[test]
fn long_commands_are_cut_to_forty_characters() {
    let mut s = WorkerState::new();
    let mut f = process(42, 5, 100);
    f.cmdline = "x".repeat(3000);
    f.status = "Uid:\t7\n".to_string();
    let rows = gather(&mut s, settings(0), vec![f]);
    assert_eq!(rows[0].cmd.len(), 40);
    assert_eq!(rows[0].full_cmd.len(), 2040);
    assert_eq!(rows[0].user, "7");
    assert_eq!(rows[0].ppid, 1);
}

#[test]
fn share_of_the_processors() {
    let mut s = WorkerState::new();
    gather(&mut s, settings(0), vec![process(42, 100, 100)]);
    let rows = gather(&mut s, settings(3 * SECOND / 2), vec![process(42, 250, 100)]);
    let want = ((150.0 / 100.0 / 1.5) / 4.0) * 100.0;
    assert_eq!(rows[0].cpu_percent, double(want));
    let rows = gather(&mut s, settings(3 * SECOND / 2 + 123_456_789), vec![process(42, 257, 100)]);
    let dt = 0.0 + 123_456_789.0 / 1_000_000_000.0;
    assert_eq!(rows[0].cpu_percent, double((7.0 / 100.0 / dt / 4.0) * 100.0));
}

#[test]
fn time_that_runs_backwards_gives_no_share() {
    let mut s = WorkerState::new();
    gather(&mut s, settings(SECOND), vec![process(42, 100, 100)]);
    let rows = gather(&mut s, settings(2 * SECOND), vec![process(42, 50, 100)]);
    assert_eq!(rows[0].cpu_percent, double(0.0));
    let rows = gather(&mut s, settings(2 * SECOND), vec![process(42, 60, 100)]);
    assert_eq!(rows[0].cpu_percent, double(0.0));
}

#[test]
fn nanoseconds_of_all_tasks() {
    let mut set = settings(0);
    set.use_nano_mode = true;
    let mut s = WorkerState::new();
    let mut f = process(42, 100, 100);
    f.tasks = vec![task("42", Some(1e9)), task("43", Some(5e8)), task("x", Some(9e9)), task("44", None)];
    gather(&mut s, set, vec![f]);
    set.now = SECOND;
    let mut f = process(42, 100, 100);
    f.tasks = vec![task("42", Some(1.5e9)), task("43", Some(7.5e8))];
    let rows = gather(&mut s, set, vec![f]);
    assert_eq!(rows[0].cpu_percent, double((7.5e8 / 1e9 / 1.0 / 4.0) * 100.0));
}

#[test]
fn processes_without_task_times_fall_back() {
    let mut set = settings(0);
    set.use_nano_mode = true;
    let mut s = WorkerState::new();
    gather(&mut s, set, vec![process(42, 100, 100)]);
    set.now = SECOND;
    let rows = gather(&mut s, set, vec![process(42, 120, 100)]);
    assert_eq!(rows[0].cpu_percent, double((20.0 / 100.0 / 1.0 / 4.0) * 100.0));
}

#[test]
fn threads_in_thread_mode() {
    let mut set = settings(0);
    set.thread_mode = true;
    let mut s = WorkerState::new();
    let threads = || vec![task("42", Some(1e9)), task("43", Some(5e8)), task("44", None), task("x", Some(1.0))];
    let mut f = process(42, 100, 100);
    f.threads = threads();
    gather(&mut s, set, vec![f]);
    set.now = SECOND;
    let mut f = process(42, 100, 100);
    f.threads = threads();
    f.threads[1].runtime = Some(double(9e8));
    let rows = gather(&mut s, set, vec![f]);
    assert_eq!(rows.iter().map(|p| p.tid).collect::<Vec<_>>(), vec![42, 43, 44]);
    assert!(rows[1].is_thread && rows[1].ppid == 42 && rows[1].pid == 42 && rows[1].state == '?');
    assert_eq!(rows[1].full_cmd, "[thread 43] /bin/prog -x");
    assert_eq!(rows[1].cpu_percent, double((4e8 / 1e9 / 1.0 / 4.0) * 100.0));
    assert_eq!(rows[2].cpu_percent, double(0.0));
    assert_eq!(rows[1].rss_kb, 0);
    set.thread_mode = false;
    let mut f = process(42, 100, 100);
    f.threads = threads();
    assert_eq!(gather(&mut s, set, vec![f]).len(), 1);
}

#[test]
fn kernel_threads_on_demand() {
    let kernel = || ProcFiles {
        smaps: MemoryText::Missing,
        cmdline: String::new(),
        stat: stat(2, "kthreadd", 'S', 0, 0),
        ..process(2, 0, 0)
    };
    let mut s = WorkerState::new();
    assert!(gather(&mut s, settings(0), vec![kernel()]).is_empty());
    let mut set = settings(0);
    set.show_kernel = true;
    let rows = gather(&mut s, set, vec![kernel()]);
    assert!(rows[0].is_kernel);
    assert_eq!((rows[0].user.as_str(), rows[0].cmd.as_str(), rows[0].full_cmd.as_str()), ("root", "kthreadd", "kthreadd"));
    assert!(!s.knows_command(2));
    let nameless = ProcFiles { stat: stat(2, "", 'S', 0, 0), ..kernel() };
    assert!(gather(&mut s, set, vec![nameless]).is_empty());
}

#[test]
fn processes_of_others_appear_without_memory() {
    let mut s = WorkerState::new();
    let other = || ProcFiles { smaps: MemoryText::Denied, ..process(50, 0, 0) };
    let rows = gather(&mut s, settings(0), vec![other()]);
    assert_eq!(rows.len(), 1);
    assert!(!rows[0].is_kernel);
    assert_eq!((rows[0].pss_kb, rows[0].uss_kb, rows[0].rss_kb, rows[0].swap_kb), (0, 0, 0, 0));
    assert_eq!(rows[0].user, "jo");
    s.remember(&rows);
    let mut set = settings(SECOND);
    set.do_mem = false;
    let rows = gather(&mut s, set, vec![other()]);
    assert_eq!(rows.len(), 1);
    assert!(!rows[0].is_kernel);
}

#[test]
fn a_thread_that_was_seen_denies_no_memory() {
    let mut s = WorkerState::new();
    let mut set = settings(0);
    set.thread_mode = true;
    let mut f = process(42, 0, 100);
    f.threads = vec![task("42", Some(1e9)), task("50", Some(1e9))];
    let rows = gather(&mut s, set, vec![f]);
    assert!(rows[1].is_thread && rows[1].tid == 50);
    s.remember(&rows);
    // The number of the thread now is that of a process whose memory is not read.
    let mut set = settings(SECOND);
    set.do_mem = false;
    assert!(gather(&mut s, set, vec![process(50, 0, 9)]).is_empty());
    set.show_kernel = true;
    let rows = gather(&mut s, set, vec![process(50, 0, 9)]);
    assert_eq!(rows.len(), 1);
    assert!(rows[0].is_kernel && !rows[0].is_thread);
}

#[test]
fn unreadable_processes_are_left_out() {
    let mut s = WorkerState::new();
    let gone = ProcFiles { stat: None, ..process(1, 0, 5) };
    let broken = ProcFiles { stat: Some("1 (x) S 1".to_string()), ..process(1, 0, 5) };
    let other = ProcFiles { name: "meminfo".to_string(), ..process(1, 0, 5) };
    assert!(gather(&mut s, settings(0), vec![gone, broken, other]).is_empty());
}

#[test]
fn memory_is_kept_while_it_is_not_read() {
    let mut s = WorkerState::new();
    let rows = gather(&mut s, settings(0), vec![process(42, 0, 100)]);
    s.remember(&rows);
    let mut set = settings(SECOND);
    set.do_mem = false;
    let rows = gather(&mut s, set, vec![process(42, 0, 999), process(43, 0, 999)]);
    assert_eq!(rows.len(), 1);
    assert_eq!((rows[0].pss_kb, rows[0].uss_kb, rows[0].rss_kb, rows[0].swap_kb), (7, 3, 100, 3));
}

#[test]
fn commands_are_read_once() {
    let mut s = WorkerState::new();
    assert!(!s.knows_command(42));
    gather(&mut s, settings(0), vec![process(42, 0, 100)]);
    assert!(s.knows_command(42));
    let mut f = process(42, 0, 100);
    f.cmdline = "other".to_string();
    assert_eq!(gather(&mut s, settings(1), vec![f])[0].full_cmd, "/bin/prog -x");
}

#[test]
fn figures() {
    let mut s = WorkerState::new();
    let mut files = vec![process(1, 0, 5), process(2, 0, 5), process(3, 0, 5), process(4, 0, 5)];
    files[1].stat = stat(2, "a", 'R', 0, 0);
    files[2].stat = stat(3, "a", 'Z', 0, 0);
    files[3].stat = stat(4, "a", 'D', 0, 0);
    let (_, info) = gather_data(settings(0), &mut s, &users(), &files, &machine());
    assert_eq!(info.cpu_percent, double(0.0));
    assert_eq!(info.mem_percent, double(75.0));
    assert_eq!(info.swap_percent, double(25.0));
    assert_eq!(info.load, "0.1 0.2 0.3");
    assert_eq!(info.uptime, "0y 0d 1h 1m 1s");
    assert_eq!(info.tasks, "4 (1 run, 2 slp, 1 zom)");
    let mut m = machine();
    m.stat = "cpu  190 0 0 110\n".to_string();
    m.meminfo = "MemTotal: 900 kB\nMemFree: 100 kB\nBuffers: 50 kB\nCached: 150 kB\n".to_string();
    m.uptime = None;
    m.loadavg = String::new();
    let (_, info) = gather_data(settings(0), &mut s, &users(), &Vec::new(), &m);
    assert_eq!(info.cpu_percent, double((1.0 - 10.0 / 100.0) * 100.0));
    assert_eq!(info.mem_percent, double((600.0 / 900.0) * 100.0));
    assert_eq!(info.swap_percent, double(0.0));
    assert_eq!(info.uptime, "");
    assert_eq!(info.load, "");
    assert_eq!(info.tasks, "0 (0 run, 0 slp, 0 zom)");
    let (_, info) = gather_data(settings(0), &mut s, &users(), &Vec::new(), &m);
    assert_eq!(info.cpu_percent, double(0.0));
}

fn demand(interval: u32) -> Demand {
    Demand {
        interval,
        mem_override: false,
        thread_mode: false,
        show_kernel: false,
    }
}

fn plan(do_mem: bool, use_nano_mode: bool, publish: bool) -> Plan {
    Plan {
        do_mem,
        use_nano_mode,
        thread_mode: false,
        show_kernel: false,
        publish,
    }
}

#[test]
fn rounds_of_the_worker() {
    let mut w = Worker::new();
    let d = demand(100);
    assert_eq!(w.next(0, d), Action::Gather(plan(true, false, false)));
    assert_eq!(w.next(10, d), Action::Sleep(100_000_000));
    let t = SECOND;
    assert_eq!(w.next(t, d), Action::Gather(plan(true, false, true)));
    assert_eq!(w.next(t + 880_000_000, d), Action::Sleep(50_000_000));
    assert_eq!(w.next(t + 930_000_000, d), Action::Sleep(50_000_000));
    assert_eq!(w.next(t + 980_000_000, d), Action::Sleep(20_000_000));
    assert_eq!(w.next(t + SECOND, d), Action::Gather(plan(false, false, true)));
    assert_eq!(w.next(t + 2 * SECOND, d), Action::Yield);
    assert_eq!(w.next(t + 2 * SECOND, d), Action::Gather(plan(true, false, true)));
    assert_eq!(w.next(t + 2 * SECOND, d), Action::Sleep(50_000_000));
}

#[test]
fn a_changed_demand_ends_the_rest() {
    let changes: [fn(&mut Demand); 4] = [
        |d| d.interval = 300,
        |d| d.mem_override = true,
        |d| d.thread_mode = true,
        |d| d.show_kernel = true,
    ];
    for change in changes {
        let mut w = Worker::new();
        let mut d = demand(200);
        w.next(0, d);
        w.next(0, d);
        w.next(0, d);
        assert_eq!(w.next(1, d), Action::Sleep(50_000_000));
        change(&mut d);
        match w.next(2, d) {
            Action::Gather(p) => {
                assert!(p.publish);
                assert_eq!(p.do_mem, d.mem_override);
                assert_eq!((p.thread_mode, p.show_kernel), (d.thread_mode, d.show_kernel));
            }
            _ => panic!("no new round"),
        }
    }
}

#[test]
fn other_times_are_read_anew() {
    let mut w = Worker::new();
    let mut d = demand(200);
    w.next(0, d);
    w.next(0, d);
    w.next(0, d);
    gather(&mut w.state, settings(0), vec![process(42, 5, 100)]);
    assert!(w.state.prev_cpu_times.contains_key(&42));
    d.interval = 10;
    assert_eq!(w.next(5, d), Action::Sleep(50_000_000));
    assert_eq!(w.next(6, d), Action::Gather(plan(true, true, false)));
    assert!(w.state.prev_cpu_times.is_empty());
    assert_eq!(w.next(7, d), Action::Sleep(100_000_000));
    match w.next(8, d) {
        Action::Gather(p) => assert!(p.publish && p.use_nano_mode && !p.do_mem),
        _ => panic!("nothing gathered"),
    }
    assert!(matches!(w.phase, Phase::Gathered(_)));
}

fn number(d: Double) -> f64 {
    d.mant as f64 * 2f64.powi(d.exp)
}

#[test]
fn shares_mix_no_units_however_the_interval_changes() {
    // A process with one thread beside it: both of its tasks keep a processor
    // busy, of four.
    let busy = |now: u64| {
        let ns = Some(now as f64);
        let mut f = process(42, now / 5_000_000, 100);
        f.tasks = vec![task("42", ns), task("43", ns)];
        f.threads = vec![task("42", ns), task("43", ns)];
        f
    };
    for intervals in [
        vec![200, 200, 200, 10, 10, 200, 10, 200],
        vec![10, 10, 10, 10, 200, 200, 10],
        vec![200, 10, 10, 200],
        vec![49, 49, 49, 50, 49, 50],
    ] {
        let mut w = Worker::new();
        let mut now = SECOND;
        let mut shown = 0;
        let mut asked = intervals[0];
        for turn in 0..200usize {
            if turn < 3 {
                asked = intervals[turn];
            } else if turn % 17 == 0 && turn / 17 + 2 < intervals.len() {
                asked = intervals[turn / 17 + 2];
            }
            let d = Demand { thread_mode: true, ..demand(asked) };
            match w.next(now, d) {
                Action::Gather(p) => {
                    let mut set = settings(now);
                    set.use_nano_mode = p.use_nano_mode;
                    set.thread_mode = p.thread_mode;
                    let rows = gather(&mut w.state, set, vec![busy(now)]);
                    if p.publish {
                        shown += 1;
                        assert_eq!(rows.len(), 2);
                        assert!((number(rows[0].cpu_percent) - 50.0).abs() < 1e-6);
                        assert!((number(rows[1].cpu_percent) - 25.0).abs() < 1e-6);
                        w.state.remember(&rows);
                    }
                }
                Action::Sleep(ns) => now += ns,
                Action::Yield => now += 10_000_000,
            }
        }
        assert!(shown > 3);
    }
}

#[test]
fn memory_on_demand() {
    let mut w = Worker::new();
    let mut d = demand(50);
    d.mem_override = true;
    w.next(0, d);
    w.next(0, d);
    for i in 0..5 {
        let t = i * SECOND;
        assert_eq!(w.next(t, d), Action::Gather(plan(true, false, true)));
        assert_eq!(w.next(t + SECOND, d), Action::Yield);
    }
}
