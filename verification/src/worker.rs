//! Gathering the rows and the figures from what the files below `/proc` say,
//! and what is kept from one time to the next.

use crate::color::{share, share_of};
use crate::double::{less, minus, over, plus, times, usual, whole, zero, Double, Dyadic, Number};
use crate::format::{format_uptime, uptime_text};
use crate::process::{rows_say, rows_wf, Figures, ProcInfo, Row, SystemInfo};
use crate::procfs::{
    command_text, cpu_times, entry_or, load_text, meminfo, parse_cmdline, parse_loadavg,
    parse_smaps_rollup, parse_stat, parse_status, read_cpu_times_buf, read_meminfo_buf,
    rollup_memory, shorten, shortened, stat_fields, stat_name, status_ppid, status_uid, user_names,
    MemInfo, Memory, UserMap,
};
use crate::text::{
    all_digits, chars_of, decimal, lines, parse_i32, parsed_i32, push_all, push_number,
    signed_chars, signed_decimal, string_of,
};
use std::collections::HashMap;
use vstd::prelude::*;
use vstd::string::StringExecFns;

verus! {

broadcast use vstd::std_specs::hash::group_hash_axioms;

/// The number of nanoseconds in a second.
pub const SECOND: u64 = 1_000_000_000;

/// The largest number of tasks of a Linux system.
pub const MAX_TASKS: usize = 0x40_0000;

/// What is gathered, and on what machine.
#[derive(Clone, Copy)]
pub struct Settings {
    /// Whether memory is read, or taken from the last time.
    pub do_mem: bool,
    /// Whether processor time is read in nanoseconds, from each task.
    pub use_nano_mode: bool,
    pub thread_mode: bool,
    pub show_kernel: bool,
    /// How many units of processor time there are in a second.
    pub clk_tck: u64,
    pub num_cpus: u64,
    /// The time in nanoseconds.
    pub now: u64,
}

/// A task of a process: its entry below `task`, and the run time in nanoseconds
/// at the start of its `schedstat`, if there is one.
pub struct TaskSample {
    pub name: String,
    pub runtime: Option<Double>,
}

/// What came of reading `smaps_rollup`.
pub enum MemoryText {
    Text(String),
    /// The process belongs to somebody else.
    Denied,
    Missing,
}

/// An entry below `/proc` and the files in it; a file that cannot be read counts
/// as empty, but for `stat`.
pub struct ProcFiles {
    pub name: String,
    pub stat: Option<String>,
    pub status: String,
    /// The tasks, for their processor time.
    pub tasks: Vec<TaskSample>,
    pub smaps: MemoryText,
    pub cmdline: String,
    /// The tasks, for the rows of the threads.
    pub threads: Vec<TaskSample>,
}

/// The files of the machine as a whole; a file that cannot be read counts as
/// empty.
pub struct SystemFiles {
    pub stat: String,
    pub meminfo: String,
    pub loadavg: String,
    /// The seconds at the start of `/proc/uptime`.
    pub uptime: Option<Number>,
}

/// Whether there are no more tasks than a system has, and all run times are
/// numbers of the machine format.
pub open spec fn samples_wf(tasks: Seq<TaskSample>) -> bool {
    &&& tasks.len() <= MAX_TASKS
    &&& forall|i: int|
        0 <= i < tasks.len() ==> ((#[trigger] tasks[i]).runtime matches Some(d) ==> d.within(2000))
}

impl ProcFiles {
    pub open spec fn wf(self) -> bool {
        samples_wf(self.tasks@) && samples_wf(self.threads@)
    }
}

/// What is kept from one time to the next.
pub struct WorkerState {
    /// For each process and thread its processor time, and when it was read.
    pub prev_cpu_times: HashMap<i32, (Double, u64)>,
    /// All and idle processor time of the machine.
    pub prev_sys_cpu: Option<(u64, u64)>,
    /// For each process its user, its command and its command line.
    pub cached_static: HashMap<i32, (String, String, String)>,
    /// The rows of the last time.
    pub last_procs: HashMap<i32, ProcInfo>,
    /// When memory was read last.
    pub last_mem_update: Option<u64>,
    pub last_use_nano_mode: bool,
}

/// What is known from the last time.
#[verifier::ext_equal]
pub struct Past {
    pub times: Map<i32, (Dyadic, u64)>,
    pub sys_cpu: Option<(u64, u64)>,
    pub commands: Map<i32, (Seq<char>, Seq<char>, Seq<char>)>,
    pub rows: Map<i32, ProcInfo>,
    pub mem_update: Option<u64>,
    pub nano_mode: bool,
}

/// Processor times as numbers.
pub open spec fn time_values(m: Map<i32, (Double, u64)>) -> Map<i32, (Dyadic, u64)> {
    m.map_values(|v: (Double, u64)| (v.0@, v.1))
}

/// Commands as sequences of characters.
pub open spec fn command_values(m: Map<i32, (String, String, String)>) -> Map<
    i32,
    (Seq<char>, Seq<char>, Seq<char>),
> {
    m.map_values(|v: (String, String, String)| (v.0@, v.1@, v.2@))
}

impl View for WorkerState {
    type V = Past;

    open spec fn view(&self) -> Past {
        Past {
            times: time_values(self.prev_cpu_times@),
            sys_cpu: self.prev_sys_cpu,
            commands: command_values(self.cached_static@),
            rows: self.last_procs@,
            mem_update: self.last_mem_update,
            nano_mode: self.last_use_nano_mode,
        }
    }
}

impl WorkerState {
    /// The processor times are of ordinary size.
    pub open spec fn wf(self) -> bool {
        forall|k: i32| #[trigger]
            self.prev_cpu_times@.contains_key(k) ==> self.prev_cpu_times@[k].0.within(0x1f00_0000)
    }
}

// Processor time

/// How long ago something was.
pub open spec fn since(now: u64, then: u64) -> nat {
    if now > then {
        (now - then) as nat
    } else {
        0
    }
}

/// A number of nanoseconds in seconds.
pub open spec fn seconds(ns: nat) -> Dyadic {
    plus(
        whole((ns / SECOND as nat) as int),
        over(whole((ns % SECOND as nat) as int), whole(SECOND as int)),
    )
}

/// The share of all processors that an amount of processor time in a time makes,
/// in percent. There are `unit` units of processor time in a second.
pub open spec fn utilization(delta: Dyadic, unit: u64, dt: Dyadic, cpus: u64) -> Dyadic {
    times(
        over(over(over(delta, whole(unit as int)), dt), whole(cpus as int)),
        whole(100),
    )
}

/// The share of all processors that a process or thread has had since its
/// processor time was read last; zero if it was not, or if time ran backwards.
pub open spec fn cpu_share(
    past: Past,
    set: Settings,
    id: i32,
    val: Dyadic,
    unit: u64,
) -> Dyadic {
    if past.times.contains_key(id) {
        let delta = minus(val, past.times[id].0);
        let dt = seconds(since(set.now, past.times[id].1));
        if less(zero(), dt) && !less(delta, zero()) {
            utilization(delta, unit, dt, set.num_cpus)
        } else {
            zero()
        }
    } else {
        zero()
    }
}

/// With the processor time of a process or thread kept.
pub open spec fn timed(past: Past, set: Settings, id: i32, val: Dyadic) -> Past {
    Past { times: past.times.insert(id, (val, set.now)), ..past }
}

/// The run time of all tasks together, if any of them has one.
pub open spec fn total_runtime(tasks: Seq<TaskSample>) -> Option<Dyadic>
    decreases tasks.len(),
{
    if tasks.len() == 0 {
        None
    } else {
        let t = total_runtime(tasks.drop_last());
        match tasks.last().runtime {
            Some(d) => if parsed_i32(tasks.last().name@) is Some {
                Some(
                    plus(
                        match t {
                            Some(sum) => sum,
                            None => zero(),
                        },
                        d@,
                    ),
                )
            } else {
                t
            },
            None => t,
        }
    }
}

/// The processor time of a process, and in how many units to a second.
pub open spec fn processor_time(
    set: Settings,
    tasks: Seq<TaskSample>,
    utime: u64,
    stime: u64,
) -> (Dyadic, u64) {
    match total_runtime(tasks) {
        Some(sum) => if set.use_nano_mode {
            (sum, SECOND)
        } else {
            (whole(utime.wrapping_add(stime) as int), set.clk_tck)
        },
        None => (whole(utime.wrapping_add(stime) as int), set.clk_tck),
    }
}

// One process

/// The number of the process that an entry below `/proc` stands for.
pub open spec fn pid_named(name: Seq<char>) -> Option<i32> {
    if all_digits(name) {
        match parsed_i32(name) {
            Some(n) => Some(n as i32),
            None => None,
        }
    } else {
        None
    }
}

/// No memory.
pub open spec fn no_memory() -> Memory {
    Memory { pss_kb: 0, uss_kb: 0, rss_kb: 0, swap_kb: 0 }
}

/// The memory of a process: what was read, or else what was known of it.
pub open spec fn memory(past: Past, set: Settings, pid: i32, smaps: MemoryText) -> Memory {
    if set.do_mem {
        match smaps {
            MemoryText::Text(s) => rollup_memory(s@),
            MemoryText::Denied => no_memory(),
            MemoryText::Missing => no_memory(),
        }
    } else if past.rows.contains_key(pid) {
        let p = past.rows[pid];
        Memory { pss_kb: p.pss_kb, uss_kb: p.uss_kb, rss_kb: p.rss_kb, swap_kb: p.swap_kb }
    } else {
        no_memory()
    }
}

/// Whether the memory of a process is kept from us: such a process is listed
/// although no memory of it is known.
pub open spec fn denied(past: Past, set: Settings, pid: i32, smaps: MemoryText) -> bool {
    if set.do_mem {
        smaps is Denied
    } else {
        past.rows.contains_key(pid) && past.rows[pid].rss_kb == 0 && !past.rows[pid].is_kernel
            && !past.rows[pid].is_thread
    }
}

/// The name of a user, or the number if it has none.
pub open spec fn user_of(users: Map<u32, Seq<char>>, uid: u32) -> Seq<char> {
    if users.contains_key(uid) {
        users[uid]
    } else {
        decimal(uid as nat)
    }
}

/// The user, the command and the command line of a process that was not seen
/// before.
pub open spec fn fresh_command(users: Map<u32, Seq<char>>, f: ProcFiles) -> (
    Seq<char>,
    Seq<char>,
    Seq<char>,
) {
    let full = command_text(f.cmdline@);
    (user_of(users, status_uid(f.status@)), shortened(full, 40), full)
}

/// With the command of a process kept.
pub open spec fn with_command(
    past: Past,
    pid: i32,
    command: (Seq<char>, Seq<char>, Seq<char>),
) -> Past {
    Past { commands: past.commands.insert(pid, command), ..past }
}

/// The user, the command and the command line of a process: those of the kernel
/// for its threads, those that are known, or else those that are found.
pub open spec fn command(
    past: Past,
    users: Map<u32, Seq<char>>,
    pid: i32,
    is_kernel: bool,
    name: Seq<char>,
    f: ProcFiles,
) -> (Past, (Seq<char>, Seq<char>, Seq<char>)) {
    if is_kernel {
        (past, ("root"@, name, name))
    } else if past.commands.contains_key(pid) {
        (past, past.commands[pid])
    } else {
        (with_command(past, pid, fresh_command(users, f)), fresh_command(users, f))
    }
}

/// The row of a thread.
pub open spec fn thread_row(
    pid: i32,
    tid: i32,
    cmd: (Seq<char>, Seq<char>, Seq<char>),
    cpu_percent: Dyadic,
) -> Row {
    Row {
        pid,
        tid,
        ppid: pid,
        user: cmd.0,
        cmd: cmd.1,
        full_cmd: "[thread "@ + signed_decimal(tid as int) + "] "@ + cmd.2,
        pss_kb: 0,
        uss_kb: 0,
        rss_kb: 0,
        swap_kb: 0,
        state: '?',
        cpu_percent,
        is_thread: true,
        is_kernel: false,
        tree_depth: 0,
        tree_mask: 0,
        is_last_child: false,
    }
}

/// The rows of the threads of a process: all tasks but the process itself.
pub open spec fn thread_rows(
    past: Past,
    set: Settings,
    pid: i32,
    cmd: (Seq<char>, Seq<char>, Seq<char>),
    tasks: Seq<TaskSample>,
) -> (Past, Seq<Row>)
    decreases tasks.len(),
{
    if tasks.len() == 0 {
        (past, seq![])
    } else {
        let a = thread_rows(past, set, pid, cmd, tasks.drop_last());
        let t = tasks.last();
        match parsed_i32(t.name@) {
            Some(n) => {
                let tid = n as i32;
                if tid == pid {
                    a
                } else {
                    match t.runtime {
                        Some(d) => (
                            timed(a.0, set, tid, d@),
                            a.1.push(
                                thread_row(pid, tid, cmd, cpu_share(a.0, set, tid, d@, SECOND)),
                            ),
                        ),
                        None => (a.0, a.1.push(thread_row(pid, tid, cmd, zero()))),
                    }
                }
            },
            None => a,
        }
    }
}

/// Whether a process is a thread of the kernel: one without memory, unless that
/// is kept from us.
pub open spec fn of_kernel(
    past: Past,
    set: Settings,
    pid: i32,
    stat: Seq<char>,
    f: ProcFiles,
) -> bool {
    memory(past, set, pid, f.smaps).rss_kb == 0 && stat_name(stat).len() > 0 && !denied(
        past,
        set,
        pid,
        f.smaps,
    )
}

/// Whether a process is listed. It is not if its files cannot be read, or if it
/// has no memory; but threads of the kernel are listed on demand, and so is what
/// is kept from us.
pub open spec fn listed(
    past: Past,
    set: Settings,
    pid: i32,
    stat: Seq<char>,
    f: ProcFiles,
) -> bool {
    stat_fields(stat) is Some && (memory(past, set, pid, f.smaps).rss_kb != 0 || denied(
        past,
        set,
        pid,
        f.smaps,
    ) || (of_kernel(past, set, pid, stat, f) && set.show_kernel))
}

/// The user, the command and the command line of a process, and what is known
/// then.
pub open spec fn command_known(
    past: Past,
    set: Settings,
    users: Map<u32, Seq<char>>,
    pid: i32,
    stat: Seq<char>,
    f: ProcFiles,
) -> (Past, (Seq<char>, Seq<char>, Seq<char>)) {
    command(past, users, pid, of_kernel(past, set, pid, stat, f), stat_name(stat), f)
}

/// The processor time of a process, and in how many units to a second.
pub open spec fn own_time(set: Settings, stat: Seq<char>, f: ProcFiles) -> (Dyadic, u64) {
    let fields = stat_fields(stat)->0;
    processor_time(set, f.tasks@, fields.1, fields.2)
}

/// The row of a process.
pub open spec fn own_row(
    past: Past,
    set: Settings,
    users: Map<u32, Seq<char>>,
    pid: i32,
    stat: Seq<char>,
    f: ProcFiles,
) -> Row {
    let mem = memory(past, set, pid, f.smaps);
    let c = command_known(past, set, users, pid, stat, f);
    let t = own_time(set, stat, f);
    let fields = stat_fields(stat)->0;
    Row {
        pid,
        tid: pid,
        ppid: status_ppid(f.status@),
        user: c.1.0,
        cmd: c.1.1,
        full_cmd: c.1.2,
        pss_kb: mem.pss_kb,
        uss_kb: mem.uss_kb,
        rss_kb: mem.rss_kb,
        swap_kb: mem.swap_kb,
        state: fields.0,
        cpu_percent: cpu_share(c.0, set, pid, t.0, t.1),
        is_thread: false,
        is_kernel: of_kernel(past, set, pid, stat, f),
        tree_depth: 0,
        tree_mask: 0,
        is_last_child: false,
    }
}

/// What is known after a process was listed.
pub open spec fn own_past(
    past: Past,
    set: Settings,
    users: Map<u32, Seq<char>>,
    pid: i32,
    stat: Seq<char>,
    f: ProcFiles,
) -> Past {
    timed(
        command_known(past, set, users, pid, stat, f).0,
        set,
        pid,
        own_time(set, stat, f).0,
    )
}

/// The rows of the threads of a process, and what is known then.
pub open spec fn own_threads(
    past: Past,
    set: Settings,
    users: Map<u32, Seq<char>>,
    pid: i32,
    stat: Seq<char>,
    f: ProcFiles,
) -> (Past, Seq<Row>) {
    let after = own_past(past, set, users, pid, stat, f);
    if set.thread_mode {
        thread_rows(
            after,
            set,
            pid,
            command_known(past, set, users, pid, stat, f).1,
            f.threads@,
        )
    } else {
        (after, seq![])
    }
}

/// The rows of a process and of its threads, if it is listed, and what is known
/// then.
pub open spec fn process_rows(
    past: Past,
    set: Settings,
    users: Map<u32, Seq<char>>,
    pid: i32,
    stat: Seq<char>,
    f: ProcFiles,
) -> (Past, Seq<Row>) {
    if listed(past, set, pid, stat, f) {
        let ts = own_threads(past, set, users, pid, stat, f);
        (ts.0, seq![own_row(past, set, users, pid, stat, f)] + ts.1)
    } else {
        (past, seq![])
    }
}

/// The rows of an entry below `/proc`.
pub open spec fn entry_rows(
    past: Past,
    set: Settings,
    users: Map<u32, Seq<char>>,
    f: ProcFiles,
) -> (Past, Seq<Row>) {
    match (pid_named(f.name@), f.stat) {
        (Some(pid), Some(stat)) => process_rows(past, set, users, pid, stat@, f),
        _ => (past, seq![]),
    }
}

/// The rows of all entries below `/proc`.
pub open spec fn all_rows(
    past: Past,
    set: Settings,
    users: Map<u32, Seq<char>>,
    files: Seq<ProcFiles>,
) -> (Past, Seq<Row>)
    decreases files.len(),
{
    if files.len() == 0 {
        (past, seq![])
    } else {
        let a = all_rows(past, set, users, files.drop_last());
        let b = entry_rows(a.0, set, users, files.last());
        (b.0, a.1 + b.1)
    }
}

// The machine as a whole

/// A part of a whole, in percent.
pub open spec fn percentage(part: int, all: int) -> Dyadic {
    if all > 0 {
        times(share(part, all), whole(100))
    } else {
        zero()
    }
}

/// How much larger one number is than another; zero if it is not.
pub open spec fn excess(a: u64, b: u64) -> int {
    if a > b {
        a - b
    } else {
        0
    }
}

/// The share of the time that the processors were not idle, in percent.
pub open spec fn busy(prev: Option<(u64, u64)>, now: (u64, u64)) -> Dyadic {
    match prev {
        Some((total, idle)) => {
            let d_total = excess(now.0, total);
            let d_idle = excess(now.1, idle);
            if d_total > 0 {
                times(minus(whole(1), share(d_idle, d_total)), whole(100))
            } else {
                zero()
            }
        },
        None => zero(),
    }
}

/// The memory that is available: what the machine says, or else what is free,
/// in buffers or in caches.
pub open spec fn available(m: Map<Seq<char>, u64>) -> u64 {
    entry_or(
        m,
        "MemAvailable"@,
        entry_or(m, "MemFree"@, 0).wrapping_add(entry_or(m, "Buffers"@, 0)).wrapping_add(
            entry_or(m, "Cached"@, 0),
        ),
    )
}

/// How many rows are in one of some states.
pub open spec fn count_states(rows: Seq<Row>, a: char, b: char) -> nat
    decreases rows.len(),
{
    if rows.len() == 0 {
        0
    } else {
        count_states(rows.drop_last(), a, b) + if rows.last().state == a || rows.last().state == b {
            1nat
        } else {
            0
        }
    }
}

/// How many rows are processes.
pub open spec fn count_processes(rows: Seq<Row>) -> nat
    decreases rows.len(),
{
    if rows.len() == 0 {
        0
    } else {
        count_processes(rows.drop_last()) + if rows.last().is_thread {
            0nat
        } else {
            1
        }
    }
}

/// How many processes there are, and how many of them run, sleep or are zombies.
pub open spec fn tasks_text(rows: Seq<Row>) -> Seq<char> {
    decimal(count_processes(rows)) + " ("@ + decimal(count_states(rows, 'R', 'R')) + " run, "@
        + decimal(count_states(rows, 'S', 'D')) + " slp, "@ + decimal(count_states(rows, 'Z', 'Z'))
        + " zom)"@
}

/// The figures of the machine.
pub open spec fn machine(prev: Option<(u64, u64)>, files: SystemFiles, rows: Seq<Row>) -> Figures {
    let m = meminfo(lines(files.meminfo@));
    let mem_total = entry_or(m, "MemTotal"@, 0);
    let swap_total = entry_or(m, "SwapTotal"@, 0);
    Figures {
        cpu_percent: busy(prev, cpu_times(files.stat@)),
        mem_percent: percentage(excess(mem_total, available(m)), mem_total as int),
        swap_percent: percentage(
            excess(swap_total, entry_or(m, "SwapFree"@, 0)),
            swap_total as int,
        ),
        load: load_text(files.loadavg@),
        uptime: match files.uptime {
            Some(n) => uptime_text(n.whole_part()),
            None => seq![],
        },
        tasks: tasks_text(rows),
    }
}

/// How long ago something was.
fn time_since(now: u64, then: u64) -> (r: u64)
    ensures
        r == since(now, then),
{
    if now > then {
        now - then
    } else {
        0
    }
}

/// A number of nanoseconds in seconds.
fn in_seconds(ns: u64) -> (r: Double)
    ensures
        r@ == seconds(ns as nat),
        r.within(2000),
{
    proof {
        crate::double::lemma_nearest_positive(SECOND as nat, 1, 0);
    }
    let unit = Double::from_int(SECOND as i128);
    let fraction = Double::from_int((ns % SECOND) as i128).over(unit);
    Double::from_int((ns / SECOND) as i128).plus(fraction)
}

/// The share of all processors that an amount of processor time makes.
fn utilization_of(delta: Double, unit: u64, dt: Double, cpus: u64) -> (r: Double)
    requires
        unit > 0,
        cpus > 0,
        dt.mant != 0,
        dt.within(2000),
        delta.within(0x1f00_1000),
    ensures
        r@ == utilization(delta@, unit, dt@, cpus),
        r.within(usual()),
{
    proof {
        crate::double::lemma_nearest_positive(unit as nat, 1, 0);
        crate::double::lemma_nearest_positive(cpus as nat, 1, 0);
    }
    let units = Double::from_int(unit as i128);
    let processors = Double::from_int(cpus as i128);
    delta.over(units).over(dt).over(processors).times(Double::from_int(100))
}

impl Settings {
    /// There is a processor, and time has units.
    pub open spec fn wf(self) -> bool {
        self.clk_tck > 0 && self.num_cpus > 0
    }
}

/// The run time of all tasks together, if any of them has one.
fn sum_runtime(tasks: &Vec<TaskSample>) -> (r: Option<Double>)
    requires
        samples_wf(tasks@),
    ensures
        match r {
            Some(d) => total_runtime(tasks@) == Some(d@) && d.within(0x1f00_0000),
            None => total_runtime(tasks@) is None,
        },
{
    let mut r: Option<Double> = None;
    let mut i: usize = 0;
    while i < tasks.len()
        invariant
            i <= tasks@.len(),
            samples_wf(tasks@),
            match r {
                Some(d) => total_runtime(tasks@.take(i as int)) == Some(d@) && d.within(
                    2000 + 120 * i,
                ),
                None => total_runtime(tasks@.take(i as int)) is None,
            },
        decreases tasks.len() - i,
    {
        proof {
            assert(tasks@.take(i + 1).drop_last() =~= tasks@.take(i as int));
            assert(tasks@.take(i + 1).last() == tasks@[i as int]);
        }
        match tasks[i].runtime {
            Some(d) => {
                if parse_i32(&chars_of(tasks[i].name.as_str())).is_some() {
                    let sum = match r {
                        Some(sum) => sum,
                        None => Double { mant: 0, exp: 0 },
                    };
                    r = Some(sum.plus(d));
                }
            },
            None => {},
        }
        i = i + 1;
    }
    proof {
        assert(tasks@.take(i as int) =~= tasks@);
    }
    r
}

/// The processor time of a process, and in how many units to a second.
fn time_of(set: Settings, tasks: &Vec<TaskSample>, utime: u64, stime: u64) -> (r: (Double, u64))
    requires
        samples_wf(tasks@),
        set.wf(),
    ensures
        (r.0@, r.1) == processor_time(set, tasks@, utime, stime),
        r.0.within(0x1f00_0000),
        r.1 > 0,
{
    if set.use_nano_mode {
        match sum_runtime(tasks) {
            Some(sum) => {
                return (sum, SECOND);
            },
            None => {},
        }
    }
    (Double::from_int(utime.wrapping_add(stime) as i128), set.clk_tck)
}

/// The number of the process that an entry below `/proc` stands for.
pub fn pid_of(name: &str) -> (r: Option<i32>)
    ensures
        r == pid_named(name@),
{
    let chars = chars_of(name);
    let mut i: usize = 0;
    while i < chars.len()
        invariant
            i <= chars@.len(),
            chars@ == name@,
            forall|k: int| 0 <= k < i ==> crate::text::is_digit(#[trigger] chars@[k]),
        decreases chars.len() - i,
    {
        if chars[i] < '0' || chars[i] > '9' {
            proof {
                assert(!crate::text::is_digit(chars@[i as int]));
            }
            return None;
        }
        i = i + 1;
    }
    parse_i32(&chars)
}

/// The name of a user, or the number if it has none.
fn name_of(users: &UserMap, uid: u32) -> (r: String)
    ensures
        r@ == user_of(user_names(users@), uid),
{
    match users.get(&uid) {
        Some(name) => name.clone(),
        None => {
            let mut r = String::new();
            push_number(&mut r, uid as u64);
            proof {
                assert(r@ =~= decimal(uid as nat));
            }
            r
        },
    }
}

/// The user, the command and the command line of a process that was not seen
/// before.
fn find_command(users: &UserMap, f: &ProcFiles) -> (r: (String, String, String))
    ensures
        (r.0@, r.1@, r.2@) == fresh_command(user_names(users@), *f),
{
    let (_, uid) = parse_status(f.status.as_str());
    let full = parse_cmdline(f.cmdline.as_str());
    let cmd = string_of(&shorten(&chars_of(full.as_str()), 40));
    (name_of(users, uid), cmd, full)
}

/// The command line of a thread.
fn thread_command(tid: i32, full: &str) -> (r: String)
    ensures
        r@ == "[thread "@ + signed_decimal(tid as int) + "] "@ + full@,
{
    let mut r = String::new();
    r.append("[thread ");
    push_all(&mut r, &signed_chars(tid));
    r.append("] ");
    r.append(full);
    proof {
        assert(r@ =~= "[thread "@ + signed_decimal(tid as int) + "] "@ + full@);
    }
    r
}

impl WorkerState {
    /// Nothing is known yet.
    pub fn new() -> (r: WorkerState)
        ensures
            r@ == (Past {
                times: Map::empty(),
                sys_cpu: None,
                commands: Map::empty(),
                rows: Map::empty(),
                mem_update: None,
                nano_mode: false,
            }),
            r.wf(),
    {
        let r = WorkerState {
            prev_cpu_times: HashMap::new(),
            prev_sys_cpu: None,
            cached_static: HashMap::new(),
            last_procs: HashMap::new(),
            last_mem_update: None,
            last_use_nano_mode: false,
        };
        proof {
            assert(r@ =~= Past {
                times: Map::empty(),
                sys_cpu: None,
                commands: Map::empty(),
                rows: Map::empty(),
                mem_update: None,
                nano_mode: false,
            });
        }
        r
    }

    /// Whether the command of a process is known, so that its `cmdline` need
    /// not be read.
    pub fn knows_command(&self, pid: i32) -> (r: bool)
        ensures
            r == self@.commands.contains_key(pid),
    {
        self.cached_static.contains_key(&pid)
    }

    /// The share of all processors that a process or thread has had.
    fn share_of(&self, set: Settings, id: i32, val: Double, unit: u64) -> (r: Double)
        requires
            self.wf(),
            set.wf(),
            unit > 0,
            val.within(0x1f00_0000),
        ensures
            r@ == cpu_share(self@, set, id, val@, unit),
            r.within(usual()),
    {
        let none = Double { mant: 0, exp: 0 };
        match self.prev_cpu_times.get(&id) {
            Some(prev) => {
                proof {
                    assert(self.prev_cpu_times@.contains_key(id));
                    assert(self@.times[id] == (prev.0@, prev.1));
                }
                let delta = val.minus(prev.0);
                let dt = in_seconds(time_since(set.now, prev.1));
                if none.less(dt) && !delta.less(none) {
                    proof {
                        lemma_positive(dt@);
                    }
                    utilization_of(delta, unit, dt, set.num_cpus)
                } else {
                    none
                }
            },
            None => {
                proof {
                    assert(!self@.times.contains_key(id));
                }
                none
            },
        }
    }

    /// Keeps the processor time of a process or thread.
    fn keep_time(&mut self, set: Settings, id: i32, val: Double)
        requires
            old(self).wf(),
            val.within(0x1f00_0000),
        ensures
            final(self)@ == timed(old(self)@, set, id, val@),
            final(self).wf(),
    {
        let ghost start = self@;
        let ghost had = self.prev_cpu_times@;
        self.prev_cpu_times.insert(id, (val, set.now));
        proof {
            assert(time_values(self.prev_cpu_times@) =~= time_values(had).insert(
                id,
                (val@, set.now),
            ));
            assert(self@ =~= timed(start, set, id, val@));
        }
    }

    /// The memory of a process, and whether it is kept from us.
    fn memory_of(&self, set: Settings, pid: i32, smaps: &MemoryText) -> (r: (Memory, bool))
        ensures
            r.0 == memory(self@, set, pid, *smaps),
            r.1 == denied(self@, set, pid, *smaps),
    {
        let none = Memory { pss_kb: 0, uss_kb: 0, rss_kb: 0, swap_kb: 0 };
        if set.do_mem {
            match smaps {
                MemoryText::Text(s) => (parse_smaps_rollup(s.as_str()), false),
                MemoryText::Denied => (none, true),
                MemoryText::Missing => (none, false),
            }
        } else {
            match self.last_procs.get(&pid) {
                Some(p) => (
                    Memory {
                        pss_kb: p.pss_kb,
                        uss_kb: p.uss_kb,
                        rss_kb: p.rss_kb,
                        swap_kb: p.swap_kb,
                    },
                    p.rss_kb == 0 && !p.is_kernel && !p.is_thread,
                ),
                None => (none, false),
            }
        }
    }

    /// The user, the command and the command line of a process.
    fn command_of(
        &mut self,
        users: &UserMap,
        pid: i32,
        is_kernel: bool,
        name: &String,
        f: &ProcFiles,
    ) -> (r: (String, String, String))
        requires
            old(self).wf(),
        ensures
            (final(self)@, (r.0@, r.1@, r.2@)) == command(
                old(self)@,
                user_names(users@),
                pid,
                is_kernel,
                name@,
                *f,
            ),
            final(self).wf(),
    {
        let ghost start = self@;
        if is_kernel {
            let mut root = String::new();
            root.append("root");
            proof {
                assert(root@ =~= "root"@);
            }
            return (root, name.clone(), name.clone());
        }
        match self.cached_static.get(&pid) {
            Some(c) => {
                proof {
                    assert(self@.commands[pid] == (c.0@, c.1@, c.2@));
                }
                return (c.0.clone(), c.1.clone(), c.2.clone());
            },
            None => {},
        }
        let r = find_command(users, f);
        let ghost had = self.cached_static@;
        let kept = (r.0.clone(), r.1.clone(), r.2.clone());
        self.cached_static.insert(pid, kept);
        proof {
            assert(command_values(self.cached_static@) =~= command_values(had).insert(
                pid,
                (r.0@, r.1@, r.2@),
            ));
            assert(self@ =~= with_command(start, pid, (r.0@, r.1@, r.2@)));
        }
        r
    }

    /// Appends the row of a thread.
    fn add_thread(
        &mut self,
        set: Settings,
        pid: i32,
        tid: i32,
        runtime: Option<Double>,
        cmd: &(String, String, String),
        out: &mut Vec<ProcInfo>,
    )
        requires
            old(self).wf(),
            set.wf(),
            rows_wf(old(out)@),
            runtime matches Some(d) ==> d.within(2000),
        ensures
            final(self).wf(),
            rows_wf(final(out)@),
            match runtime {
                Some(d) => {
                    &&& final(self)@ == timed(old(self)@, set, tid, d@)
                    &&& rows_say(final(out)@) == rows_say(old(out)@).push(
                        thread_row(
                            pid,
                            tid,
                            (cmd.0@, cmd.1@, cmd.2@),
                            cpu_share(old(self)@, set, tid, d@, SECOND),
                        ),
                    )
                },
                None => {
                    &&& final(self)@ == old(self)@
                    &&& rows_say(final(out)@) == rows_say(old(out)@).push(
                        thread_row(pid, tid, (cmd.0@, cmd.1@, cmd.2@), zero()),
                    )
                },
            },
    {
        let ghost had = out@;
        let mut cpu_percent = Double { mant: 0, exp: 0 };
        match runtime {
            Some(d) => {
                cpu_percent = self.share_of(set, tid, d, SECOND);
                self.keep_time(set, tid, d);
            },
            None => {},
        }
        let row = ProcInfo {
            pid,
            tid,
            ppid: pid,
            user: cmd.0.clone(),
            cmd: cmd.1.clone(),
            full_cmd: thread_command(tid, cmd.2.as_str()),
            pss_kb: 0,
            uss_kb: 0,
            rss_kb: 0,
            swap_kb: 0,
            state: '?',
            cpu_percent,
            is_thread: true,
            is_kernel: false,
            tree_depth: 0,
            tree_mask: 0,
            is_last_child: false,
        };
        let ghost new = row;
        out.push(row);
        proof {
            assert(rows_say(out@) =~= rows_say(had).push(new@));
            assert(new@ =~= thread_row(
                pid,
                tid,
                (cmd.0@, cmd.1@, cmd.2@),
                cpu_percent@,
            ));
        }
    }

    /// Appends the rows of the threads of a process.
    fn add_threads(
        &mut self,
        set: Settings,
        pid: i32,
        cmd: &(String, String, String),
        tasks: &Vec<TaskSample>,
        out: &mut Vec<ProcInfo>,
    )
        requires
            old(self).wf(),
            set.wf(),
            rows_wf(old(out)@),
            samples_wf(tasks@),
        ensures
            final(self).wf(),
            rows_wf(final(out)@),
            ({
                let r = thread_rows(old(self)@, set, pid, (cmd.0@, cmd.1@, cmd.2@), tasks@);
                &&& final(self)@ == r.0
                &&& rows_say(final(out)@) == rows_say(old(out)@) + r.1
            }),
    {
        let ghost past = self@;
        let ghost had = rows_say(out@);
        let ghost c = (cmd.0@, cmd.1@, cmd.2@);
        let mut i: usize = 0;
        proof {
            assert(had + thread_rows(past, set, pid, c, tasks@.take(0)).1 =~= had);
        }
        while i < tasks.len()
            invariant
                i <= tasks@.len(),
                self.wf(),
                set.wf(),
                rows_wf(out@),
                samples_wf(tasks@),
                c == (cmd.0@, cmd.1@, cmd.2@),
                self@ == thread_rows(past, set, pid, c, tasks@.take(i as int)).0,
                rows_say(out@) == had + thread_rows(past, set, pid, c, tasks@.take(i as int)).1,
            decreases tasks.len() - i,
        {
            let ghost a = thread_rows(past, set, pid, c, tasks@.take(i as int));
            let ghost b = thread_rows(past, set, pid, c, tasks@.take(i + 1));
            proof {
                assert(tasks@.take(i + 1).drop_last() =~= tasks@.take(i as int));
                assert(tasks@.take(i + 1).last() == tasks@[i as int]);
            }
            match parse_i32(&chars_of(tasks[i].name.as_str())) {
                Some(tid) => {
                    if tid != pid {
                        self.add_thread(set, pid, tid, tasks[i].runtime, cmd, out);
                        proof {
                            assert(rows_say(out@) =~= had + b.1);
                        }
                    }
                },
                None => {},
            }
            i = i + 1;
        }
        proof {
            assert(tasks@.take(i as int) =~= tasks@);
        }
    }

    /// Appends the rows of a process and of its threads, if it is listed.
    fn add_process(
        &mut self,
        set: Settings,
        users: &UserMap,
        pid: i32,
        stat: &str,
        f: &ProcFiles,
        out: &mut Vec<ProcInfo>,
    )
        requires
            old(self).wf(),
            set.wf(),
            f.wf(),
            rows_wf(old(out)@),
        ensures
            final(self).wf(),
            rows_wf(final(out)@),
            ({
                let r = process_rows(old(self)@, set, user_names(users@), pid, stat@, *f);
                &&& final(self)@ == r.0
                &&& rows_say(final(out)@) == rows_say(old(out)@) + r.1
            }),
    {
        let ghost past = self@;
        let ghost had = rows_say(out@);
        let ghost want = process_rows(past, set, user_names(users@), pid, stat@, *f);
        let st = match parse_stat(stat) {
            Some(st) => st,
            None => {
                proof {
                    assert(had + want.1 =~= had);
                }
                return ;
            },
        };
        let (mem, is_denied) = self.memory_of(set, pid, &f.smaps);
        let is_kernel = mem.rss_kb == 0 && !st.name.as_str().is_empty() && !is_denied;
        if mem.rss_kb == 0 && !is_denied && !(is_kernel && set.show_kernel) {
            proof {
                assert(had + want.1 =~= had);
            }
            return ;
        }
        let cmd = self.command_of(users, pid, is_kernel, &st.name, f);
        let (val, unit) = time_of(set, &f.tasks, st.utime, st.stime);
        let cpu_percent = self.share_of(set, pid, val, unit);
        self.keep_time(set, pid, val);
        let (ppid, _) = parse_status(f.status.as_str());
        let row = ProcInfo {
            pid,
            tid: pid,
            ppid,
            user: cmd.0.clone(),
            cmd: cmd.1.clone(),
            full_cmd: cmd.2.clone(),
            pss_kb: mem.pss_kb,
            uss_kb: mem.uss_kb,
            rss_kb: mem.rss_kb,
            swap_kb: mem.swap_kb,
            state: st.state,
            cpu_percent,
            is_thread: false,
            is_kernel,
            tree_depth: 0,
            tree_mask: 0,
            is_last_child: false,
        };
        let ghost new = row@;
        let ghost rows = out@;
        out.push(row);
        proof {
            assert(new =~= own_row(past, set, user_names(users@), pid, stat@, *f));
            assert(rows_say(out@) =~= rows_say(rows).push(new));
        }
        if set.thread_mode {
            self.add_threads(set, pid, &cmd, &f.threads, out);
        }
        proof {
            assert(rows_say(out@) =~= had + want.1);
        }
    }

    /// Appends the rows of an entry below `/proc`.
    fn add_entry(
        &mut self,
        set: Settings,
        users: &UserMap,
        f: &ProcFiles,
        out: &mut Vec<ProcInfo>,
    )
        requires
            old(self).wf(),
            set.wf(),
            f.wf(),
            rows_wf(old(out)@),
        ensures
            final(self).wf(),
            rows_wf(final(out)@),
            ({
                let r = entry_rows(old(self)@, set, user_names(users@), *f);
                &&& final(self)@ == r.0
                &&& rows_say(final(out)@) == rows_say(old(out)@) + r.1
            }),
    {
        let ghost had = rows_say(out@);
        proof {
            assert(had + seq![] =~= had);
        }
        match (pid_of(f.name.as_str()), &f.stat) {
            (Some(pid), Some(stat)) => {
                self.add_process(set, users, pid, stat.as_str(), f, out);
            },
            _ => {},
        }
    }

    /// The rows of all entries below `/proc`.
    fn gather_rows(&mut self, set: Settings, users: &UserMap, files: &Vec<ProcFiles>) -> (out: Vec<
        ProcInfo,
    >)
        requires
            old(self).wf(),
            set.wf(),
            forall|i: int| 0 <= i < files@.len() ==> (#[trigger] files@[i]).wf(),
        ensures
            final(self).wf(),
            rows_wf(out@),
            (final(self)@, rows_say(out@)) == all_rows(
                old(self)@,
                set,
                user_names(users@),
                files@,
            ),
    {
        let ghost past = self@;
        let ghost names = user_names(users@);
        let mut out: Vec<ProcInfo> = Vec::new();
        let mut i: usize = 0;
        proof {
            assert(rows_say(out@) =~= seq![]);
        }
        while i < files.len()
            invariant
                i <= files@.len(),
                self.wf(),
                set.wf(),
                names == user_names(users@),
                rows_wf(out@),
                forall|i: int| 0 <= i < files@.len() ==> (#[trigger] files@[i]).wf(),
                (self@, rows_say(out@)) == all_rows(past, set, names, files@.take(i as int)),
            decreases files.len() - i,
        {
            proof {
                assert(files@.take(i + 1).drop_last() =~= files@.take(i as int));
                assert(files@.take(i + 1).last() == files@[i as int]);
                assert(files@[i as int].wf());
            }
            self.add_entry(set, users, &files[i], &mut out);
            i = i + 1;
        }
        proof {
            assert(files@.take(i as int) =~= files@);
        }
        out
    }
}

/// How much larger one number is than another; zero if it is not.
fn excess_of(a: u64, b: u64) -> (r: u64)
    ensures
        r == excess(a, b),
{
    if a > b {
        a - b
    } else {
        0
    }
}

/// A part of a whole, in percent.
fn percentage_of(part: u64, all: u64) -> (r: Double)
    ensures
        r@ == percentage(part as int, all as int),
        r.within(usual()),
{
    if all > 0 {
        share_of(part, all).times(Double::from_int(100))
    } else {
        Double { mant: 0, exp: 0 }
    }
}

/// The share of the time that the processors were not idle, in percent.
fn busy_since(prev: Option<(u64, u64)>, now: (u64, u64)) -> (r: Double)
    ensures
        r@ == busy(prev, now),
        r.within(usual()),
{
    match prev {
        Some((total, idle)) => {
            let d_total = excess_of(now.0, total);
            let d_idle = excess_of(now.1, idle);
            if d_total > 0 {
                Double::from_int(1).minus(share_of(d_idle, d_total)).times(Double::from_int(100))
            } else {
                Double { mant: 0, exp: 0 }
            }
        },
        None => Double { mant: 0, exp: 0 },
    }
}

/// The memory that is available.
fn available_of(m: &MemInfo) -> (r: u64)
    ensures
        r == available(m@),
{
    let rest: u64 = m.get_or("MemFree", 0).wrapping_add(m.get_or("Buffers", 0)).wrapping_add(
        m.get_or("Cached", 0),
    );
    m.get_or("MemAvailable", rest)
}

/// How many processes there are, and how many of them run, sleep or are zombies.
fn format_tasks(rows: &Vec<ProcInfo>) -> (r: String)
    ensures
        r@ == tasks_text(rows_say(rows@)),
{
    let ghost all = rows_say(rows@);
    let mut processes: u64 = 0;
    let mut run: u64 = 0;
    let mut slp: u64 = 0;
    let mut zom: u64 = 0;
    let mut i: usize = 0;
    while i < rows.len()
        invariant
            i <= rows@.len(),
            all == rows_say(rows@),
            processes == count_processes(all.take(i as int)),
            run == count_states(all.take(i as int), 'R', 'R'),
            slp == count_states(all.take(i as int), 'S', 'D'),
            zom == count_states(all.take(i as int), 'Z', 'Z'),
            processes <= i,
            run <= i,
            slp <= i,
            zom <= i,
        decreases rows.len() - i,
    {
        proof {
            assert(all.take(i + 1).drop_last() =~= all.take(i as int));
            assert(all.take(i + 1).last() == rows@[i as int]@);
        }
        if !rows[i].is_thread {
            processes = processes + 1;
        }
        let state = rows[i].state;
        if state == 'R' {
            run = run + 1;
        } else if state == 'S' || state == 'D' {
            slp = slp + 1;
        } else if state == 'Z' {
            zom = zom + 1;
        }
        i = i + 1;
    }
    proof {
        assert(all.take(i as int) =~= all);
    }
    let mut r = String::new();
    push_number(&mut r, processes);
    r.append(" (");
    push_number(&mut r, run);
    r.append(" run, ");
    push_number(&mut r, slp);
    r.append(" slp, ");
    push_number(&mut r, zom);
    r.append(" zom)");
    proof {
        assert(r@ =~= tasks_text(all));
    }
    r
}

/// The figures of the machine.
fn gather_figures(prev: Option<(u64, u64)>, files: &SystemFiles, rows: &Vec<ProcInfo>) -> (r:
    SystemInfo)
    requires
        files.wf(),
    ensures
        r@ == machine(prev, *files, rows_say(rows@)),
        r.wf(),
{
    let m = read_meminfo_buf(files.meminfo.as_str());
    let mem_total = m.get_or("MemTotal", 0);
    let mem_used = excess_of(mem_total, available_of(&m));
    let swap_total = m.get_or("SwapTotal", 0);
    let swap_used = excess_of(swap_total, m.get_or("SwapFree", 0));
    let uptime = match files.uptime {
        Some(n) => format_uptime(n.to_whole()),
        None => String::new(),
    };
    let r = SystemInfo {
        cpu_percent: busy_since(prev, read_cpu_times_buf(files.stat.as_str())),
        mem_percent: percentage_of(mem_used, mem_total),
        swap_percent: percentage_of(swap_used, swap_total),
        load: parse_loadavg(files.loadavg.as_str()),
        uptime,
        tasks: format_tasks(rows),
    };
    proof {
        assert(r@ =~= machine(prev, *files, rows_say(rows@)));
    }
    r
}

impl SystemFiles {
    /// The time is a number of the machine format.
    pub open spec fn wf(self) -> bool {
        self.uptime matches Some(Number::Finite(d)) ==> d.within(2000)
    }
}

/// The rows and figures, and what is known then.
pub open spec fn gathered(
    past: Past,
    set: Settings,
    users: Map<u32, Seq<char>>,
    files: Seq<ProcFiles>,
    system: SystemFiles,
) -> (Past, Seq<Row>, Figures) {
    let a = all_rows(past, set, users, files);
    (
        Past { sys_cpu: Some(cpu_times(system.stat@)), ..a.0 },
        a.1,
        machine(a.0.sys_cpu, system, a.1),
    )
}

/// Gathers the rows and figures from the files below `/proc`.
pub fn gather_data(
    set: Settings,
    state: &mut WorkerState,
    user_map: &UserMap,
    files: &Vec<ProcFiles>,
    system: &SystemFiles,
) -> (r: (Vec<ProcInfo>, SystemInfo))
    requires
        old(state).wf(),
        set.wf(),
        forall|i: int| 0 <= i < files@.len() ==> (#[trigger] files@[i]).wf(),
        system.wf(),
    ensures
        (final(state)@, rows_say(r.0@), r.1@) == gathered(
            old(state)@,
            set,
            user_names(user_map@),
            files@,
            *system,
        ),
        final(state).wf(),
        rows_wf(r.0@),
        r.1.wf(),
{
    let ghost past = state@;
    let rows = state.gather_rows(set, user_map, files);
    let ghost mid = state@;
    let info = gather_figures(state.prev_sys_cpu, system, &rows);
    state.prev_sys_cpu = Some(read_cpu_times_buf(system.stat.as_str()));
    proof {
        assert(state@ =~= Past { sys_cpu: Some(cpu_times(system.stat@)), ..mid });
    }
    (rows, info)
}

// From one time to the next

/// The rows of processes and threads by their numbers.
pub open spec fn by_number(rows: Seq<ProcInfo>) -> Map<i32, ProcInfo>
    decreases rows.len(),
{
    if rows.len() == 0 {
        Map::empty()
    } else {
        by_number(rows.drop_last()).insert(rows.last().id(), rows.last())
    }
}

/// Whether memory is read: when it is demanded, and else every two seconds.
pub open spec fn memory_due(past: Past, demanded: bool, now: u64) -> bool {
    demanded || match past.mem_update {
        Some(then) => since(now, then) >= 2 * SECOND,
        None => true,
    }
}

/// With the way of reading processor time that is asked for. The times read so
/// far are forgotten if it is another one.
pub open spec fn switched(past: Past, nano_mode: bool) -> Past {
    Past {
        nano_mode,
        times: if past.nano_mode != nano_mode {
            Map::empty()
        } else {
            past.times
        },
        ..past
    }
}

/// With the time noted at which memory is read, if it is.
pub open spec fn memory_turn(past: Past, due: bool, now: u64) -> Past {
    Past {
        mem_update: if due {
            Some(now)
        } else {
            past.mem_update
        },
        ..past
    }
}

/// With the rows kept for the next time.
pub open spec fn remembered(past: Past, rows: Seq<ProcInfo>) -> Past {
    Past { rows: by_number(rows), ..past }
}

impl WorkerState {
    /// Goes over to the other way of reading processor time, if that is asked
    /// for: the times read so far are then forgotten. Says whether it did.
    pub fn switch_mode(&mut self, use_nano_mode: bool) -> (changed: bool)
        requires
            old(self).wf(),
        ensures
            changed == (old(self)@.nano_mode != use_nano_mode),
            final(self)@ == switched(old(self)@, use_nano_mode),
            final(self).wf(),
    {
        let ghost start = self@;
        let changed = self.last_use_nano_mode != use_nano_mode;
        if changed {
            self.prev_cpu_times.clear();
            self.last_use_nano_mode = use_nano_mode;
        }
        proof {
            assert(self@ =~= switched(start, use_nano_mode));
        }
        changed
    }

    /// Whether memory is to be read; if so, it is noted when.
    pub fn take_memory_turn(&mut self, demanded: bool, now: u64) -> (due: bool)
        requires
            old(self).wf(),
        ensures
            due == memory_due(old(self)@, demanded, now),
            final(self)@ == memory_turn(old(self)@, due, now),
            final(self).wf(),
    {
        let ghost start = self@;
        let due = demanded || match self.last_mem_update {
            Some(then) => time_since(now, then) >= 2 * SECOND,
            None => true,
        };
        if due {
            self.last_mem_update = Some(now);
        }
        proof {
            assert(self@ =~= memory_turn(start, due, now));
        }
        due
    }

    /// Keeps the rows for the next time.
    pub fn remember(&mut self, rows: &Vec<ProcInfo>)
        requires
            old(self).wf(),
        ensures
            final(self)@ == remembered(old(self)@, rows@),
            final(self).wf(),
    {
        let ghost start = self@;
        self.last_procs.clear();
        let mut i: usize = 0;
        proof {
            assert(self.last_procs@ =~= by_number(rows@.take(0)));
        }
        while i < rows.len()
            invariant
                i <= rows@.len(),
                self.wf(),
                self.last_procs@ == by_number(rows@.take(i as int)),
                self@ == (Past { rows: self.last_procs@, ..start }),
            decreases rows.len() - i,
        {
            proof {
                assert(rows@.take(i + 1).drop_last() =~= rows@.take(i as int));
                assert(rows@.take(i + 1).last() == rows@[i as int]);
            }
            self.last_procs.insert(rows[i].signal_id(), rows[i].clone());
            proof {
                assert(self@ =~= Past { rows: self.last_procs@, ..start });
            }
            i = i + 1;
        }
        proof {
            assert(rows@.take(i as int) =~= rows@);
        }
    }
}

// Laws

/// Whether a row may be listed with these settings: threads only in thread mode,
/// and the threads of the kernel only on demand.
pub open spec fn admitted(set: Settings, row: Row) -> bool {
    &&& row.is_thread ==> set.thread_mode && !row.is_kernel && row.tid != row.pid && row.ppid
        == row.pid
    &&& row.is_kernel ==> set.show_kernel && row.user == "root"@ && row.rss_kb == 0
    &&& !row.is_thread ==> row.tid == row.pid
}

proof fn lemma_thread_rows(
    past: Past,
    set: Settings,
    pid: i32,
    cmd: (Seq<char>, Seq<char>, Seq<char>),
    tasks: Seq<TaskSample>,
)
    requires
        set.thread_mode,
    ensures
        forall|i: int|
            0 <= i < thread_rows(past, set, pid, cmd, tasks).1.len() ==> {
                let row = #[trigger] thread_rows(past, set, pid, cmd, tasks).1[i];
                admitted(set, row) && row.is_thread && row.pid == pid
            },
    decreases tasks.len(),
{
    if tasks.len() > 0 {
        lemma_thread_rows(past, set, pid, cmd, tasks.drop_last());
        let a = thread_rows(past, set, pid, cmd, tasks.drop_last()).1;
        let r = thread_rows(past, set, pid, cmd, tasks).1;
        assert forall|i: int| 0 <= i < r.len() implies {
            let row = #[trigger] r[i];
            admitted(set, row) && row.is_thread && row.pid == pid
        } by {
            if i < a.len() {
                assert(r[i] == a[i]);
            }
        }
    }
}

proof fn lemma_entry_rows(past: Past, set: Settings, users: Map<u32, Seq<char>>, f: ProcFiles)
    ensures
        forall|i: int|
            0 <= i < entry_rows(past, set, users, f).1.len() ==> admitted(
                set,
                #[trigger] entry_rows(past, set, users, f).1[i],
            ),
{
    let r = entry_rows(past, set, users, f).1;
    match (pid_named(f.name@), f.stat) {
        (Some(pid), Some(stat)) => {
            let ts = own_threads(past, set, users, pid, stat@, f).1;
            if set.thread_mode {
                lemma_thread_rows(
                    own_past(past, set, users, pid, stat@, f),
                    set,
                    pid,
                    command_known(past, set, users, pid, stat@, f).1,
                    f.threads@,
                );
            }
            assert forall|i: int| 0 <= i < r.len() implies admitted(set, #[trigger] r[i]) by {
                if i == 0 {
                    assert(r[0] == own_row(past, set, users, pid, stat@, f));
                } else {
                    assert(r[i] == ts[i - 1]);
                }
            }
        },
        _ => {},
    }
}

/// Threads are listed only in thread mode, each below its process; and threads
/// of the kernel only on demand, as those of root.
pub proof fn lemma_rows_admitted(
    past: Past,
    set: Settings,
    users: Map<u32, Seq<char>>,
    files: Seq<ProcFiles>,
)
    ensures
        forall|i: int|
            0 <= i < all_rows(past, set, users, files).1.len() ==> admitted(
                set,
                #[trigger] all_rows(past, set, users, files).1[i],
            ),
    decreases files.len(),
{
    if files.len() > 0 {
        lemma_rows_admitted(past, set, users, files.drop_last());
        let a = all_rows(past, set, users, files.drop_last());
        lemma_entry_rows(a.0, set, users, files.last());
        let b = entry_rows(a.0, set, users, files.last());
        let r = all_rows(past, set, users, files).1;
        assert forall|i: int| 0 <= i < r.len() implies admitted(set, #[trigger] r[i]) by {
            if i < a.1.len() {
                assert(r[i] == a.1[i]);
            } else {
                assert(r[i] == b.1[i - a.1.len()]);
            }
        }
    }
}

/// While memory is not read, a process keeps the memory that it had.
pub proof fn lemma_memory_kept(
    past: Past,
    set: Settings,
    users: Map<u32, Seq<char>>,
    pid: i32,
    stat: Seq<char>,
    f: ProcFiles,
)
    requires
        !set.do_mem,
        past.rows.contains_key(pid),
        process_rows(past, set, users, pid, stat, f).1.len() > 0,
    ensures
        ({
            let row = process_rows(past, set, users, pid, stat, f).1[0];
            let before = past.rows[pid];
            &&& row.pid == pid && !row.is_thread
            &&& row.pss_kb == before.pss_kb
            &&& row.uss_kb == before.uss_kb
            &&& row.rss_kb == before.rss_kb
            &&& row.swap_kb == before.swap_kb
        }),
{
    assert(process_rows(past, set, users, pid, stat, f).1[0] == own_row(
        past,
        set,
        users,
        pid,
        stat,
        f,
    ));
}

/// The rows that are kept are found by their numbers, where these differ.
pub proof fn lemma_remembered(past: Past, rows: Seq<ProcInfo>, i: int)
    requires
        0 <= i < rows.len(),
        forall|j: int| i < j < rows.len() ==> (#[trigger] rows[j]).id() != rows[i].id(),
    ensures
        remembered(past, rows).rows.contains_key(rows[i].id()),
        remembered(past, rows).rows[rows[i].id()] == rows[i],
    decreases rows.len(),
{
    let r = rows.drop_last();
    if i < rows.len() - 1 {
        assert forall|j: int| i < j < r.len() implies (#[trigger] r[j]).id() != r[i].id() by {
            assert(rows[j].id() != rows[i].id());
        }
        lemma_remembered(past, r, i);
        assert(rows[rows.len() - 1].id() != rows[i].id());
    }
}

pub(crate) proof fn lemma_thread_times(
    past: Past,
    set: Settings,
    pid: i32,
    cmd: (Seq<char>, Seq<char>, Seq<char>),
    tasks: Seq<TaskSample>,
)
    requires
        past.times.contains_key(pid),
    ensures
        thread_rows(past, set, pid, cmd, tasks).0.times.contains_key(pid),
        thread_rows(past, set, pid, cmd, tasks).0.times[pid] == past.times[pid],
    decreases tasks.len(),
{
    if tasks.len() > 0 {
        lemma_thread_times(past, set, pid, cmd, tasks.drop_last());
    }
}

/// The share of a process is that of the processor time between two samples of
/// it in the time between them, on all processors.
pub proof fn lemma_two_samples(
    past: Past,
    users: Map<u32, Seq<char>>,
    pid: i32,
    set: Settings,
    stat: Seq<char>,
    f: ProcFiles,
    later: Settings,
    later_stat: Seq<char>,
    later_f: ProcFiles,
)
    requires
        listed(past, set, pid, stat, f),
    ensures
        ({
            let between = process_rows(past, set, users, pid, stat, f).0;
            let row = own_row(between, later, users, pid, later_stat, later_f);
            let time = own_time(later, later_stat, later_f);
            let delta = minus(time.0, own_time(set, stat, f).0);
            let dt = seconds(since(later.now, set.now));
            row.cpu_percent == (if less(zero(), dt) && !less(delta, zero()) {
                utilization(delta, time.1, dt, later.num_cpus)
            } else {
                zero()
            })
        }),
{
    let after = own_past(past, set, users, pid, stat, f);
    let between = process_rows(past, set, users, pid, stat, f).0;
    assert(after.times.contains_key(pid));
    lemma_thread_times(
        after,
        set,
        pid,
        command_known(past, set, users, pid, stat, f).1,
        f.threads@,
    );
    assert(between.times[pid] == (own_time(set, stat, f).0, set.now));
    let c = command_known(between, later, users, pid, later_stat, later_f);
    assert(c.0.times == between.times);
}

/// A process whose memory is kept from us is listed all the same, with none.
pub proof fn lemma_denied_listed(
    past: Past,
    set: Settings,
    users: Map<u32, Seq<char>>,
    pid: i32,
    stat: Seq<char>,
    f: ProcFiles,
)
    requires
        set.do_mem,
        f.smaps is Denied,
        stat_fields(stat) is Some,
    ensures
        ({
            let rows = process_rows(past, set, users, pid, stat, f).1;
            &&& rows.len() > 0
            &&& rows[0].pid == pid && !rows[0].is_thread && !rows[0].is_kernel
            &&& rows[0].pss_kb == 0 && rows[0].uss_kb == 0 && rows[0].rss_kb == 0
                && rows[0].swap_kb == 0
        }),
{
    assert(process_rows(past, set, users, pid, stat, f).1[0] == own_row(
        past,
        set,
        users,
        pid,
        stat,
        f,
    ));
}

/// A number above zero is not zero.
proof fn lemma_positive(a: Dyadic)
    requires
        less(zero(), a),
    ensures
        a.mant != 0,
{
    if a.mant == 0 {
        let e = crate::double::lower_exp(zero(), a);
        assert(crate::double::aligned(zero(), e) == 0) by {
            assert(0 * vstd::arithmetic::power2::pow2((0 - e) as nat) == 0);
        }
        assert(crate::double::aligned(a, e) == 0) by {
            assert(0 * vstd::arithmetic::power2::pow2((a.exp - e) as nat) == 0);
        }
    }
}

} // verus!
