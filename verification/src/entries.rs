//! What the rows and the figures say of the files they are gathered from.

use crate::double::{minus, over, times, whole, zero, Number};
use crate::format::uptime_text;
use crate::process::Row;
use crate::procfs::{
    command_text, cpu_times, load_text, meminfo, rollup_memory, stat_fields, stat_name, status_ppid,
    status_uid,
};
use crate::text::{decimal, lines};
use crate::worker::{
    all_rows, command_known, entry_rows, gathered, own_past, own_row, own_threads, pid_named,
    process_rows, remembered, thread_rows, MemoryText, Past, ProcFiles, Settings, SystemFiles,
    TaskSample,
};
use vstd::prelude::*;

verus! {

// Which processes have rows

/// Whether a process is listed where memory is read: always if it has some, or
/// if its memory is kept from us; as a thread of the kernel, on demand, if it has
/// none but a name; and never if its `stat` cannot be made out.
pub proof fn lemma_process_listed(
    past: Past,
    set: Settings,
    users: Map<u32, Seq<char>>,
    pid: i32,
    stat: Seq<char>,
    f: ProcFiles,
)
    requires
        set.do_mem,
    ensures
        ({
            let rows = process_rows(past, set, users, pid, stat, f).1;
            let rss = match f.smaps {
                MemoryText::Text(s) => rollup_memory(s@).rss_kb,
                _ => 0,
            };
            &&& stat_fields(stat) is None ==> rows.len() == 0
            &&& stat_fields(stat) is Some && (rss > 0 || f.smaps is Denied) ==> rows.len() > 0
                && !rows[0].is_kernel
            &&& stat_fields(stat) is Some && rss == 0 && !(f.smaps is Denied) ==> (rows.len() > 0)
                == (set.show_kernel && stat_name(stat).len() > 0)
            &&& stat_fields(stat) is Some && rss == 0 && !(f.smaps is Denied) && rows.len() > 0
                ==> rows[0].is_kernel
            &&& rows.len() > 0 && !set.thread_mode ==> rows.len() == 1
        }),
{
    let rows = process_rows(past, set, users, pid, stat, f).1;
    if rows.len() > 0 {
        assert(rows[0] == own_row(past, set, users, pid, stat, f));
    }
}

/// Whether a process is listed where memory is not read: if it had some when it
/// was read last, or if it was listed then without any, as neither a thread nor a
/// thread of the kernel; and else as a thread of the kernel, on demand.
pub proof fn lemma_process_listed_again(
    past: Past,
    set: Settings,
    users: Map<u32, Seq<char>>,
    pid: i32,
    stat: Seq<char>,
    f: ProcFiles,
)
    requires
        !set.do_mem,
        stat_fields(stat) is Some,
    ensures
        ({
            let rows = process_rows(past, set, users, pid, stat, f).1;
            let known = past.rows.contains_key(pid) && (past.rows[pid].rss_kb > 0 || (
            !past.rows[pid].is_kernel && !past.rows[pid].is_thread));
            &&& known ==> rows.len() > 0 && !rows[0].is_kernel
            &&& !known ==> (rows.len() > 0) == (set.show_kernel && stat_name(stat).len() > 0)
            &&& !known && rows.len() > 0 ==> rows[0].is_kernel
        }),
{
    let rows = process_rows(past, set, users, pid, stat, f).1;
    if rows.len() > 0 {
        assert(rows[0] == own_row(past, set, users, pid, stat, f));
    }
}

/// The row of a process says what its files say: its state, the process above
/// it, and, where memory is read, its memory.
pub proof fn lemma_process_row(
    past: Past,
    set: Settings,
    users: Map<u32, Seq<char>>,
    pid: i32,
    stat: Seq<char>,
    f: ProcFiles,
)
    requires
        process_rows(past, set, users, pid, stat, f).1.len() > 0,
    ensures
        ({
            let row = process_rows(past, set, users, pid, stat, f).1[0];
            &&& row.pid == pid && row.tid == pid && !row.is_thread
            &&& row.ppid == status_ppid(f.status@)
            &&& row.state == (stat_fields(stat)->0).0
            &&& set.do_mem ==> match f.smaps {
                MemoryText::Text(s) => {
                    &&& row.pss_kb == rollup_memory(s@).pss_kb
                    &&& row.uss_kb == rollup_memory(s@).uss_kb
                    &&& row.rss_kb == rollup_memory(s@).rss_kb
                    &&& row.swap_kb == rollup_memory(s@).swap_kb
                },
                _ => row.pss_kb == 0 && row.uss_kb == 0 && row.rss_kb == 0 && row.swap_kb == 0,
            }
            &&& !set.do_mem && past.rows.contains_key(pid) ==> {
                &&& row.pss_kb == past.rows[pid].pss_kb
                &&& row.uss_kb == past.rows[pid].uss_kb
                &&& row.rss_kb == past.rows[pid].rss_kb
                &&& row.swap_kb == past.rows[pid].swap_kb
            }
            &&& row.is_kernel ==> row.user == "root"@ && row.cmd == stat_name(stat) && row.full_cmd
                == stat_name(stat)
            &&& row.is_kernel ==> row.rss_kb == 0
        }),
{
    assert(process_rows(past, set, users, pid, stat, f).1[0] == own_row(
        past,
        set,
        users,
        pid,
        stat,
        f,
    ));
}

/// An entry that is the number of a process and has a `stat` gives the rows of
/// that process, behind those of the entries before it; any other gives none.
pub proof fn lemma_entry_added(
    past: Past,
    set: Settings,
    users: Map<u32, Seq<char>>,
    files: Seq<ProcFiles>,
    f: ProcFiles,
)
    ensures
        ({
            let a = all_rows(past, set, users, files);
            let r = all_rows(past, set, users, files.push(f));
            match (pid_named(f.name@), f.stat) {
                (Some(pid), Some(stat)) => {
                    let b = process_rows(a.0, set, users, pid, stat@, f);
                    r.0 == b.0 && r.1 == a.1 + b.1
                },
                _ => r.0 == a.0 && r.1 == a.1,
            }
        }),
        all_rows(past, set, users, Seq::<ProcFiles>::empty()) == (past, Seq::<Row>::empty()),
{
    assert(files.push(f).drop_last() =~= files);
    let a = all_rows(past, set, users, files);
    assert(a.1 + Seq::<Row>::empty() =~= a.1);
}

// Users and commands

/// The user of a process that is not known yet is the name that belongs to its
/// user number, or else that number; its command line is what its arguments say,
/// and its command the first forty characters of that.
pub proof fn lemma_process_named(
    past: Past,
    set: Settings,
    users: Map<u32, Seq<char>>,
    pid: i32,
    stat: Seq<char>,
    f: ProcFiles,
)
    requires
        process_rows(past, set, users, pid, stat, f).1.len() > 0,
        !process_rows(past, set, users, pid, stat, f).1[0].is_kernel,
    ensures
        ({
            let row = process_rows(past, set, users, pid, stat, f).1[0];
            let uid = status_uid(f.status@);
            let line = command_text(f.cmdline@);
            &&& !past.commands.contains_key(pid) ==> {
                &&& users.contains_key(uid) ==> row.user == users[uid]
                &&& !users.contains_key(uid) ==> row.user == decimal(uid as nat)
                &&& row.full_cmd == line
                &&& line.len() <= 40 ==> row.cmd == line
                &&& line.len() > 40 ==> row.cmd == line.take(40)
            }
            &&& past.commands.contains_key(pid) ==> {
                &&& row.user == past.commands[pid].0
                &&& row.cmd == past.commands[pid].1
                &&& row.full_cmd == past.commands[pid].2
            }
        }),
{
    assert(process_rows(past, set, users, pid, stat, f).1[0] == own_row(
        past,
        set,
        users,
        pid,
        stat,
        f,
    ));
}

/// Whether all that was known of users and commands is still known.
pub open spec fn still_known(past: Past, after: Past) -> bool {
    forall|k: i32| #[trigger]
        past.commands.contains_key(k) ==> after.commands.contains_key(k) && after.commands[k]
            == past.commands[k]
}

/// Whether the rows of processes have the users and commands that are known.
pub open spec fn named_as_known(after: Past, rows: Seq<Row>) -> bool {
    forall|i: int|
        0 <= i < rows.len() && !(#[trigger] rows[i]).is_thread && !rows[i].is_kernel ==> {
            &&& after.commands.contains_key(rows[i].pid)
            &&& after.commands[rows[i].pid] == (rows[i].user, rows[i].cmd, rows[i].full_cmd)
        }
}

proof fn lemma_threads_known(
    past: Past,
    set: Settings,
    pid: i32,
    cmd: (Seq<char>, Seq<char>, Seq<char>),
    tasks: Seq<TaskSample>,
)
    ensures
        thread_rows(past, set, pid, cmd, tasks).0.commands == past.commands,
        forall|i: int|
            0 <= i < thread_rows(past, set, pid, cmd, tasks).1.len() ==> (
            #[trigger] thread_rows(past, set, pid, cmd, tasks).1[i]).is_thread,
    decreases tasks.len(),
{
    if tasks.len() > 0 {
        lemma_threads_known(past, set, pid, cmd, tasks.drop_last());
        let a = thread_rows(past, set, pid, cmd, tasks.drop_last()).1;
        let r = thread_rows(past, set, pid, cmd, tasks).1;
        assert forall|i: int| 0 <= i < r.len() implies (#[trigger] r[i]).is_thread by {
            if i < a.len() {
                assert(r[i] == a[i]);
            }
        }
    }
}

proof fn lemma_entry_known(past: Past, set: Settings, users: Map<u32, Seq<char>>, f: ProcFiles)
    ensures
        still_known(past, entry_rows(past, set, users, f).0),
        named_as_known(entry_rows(past, set, users, f).0, entry_rows(past, set, users, f).1),
{
    let r = entry_rows(past, set, users, f);
    match (pid_named(f.name@), f.stat) {
        (Some(pid), Some(stat)) => {
            let known = command_known(past, set, users, pid, stat@, f);
            let after = own_past(past, set, users, pid, stat@, f);
            let ts = own_threads(past, set, users, pid, stat@, f);
            assert(after.commands == known.0.commands);
            lemma_threads_known(after, set, pid, known.1, f.threads@);
            assert forall|i: int|
                0 <= i < r.1.len() && !(#[trigger] r.1[i]).is_thread && !r.1[i].is_kernel implies {
                &&& r.0.commands.contains_key(r.1[i].pid)
                &&& r.0.commands[r.1[i].pid] == (r.1[i].user, r.1[i].cmd, r.1[i].full_cmd)
            } by {
                if i > 0 {
                    assert(r.1[i] == ts.1[i - 1]);
                } else {
                    assert(r.1[0] == own_row(past, set, users, pid, stat@, f));
                }
            }
        },
        _ => {},
    }
}

proof fn lemma_rows_known(
    past: Past,
    set: Settings,
    users: Map<u32, Seq<char>>,
    files: Seq<ProcFiles>,
)
    ensures
        still_known(past, all_rows(past, set, users, files).0),
        named_as_known(all_rows(past, set, users, files).0, all_rows(past, set, users, files).1),
    decreases files.len(),
{
    if files.len() > 0 {
        let a = all_rows(past, set, users, files.drop_last());
        let b = entry_rows(a.0, set, users, files.last());
        let r = all_rows(past, set, users, files);
        lemma_rows_known(past, set, users, files.drop_last());
        lemma_entry_known(a.0, set, users, files.last());
        assert forall|i: int|
            0 <= i < r.1.len() && !(#[trigger] r.1[i]).is_thread && !r.1[i].is_kernel implies {
            &&& r.0.commands.contains_key(r.1[i].pid)
            &&& r.0.commands[r.1[i].pid] == (r.1[i].user, r.1[i].cmd, r.1[i].full_cmd)
        } by {
            if i < a.1.len() {
                assert(r.1[i] == a.1[i]);
                assert(a.0.commands.contains_key(a.1[i].pid));
            } else {
                assert(r.1[i] == b.1[i - a.1.len()]);
            }
        }
    }
}

/// A process that was listed keeps its user, its command and its command line
/// whenever it is listed again, whatever else is gathered then.
pub proof fn lemma_names_kept(
    past: Past,
    users: Map<u32, Seq<char>>,
    set: Settings,
    files: Seq<ProcFiles>,
    system: SystemFiles,
    later: Settings,
    later_files: Seq<ProcFiles>,
    later_system: SystemFiles,
    rows: Seq<crate::process::ProcInfo>,
    i: int,
    j: int,
)
    requires
        ({
            let a = gathered(past, set, users, files, system);
            let b = gathered(remembered(a.0, rows), later, users, later_files, later_system);
            &&& 0 <= i < a.1.len() && !a.1[i].is_thread && !a.1[i].is_kernel
            &&& 0 <= j < b.1.len() && !b.1[j].is_thread && !b.1[j].is_kernel
            &&& a.1[i].pid == b.1[j].pid
        }),
    ensures
        ({
            let a = gathered(past, set, users, files, system);
            let b = gathered(remembered(a.0, rows), later, users, later_files, later_system);
            &&& b.1[j].user == a.1[i].user
            &&& b.1[j].cmd == a.1[i].cmd
            &&& b.1[j].full_cmd == a.1[i].full_cmd
        }),
{
    let a = gathered(past, set, users, files, system);
    let between = remembered(a.0, rows);
    let b = gathered(between, later, users, later_files, later_system);
    lemma_rows_known(past, set, users, files);
    lemma_rows_known(between, later, users, later_files);
    let pid = a.1[i].pid;
    assert(all_rows(past, set, users, files).1[i] == a.1[i]);
    assert(all_rows(between, later, users, later_files).1[j] == b.1[j]);
    assert(between.commands.contains_key(pid));
}

// The machine

/// The shares of memory and swap in use are those of what the machine has less
/// what is available or free; they are zero where the machine has none.
pub proof fn lemma_memory_figures(
    past: Past,
    set: Settings,
    users: Map<u32, Seq<char>>,
    files: Seq<ProcFiles>,
    system: SystemFiles,
)
    ensures
        ({
            let m = meminfo(lines(system.meminfo@));
            let g = gathered(past, set, users, files, system).2;
            &&& m.contains_key("MemTotal"@) && m.contains_key("MemAvailable"@) && m["MemTotal"@] > 0
                && m["MemAvailable"@] <= m["MemTotal"@] ==> g.mem_percent == times(
                over(
                    whole(m["MemTotal"@] - m["MemAvailable"@]),
                    whole(m["MemTotal"@] as int),
                ),
                whole(100),
            )
            &&& !m.contains_key("MemTotal"@) ==> g.mem_percent == zero()
            &&& m.contains_key("MemTotal"@) && m["MemTotal"@] == 0 ==> g.mem_percent == zero()
            &&& m.contains_key("SwapTotal"@) && m.contains_key("SwapFree"@) && m["SwapTotal"@] > 0
                && m["SwapFree"@] <= m["SwapTotal"@] ==> g.swap_percent == times(
                over(whole(m["SwapTotal"@] - m["SwapFree"@]), whole(m["SwapTotal"@] as int)),
                whole(100),
            )
            &&& !m.contains_key("SwapTotal"@) ==> g.swap_percent == zero()
            &&& m.contains_key("SwapTotal"@) && m["SwapTotal"@] == 0 ==> g.swap_percent == zero()
        }),
{
}

/// Where the machine does not tell what is available, it is what is free, in
/// buffers and in caches.
pub proof fn lemma_available(
    past: Past,
    set: Settings,
    users: Map<u32, Seq<char>>,
    files: Seq<ProcFiles>,
    system: SystemFiles,
)
    requires
        ({
            let m = meminfo(lines(system.meminfo@));
            &&& !m.contains_key("MemAvailable"@)
            &&& m.contains_key("MemTotal"@) && m.contains_key("MemFree"@) && m.contains_key(
                "Buffers"@,
            ) && m.contains_key("Cached"@)
            &&& 0 < m["MemTotal"@]
            &&& m["MemFree"@] + m["Buffers"@] + m["Cached"@] <= m["MemTotal"@]
        }),
    ensures
        ({
            let m = meminfo(lines(system.meminfo@));
            gathered(past, set, users, files, system).2.mem_percent == times(
                over(
                    whole(m["MemTotal"@] - m["MemFree"@] - m["Buffers"@] - m["Cached"@]),
                    whole(m["MemTotal"@] as int),
                ),
                whole(100),
            )
        }),
{
}

/// The processors were busy for that part of their time since the last look in
/// which they were not idle. The first look shows nothing, and what it sees is
/// kept for the next one.
pub proof fn lemma_busy_figure(
    past: Past,
    set: Settings,
    users: Map<u32, Seq<char>>,
    files: Seq<ProcFiles>,
    system: SystemFiles,
)
    ensures
        ({
            let g = gathered(past, set, users, files, system);
            let now = cpu_times(system.stat@);
            &&& g.0.sys_cpu == Some(now)
            &&& past.sys_cpu is None ==> g.2.cpu_percent == zero()
            &&& past.sys_cpu matches Some(then) ==> {
                &&& now.0 <= then.0 ==> g.2.cpu_percent == zero()
                &&& now.0 > then.0 && now.1 >= then.1 ==> g.2.cpu_percent == times(
                    minus(whole(1), over(whole(now.1 - then.1), whole(now.0 - then.0))),
                    whole(100),
                )
            }
            &&& g.2.load == load_text(system.loadavg@)
        }),
{
    lemma_sys_cpu_kept(past, set, users, files);
}

proof fn lemma_sys_cpu_kept(
    past: Past,
    set: Settings,
    users: Map<u32, Seq<char>>,
    files: Seq<ProcFiles>,
)
    ensures
        all_rows(past, set, users, files).0.sys_cpu == past.sys_cpu,
    decreases files.len(),
{
    if files.len() > 0 {
        let f = files.last();
        let a = all_rows(past, set, users, files.drop_last());
        lemma_sys_cpu_kept(past, set, users, files.drop_last());
        match (pid_named(f.name@), f.stat) {
            (Some(pid), Some(stat)) => {
                let known = command_known(a.0, set, users, pid, stat@, f);
                lemma_threads_sys_cpu(
                    own_past(a.0, set, users, pid, stat@, f),
                    set,
                    pid,
                    known.1,
                    f.threads@,
                );
            },
            _ => {},
        }
    }
}

proof fn lemma_threads_sys_cpu(
    past: Past,
    set: Settings,
    pid: i32,
    cmd: (Seq<char>, Seq<char>, Seq<char>),
    tasks: Seq<TaskSample>,
)
    ensures
        thread_rows(past, set, pid, cmd, tasks).0.sys_cpu == past.sys_cpu,
    decreases tasks.len(),
{
    if tasks.len() > 0 {
        lemma_threads_sys_cpu(past, set, pid, cmd, tasks.drop_last());
    }
}

/// The tasks are counted by what their rows say: how many processes there are,
/// and how many rows are running, sleeping or zombies.
pub proof fn lemma_tasks_figure(
    past: Past,
    set: Settings,
    users: Map<u32, Seq<char>>,
    files: Seq<ProcFiles>,
    system: SystemFiles,
)
    ensures
        ({
            let g = gathered(past, set, users, files, system);
            g.2.tasks == decimal(g.1.filter(|r: Row| !r.is_thread).len()) + " ("@ + decimal(
                g.1.filter(|r: Row| r.state == 'R').len(),
            ) + " run, "@ + decimal(g.1.filter(|r: Row| r.state == 'S' || r.state == 'D').len())
                + " slp, "@ + decimal(g.1.filter(|r: Row| r.state == 'Z').len()) + " zom)"@
        }),
{
    let rows = gathered(past, set, users, files, system).1;
    lemma_counts(rows);
}

proof fn lemma_counts(rows: Seq<Row>)
    ensures
        crate::worker::count_processes(rows) == rows.filter(|r: Row| !r.is_thread).len(),
        crate::worker::count_states(rows, 'R', 'R') == rows.filter(|r: Row| r.state == 'R').len(),
        crate::worker::count_states(rows, 'S', 'D') == rows.filter(
            |r: Row| r.state == 'S' || r.state == 'D',
        ).len(),
        crate::worker::count_states(rows, 'Z', 'Z') == rows.filter(|r: Row| r.state == 'Z').len(),
    decreases rows.len(),
{
    reveal(Seq::filter);
    if rows.len() > 0 {
        lemma_counts(rows.drop_last());
    }
}

/// The time since the start is shown in whole seconds; nothing is shown where it
/// is not known.
pub proof fn lemma_uptime_figure(
    past: Past,
    set: Settings,
    users: Map<u32, Seq<char>>,
    files: Seq<ProcFiles>,
    system: SystemFiles,
)
    ensures
        ({
            let g = gathered(past, set, users, files, system).2;
            &&& system.uptime is None ==> g.uptime.len() == 0
            &&& system.uptime matches Some(Number::Finite(d)) ==> g.uptime == uptime_text(
                crate::double::saturated(crate::double::truncated(d@)),
            )
        }),
{
}

} // verus!
