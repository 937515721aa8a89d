//! What the processor shares of the rows are made of.

use crate::double::{
    lemma_integer_plus, lemma_nearest_close, less, minus, negated, over,
    plus, times, two53, whole, zero, Dyadic,
};
use crate::procfs::stat_fields;
use crate::rounding::{at_most, lemma_plus_order, lemma_plus_zero, lemma_sign_order};
use crate::text::parsed_i32;
use crate::worker::{
    command_known, cpu_share, lemma_thread_times, listed, own_past, own_row, own_time, process_rows, seconds,
    thread_rows, total_runtime, Past, ProcFiles, Settings, TaskSample,
};
use vstd::prelude::*;

verus! {

// Numbers

proof fn lemma_whole_normal(n: nat)
    ensures
        n > 0 ==> 0x10_0000_0000_0000 <= whole(n as int).mant < 0x20_0000_0000_0000,
        whole(0) == zero(),
        !less(whole(n as int), zero()),
{
    if n > 0 {
        lemma_nearest_close(n, 1, 0);
    }
    lemma_sign_order(zero(), whole(n as int));
}

/// Positive numbers are above zero.
proof fn lemma_above_zero(a: Dyadic)
    ensures
        less(zero(), a) == (a.mant > 0),
{
    let e = crate::double::lower_exp(zero(), a);
    crate::double::lemma_less_at(zero(), a, e);
    crate::double::lemma_less_at(a, zero(), e);
    assert(crate::double::aligned(zero(), e) == 0) by (nonlinear_arith);
}

/// Time that has passed is above zero.
pub proof fn lemma_seconds(ns: nat)
    ensures
        less(zero(), seconds(ns)) == (ns > 0),
        seconds(ns) == plus(
            whole((ns / 1_000_000_000) as int),
            over(whole((ns % 1_000_000_000) as int), whole(1_000_000_000)),
        ),
        ns % 1_000_000_000 == 0 ==> seconds(ns) == whole((ns / 1_000_000_000) as int),
{
    let a = whole((ns / 1_000_000_000) as int);
    let n = ns % 1_000_000_000;
    let b = over(whole(n as int), whole(1_000_000_000));
    lemma_whole_normal(ns / 1_000_000_000);
    lemma_whole_normal(n);
    lemma_whole_normal(1_000_000_000);
    lemma_above_zero(seconds(ns));
    lemma_plus_zero(a);
    if n > 0 {
        lemma_nearest_close(
            whole(n as int).mant as nat,
            whole(1_000_000_000).mant as nat,
            whole(n as int).exp - whole(1_000_000_000).exp,
        );
        lemma_plus_zero(b);
        lemma_sign_order(zero(), a);
        lemma_plus_order(zero(), a, b);
        assert(at_most(b, seconds(ns)));
        lemma_above_zero(b);
        crate::double::lemma_less_transitive(zero(), b, seconds(ns));
        if seconds(ns).mant <= 0 {
            lemma_sign_order(seconds(ns), zero());
            crate::double::lemma_less_transitive(b, seconds(ns), zero());
        }
    } else {
        assert(b == zero());
        lemma_above_zero(a);
    }
}

/// The difference of two counts, the larger first.
proof fn lemma_counted(a: int, b: int)
    requires
        0 <= b <= a < two53(),
    ensures
        minus(whole(a), whole(b)) == whole(a - b),
        !less(whole(a - b), zero()),
{
    lemma_whole_normal(0);
    lemma_whole_normal((a - b) as nat);
    assert(negated(whole(b)) == whole(-b));
    lemma_integer_plus(a, -b);
}

// Shares

/// A share is the processor time that has passed since it was read last, in
/// seconds, over the time that has passed, over the number of processors, times
/// one hundred. It is zero where nothing was read before, where no time has
/// passed, and where the processor time has gone down.
pub proof fn lemma_share(past: Past, set: Settings, id: i32, val: Dyadic, unit: u64)
    ensures
        !past.times.contains_key(id) ==> cpu_share(past, set, id, val, unit) == zero(),
        past.times.contains_key(id) && set.now <= past.times[id].1 ==> cpu_share(
            past,
            set,
            id,
            val,
            unit,
        ) == zero(),
        past.times.contains_key(id) && less(minus(val, past.times[id].0), zero()) ==> cpu_share(
            past,
            set,
            id,
            val,
            unit,
        ) == zero(),
        past.times.contains_key(id) && past.times[id].1 < set.now && !less(
            minus(val, past.times[id].0),
            zero(),
        ) ==> {
            let ns = (set.now - past.times[id].1) as nat;
            let dt = plus(
                whole((ns / 1_000_000_000) as int),
                over(whole((ns % 1_000_000_000) as int), whole(1_000_000_000)),
            );
            cpu_share(past, set, id, val, unit) == times(
                over(
                    over(over(minus(val, past.times[id].0), whole(unit as int)), dt),
                    whole(set.num_cpus as int),
                ),
                whole(100),
            )
        },
{
    if past.times.contains_key(id) {
        let then = past.times[id].1;
        lemma_seconds(
            if set.now > then {
                (set.now - then) as nat
            } else {
                0
            },
        );
    }
}

/// One more task with a run time adds it to the time of its process; one
/// without, or whose entry is no number, adds nothing.
pub proof fn lemma_runtimes_added(tasks: Seq<TaskSample>, t: TaskSample)
    ensures
        total_runtime(Seq::<TaskSample>::empty()) is None,
        parsed_i32(t.name@) is None || t.runtime is None ==> total_runtime(tasks.push(t))
            == total_runtime(tasks),
        parsed_i32(t.name@) is Some && t.runtime is Some ==> total_runtime(tasks.push(t)) == Some(
            plus(
                match total_runtime(tasks) {
                    Some(sum) => sum,
                    None => zero(),
                },
                (t.runtime->0)@,
            ),
        ),
{
    assert(tasks.push(t).drop_last() =~= tasks);
}

/// The time kept of a process is what is read of it: in nanoseconds the run time
/// of all its tasks, else the ticks it has spent for itself and in the kernel
/// together.
pub proof fn lemma_time_kept(
    past: Past,
    set: Settings,
    users: Map<u32, Seq<char>>,
    pid: i32,
    stat: Seq<char>,
    f: ProcFiles,
)
    requires
        listed(past, set, pid, stat, f),
    ensures
        ({
            let after = process_rows(past, set, users, pid, stat, f).0;
            let u = (stat_fields(stat)->0).1;
            let s = (stat_fields(stat)->0).2;
            let ticks = if u + s <= u64::MAX {
                u + s
            } else {
                u + s - 0x1_0000_0000_0000_0000
            };
            &&& after.times.contains_key(pid)
            &&& after.times[pid].1 == set.now
            &&& after.times[pid].0 == (if set.use_nano_mode && total_runtime(f.tasks@) is Some {
                total_runtime(f.tasks@)->0
            } else {
                whole(ticks)
            })
        }),
{
    let after = own_past(past, set, users, pid, stat, f);
    assert(after.times.contains_key(pid));
    lemma_thread_times(
        after,
        set,
        pid,
        command_known(past, set, users, pid, stat, f).1,
        f.threads@,
    );
}

/// In ticks: a process that is listed twice shows the share of all ticks between
/// the two samples, those it spent for itself and those it spent in the kernel.
pub proof fn lemma_ticks_counted(
    past: Past,
    users: Map<u32, Seq<char>>,
    pid: i32,
    set: Settings,
    stat: Seq<char>,
    f: ProcFiles,
    later: Settings,
    later_stat: Seq<char>,
    later_f: ProcFiles,
)
    requires
        !set.use_nano_mode,
        !later.use_nano_mode,
        set.now < later.now,
        listed(past, set, pid, stat, f),
        listed(process_rows(past, set, users, pid, stat, f).0, later, pid, later_stat, later_f),
        (stat_fields(stat)->0).1 <= (stat_fields(later_stat)->0).1,
        (stat_fields(stat)->0).2 <= (stat_fields(later_stat)->0).2,
        (stat_fields(later_stat)->0).1 + (stat_fields(later_stat)->0).2 < 0x20_0000_0000_0000,
    ensures
        ({
            let between = process_rows(past, set, users, pid, stat, f).0;
            let row = process_rows(between, later, users, pid, later_stat, later_f).1[0];
            let du = (stat_fields(later_stat)->0).1 - (stat_fields(stat)->0).1;
            let ds = (stat_fields(later_stat)->0).2 - (stat_fields(stat)->0).2;
            let ns = (later.now - set.now) as nat;
            let dt = plus(
                whole((ns / 1_000_000_000) as int),
                over(whole((ns % 1_000_000_000) as int), whole(1_000_000_000)),
            );
            &&& row.pid == pid && !row.is_thread
            &&& row.cpu_percent == times(
                over(
                    over(over(whole(du + ds), whole(later.clk_tck as int)), dt),
                    whole(later.num_cpus as int),
                ),
                whole(100),
            )
        }),
{
    let between = process_rows(past, set, users, pid, stat, f).0;
    let a = stat_fields(stat)->0;
    let b = stat_fields(later_stat)->0;
    lemma_time_kept(past, set, users, pid, stat, f);
    lemma_counted(b.1 + b.2, a.1 + a.2);
    let known = command_known(between, later, users, pid, later_stat, later_f).0;
    let val = own_time(later, later_stat, later_f).0;
    lemma_share(known, later, pid, val, later.clk_tck);
    assert(val == whole(b.1 + b.2));
    assert(process_rows(between, later, users, pid, later_stat, later_f).1[0] == own_row(
        between,
        later,
        users,
        pid,
        later_stat,
        later_f,
    ));
}

/// In nanoseconds: a process that is listed twice shows the share of the run
/// time of all its tasks between the two samples.
pub proof fn lemma_runtime_counted(
    past: Past,
    users: Map<u32, Seq<char>>,
    pid: i32,
    set: Settings,
    stat: Seq<char>,
    f: ProcFiles,
    later: Settings,
    later_stat: Seq<char>,
    later_f: ProcFiles,
    a: nat,
    b: nat,
)
    requires
        set.use_nano_mode,
        later.use_nano_mode,
        set.now < later.now,
        listed(past, set, pid, stat, f),
        listed(process_rows(past, set, users, pid, stat, f).0, later, pid, later_stat, later_f),
        total_runtime(f.tasks@) == Some(whole(a as int)),
        total_runtime(later_f.tasks@) == Some(whole(b as int)),
        a <= b < 0x20_0000_0000_0000,
    ensures
        ({
            let between = process_rows(past, set, users, pid, stat, f).0;
            let row = process_rows(between, later, users, pid, later_stat, later_f).1[0];
            let ns = (later.now - set.now) as nat;
            let dt = plus(
                whole((ns / 1_000_000_000) as int),
                over(whole((ns % 1_000_000_000) as int), whole(1_000_000_000)),
            );
            &&& row.pid == pid && !row.is_thread
            &&& row.cpu_percent == times(
                over(
                    over(over(whole(b - a), whole(1_000_000_000)), dt),
                    whole(later.num_cpus as int),
                ),
                whole(100),
            )
        }),
{
    let between = process_rows(past, set, users, pid, stat, f).0;
    lemma_time_kept(past, set, users, pid, stat, f);
    lemma_counted(b as int, a as int);
    let known = command_known(between, later, users, pid, later_stat, later_f).0;
    let val = own_time(later, later_stat, later_f).0;
    lemma_share(known, later, pid, val, 1_000_000_000);
    assert(val == whole(b as int));
    assert(process_rows(between, later, users, pid, later_stat, later_f).1[0] == own_row(
        between,
        later,
        users,
        pid,
        later_stat,
        later_f,
    ));
}

/// A task beside the process itself has a row of its own in which its share is
/// that of its run time, in nanoseconds; a task without a run time has no share.
pub proof fn lemma_thread_counted(
    past: Past,
    set: Settings,
    pid: i32,
    cmd: (Seq<char>, Seq<char>, Seq<char>),
    tasks: Seq<TaskSample>,
    t: TaskSample,
    tid: i32,
)
    requires
        parsed_i32(t.name@) == Some(tid as int),
    ensures
        ({
            let a = thread_rows(past, set, pid, cmd, tasks);
            let r = thread_rows(past, set, pid, cmd, tasks.push(t));
            &&& tid == pid ==> r == a
            &&& tid != pid ==> {
                &&& r.1.len() == a.1.len() + 1
                &&& r.1.drop_last() == a.1
                &&& r.1.last().tid == tid && r.1.last().pid == pid && r.1.last().ppid == pid
                &&& r.1.last().is_thread && !r.1.last().is_kernel
                &&& r.1.last().user == cmd.0
                &&& r.1.last().cmd == cmd.1
                &&& r.1.last().full_cmd == "[thread "@ + crate::text::signed_decimal(tid as int)
                    + "] "@ + cmd.2
                &&& match t.runtime {
                    Some(d) => {
                        &&& r.0.times == a.0.times.insert(tid, (d@, set.now))
                        &&& r.1.last().cpu_percent == cpu_share(a.0, set, tid, d@, 1_000_000_000)
                    },
                    None => r.0.times == a.0.times && r.1.last().cpu_percent == zero(),
                }
            }
        }),
{
    let r = thread_rows(past, set, pid, cmd, tasks.push(t));
    let a = thread_rows(past, set, pid, cmd, tasks);
    assert(tasks.push(t).drop_last() =~= tasks);
    if tid != pid {
        assert(r.1.drop_last() =~= a.1);
    }
}

} // verus!
