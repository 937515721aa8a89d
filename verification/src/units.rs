//! In what units processor times are read, and that they are not mixed.

use crate::double::{zero, Dyadic};
use crate::interval::nano;
use crate::process::{ProcInfo, Row};
use crate::schedule::{following, Action, Demand, Phase, Plan};
use crate::text::parsed_i32;
use crate::worker::{
    all_rows, command_known, cpu_share, entry_rows, gathered, listed, own_past, own_row,
    own_threads, own_time, pid_named, process_rows, remembered, thread_rows, total_runtime, Past,
    ProcFiles, Settings, SystemFiles, TaskSample, SECOND,
};
use vstd::prelude::*;

verus! {

/// The units of processor time.
#[derive(Clone, Copy, Debug, PartialEq, Eq, Structural)]
pub enum Unit {
    Ticks,
    Nanoseconds,
}

/// What was read: in which unit, and whether of a thread or of a process.
pub struct Reading {
    pub unit: Unit,
    pub of_thread: bool,
}

/// The processor time of a process or thread, as it is read.
pub struct Sample {
    pub id: i32,
    pub value: Dyadic,
    pub reading: Reading,
}

/// How many units there are in a second.
pub open spec fn per_second(unit: Unit, set: Settings) -> u64 {
    match unit {
        Unit::Ticks => set.clk_tck,
        Unit::Nanoseconds => SECOND,
    }
}

// What is read

/// What is read of a process. Its time is in nanoseconds where that is asked for
/// and one of its tasks has a run time.
pub open spec fn own_sample(set: Settings, pid: i32, stat: Seq<char>, f: ProcFiles) -> Sample {
    Sample {
        id: pid,
        value: own_time(set, stat, f).0,
        reading: Reading {
            unit: if set.use_nano_mode && total_runtime(f.tasks@) is Some {
                Unit::Nanoseconds
            } else {
                Unit::Ticks
            },
            of_thread: false,
        },
    }
}

/// What is read for the row of each thread of a process.
pub open spec fn thread_samples(pid: i32, tasks: Seq<TaskSample>) -> Seq<Option<Sample>>
    decreases tasks.len(),
{
    if tasks.len() == 0 {
        seq![]
    } else {
        let a = thread_samples(pid, tasks.drop_last());
        let t = tasks.last();
        match parsed_i32(t.name@) {
            Some(n) => if n as i32 == pid {
                a
            } else {
                a.push(
                    match t.runtime {
                        Some(d) => Some(
                            Sample {
                                id: n as i32,
                                value: d@,
                                reading: Reading { unit: Unit::Nanoseconds, of_thread: true },
                            },
                        ),
                        None => None,
                    },
                )
            },
            None => a,
        }
    }
}

/// What is read for the rows of a process and of its threads.
pub open spec fn process_samples(
    past: Past,
    set: Settings,
    pid: i32,
    stat: Seq<char>,
    f: ProcFiles,
) -> Seq<Option<Sample>> {
    if listed(past, set, pid, stat, f) {
        seq![Some(own_sample(set, pid, stat, f))] + if set.thread_mode {
            thread_samples(pid, f.threads@)
        } else {
            seq![]
        }
    } else {
        seq![]
    }
}

/// What is read for the rows of an entry below `/proc`.
pub open spec fn entry_samples(past: Past, set: Settings, f: ProcFiles) -> Seq<Option<Sample>> {
    match (pid_named(f.name@), f.stat) {
        (Some(pid), Some(stat)) => process_samples(past, set, pid, stat@, f),
        _ => seq![],
    }
}

/// What is read for each of the rows that are gathered: nothing for a thread
/// without a run time.
pub open spec fn all_samples(
    past: Past,
    set: Settings,
    users: Map<u32, Seq<char>>,
    files: Seq<ProcFiles>,
) -> Seq<Option<Sample>>
    decreases files.len(),
{
    if files.len() == 0 {
        seq![]
    } else {
        let before = all_rows(past, set, users, files.drop_last()).0;
        all_samples(past, set, users, files.drop_last()) + entry_samples(before, set, files.last())
    }
}

// What is kept

/// The times that are kept after samples were read.
pub open spec fn times_after(
    times: Map<i32, (Dyadic, u64)>,
    samples: Seq<Option<Sample>>,
    now: u64,
) -> Map<i32, (Dyadic, u64)>
    decreases samples.len(),
{
    if samples.len() == 0 {
        times
    } else {
        let before = times_after(times, samples.drop_last(), now);
        match samples.last() {
            Some(s) => before.insert(s.id, (s.value, now)),
            None => before,
        }
    }
}

/// How the times were read that are kept after samples were read.
pub open spec fn readings_after(
    readings: Map<i32, Reading>,
    samples: Seq<Option<Sample>>,
) -> Map<i32, Reading>
    decreases samples.len(),
{
    if samples.len() == 0 {
        readings
    } else {
        let before = readings_after(readings, samples.drop_last());
        match samples.last() {
            Some(s) => before.insert(s.id, s.reading),
            None => before,
        }
    }
}

/// With other processor times.
pub open spec fn with_times(past: Past, times: Map<i32, (Dyadic, u64)>) -> Past {
    Past { times, ..past }
}

/// Whether the share in a row is that of a sample and of the time that was kept
/// before; it is zero where there is no sample.
pub open spec fn row_told(past: Past, set: Settings, row: Row, sample: Option<Sample>) -> bool {
    match sample {
        Some(s) => {
            &&& s.id == (if row.is_thread {
                row.tid
            } else {
                row.pid
            })
            &&& s.reading.of_thread == row.is_thread
            &&& row.cpu_percent == cpu_share(
                past,
                set,
                s.id,
                s.value,
                per_second(s.reading.unit, set),
            )
        },
        None => row.is_thread && row.cpu_percent == zero(),
    }
}

/// Whether the shares in the rows are those of the samples, one after the other.
pub open spec fn told(
    past: Past,
    set: Settings,
    rows: Seq<Row>,
    samples: Seq<Option<Sample>>,
) -> bool {
    &&& rows.len() == samples.len()
    &&& forall|i: int|
        0 <= i < rows.len() ==> row_told(
            with_times(past, times_after(past.times, samples.take(i), set.now)),
            set,
            #[trigger] rows[i],
            samples[i],
        )
}

proof fn lemma_times_concat(
    times: Map<i32, (Dyadic, u64)>,
    a: Seq<Option<Sample>>,
    b: Seq<Option<Sample>>,
    now: u64,
)
    ensures
        times_after(times, a + b, now) == times_after(times_after(times, a, now), b, now),
    decreases b.len(),
{
    if b.len() == 0 {
        assert(a + b =~= a);
    } else {
        lemma_times_concat(times, a, b.drop_last(), now);
        assert((a + b).drop_last() =~= a + b.drop_last());
        assert((a + b).last() == b.last());
    }
}

proof fn lemma_told_concat(
    past: Past,
    between: Past,
    set: Settings,
    r: Seq<Row>,
    a: Seq<Option<Sample>>,
    s: Seq<Row>,
    b: Seq<Option<Sample>>,
)
    requires
        told(past, set, r, a),
        told(between, set, s, b),
        between.times == times_after(past.times, a, set.now),
    ensures
        told(past, set, r + s, a + b),
        times_after(past.times, a + b, set.now) == times_after(between.times, b, set.now),
{
    let rows = r + s;
    let samples = a + b;
    lemma_times_concat(past.times, a, b, set.now);
    assert forall|i: int| 0 <= i < rows.len() implies row_told(
        with_times(past, times_after(past.times, samples.take(i), set.now)),
        set,
        #[trigger] rows[i],
        samples[i],
    ) by {
        if i < r.len() {
            assert(samples.take(i) =~= a.take(i));
            assert(rows[i] == r[i]);
        } else {
            let k = i - r.len();
            assert(samples.take(i) =~= a + b.take(k));
            lemma_times_concat(past.times, a, b.take(k), set.now);
            assert(rows[i] == s[k]);
        }
    }
}

proof fn lemma_threads_told(
    past: Past,
    set: Settings,
    pid: i32,
    cmd: (Seq<char>, Seq<char>, Seq<char>),
    tasks: Seq<TaskSample>,
)
    ensures
        told(past, set, thread_rows(past, set, pid, cmd, tasks).1, thread_samples(pid, tasks)),
        thread_rows(past, set, pid, cmd, tasks).0.times == times_after(
            past.times,
            thread_samples(pid, tasks),
            set.now,
        ),
        thread_rows(past, set, pid, cmd, tasks).0.nano_mode == past.nano_mode,
    decreases tasks.len(),
{
    if tasks.len() > 0 {
        let before = tasks.drop_last();
        let a = thread_rows(past, set, pid, cmd, before);
        let x = thread_samples(pid, before);
        let r = thread_rows(past, set, pid, cmd, tasks);
        let y = thread_samples(pid, tasks);
        lemma_threads_told(past, set, pid, cmd, before);
        if y.len() > x.len() {
            assert(y.drop_last() =~= x);
            assert forall|i: int| 0 <= i < r.1.len() implies row_told(
                with_times(past, times_after(past.times, y.take(i), set.now)),
                set,
                #[trigger] r.1[i],
                y[i],
            ) by {
                if i < a.1.len() {
                    assert(y.take(i) =~= x.take(i));
                    assert(r.1[i] == a.1[i]);
                } else {
                    assert(y.take(i) =~= x);
                }
            }
        }
    }
}

proof fn lemma_process_told(
    past: Past,
    set: Settings,
    users: Map<u32, Seq<char>>,
    pid: i32,
    stat: Seq<char>,
    f: ProcFiles,
)
    ensures
        told(
            past,
            set,
            process_rows(past, set, users, pid, stat, f).1,
            process_samples(past, set, pid, stat, f),
        ),
        process_rows(past, set, users, pid, stat, f).0.times == times_after(
            past.times,
            process_samples(past, set, pid, stat, f),
            set.now,
        ),
        process_rows(past, set, users, pid, stat, f).0.nano_mode == past.nano_mode,
{
    if listed(past, set, pid, stat, f) {
        let after = own_past(past, set, users, pid, stat, f);
        let row = own_row(past, set, users, pid, stat, f);
        let one = seq![Some(own_sample(set, pid, stat, f))];
        let ts = own_threads(past, set, users, pid, stat, f);
        let known = command_known(past, set, users, pid, stat, f);
        let rest = if set.thread_mode {
            thread_samples(pid, f.threads@)
        } else {
            seq![]
        };
        assert(known.0.times == past.times);
        assert(one.take(0) =~= seq![]);
        assert(one.drop_last() =~= seq![]);
        assert(times_after(past.times, one.take(0), set.now) == past.times);
        assert(times_after(past.times, one, set.now) == after.times);
        assert(told(past, set, seq![row], one));
        lemma_threads_told(after, set, pid, known.1, f.threads@);
        assert(told(after, set, ts.1, rest));
        lemma_told_concat(past, after, set, seq![row], one, ts.1, rest);
    }
}

/// The rows that are gathered are made from what is read: each share is that of
/// a sample and of the time kept before, and the samples are what is kept.
pub proof fn lemma_rows_told(
    past: Past,
    set: Settings,
    users: Map<u32, Seq<char>>,
    files: Seq<ProcFiles>,
)
    ensures
        told(
            past,
            set,
            all_rows(past, set, users, files).1,
            all_samples(past, set, users, files),
        ),
        all_rows(past, set, users, files).0.times == times_after(
            past.times,
            all_samples(past, set, users, files),
            set.now,
        ),
        all_rows(past, set, users, files).0.nano_mode == past.nano_mode,
    decreases files.len(),
{
    if files.len() > 0 {
        let before = files.drop_last();
        let f = files.last();
        let a = all_rows(past, set, users, before);
        let b = entry_rows(a.0, set, users, f);
        lemma_rows_told(past, set, users, before);
        match (pid_named(f.name@), f.stat) {
            (Some(pid), Some(stat)) => {
                lemma_process_told(a.0, set, users, pid, stat@, f);
            },
            _ => {},
        }
        lemma_told_concat(
            past,
            a.0,
            set,
            a.1,
            all_samples(past, set, users, before),
            b.1,
            entry_samples(a.0, set, f),
        );
    }
}

// One way of reading

/// The unit in which a time is read.
pub open spec fn unit_of(nano_mode: bool, of_thread: bool) -> Unit {
    if nano_mode || of_thread {
        Unit::Nanoseconds
    } else {
        Unit::Ticks
    }
}

/// Whether every kept time was read in one way: those of processes in
/// nanoseconds or all in ticks, those of threads in nanoseconds.
pub open spec fn read_one_way(readings: Map<i32, Reading>, nano_mode: bool) -> bool {
    forall|k: i32| #[trigger]
        readings.contains_key(k) ==> readings[k].unit == unit_of(nano_mode, readings[k].of_thread)
}

/// Whether the run times of the processes can be read, where times are read in
/// nanoseconds.
pub open spec fn readable(set: Settings, samples: Seq<Option<Sample>>) -> bool {
    set.use_nano_mode ==> forall|i: int|
        0 <= i < samples.len() ==> (#[trigger] samples[i] matches Some(s) ==> s.reading.unit
            == Unit::Nanoseconds)
}

/// Whether no number is that of a process now and was that of a thread when its
/// time was kept, or the other way round, where times are read in ticks.
pub open spec fn roles_kept(
    set: Settings,
    readings: Map<i32, Reading>,
    samples: Seq<Option<Sample>>,
) -> bool {
    !set.use_nano_mode ==> forall|i: int|
        0 <= i < samples.len() ==> (#[trigger] samples[i] matches Some(s) ==> {
            let before = readings_after(readings, samples.take(i));
            before.contains_key(s.id) ==> before[s.id].of_thread == s.reading.of_thread
        })
}

/// Whether no sample is compared with a time of another unit.
pub open spec fn unmixed(readings: Map<i32, Reading>, samples: Seq<Option<Sample>>) -> bool {
    forall|i: int|
        0 <= i < samples.len() ==> (#[trigger] samples[i] matches Some(s) ==> {
            let before = readings_after(readings, samples.take(i));
            before.contains_key(s.id) ==> before[s.id].unit == s.reading.unit
        })
}

proof fn lemma_thread_units(pid: i32, tasks: Seq<TaskSample>)
    ensures
        forall|i: int|
            0 <= i < thread_samples(pid, tasks).len() ==> (#[trigger] thread_samples(pid, tasks)[i]
                matches Some(s) ==> s.reading.of_thread && s.reading.unit == Unit::Nanoseconds),
    decreases tasks.len(),
{
    if tasks.len() > 0 {
        let a = thread_samples(pid, tasks.drop_last());
        let r = thread_samples(pid, tasks);
        lemma_thread_units(pid, tasks.drop_last());
        assert forall|i: int| 0 <= i < r.len() implies (#[trigger] r[i] matches Some(s)
            ==> s.reading.of_thread && s.reading.unit == Unit::Nanoseconds) by {
            if i < a.len() {
                assert(r[i] == a[i]);
            }
        }
    }
}

/// Whether samples are in the units that are asked for, but for processes whose
/// run time cannot be read.
spec fn in_order(set: Settings, samples: Seq<Option<Sample>>) -> bool {
    forall|i: int|
        0 <= i < samples.len() ==> (#[trigger] samples[i] matches Some(s) ==> {
            ||| s.reading.unit == unit_of(set.use_nano_mode, s.reading.of_thread)
            ||| set.use_nano_mode && s.reading.unit == Unit::Ticks
        })
}

proof fn lemma_units(
    past: Past,
    set: Settings,
    users: Map<u32, Seq<char>>,
    files: Seq<ProcFiles>,
)
    ensures
        in_order(set, all_samples(past, set, users, files)),
    decreases files.len(),
{
    if files.len() > 0 {
        let before = files.drop_last();
        let f = files.last();
        let a = all_samples(past, set, users, before);
        let b = entry_samples(all_rows(past, set, users, before).0, set, f);
        let r = all_samples(past, set, users, files);
        lemma_units(past, set, users, before);
        match pid_named(f.name@) {
            Some(pid) => {
                lemma_thread_units(pid, f.threads@);
                assert forall|i: int| 0 < i < b.len() implies #[trigger] b[i] == thread_samples(
                    pid,
                    f.threads@,
                )[i - 1] by {}
            },
            None => {},
        }
        assert(in_order(set, b));
        assert forall|i: int| 0 <= i < r.len() implies (#[trigger] r[i] matches Some(s) ==> {
            ||| s.reading.unit == unit_of(set.use_nano_mode, s.reading.of_thread)
            ||| set.use_nano_mode && s.reading.unit == Unit::Ticks
        }) by {
            if i < a.len() {
                assert(r[i] == a[i]);
            } else {
                assert(r[i] == b[i - a.len()]);
            }
        }
    }
}

proof fn lemma_one_way(set: Settings, readings: Map<i32, Reading>, samples: Seq<Option<Sample>>)
    requires
        read_one_way(readings, set.use_nano_mode),
        in_order(set, samples),
        readable(set, samples),
        roles_kept(set, readings, samples),
    ensures
        unmixed(readings, samples),
        read_one_way(readings_after(readings, samples), set.use_nano_mode),
    decreases samples.len(),
{
    if samples.len() > 0 {
        let rest = samples.drop_last();
        let n = samples.len() - 1;
        assert forall|i: int| 0 <= i < n implies #[trigger] rest[i] == samples[i] && rest.take(i)
            == samples.take(i) by {
            assert(rest.take(i) =~= samples.take(i));
        }
        lemma_one_way(set, readings, rest);
        assert(samples.take(n) =~= rest);
        assert forall|i: int| 0 <= i < samples.len() implies (#[trigger] samples[i] matches Some(s)
            ==> {
            let before = readings_after(readings, samples.take(i));
            before.contains_key(s.id) ==> before[s.id].unit == s.reading.unit
        }) by {
            if i < n {
                assert(rest[i] == samples[i]);
            }
        }
        assert(samples[n] == samples.last());
    }
}

/// Where the kept times were read in the way that is asked for, no row that is
/// gathered mixes ticks and nanoseconds, and all times that are kept then were
/// read in that way too. This takes that the run times can be read and that no
/// number changes between a process and a thread.
pub proof fn lemma_gathered_unmixed(
    past: Past,
    set: Settings,
    users: Map<u32, Seq<char>>,
    files: Seq<ProcFiles>,
    readings: Map<i32, Reading>,
)
    requires
        read_one_way(readings, set.use_nano_mode),
        readable(set, all_samples(past, set, users, files)),
        roles_kept(set, readings, all_samples(past, set, users, files)),
    ensures
        unmixed(readings, all_samples(past, set, users, files)),
        read_one_way(
            readings_after(readings, all_samples(past, set, users, files)),
            set.use_nano_mode,
        ),
{
    lemma_units(past, set, users, files);
    lemma_one_way(set, readings, all_samples(past, set, users, files));
}

// The worker

/// A worker, with how its kept times were read.
pub struct Ledger {
    pub phase: Phase,
    pub past: Past,
    pub readings: Map<i32, Reading>,
}

/// One turn of the worker: when it is, what is asked for, and what is found if
/// something is gathered.
pub struct Turn {
    pub now: u64,
    pub demand: Demand,
    pub clk_tck: u64,
    pub num_cpus: u64,
    /// When the files are read.
    pub read_at: u64,
    pub users: Map<u32, Seq<char>>,
    pub files: Seq<ProcFiles>,
    pub system: SystemFiles,
    /// The rows that are remembered if they are shown.
    pub rows: Seq<ProcInfo>,
}

/// The settings for a plan.
pub open spec fn settings(plan: Plan, t: Turn) -> Settings {
    Settings {
        do_mem: plan.do_mem,
        use_nano_mode: plan.use_nano_mode,
        thread_mode: plan.thread_mode,
        show_kernel: plan.show_kernel,
        clk_tck: t.clk_tck,
        num_cpus: t.num_cpus,
        now: t.read_at,
    }
}

/// A worker whose next action is chosen: what it has forgotten it has no
/// readings of.
pub open spec fn chosen(l: Ledger, t: Turn) -> Ledger {
    let n = following(l.phase, l.past, t.now, t.demand);
    Ledger { phase: n.0, past: n.1, readings: l.readings.restrict(n.1.times.dom()) }
}

/// What a worker does next.
pub open spec fn action(l: Ledger, t: Turn) -> Action {
    following(l.phase, l.past, t.now, t.demand).2
}

/// What is read when a worker follows a plan.
pub open spec fn planned(l: Ledger, t: Turn, plan: Plan) -> Seq<Option<Sample>> {
    all_samples(chosen(l, t).past, settings(plan, t), t.users, t.files)
}

/// A worker after a turn.
pub open spec fn turned(l: Ledger, t: Turn) -> Ledger {
    let c = chosen(l, t);
    match action(l, t) {
        Action::Gather(plan) => {
            let g = gathered(c.past, settings(plan, t), t.users, t.files, t.system);
            Ledger {
                past: if plan.publish {
                    remembered(g.0, t.rows)
                } else {
                    g.0
                },
                readings: readings_after(c.readings, planned(l, t, plan)),
                ..c
            }
        },
        _ => c,
    }
}

/// A worker that has done nothing yet.
pub open spec fn fresh() -> Ledger {
    Ledger {
        phase: Phase::Start,
        past: Past {
            times: Map::empty(),
            sys_cpu: None,
            commands: Map::empty(),
            rows: Map::empty(),
            mem_update: None,
            nano_mode: false,
        },
        readings: Map::empty(),
    }
}

/// A worker after some turns.
pub open spec fn worked(turns: Seq<Turn>) -> Ledger
    decreases turns.len(),
{
    if turns.len() == 0 {
        fresh()
    } else {
        turned(worked(turns.drop_last()), turns.last())
    }
}

/// Whether run times can be read in a turn, and numbers keep their meaning.
pub open spec fn orderly(l: Ledger, t: Turn) -> bool {
    match action(l, t) {
        Action::Gather(plan) => {
            &&& readable(settings(plan, t), planned(l, t, plan))
            &&& roles_kept(settings(plan, t), chosen(l, t).readings, planned(l, t, plan))
        },
        _ => true,
    }
}

/// Whether every row that a turn shows is made from two samples in one unit: its
/// share is that of a sample and of the time that was kept under its number, and
/// the two were read in the same unit.
pub open spec fn shown_unmixed(l: Ledger, t: Turn) -> bool {
    match action(l, t) {
        Action::Gather(plan) => {
            let c = chosen(l, t);
            let set = settings(plan, t);
            let samples = planned(l, t, plan);
            plan.publish ==> {
                &&& told(
                    c.past,
                    set,
                    gathered(c.past, set, t.users, t.files, t.system).1,
                    samples,
                )
                &&& c.readings.dom() == c.past.times.dom()
                &&& unmixed(c.readings, samples)
            }
        },
        _ => true,
    }
}

/// Whether every kept time has a reading, and was read in the way that the
/// worker reads now.
pub open spec fn consistent(l: Ledger) -> bool {
    &&& l.readings.dom() == l.past.times.dom()
    &&& read_one_way(l.readings, l.past.nano_mode)
    &&& match l.phase {
        Phase::Start | Phase::Primed => false,
        Phase::Reprimed(round) => l.past.nano_mode == nano(round.interval),
        Phase::Settled(round) => l.past.nano_mode == nano(round.interval),
        _ => true,
    }
}

proof fn lemma_domains(
    times: Map<i32, (Dyadic, u64)>,
    readings: Map<i32, Reading>,
    samples: Seq<Option<Sample>>,
    now: u64,
)
    requires
        times.dom() == readings.dom(),
    ensures
        times_after(times, samples, now).dom() == readings_after(readings, samples).dom(),
    decreases samples.len(),
{
    if samples.len() > 0 {
        lemma_domains(times, readings, samples.drop_last(), now);
    }
}

/// What a turn gathers keeps the readings in step with the times.
proof fn lemma_turned(l: Ledger, t: Turn, plan: Plan)
    requires
        l.readings.dom() == l.past.times.dom(),
        action(l, t) == Action::Gather(plan),
        orderly(l, t),
        read_one_way(chosen(l, t).readings, plan.use_nano_mode),
    ensures
        turned(l, t).readings.dom() == turned(l, t).past.times.dom(),
        turned(l, t).past.nano_mode == chosen(l, t).past.nano_mode,
        read_one_way(turned(l, t).readings, plan.use_nano_mode),
        shown_unmixed(l, t),
{
    let c = chosen(l, t);
    let set = settings(plan, t);
    lemma_rows_told(c.past, set, t.users, t.files);
    lemma_gathered_unmixed(c.past, set, t.users, t.files, c.readings);
    lemma_chosen_domains(l, t);
    lemma_domains(c.past.times, c.readings, planned(l, t, plan), set.now);
}

proof fn lemma_chosen_domains(l: Ledger, t: Turn)
    requires
        l.readings.dom() == l.past.times.dom(),
    ensures
        chosen(l, t).readings.dom() == chosen(l, t).past.times.dom(),
        chosen(l, t).past.times == l.past.times ==> chosen(l, t).readings == l.readings,
        chosen(l, t).past.times == Map::<i32, (Dyadic, u64)>::empty() ==> chosen(l, t).readings
            == Map::<i32, Reading>::empty(),
{
    let c = chosen(l, t);
    assert(c.past.times == l.past.times || c.past.times == Map::<i32, (Dyadic, u64)>::empty());
    assert(c.readings.dom() =~= c.past.times.dom());
    if c.past.times == l.past.times {
        assert(c.readings =~= l.readings);
    }
    if c.past.times == Map::<i32, (Dyadic, u64)>::empty() {
        assert(c.readings =~= Map::<i32, Reading>::empty());
    }
}

/// Every kept time was read in the way that the worker reads now, and so it is
/// after the next turn. What that turn shows mixes no units.
pub proof fn lemma_consistent_kept(l: Ledger, t: Turn)
    requires
        consistent(l),
        orderly(l, t),
    ensures
        consistent(turned(l, t)),
        shown_unmixed(l, t),
{
    lemma_chosen_domains(l, t);
    match action(l, t) {
        Action::Gather(plan) => {
            lemma_turned(l, t, plan);
        },
        _ => {},
    }
}

/// A worker that has read its first times and waited after that.
spec fn settled_first(l: Ledger, way: bool) -> bool {
    &&& l.phase == Phase::Idle
    &&& !l.past.nano_mode
    &&& l.readings.dom() == l.past.times.dom()
    &&& read_one_way(l.readings, way)
}

proof fn lemma_first_round(l: Ledger, t: Turn, way: bool)
    requires
        settled_first(l, way),
        way ==> nano(t.demand.interval),
        orderly(l, t),
    ensures
        consistent(turned(l, t)),
        shown_unmixed(l, t),
{
    lemma_chosen_domains(l, t);
    match action(l, t) {
        Action::Gather(plan) => {
            lemma_turned(l, t, plan);
        },
        _ => {},
    }
}

proof fn lemma_first_turns(a: Turn, b: Turn)
    requires
        orderly(fresh(), a),
    ensures
        turned(fresh(), a).phase == Phase::Primed,
        settled_first(turned(turned(fresh(), a), b), nano(a.demand.interval)),
        shown_unmixed(fresh(), a),
        shown_unmixed(turned(fresh(), a), b),
{
    let l = fresh();
    assert(l.readings.dom() =~= l.past.times.dom());
    lemma_chosen_domains(l, a);
    match action(l, a) {
        Action::Gather(plan) => {
            lemma_turned(l, a, plan);
        },
        _ => {},
    }
    lemma_chosen_domains(turned(l, a), b);
}

proof fn lemma_worked(turns: Seq<Turn>)
    requires
        forall|i: int|
            0 <= i < turns.len() ==> orderly(worked(turns.take(i)), #[trigger] turns[i]),
        turns.len() > 2 && nano(turns[0].demand.interval) ==> nano(turns[2].demand.interval),
    ensures
        turns.len() == 2 ==> settled_first(worked(turns), nano(turns[0].demand.interval)),
        turns.len() > 2 ==> consistent(worked(turns)),
        turns.len() > 0 ==> shown_unmixed(worked(turns.drop_last()), turns.last()),
    decreases turns.len(),
{
    if turns.len() > 0 {
        let n = turns.len() - 1;
        let rest = turns.drop_last();
        let l = worked(rest);
        assert(turns.take(n) =~= rest);
        assert(orderly(worked(turns.take(n)), turns[n]));
        assert forall|i: int| 0 <= i < rest.len() implies orderly(
            worked(rest.take(i)),
            #[trigger] rest[i],
        ) by {
            assert(rest.take(i) =~= turns.take(i));
            assert(rest[i] == turns[i]);
        }
        lemma_worked(rest);
        if n == 0 {
            assert(l == fresh());
            lemma_first_turns(turns[0], turns[0]);
        } else if n == 1 {
            assert(rest.drop_last() =~= seq![]);
            assert(worked(rest.drop_last()) == fresh());
            assert(rest.last() == turns[0]);
            assert(turns.take(0) =~= seq![]);
            assert(orderly(worked(turns.take(0)), turns[0]));
            lemma_first_turns(turns[0], turns[1]);
        } else if n == 2 {
            lemma_first_round(l, turns[2], nano(turns[0].demand.interval));
        } else {
            lemma_consistent_kept(l, turns[n]);
        }
    }
}

/// However often the interval changes, no row that is ever shown mixes ticks and
/// nanoseconds. This takes that run times can be read and numbers keep their
/// meaning; and that the interval does not rise to half a second while the first
/// times, read in nanoseconds, settle.
pub proof fn lemma_never_mixed(turns: Seq<Turn>, i: int)
    requires
        0 <= i < turns.len(),
        forall|j: int| 0 <= j <= i ==> orderly(worked(turns.take(j)), #[trigger] turns[j]),
        i >= 2 && nano(turns[0].demand.interval) ==> nano(turns[2].demand.interval),
    ensures
        shown_unmixed(worked(turns.take(i)), turns[i]),
        i >= 2 ==> consistent(worked(turns.take(i + 1))),
{
    let head = turns.take(i + 1);
    assert forall|j: int| 0 <= j < head.len() implies orderly(
        worked(head.take(j)),
        #[trigger] head[j],
    ) by {
        assert(head.take(j) =~= turns.take(j));
        assert(head[j] == turns[j]);
    }
    lemma_worked(head);
    assert(head.drop_last() =~= turns.take(i));
}

} // verus!
