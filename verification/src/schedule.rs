//! What the worker does when: gathering, resting, and looking for new demands.

use crate::interval::{nano, nanoseconds};
use crate::worker::{memory_due, memory_turn, since, switched, Past, WorkerState, SECOND};
use vstd::prelude::*;

verus! {

/// How long the worker waits after it has read processor times for the first
/// time: 100 milliseconds.
pub const SETTLE: u64 = 100_000_000;

/// How long the worker sleeps at most before it looks for new demands: 50
/// milliseconds.
pub const NAP: u64 = 50_000_000;

/// What the user interface asks of the worker.
#[derive(Clone, Copy, Debug, PartialEq, Eq, Structural)]
pub struct Demand {
    /// The update interval, in hundredths of a second.
    pub interval: u32,
    pub mem_override: bool,
    pub thread_mode: bool,
    pub show_kernel: bool,
}

/// What is gathered.
#[derive(Clone, Copy, Debug, PartialEq, Eq, Structural)]
pub struct Plan {
    pub do_mem: bool,
    pub use_nano_mode: bool,
    pub thread_mode: bool,
    pub show_kernel: bool,
    /// Whether what is gathered is kept and shown. If not, it only serves to
    /// know the processor times.
    pub publish: bool,
}

/// A round of the worker: when it began, and what was asked for then.
#[derive(Clone, Copy, Debug, PartialEq, Eq, Structural)]
pub struct Round {
    pub start: u64,
    pub interval: u32,
    pub thread_mode: bool,
    pub show_kernel: bool,
}

/// What the worker did last.
#[derive(Clone, Copy, Debug, PartialEq, Eq, Structural)]
pub enum Phase {
    /// Nothing.
    Start,
    /// It gathered for the first time.
    Primed,
    /// It finished a round.
    Idle,
    /// It gathered anew, since processor time is now read another way.
    Reprimed(Round),
    /// It waited after that.
    Settled(Round),
    /// It gathered what is shown.
    Gathered(Round),
    /// It slept, with this much of its rest left before that.
    Resting { remaining: u64, demand: Demand },
}

/// What the worker does next.
#[derive(Clone, Copy, Debug, PartialEq, Eq, Structural)]
pub enum Action {
    Gather(Plan),
    /// For so many nanoseconds.
    Sleep(u64),
    Yield,
}

/// The part of a rest that the worker sleeps at once.
pub open spec fn nap(remaining: u64) -> u64 {
    if remaining < NAP {
        remaining
    } else {
        NAP
    }
}

/// How long the worker rests: until the interval is over.
pub open spec fn rest(round: Round, now: u64) -> u64 {
    let elapsed = if now > round.start {
        now - round.start
    } else {
        0
    };
    if nanoseconds(round.interval) > elapsed {
        (nanoseconds(round.interval) - elapsed) as u64
    } else {
        0
    }
}

/// The plan of a round.
pub open spec fn plan(round: Round, do_mem: bool, publish: bool) -> Plan {
    Plan {
        do_mem,
        use_nano_mode: nano(round.interval),
        thread_mode: round.thread_mode,
        show_kernel: round.show_kernel,
        publish,
    }
}

/// The round that begins now.
pub open spec fn new_round(now: u64, demand: Demand) -> Round {
    Round {
        start: now,
        interval: demand.interval,
        thread_mode: demand.thread_mode,
        show_kernel: demand.show_kernel,
    }
}

/// Gathering what is shown.
pub open spec fn measuring(past: Past, round: Round, now: u64, demand: Demand) -> (
    Phase,
    Past,
    Action,
) {
    let due = memory_due(past, demand.mem_override, now);
    (
        Phase::Gathered(round),
        memory_turn(past, due, now),
        Action::Gather(plan(round, due, true)),
    )
}

/// Beginning a round. Where processor time is to be read another way than
/// before, its times are read anew first.
pub open spec fn beginning(past: Past, now: u64, demand: Demand) -> (Phase, Past, Action) {
    let round = new_round(now, demand);
    if past.nano_mode != nano(demand.interval) {
        (
            Phase::Reprimed(round),
            switched(past, nano(demand.interval)),
            Action::Gather(plan(round, true, false)),
        )
    } else {
        measuring(past, round, now, demand)
    }
}

/// What the worker does next.
pub open spec fn following(phase: Phase, past: Past, now: u64, demand: Demand) -> (
    Phase,
    Past,
    Action,
) {
    match phase {
        Phase::Start => (
            Phase::Primed,
            past,
            Action::Gather(plan(new_round(now, demand), true, false)),
        ),
        Phase::Primed => (Phase::Idle, past, Action::Sleep(SETTLE)),
        Phase::Idle => beginning(past, now, demand),
        Phase::Reprimed(round) => (Phase::Settled(round), past, Action::Sleep(SETTLE)),
        Phase::Settled(round) => measuring(past, round, now, demand),
        Phase::Gathered(round) => {
            let r = rest(round, now);
            if r > 0 {
                (
                    Phase::Resting {
                        remaining: r,
                        demand: Demand { interval: round.interval, ..demand },
                    },
                    past,
                    Action::Sleep(nap(r)),
                )
            } else {
                (Phase::Idle, past, Action::Yield)
            }
        },
        Phase::Resting { remaining, demand: before } => {
            let left = (remaining - nap(remaining)) as u64;
            if demand != before || left == 0 {
                beginning(past, now, demand)
            } else {
                (Phase::Resting { remaining: left, demand: before }, past, Action::Sleep(nap(left)))
            }
        },
    }
}

/// The worker.
pub struct Worker {
    pub state: WorkerState,
    pub phase: Phase,
}

fn plan_of(round: Round, do_mem: bool, publish: bool) -> (r: Plan)
    ensures
        r == plan(round, do_mem, publish),
{
    Plan {
        do_mem,
        use_nano_mode: round.interval < 50,
        thread_mode: round.thread_mode,
        show_kernel: round.show_kernel,
        publish,
    }
}

fn nap_of(remaining: u64) -> (r: u64)
    ensures
        r == nap(remaining),
{
    if remaining < NAP {
        remaining
    } else {
        NAP
    }
}

fn rest_of(round: Round, now: u64) -> (r: u64)
    ensures
        r == rest(round, now),
{
    let elapsed: u64 = if now > round.start { now - round.start } else { 0 };
    let length: u64 = round.interval as u64 * 10_000_000;
    if length > elapsed {
        length - elapsed
    } else {
        0
    }
}

fn round_of(now: u64, demand: Demand) -> (r: Round)
    ensures
        r == new_round(now, demand),
{
    Round {
        start: now,
        interval: demand.interval,
        thread_mode: demand.thread_mode,
        show_kernel: demand.show_kernel,
    }
}

impl Worker {
    pub open spec fn wf(self) -> bool {
        self.state.wf()
    }

    /// A worker that has done nothing yet.
    pub fn new() -> (r: Worker)
        ensures
            r.phase == Phase::Start,
            r.state@ == (Past {
                times: Map::empty(),
                sys_cpu: None,
                commands: Map::empty(),
                rows: Map::empty(),
                mem_update: None,
                nano_mode: false,
            }),
            r.wf(),
    {
        Worker { state: WorkerState::new(), phase: Phase::Start }
    }

    /// Gathers what is shown.
    fn measure(&mut self, round: Round, now: u64, demand: Demand) -> (action: Action)
        requires
            old(self).wf(),
        ensures
            (final(self).phase, final(self).state@, action) == measuring(
                old(self).state@,
                round,
                now,
                demand,
            ),
            final(self).wf(),
    {
        let due = self.state.take_memory_turn(demand.mem_override, now);
        self.phase = Phase::Gathered(round);
        Action::Gather(plan_of(round, due, true))
    }

    /// Begins a round.
    fn begin(&mut self, now: u64, demand: Demand) -> (action: Action)
        requires
            old(self).wf(),
        ensures
            (final(self).phase, final(self).state@, action) == beginning(
                old(self).state@,
                now,
                demand,
            ),
            final(self).wf(),
    {
        let ghost past = self.state@;
        let round = round_of(now, demand);
        if self.state.switch_mode(demand.interval < 50) {
            self.phase = Phase::Reprimed(round);
            Action::Gather(plan_of(round, true, false))
        } else {
            proof {
                assert(self.state@ =~= past);
            }
            self.measure(round, now, demand)
        }
    }

    /// What the worker does next, at a time in nanoseconds and with what is
    /// asked of it then. What it did last is done by then; what was gathered to
    /// be shown is remembered.
    pub fn next(&mut self, now: u64, demand: Demand) -> (action: Action)
        requires
            old(self).wf(),
        ensures
            (final(self).phase, final(self).state@, action) == following(
                old(self).phase,
                old(self).state@,
                now,
                demand,
            ),
            final(self).wf(),
    {
        match self.phase {
            Phase::Start => {
                self.phase = Phase::Primed;
                Action::Gather(plan_of(round_of(now, demand), true, false))
            },
            Phase::Primed => {
                self.phase = Phase::Idle;
                Action::Sleep(SETTLE)
            },
            Phase::Idle => self.begin(now, demand),
            Phase::Reprimed(round) => {
                self.phase = Phase::Settled(round);
                Action::Sleep(SETTLE)
            },
            Phase::Settled(round) => self.measure(round, now, demand),
            Phase::Gathered(round) => {
                let r = rest_of(round, now);
                if r > 0 {
                    let before = Demand {
                        interval: round.interval,
                        mem_override: demand.mem_override,
                        thread_mode: demand.thread_mode,
                        show_kernel: demand.show_kernel,
                    };
                    self.phase = Phase::Resting { remaining: r, demand: before };
                    Action::Sleep(nap_of(r))
                } else {
                    self.phase = Phase::Idle;
                    Action::Yield
                }
            },
            Phase::Resting { remaining, demand: before } => {
                let left: u64 = remaining - nap_of(remaining);
                if demand != before || left == 0 {
                    self.begin(now, demand)
                } else {
                    self.phase = Phase::Resting { remaining: left, demand: before };
                    Action::Sleep(nap_of(left))
                }
            },
        }
    }
}

// Laws

/// What is shown was gathered with memory that is less than two seconds old, and
/// read just then where that was demanded.
pub proof fn lemma_memory_fresh(phase: Phase, past: Past, now: u64, demand: Demand)
    ensures
        ({
            let r = following(phase, past, now, demand);
            match r.2 {
                Action::Gather(p) => p.publish ==> {
                    &&& demand.mem_override ==> p.do_mem
                    &&& p.do_mem ==> r.1.mem_update == Some(now)
                    &&& !p.do_mem ==> (r.1.mem_update matches Some(then) && since(now, then) < 2
                        * SECOND)
                },
                _ => true,
            }
        }),
{
}

/// What is shown is gathered in nanoseconds exactly at intervals below half a
/// second, and never from times that were read the other way.
pub proof fn lemma_times_of_one_kind(phase: Phase, past: Past, now: u64, demand: Demand)
    requires
        match phase {
            Phase::Settled(round) => past.nano_mode == nano(round.interval),
            _ => true,
        },
    ensures
        ({
            let r = following(phase, past, now, demand);
            match r.2 {
                Action::Gather(p) => p.publish ==> {
                    &&& p.use_nano_mode == past.nano_mode
                    &&& r.1.times == past.times
                    &&& phase is Settled || p.use_nano_mode == nano(demand.interval)
                },
                _ => true,
            }
        }),
        match following(phase, past, now, demand).0 {
            Phase::Reprimed(round) => {
                &&& following(phase, past, now, demand).1.nano_mode == nano(round.interval)
                &&& following(phase, past, now, demand).1.times == Map::<
                    i32,
                    (crate::double::Dyadic, u64),
                >::empty()
            },
            _ => true,
        },
{
}

/// Where processor time is to be read another way, the times read so far are
/// forgotten and read anew; a tenth of a second later comes what is shown, read
/// in that way, whatever is asked for in the meantime.
pub proof fn lemma_new_baseline(past: Past, now: u64, demand: Demand)
    requires
        past.nano_mode != nano(demand.interval),
    ensures
        ({
            let round = new_round(now, demand);
            let r = beginning(past, now, demand);
            &&& r.0 == Phase::Reprimed(round)
            &&& r.1.times == Map::<i32, (crate::double::Dyadic, u64)>::empty()
            &&& r.1.nano_mode == nano(demand.interval)
            &&& r.2 == Action::Gather(plan(round, true, false))
            &&& forall|p: Past, t: u64, d: Demand| #[trigger]
                following(Phase::Reprimed(round), p, t, d) == (
                    Phase::Settled(round),
                    p,
                    Action::Sleep(SETTLE),
                )
            &&& forall|p: Past, t: u64, d: Demand| #[trigger]
                following(Phase::Settled(round), p, t, d).2 == Action::Gather(
                    plan(round, memory_due(p, d.mem_override, t), true),
                )
        }),
{
}

/// A changed demand ends the rest: the next round begins at once.
pub proof fn lemma_rest_interrupted(
    remaining: u64,
    before: Demand,
    past: Past,
    now: u64,
    demand: Demand,
)
    requires
        demand != before,
    ensures
        following(Phase::Resting { remaining, demand: before }, past, now, demand) == beginning(
            past,
            now,
            demand,
        ),
        following(Phase::Resting { remaining, demand: before }, past, now, demand).2 is Gather,
{
}

/// What a worker has done after some turns at which the same is asked for: its
/// phase, what it knows, and how long it slept in all.
pub open spec fn dozed(phase: Phase, past: Past, nows: Seq<u64>, demand: Demand) -> (
    Phase,
    Past,
    nat,
)
    decreases nows.len(),
{
    if nows.len() == 0 {
        (phase, past, 0)
    } else {
        let a = dozed(phase, past, nows.drop_last(), demand);
        let n = following(a.0, a.1, nows.last(), demand);
        (n.0, n.1, a.2 + match n.2 {
            Action::Sleep(ns) => ns as nat,
            _ => 0,
        })
    }
}

/// Where the demand does not change, the worker sleeps for the rest of the
/// interval: in naps of 50 milliseconds, the last one as long as is left, and
/// gathers when they add up to it, no sooner and no later. Where nothing is left
/// of the interval it only yields once.
pub proof fn lemma_interval_slept(
    round: Round,
    past: Past,
    nows: Seq<u64>,
    demand: Demand,
    left: int,
)
    requires
        nows.len() > 0,
        demand.interval == round.interval,
        round.start <= nows[0],
        left == (if nows[0] - round.start < round.interval * 10_000_000 {
            round.interval * 10_000_000 - (nows[0] - round.start)
        } else {
            0
        }),
        nows.len() == 1 || (nows.len() - 1) * 50_000_000 < left,
    ensures
        ({
            let slept = 50_000_000 * (nows.len() as int);
            let r = dozed(Phase::Gathered(round), past, nows, demand);
            &&& r.1 == past
            &&& r.2 == (if slept < left {
                slept
            } else {
                left
            })
            &&& forall|now: u64|
                (#[trigger] following(r.0, r.1, now, demand).2 is Gather) == (slept >= left)
            &&& forall|now: u64|
                slept >= left ==> (#[trigger] following(r.0, r.1, now, demand)) == beginning(
                    past,
                    now,
                    demand,
                )
            &&& left == 0 ==> r.0 == Phase::Idle
            &&& left > 0 ==> (r.0 matches Phase::Resting { remaining, demand: before }
                && before == demand && remaining == left - (nows.len() - 1) * 50_000_000)
        }),
    decreases nows.len(),
{
    let before = nows.drop_last();
    if nows.len() == 1 {
        assert(dozed(Phase::Gathered(round), past, before, demand) == (
            Phase::Gathered(round),
            past,
            0nat,
        ));
        assert(nows.last() == nows[0]);
        assert(left == rest(round, nows[0]));
        assert(Demand { interval: round.interval, ..demand } == demand);
    } else {
        assert(before[0] == nows[0]);
        lemma_interval_slept(round, past, before, demand, left);
    }
}

/// A round begins at once with what is asked for: the interval counts from then,
/// threads and the threads of the kernel are gathered as demanded, and processor
/// time is read in nanoseconds at less than half a second.
pub proof fn lemma_round_begins(past: Past, now: u64, demand: Demand)
    ensures
        ({
            let r = following(Phase::Idle, past, now, demand);
            &&& match r.0 {
                Phase::Gathered(round) => round.start == now && round.interval == demand.interval
                    && past.nano_mode == (demand.interval < 50),
                Phase::Reprimed(round) => round.start == now && round.interval == demand.interval
                    && past.nano_mode != (demand.interval < 50),
                _ => false,
            }
            &&& match r.2 {
                Action::Gather(p) => {
                    &&& p.thread_mode == demand.thread_mode
                    &&& p.show_kernel == demand.show_kernel
                    &&& p.use_nano_mode == (demand.interval < 50)
                    &&& p.publish == (past.nano_mode == (demand.interval < 50))
                    &&& !p.publish ==> p.do_mem
                },
                _ => false,
            }
            &&& r.1.nano_mode == (demand.interval < 50)
            &&& r.1.rows == past.rows
            &&& r.1.commands == past.commands
            &&& r.1.sys_cpu == past.sys_cpu
            &&& past.nano_mode == (demand.interval < 50) ==> r.1.times == past.times
        }),
{
}

/// The worker starts by gathering once without showing it, and waits a tenth of
/// a second before its first round.
pub proof fn lemma_worker_starts(past: Past, now: u64, later: u64, demand: Demand, next: Demand)
    ensures
        ({
            let a = following(Phase::Start, past, now, demand);
            let b = following(a.0, a.1, later, next);
            &&& a.1 == past
            &&& match a.2 {
                Action::Gather(p) => {
                    &&& p.do_mem && !p.publish
                    &&& p.thread_mode == demand.thread_mode
                    &&& p.show_kernel == demand.show_kernel
                    &&& p.use_nano_mode == (demand.interval < 50)
                },
                _ => false,
            }
            &&& b.0 == Phase::Idle
            &&& b.1 == past
            &&& b.2 == Action::Sleep(100_000_000)
        }),
{
}

/// What is shown is gathered with memory read anew exactly if that is demanded,
/// or if it was last read two seconds ago or more, or never.
pub proof fn lemma_memory_read(round: Round, past: Past, now: u64, demand: Demand)
    ensures
        ({
            let r = following(Phase::Settled(round), past, now, demand);
            let stale = match past.mem_update {
                Some(then) => then <= now && now - then >= 2_000_000_000,
                None => true,
            };
            &&& r.0 == Phase::Gathered(round)
            &&& match r.2 {
                Action::Gather(p) => p.publish && p.do_mem == (demand.mem_override || stale)
                    && p.thread_mode == round.thread_mode && p.show_kernel == round.show_kernel
                    && p.use_nano_mode == (round.interval < 50),
                _ => false,
            }
            &&& r.1.mem_update == (if demand.mem_override || stale {
                Some(now)
            } else {
                past.mem_update
            })
            &&& r.1.times == past.times
            &&& r.1.rows == past.rows
            &&& r.1.commands == past.commands
            &&& r.1.nano_mode == past.nano_mode
        }),
        past.nano_mode == (demand.interval < 50) ==> {
            let a = following(Phase::Idle, past, now, demand);
            let b = following(Phase::Settled(new_round(now, demand)), past, now, demand);
            a == b
        },
{
}

/// An interval that was changed while something was gathered takes effect after
/// one nap, or at once if the old one is over.
pub proof fn lemma_interval_changed(
    round: Round,
    past: Past,
    now: u64,
    later: u64,
    demand: Demand,
    left: int,
)
    requires
        demand.interval != round.interval,
        round.start <= now,
        left == round.interval * 10_000_000 - (now - round.start),
    ensures
        ({
            let a = following(Phase::Gathered(round), past, now, demand);
            let b = following(a.0, a.1, later, demand);
            &&& a.1 == past
            &&& left > 50_000_000 ==> a.2 == Action::Sleep(50_000_000)
            &&& 0 < left <= 50_000_000 ==> a.2 == Action::Sleep(left as u64)
            &&& left <= 0 ==> a.2 == Action::Yield
            &&& b == following(Phase::Idle, past, later, demand)
        }),
{
}

} // verus!
