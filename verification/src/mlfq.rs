//! A multi-level feedback queue scheduler, simulated one clock tick at a
//! time: priority boosts, I/O completions, quantum and allotment accounting,
//! demotion, and jobs that issue I/O every few ticks.

use vstd::prelude::*;
use crate::text::{chars_of, parse_i32_range, split_chars, split_spec, spec_parse_i32, views_of};


verus! {

/// One job of the workload and where it stands.
#[derive(Clone, Copy, PartialEq, Eq, Structural, Debug)]
pub struct MlfqJob {
    pub curr_pri: i32,
    pub ticks_left: i32,
    pub allot_left: i32,
    pub start_time: i32,
    pub run_time: i32,
    pub time_left: i32,
    pub io_freq: i32,
    pub doing_io: bool,
    pub first_run: i32,
    pub end_time: i32,
}

/// A job entering the system (`begins`) or finishing an I/O, at `time`.
#[derive(Clone, Copy, PartialEq, Eq, Structural, Debug)]
pub struct IoEvent {
    pub time: i32,
    pub job: usize,
    pub begins: bool,
}

/// What happened in the run phase of a tick.
#[derive(Clone, Copy, PartialEq, Eq, Structural, Debug)]
pub enum RunOutcome {
    /// No queue held a job.
    Idle,
    /// `job` ran from `queue`; the counters are those after the tick's
    /// decrement. `finished`: it had no time left; `io_started`: it issued
    /// an I/O.
    Ran {
        job: usize,
        queue: usize,
        ticks_left: i32,
        allot_left: i32,
        time_left: i32,
        run_time: i32,
        finished: bool,
        io_started: bool,
    },
}

/// Why a tick cannot be run (the places where the scheduler aborts).
#[derive(Clone, Copy, PartialEq, Eq, Structural, Debug)]
pub enum MlfqFault {
    /// The job at the head of `queue` has priority `pri`.
    PriorityMismatch { pri: i32, queue: usize },
    /// The job picked to run has no time left.
    NegativeTimeLeft,
    /// A counter would overflow.
    Overflow,
}

/// What a tick reports: its start time, whether a boost happened, the
/// arrivals and I/O completions delivered, and the run phase.
pub struct TickReport {
    pub time: i32,
    pub boosted: bool,
    pub delivered: Vec<IoEvent>,
    pub outcome: RunOutcome,
}

/// The scheduler as a mathematical value. Queue `q` has quantum
/// `quantum[q]` and allotment `allotment[q]`; the highest index is the
/// highest priority.
pub struct MlfqState {
    pub quantum: Seq<i32>,
    pub allotment: Seq<i32>,
    pub jobs: Seq<MlfqJob>,
    pub queues: Seq<Seq<usize>>,
    pub io_done: Seq<IoEvent>,
    pub curr_time: i32,
    pub finished: int,
    pub boost: i32,
    pub io_time: i32,
    pub stay: bool,
    pub iobump: bool,
}

pub struct Mlfq {
    pub quantum: Vec<i32>,
    pub allotment: Vec<i32>,
    pub jobs: Vec<MlfqJob>,
    pub queues: Vec<Vec<usize>>,
    pub io_done: Vec<IoEvent>,
    pub curr_time: i32,
    pub finished: usize,
    pub boost: i32,
    pub io_time: i32,
    pub stay: bool,
    pub iobump: bool,
}

pub open spec fn rows(qs: Seq<Vec<usize>>) -> Seq<Seq<usize>> {
    Seq::new(qs.len(), |i: int| qs[i]@)
}

impl View for Mlfq {
    type V = MlfqState;

    open spec fn view(&self) -> MlfqState {
        MlfqState {
            quantum: self.quantum@,
            allotment: self.allotment@,
            jobs: self.jobs@,
            queues: rows(self.queues@),
            io_done: self.io_done@,
            curr_time: self.curr_time,
            finished: self.finished as int,
            boost: self.boost,
            io_time: self.io_time,
            stay: self.stay,
            iobump: self.iobump,
        }
    }
}

pub open spec fn in_i32(x: int) -> bool {
    i32::MIN <= x <= i32::MAX
}

/// Rust's `a % b` (the sign follows `a`), for `b > 0`.
pub open spec fn rem_trunc(a: int, b: int) -> int {
    if a >= 0 {
        a % b
    } else {
        -((-a) % b)
    }
}

pub open spec fn hi(s: MlfqState) -> int {
    s.queues.len() - 1
}

/// The shape every state of the scheduler keeps: as many quanta and
/// allotments as queues, queued jobs and event jobs that exist, priorities
/// that name a queue, and a clock that does not run backwards past zero.
pub open spec fn mlfq_wf(s: MlfqState) -> bool {
    &&& s.queues.len() >= 1
    &&& s.quantum.len() == s.queues.len()
    &&& s.allotment.len() == s.queues.len()
    &&& s.queues.len() < i32::MAX
    &&& forall|q: int, k: int|
        0 <= q < s.queues.len() && 0 <= k < s.queues[q].len() ==> #[trigger] s.queues[q][k] < s.jobs.len()
    &&& forall|j: int| 0 <= j < s.jobs.len() ==> 0 <= (#[trigger] s.jobs[j]).curr_pri < s.queues.len()
    &&& forall|e: int| 0 <= e < s.io_done.len() ==> (#[trigger] s.io_done[e]).job < s.jobs.len()
    &&& s.curr_time >= 0
    &&& 0 <= s.finished
}

pub open spec fn boost_due(s: MlfqState) -> bool {
    s.boost > 0 && s.curr_time != 0 && s.curr_time % s.boost == 0
}

pub open spec fn not_in_io(s: MlfqState) -> spec_fn(usize) -> bool {
    |j: usize| !s.jobs[j as int].doing_io
}

/// The jobs that a boost copies to the top queue from queues `0..q`: those
/// not doing I/O, queue by queue, in queue order.
pub open spec fn boost_gather(s: MlfqState, q: int) -> Seq<usize>
    decreases q,
{
    if q <= 0 {
        Seq::<usize>::empty()
    } else {
        boost_gather(s, q - 1) + s.queues[q - 1].filter(not_in_io(s))
    }
}

pub open spec fn boosted_job(s: MlfqState, job: MlfqJob) -> MlfqJob {
    if job.time_left > 0 {
        MlfqJob { curr_pri: hi(s) as i32, ticks_left: s.quantum[hi(s)], ..job }
    } else {
        job
    }
}

/// The boost: every queued job not doing I/O is copied to the top queue
/// (the lower queues keep theirs), and every unfinished job gets top
/// priority and a fresh top quantum.
pub open spec fn boost_phase(s: MlfqState) -> MlfqState {
    if boost_due(s) {
        MlfqState {
            queues: s.queues.update(hi(s), s.queues[hi(s)] + boost_gather(s, hi(s))),
            jobs: Seq::new(s.jobs.len(), |j: int| boosted_job(s, s.jobs[j])),
            ..s
        }
    } else {
        s
    }
}

/// Delivering one arrival or I/O completion: the job stops doing I/O and
/// joins the queue of its priority, at the back, or at the front where I/O
/// bumping is on and it was an I/O completion.
pub open spec fn deliver(s: MlfqState, e: IoEvent) -> MlfqState {
    let q = s.jobs[e.job as int].curr_pri as int;
    let row = if !s.iobump || e.begins {
        s.queues[q].push(e.job)
    } else {
        s.queues[q].insert(0, e.job)
    };
    MlfqState {
        jobs: s.jobs.update(e.job as int, MlfqJob { doing_io: false, ..s.jobs[e.job as int] }),
        queues: s.queues.update(q, row),
        ..s
    }
}

pub open spec fn deliver_all(s: MlfqState, evs: Seq<IoEvent>) -> MlfqState
    decreases evs.len(),
{
    if evs.len() == 0 {
        s
    } else {
        deliver(deliver_all(s, evs.drop_last()), evs.last())
    }
}

pub open spec fn due_at(t: i32) -> spec_fn(IoEvent) -> bool {
    |e: IoEvent| e.time == t
}

pub open spec fn due_events(s: MlfqState) -> Seq<IoEvent> {
    s.io_done.filter(due_at(s.curr_time))
}

pub open spec fn io_phase(s: MlfqState) -> MlfqState {
    deliver_all(s, due_events(s))
}

/// The highest queue at or below `q` that holds a job.
pub open spec fn top_from(qs: Seq<Seq<usize>>, q: int) -> Option<int>
    decreases q + 1,
{
    if q < 0 {
        None
    } else if qs[q].len() > 0 {
        Some(q)
    } else {
        top_from(qs, q - 1)
    }
}

pub open spec fn top_queue(qs: Seq<Seq<usize>>) -> Option<int> {
    top_from(qs, qs.len() - 1)
}

/// The job after the tick's decrement.
pub open spec fn ran_job(s: MlfqState, j: int) -> MlfqJob {
    let job0 = s.jobs[j];
    MlfqJob {
        time_left: (job0.time_left - 1) as i32,
        ticks_left: (job0.ticks_left - 1) as i32,
        first_run: if job0.first_run == -1 {
            s.curr_time
        } else {
            job0.first_run
        },
        ..job0
    }
}

pub open spec fn issues_io(job1: MlfqJob) -> bool {
    job1.io_freq > 0 && rem_trunc(job1.run_time - job1.time_left, job1.io_freq as int) == 0
}

/// Why the run phase of state `s` cannot run, if it cannot.
pub open spec fn run_fault(s: MlfqState) -> Option<MlfqFault> {
    match top_queue(s.queues) {
        None => if s.curr_time + 1 > i32::MAX {
            Some(MlfqFault::Overflow)
        } else {
            None
        },
        Some(cq) => {
            let j = s.queues[cq][0] as int;
            let job0 = s.jobs[j];
            if job0.curr_pri != cq {
                Some(MlfqFault::PriorityMismatch { pri: job0.curr_pri, queue: cq as usize })
            } else if !in_i32(job0.time_left - 1) || !in_i32(job0.ticks_left - 1) {
                Some(MlfqFault::Overflow)
            } else if job0.time_left - 1 < 0 {
                Some(MlfqFault::NegativeTimeLeft)
            } else if s.curr_time + 1 > i32::MAX {
                Some(MlfqFault::Overflow)
            } else if job0.time_left - 1 == 0 {
                None
            } else {
                let job1 = ran_job(s, j);
                let issued = job1.io_freq > 0 && rem_trunc(job1.run_time - job1.time_left, job1.io_freq as int) == 0;
                let allot_now = if issued && s.stay {
                    s.allotment[cq]
                } else {
                    job1.allot_left
                };
                if !in_i32(job1.run_time - job1.time_left) {
                    Some(MlfqFault::Overflow)
                } else if issued && !in_i32(s.curr_time + 1 + s.io_time) {
                    Some(MlfqFault::Overflow)
                } else if job1.ticks_left == 0 && !in_i32(allot_now - 1) {
                    Some(MlfqFault::Overflow)
                } else {
                    None
                }
            }
        },
    }
}

/// The run phase: the job at the head of the highest non-empty queue runs
/// for one tick; it finishes, issues an I/O, or uses up its quantum (and is
/// then demoted once its allotment is used up), or keeps its place.
pub open spec fn run_phase(s: MlfqState) -> (MlfqState, RunOutcome) {
    match top_queue(s.queues) {
        None => (MlfqState { curr_time: (s.curr_time + 1) as i32, ..s }, RunOutcome::Idle),
        Some(cq) => {
            let j = s.queues[cq][0];
            let job1 = ran_job(s, j as int);
            let t = (s.curr_time + 1) as i32;
            if job1.time_left == 0 {
                (
                    MlfqState {
                        jobs: s.jobs.update(j as int, MlfqJob { end_time: t, ..job1 }),
                        queues: s.queues.update(cq, s.queues[cq].drop_first()),
                        curr_time: t,
                        finished: s.finished + 1,
                        ..s
                    },
                    RunOutcome::Ran {
                        job: j,
                        queue: cq as usize,
                        ticks_left: job1.ticks_left,
                        allot_left: job1.allot_left,
                        time_left: job1.time_left,
                        run_time: job1.run_time,
                        finished: true,
                        io_started: false,
                    },
                )
            } else {
                let issued = issues_io(job1);
                let job2 = if issued {
                    MlfqJob {
                        doing_io: true,
                        ticks_left: if s.stay {
                            s.quantum[cq]
                        } else {
                            job1.ticks_left
                        },
                        allot_left: if s.stay {
                            s.allotment[cq]
                        } else {
                            job1.allot_left
                        },
                        ..job1
                    }
                } else {
                    job1
                };
                let qs2 = if issued {
                    s.queues.update(cq, s.queues[cq].drop_first())
                } else {
                    s.queues
                };
                let io2 = if issued {
                    s.io_done.push(IoEvent { time: (t + s.io_time) as i32, job: j, begins: false })
                } else {
                    s.io_done
                };
                let (job3, qs4) = if job1.ticks_left == 0 {
                    let qs3 = if !issued {
                        qs2.update(cq, qs2[cq].drop_first())
                    } else {
                        qs2
                    };
                    let allot = (job2.allot_left - 1) as i32;
                    if allot == 0 {
                        if cq > 0 {
                            (
                                MlfqJob {
                                    curr_pri: (cq - 1) as i32,
                                    ticks_left: s.quantum[cq - 1],
                                    allot_left: (cq - 1) as i32,
                                    ..job2
                                },
                                if !issued {
                                    qs3.update(cq - 1, qs3[cq - 1].push(j))
                                } else {
                                    qs3
                                },
                            )
                        } else if !issued {
                            (
                                MlfqJob {
                                    ticks_left: s.quantum[cq],
                                    allot_left: s.allotment[cq],
                                    ..job2
                                },
                                qs3.update(cq, qs3[cq].push(j)),
                            )
                        } else {
                            (MlfqJob { allot_left: allot, ..job2 }, qs3)
                        }
                    } else {
                        (
                            MlfqJob { ticks_left: s.quantum[cq], allot_left: allot, ..job2 },
                            if !issued {
                                qs3.update(cq, qs3[cq].push(j))
                            } else {
                                qs3
                            },
                        )
                    }
                } else {
                    (job2, qs2)
                };
                (
                    MlfqState {
                        jobs: s.jobs.update(j as int, job3),
                        queues: qs4,
                        io_done: io2,
                        curr_time: t,
                        ..s
                    },
                    RunOutcome::Ran {
                        job: j,
                        queue: cq as usize,
                        ticks_left: job1.ticks_left,
                        allot_left: job1.allot_left,
                        time_left: job1.time_left,
                        run_time: job1.run_time,
                        finished: false,
                        io_started: issued,
                    },
                )
            }
        },
    }
}

/// Why a tick of `s` cannot run, if it cannot.
pub open spec fn tick_fault(s: MlfqState) -> Option<MlfqFault> {
    run_fault(io_phase(boost_phase(s)))
}

/// One tick: boost, then deliveries, then the run phase.
pub open spec fn tick_spec(s: MlfqState) -> (MlfqState, RunOutcome) {
    run_phase(io_phase(boost_phase(s)))
}

/// The highest queue at or below `hi_queue` that holds a job, or -1.
pub fn find_queue(queues: &Vec<Vec<usize>>, hi_queue: usize) -> (r: i32)
    requires
        hi_queue < queues@.len() < i32::MAX,
    ensures
        r == match top_from(rows(queues@), hi_queue as int) {
            Some(q) => q,
            None => -1,
        },
{
    let mut q = hi_queue;
    loop
        invariant
            q <= hi_queue < queues@.len() < i32::MAX,
            top_from(rows(queues@), hi_queue as int) == top_from(rows(queues@), q as int),
        decreases q,
    {
        assert(rows(queues@)[q as int] == queues@[q as int]@);
        if queues[q].len() > 0 {
            return q as i32;
        }
        if q == 0 {
            assert(top_from(rows(queues@), -1) is None);
            return -1;
        }
        q = q - 1;
    }
}

proof fn lemma_top_from_bounds(qs: Seq<Seq<usize>>, q: int)
    requires
        q < qs.len(),
    ensures
        top_from(qs, q) matches Some(c) ==> 0 <= c <= q && qs[c].len() > 0,
    decreases q + 1,
{
    if q >= 0 && qs[q].len() == 0 {
        lemma_top_from_bounds(qs, q - 1);
    }
}

/// Takes row `q` out of `qs`, leaving an empty row in its place.
fn take_row(qs: &mut Vec<Vec<usize>>, q: usize) -> (row: Vec<usize>)
    requires
        q < old(qs)@.len(),
    ensures
        row@ == old(qs)@[q as int]@,
        rows(final(qs)@) == rows(old(qs)@).update(q as int, Seq::<usize>::empty()),
        final(qs)@.len() == old(qs)@.len(),
{
    let mut row: Vec<usize> = Vec::new();
    qs.set_and_swap(q, &mut row);
    assert(rows(qs@) =~= rows(old(qs)@).update(q as int, Seq::<usize>::empty()));
    row
}

/// Puts `row` back as row `q` of `qs`.
fn put_row(qs: &mut Vec<Vec<usize>>, q: usize, row: Vec<usize>)
    requires
        q < old(qs)@.len(),
    ensures
        rows(final(qs)@) == rows(old(qs)@).update(q as int, row@),
        final(qs)@.len() == old(qs)@.len(),
{
    qs.set(q, row);
    assert(rows(qs@) =~= rows(old(qs)@).update(q as int, row@));
}

fn rem_is_zero(a: i64, b: i32) -> (r: bool)
    requires
        b > 0,
        a > i64::MIN,
    ensures
        r == (rem_trunc(a as int, b as int) == 0),
{
    if a >= 0 {
        (a as u64) % (b as u64) == 0
    } else {
        ((-a) as u64) % (b as u64) == 0
    }
}

impl Mlfq {
    /// A scheduler with the given per-queue quanta and allotments (index 0
    /// is the lowest priority), no jobs, and the clock at zero.
    pub fn new(
        quantum: Vec<i32>,
        allotment: Vec<i32>,
        boost: i32,
        io_time: i32,
        stay: bool,
        iobump: bool,
    ) -> (m: Mlfq)
        requires
            quantum@.len() >= 1,
            quantum@.len() == allotment@.len(),
            quantum@.len() < i32::MAX,
        ensures
            m@.quantum == quantum@,
            m@.allotment == allotment@,
            m@.jobs.len() == 0,
            m@.queues == Seq::new(quantum@.len(), |i: int| Seq::<usize>::empty()),
            m@.io_done.len() == 0,
            m@.curr_time == 0,
            m@.finished == 0,
            m@.boost == boost,
            m@.io_time == io_time,
            m@.stay == stay,
            m@.iobump == iobump,
            mlfq_wf(m@),
    {
        let mut queues: Vec<Vec<usize>> = Vec::new();
        let n = quantum.len();
        let mut i: usize = 0;
        while i < n
            invariant
                i <= n,
                rows(queues@) == Seq::new(i as nat, |k: int| Seq::<usize>::empty()),
            decreases n - i,
        {
            let ghost prev = rows(queues@);
            let v: Vec<usize> = Vec::new();
            assert(v@ =~= Seq::<usize>::empty());
            queues.push(v);
            assert(rows(queues@) =~= prev.push(Seq::<usize>::empty()));
            i = i + 1;
            assert(rows(queues@) =~= Seq::new(i as nat, |k: int| Seq::<usize>::empty()));
        }
        let m = Mlfq {
            quantum,
            allotment,
            jobs: Vec::new(),
            queues,
            io_done: Vec::new(),
            curr_time: 0,
            finished: 0,
            boost,
            io_time,
            stay,
            iobump,
        };
        assert(m@.queues =~= Seq::new(n as nat, |k: int| Seq::<usize>::empty()));
        m
    }

    /// Adds a job that enters at `start_time` at top priority, needs
    /// `run_time` ticks of CPU and issues an I/O every `io_freq` ticks.
    pub fn add_job(&mut self, start_time: i32, run_time: i32, io_freq: i32)
        requires
            mlfq_wf(old(self)@),
        ensures
            mlfq_wf(final(self)@),
            final(self)@ == (MlfqState {
                jobs: old(self)@.jobs.push(
                    MlfqJob {
                        curr_pri: hi(old(self)@) as i32,
                        ticks_left: old(self)@.quantum[hi(old(self)@)],
                        allot_left: old(self)@.allotment[hi(old(self)@)],
                        start_time,
                        run_time,
                        time_left: run_time,
                        io_freq,
                        doing_io: false,
                        first_run: -1i32,
                        end_time: -1i32,
                    },
                ),
                io_done: old(self)@.io_done.push(
                    IoEvent { time: start_time, job: old(self)@.jobs.len() as usize, begins: true },
                ),
                ..old(self)@
            }),
    {
        let h = self.queues.len() - 1;
        let job = MlfqJob {
            curr_pri: h as i32,
            ticks_left: self.quantum[h],
            allot_left: self.allotment[h],
            start_time,
            run_time,
            time_left: run_time,
            io_freq,
            doing_io: false,
            first_run: -1,
            end_time: -1,
        };
        let idx = self.jobs.len();
        self.jobs.push(job);
        self.io_done.push(IoEvent { time: start_time, job: idx, begins: true });
        let ghost s = self@;
        assert forall|q: int, k: int|
            0 <= q < s.queues.len() && 0 <= k < s.queues[q].len() implies #[trigger] s.queues[q][k] < s.jobs.len() by {
            assert(s.queues[q] == old(self)@.queues[q]);
        }
        assert forall|j: int| 0 <= j < s.jobs.len() implies 0 <= (#[trigger] s.jobs[j]).curr_pri < s.queues.len() by {
            if j < old(self)@.jobs.len() {
                assert(s.jobs[j] == old(self)@.jobs[j]);
            }
        }
        assert forall|e: int| 0 <= e < s.io_done.len() implies (#[trigger] s.io_done[e]).job < s.jobs.len() by {
            if e < old(self)@.io_done.len() {
                assert(s.io_done[e] == old(self)@.io_done[e]);
            }
        }
    }

    /// Whether every job has finished.
    pub fn all_finished(&self) -> (r: bool)
        ensures
            r == (self@.finished >= self@.jobs.len()),
    {
        self.finished >= self.jobs.len()
    }

    fn do_boost(&mut self)
        requires
            mlfq_wf(old(self)@),
            boost_due(old(self)@),
        ensures
            final(self)@ == boost_phase(old(self)@),
            mlfq_wf(final(self)@),
    {
        let ghost s0 = self@;
        let h = self.queues.len() - 1;
        let mut gathered: Vec<usize> = Vec::new();
        let mut q: usize = 0;
        while q < h
            invariant
                self@ == s0,
                mlfq_wf(s0),
                h == hi(s0),
                q <= h,
                gathered@ == boost_gather(s0, q as int),
                forall|k: int| 0 <= k < gathered@.len() ==> #[trigger] gathered@[k] < s0.jobs.len(),
            decreases h - q,
        {
            let mut k: usize = 0;
            let n = self.queues[q].len();
            let ghost base = gathered@;
            assert(self.queues@[q as int]@ == s0.queues[q as int]);
            while k < n
                invariant
                    self@ == s0,
                    mlfq_wf(s0),
                    q < h == hi(s0),
                    n == s0.queues[q as int].len(),
                    k <= n,
                    base == boost_gather(s0, q as int),
                    gathered@ == base + s0.queues[q as int].subrange(0, k as int).filter(not_in_io(s0)),
                    forall|i: int| 0 <= i < gathered@.len() ==> #[trigger] gathered@[i] < s0.jobs.len(),
                decreases n - k,
            {
                assert(self.queues@[q as int]@ == s0.queues[q as int]);
                let j = self.queues[q][k];
                assert(j == s0.queues[q as int][k as int]);
                assert(j < s0.jobs.len());
                let ghost pre = s0.queues[q as int].subrange(0, k as int);
                assert(s0.queues[q as int].subrange(0, k + 1) =~= pre.push(j));
                proof {
                    pre.lemma_filter_push(j, not_in_io(s0));
                }
                if !self.jobs[j].doing_io {
                    gathered.push(j);
                    assert(gathered@ =~= base + s0.queues[q as int].subrange(0, k + 1).filter(not_in_io(s0)));
                } else {
                    assert(gathered@ =~= base + s0.queues[q as int].subrange(0, k + 1).filter(not_in_io(s0)));
                }
                k = k + 1;
            }
            assert(s0.queues[q as int].subrange(0, n as int) =~= s0.queues[q as int]);
            q = q + 1;
        }
        let mut top = take_row(&mut self.queues, h);
        let mut k: usize = 0;
        let ghost top0 = top@;
        while k < gathered.len()
            invariant
                k <= gathered@.len(),
                top@ == top0 + gathered@.subrange(0, k as int),
            decreases gathered@.len() - k,
        {
            top.push(gathered[k]);
            k = k + 1;
            assert(top@ =~= top0 + gathered@.subrange(0, k as int));
        }
        assert(gathered@.subrange(0, k as int) =~= gathered@);
        put_row(&mut self.queues, h, top);
        let qh = self.quantum[h];
        let mut i: usize = 0;
        let nj = self.jobs.len();
        while i < nj
            invariant
                nj == s0.jobs.len(),
                self.jobs@.len() == nj,
                i <= nj,
                h == hi(s0),
                qh == s0.quantum[h as int],
                forall|j: int| 0 <= j < i ==> #[trigger] self.jobs@[j] == boosted_job(s0, s0.jobs[j]),
                forall|j: int| i <= j < nj ==> #[trigger] self.jobs@[j] == s0.jobs[j],
                self.quantum@ == s0.quantum,
                self.allotment@ == s0.allotment,
                rows(self.queues@) == s0.queues.update(h as int, s0.queues[h as int] + boost_gather(s0, h as int)),
                self.io_done@ == s0.io_done,
                self.curr_time == s0.curr_time,
                self.finished == s0.finished,
                self.boost == s0.boost,
                self.io_time == s0.io_time,
                self.stay == s0.stay,
                self.iobump == s0.iobump,
            decreases nj - i,
        {
            let job = self.jobs[i];
            if job.time_left > 0 {
                self.jobs.set(i, MlfqJob { curr_pri: h as i32, ticks_left: qh, ..job });
            }
            i = i + 1;
        }
        assert(self.jobs@ =~= Seq::new(s0.jobs.len(), |j: int| boosted_job(s0, s0.jobs[j])));
        assert(self@ =~= boost_phase(s0));
        proof {
            lemma_boost_wf(s0);
        }
    }

    fn deliver_one(&mut self, e: IoEvent)
        requires
            mlfq_wf(old(self)@),
            e.job < old(self)@.jobs.len(),
        ensures
            final(self)@ == deliver(old(self)@, e),
            mlfq_wf(final(self)@),
    {
        let ghost s0 = self@;
        let mut job = self.jobs[e.job];
        assert(0 <= job.curr_pri < s0.queues.len());
        let q = job.curr_pri as usize;
        let mut row = take_row(&mut self.queues, q);
        if !self.iobump || e.begins {
            row.push(e.job);
        } else {
            row.insert(0, e.job);
        }
        put_row(&mut self.queues, q, row);
        job.doing_io = false;
        self.jobs.set(e.job, job);
        assert(rows(self.queues@) =~= deliver(s0, e).queues);
        assert(self@ =~= deliver(s0, e));
        proof {
            lemma_deliver_wf(s0, e);
        }
    }

    fn do_io(&mut self) -> (delivered: Vec<IoEvent>)
        requires
            mlfq_wf(old(self)@),
        ensures
            final(self)@ == io_phase(old(self)@),
            delivered@ == due_events(old(self)@),
            mlfq_wf(final(self)@),
            final(self)@.jobs.len() == old(self)@.jobs.len(),
            final(self)@.finished == old(self)@.finished,
    {
        let ghost s0 = self@;
        let t = self.curr_time;
        let n = self.io_done.len();
        let mut delivered: Vec<IoEvent> = Vec::new();
        let mut i: usize = 0;
        while i < n
            invariant
                n == s0.io_done.len(),
                i <= n,
                t == s0.curr_time,
                mlfq_wf(s0),
                mlfq_wf(self@),
                self@ == deliver_all(s0, s0.io_done.subrange(0, i as int).filter(due_at(t))),
                delivered@ == s0.io_done.subrange(0, i as int).filter(due_at(t)),
                self@.io_done == s0.io_done,
                self@.jobs.len() == s0.jobs.len(),
                self@.finished == s0.finished,
                self@.curr_time == s0.curr_time,
            decreases n - i,
        {
            let e = self.io_done[i];
            let ghost pre = s0.io_done.subrange(0, i as int);
            assert(s0.io_done.subrange(0, i + 1) =~= pre.push(e));
            proof {
                pre.lemma_filter_push(e, due_at(t));
            }
            if e.time == t {
                assert(e.job < s0.jobs.len());
                self.deliver_one(e);
                delivered.push(e);
                let ghost f = pre.filter(due_at(t)).push(e);
                assert(f.drop_last() =~= pre.filter(due_at(t)));
            }
            i = i + 1;
        }
        assert(s0.io_done.subrange(0, n as int) =~= s0.io_done);
        delivered
    }

    fn do_run(&mut self) -> (r: Result<RunOutcome, MlfqFault>)
        requires
            mlfq_wf(old(self)@),
            old(self)@.finished < old(self)@.jobs.len(),
        ensures
            match r {
                Ok(o) => run_fault(old(self)@) is None && (final(self)@, o) == run_phase(old(self)@)
                    && mlfq_wf(final(self)@),
                Err(f) => run_fault(old(self)@) == Some(f),
            },
    {
        let ghost s0 = self@;
        let nj = self.jobs.len();
        let h = self.queues.len() - 1;
        let cqi = find_queue(&self.queues, h);
        assert(rows(self.queues@) == s0.queues);
        proof {
            lemma_top_from_bounds(s0.queues, h as int);
        }
        if cqi < 0 {
            if self.curr_time == i32::MAX {
                return Err(MlfqFault::Overflow);
            }
            self.curr_time = self.curr_time + 1;
            return Ok(RunOutcome::Idle);
        }
        let cq = cqi as usize;
        assert(self.queues@[cq as int]@ == s0.queues[cq as int]);
        let j = self.queues[cq][0];
        assert(j < s0.jobs.len());
        let job0 = self.jobs[j];
        if job0.curr_pri as i64 != cq as i64 {
            return Err(MlfqFault::PriorityMismatch { pri: job0.curr_pri, queue: cq });
        }
        if job0.time_left == i32::MIN || job0.ticks_left == i32::MIN {
            return Err(MlfqFault::Overflow);
        }
        let time_left = job0.time_left - 1;
        if time_left < 0 {
            return Err(MlfqFault::NegativeTimeLeft);
        }
        if self.curr_time == i32::MAX {
            return Err(MlfqFault::Overflow);
        }
        let job1 = MlfqJob {
            time_left,
            ticks_left: job0.ticks_left - 1,
            first_run: if job0.first_run == -1 {
                self.curr_time
            } else {
                job0.first_run
            },
            ..job0
        };
        assert(job1 == ran_job(s0, j as int));
        let t = self.curr_time + 1;
        if time_left == 0 {
            self.jobs.set(j, MlfqJob { end_time: t, ..job1 });
            let mut row = take_row(&mut self.queues, cq);
            row.remove(0);
            put_row(&mut self.queues, cq, row);
            self.curr_time = t;
            self.finished = self.finished + 1;
            let ghost s1 = self@;
            assert(rows(self.queues@) =~= s0.queues.update(cq as int, s0.queues[cq as int].drop_first()));
            proof {
                lemma_run_wf(s0);
            }
            return Ok(
                RunOutcome::Ran {
                    job: j,
                    queue: cq,
                    ticks_left: job1.ticks_left,
                    allot_left: job1.allot_left,
                    time_left: job1.time_left,
                    run_time: job1.run_time,
                    finished: true,
                    io_started: false,
                },
            );
        }
        let diff = job1.run_time as i64 - job1.time_left as i64;
        if diff < -2147483648 || diff > 2147483647 {
            return Err(MlfqFault::Overflow);
        }
        let issued = job1.io_freq > 0 && rem_is_zero(diff, job1.io_freq);
        let future = t as i64 + self.io_time as i64;
        if issued && (future < -2147483648 || future > 2147483647) {
            return Err(MlfqFault::Overflow);
        }
        let allot_now = if issued && self.stay {
            self.allotment[cq]
        } else {
            job1.allot_left
        };
        if job1.ticks_left == 0 && allot_now == i32::MIN {
            return Err(MlfqFault::Overflow);
        }
        assert(run_fault(s0) is None);
        // I/O
        let mut job = job1;
        if issued {
            let mut row = take_row(&mut self.queues, cq);
            row.remove(0);
            assert(row@ =~= s0.queues[cq as int].drop_first());
            put_row(&mut self.queues, cq, row);
            job.doing_io = true;
            if self.stay {
                job.ticks_left = self.quantum[cq];
                job.allot_left = self.allotment[cq];
            }
            self.io_done.push(IoEvent { time: future as i32, job: j, begins: false });
        }
        let ghost qs2 = rows(self.queues@);
        assert(qs2 =~= if issued {
            s0.queues.update(cq as int, s0.queues[cq as int].drop_first())
        } else {
            s0.queues
        });
        // quantum used up
        if job1.ticks_left == 0 {
            if !issued {
                let mut row = take_row(&mut self.queues, cq);
                row.remove(0);
                assert(row@ =~= qs2[cq as int].drop_first());
                put_row(&mut self.queues, cq, row);
            }
            let ghost qs3 = rows(self.queues@);
            assert(qs3 =~= if !issued {
                qs2.update(cq as int, qs2[cq as int].drop_first())
            } else {
                qs2
            });
            let allot = job.allot_left - 1;
            job.allot_left = allot;
            if allot == 0 {
                if cq > 0 {
                    job.curr_pri = (cq - 1) as i32;
                    job.ticks_left = self.quantum[cq - 1];
                    job.allot_left = (cq - 1) as i32;
                    if !issued {
                        let mut row = take_row(&mut self.queues, cq - 1);
                        row.push(j);
                        put_row(&mut self.queues, cq - 1, row);
                        assert(rows(self.queues@) =~= qs3.update(cq - 1, qs3[cq - 1].push(j)));
                    }
                } else if !issued {
                    job.ticks_left = self.quantum[cq];
                    job.allot_left = self.allotment[cq];
                    let mut row = take_row(&mut self.queues, cq);
                    row.push(j);
                    put_row(&mut self.queues, cq, row);
                    assert(rows(self.queues@) =~= qs3.update(cq as int, qs3[cq as int].push(j)));
                }
            } else {
                job.ticks_left = self.quantum[cq];
                if !issued {
                    let mut row = take_row(&mut self.queues, cq);
                    row.push(j);
                    put_row(&mut self.queues, cq, row);
                    assert(rows(self.queues@) =~= qs3.update(cq as int, qs3[cq as int].push(j)));
                }
            }
        }
        self.jobs.set(j, job);
        self.curr_time = t;
        proof {
            lemma_run_wf(s0);
        }
        assert(self@ =~= run_phase(s0).0);
        Ok(
            RunOutcome::Ran {
                job: j,
                queue: cq,
                ticks_left: job1.ticks_left,
                allot_left: job1.allot_left,
                time_left: job1.time_left,
                run_time: job1.run_time,
                finished: false,
                io_started: issued,
            },
        )
    }

    /// Runs one clock tick: a priority boost where one is due, the arrivals
    /// and I/O completions due now, then one tick of the job at the head of
    /// the highest non-empty queue (or an idle tick). `Err` names the reason
    /// where the tick cannot run.
    pub fn tick(&mut self) -> (r: Result<TickReport, MlfqFault>)
        requires
            mlfq_wf(old(self)@),
            old(self)@.finished < old(self)@.jobs.len(),
        ensures
            match r {
                Ok(rep) => {
                    &&& tick_fault(old(self)@) is None
                    &&& (final(self)@, rep.outcome) == tick_spec(old(self)@)
                    &&& rep.time == old(self)@.curr_time
                    &&& rep.boosted == boost_due(old(self)@)
                    &&& rep.delivered@ == due_events(boost_phase(old(self)@))
                    &&& mlfq_wf(final(self)@)
                },
                Err(f) => tick_fault(old(self)@) == Some(f),
            },
    {
        let time = self.curr_time;
        let boosted = self.boost > 0 && self.curr_time != 0 && self.curr_time % self.boost == 0;
        if boosted {
            self.do_boost();
        }
        let delivered = self.do_io();
        match self.do_run() {
            Ok(outcome) => Ok(TickReport { time, boosted, delivered, outcome }),
            Err(f) => Err(f),
        }
    }
}

proof fn lemma_boost_gather_valid(s: MlfqState, q: int)
    requires
        mlfq_wf(s),
        0 <= q <= s.queues.len(),
    ensures
        forall|k: int| 0 <= k < boost_gather(s, q).len() ==> #[trigger] boost_gather(s, q)[k] < s.jobs.len(),
    decreases q,
{
    if q > 0 {
        lemma_boost_gather_valid(s, q - 1);
        let f = s.queues[q - 1].filter(not_in_io(s));
        assert forall|k: int| 0 <= k < f.len() implies #[trigger] f[k] < s.jobs.len() by {
            s.queues[q - 1].lemma_filter_contains_rev(not_in_io(s), f[k]);
            assert(s.queues[q - 1].filter(not_in_io(s)).contains(f[k]));
            let i = choose|i: int| 0 <= i < s.queues[q - 1].len() && #[trigger] s.queues[q - 1][i] == f[k];
            assert(s.queues[q - 1][i] < s.jobs.len());
        }
        let g = boost_gather(s, q - 1);
        assert forall|k: int| 0 <= k < boost_gather(s, q).len() implies #[trigger] boost_gather(s, q)[k] < s.jobs.len() by {
            if k < g.len() {
                assert(boost_gather(s, q)[k] == g[k]);
            } else {
                assert(boost_gather(s, q)[k] == f[k - g.len()]);
            }
        }
    }
}

proof fn lemma_boost_wf(s: MlfqState)
    requires
        mlfq_wf(s),
    ensures
        mlfq_wf(boost_phase(s)),
{
    if boost_due(s) {
        let b = boost_phase(s);
        let h = hi(s);
        lemma_boost_gather_valid(s, h);
        let g = boost_gather(s, h);
        assert forall|q: int, k: int|
            0 <= q < b.queues.len() && 0 <= k < b.queues[q].len() implies #[trigger] b.queues[q][k] < b.jobs.len() by {
            if q == h {
                if k < s.queues[h].len() {
                    assert(b.queues[q][k] == s.queues[h][k]);
                } else {
                    assert(b.queues[q][k] == g[k - s.queues[h].len()]);
                }
            } else {
                assert(b.queues[q] == s.queues[q]);
            }
        }
        assert forall|j: int| 0 <= j < b.jobs.len() implies 0 <= (#[trigger] b.jobs[j]).curr_pri < b.queues.len() by {
            assert(b.jobs[j] == boosted_job(s, s.jobs[j]));
        }
    }
}

proof fn lemma_deliver_wf(s: MlfqState, e: IoEvent)
    requires
        mlfq_wf(s),
        e.job < s.jobs.len(),
    ensures
        mlfq_wf(deliver(s, e)),
{
    let d = deliver(s, e);
    let q = s.jobs[e.job as int].curr_pri as int;
    assert forall|p: int, k: int|
        0 <= p < d.queues.len() && 0 <= k < d.queues[p].len() implies #[trigger] d.queues[p][k] < d.jobs.len() by {
        if p == q {
            if !s.iobump || e.begins {
                if k < s.queues[q].len() {
                    assert(d.queues[p][k] == s.queues[q][k]);
                }
            } else {
                if k > 0 {
                    assert(d.queues[p][k] == s.queues[q][k - 1]);
                }
            }
        } else {
            assert(d.queues[p] == s.queues[p]);
        }
    }
    assert forall|j: int| 0 <= j < d.jobs.len() implies 0 <= (#[trigger] d.jobs[j]).curr_pri < d.queues.len() by {
        if j == e.job {
        } else {
            assert(d.jobs[j] == s.jobs[j]);
        }
    }
}

proof fn lemma_row_ops_valid(r: Seq<usize>, n: int)
    requires
        forall|k: int| 0 <= k < r.len() ==> #[trigger] r[k] < n,
    ensures
        r.len() > 0 ==> forall|k: int| 0 <= k < r.drop_first().len() ==> #[trigger] r.drop_first()[k] < n,
{
    if r.len() > 0 {
        assert forall|k: int| 0 <= k < r.drop_first().len() implies #[trigger] r.drop_first()[k] < n by {
            assert(r.drop_first()[k] == r[k + 1]);
        }
    }
}

proof fn lemma_run_wf(s: MlfqState)
    requires
        mlfq_wf(s),
        run_fault(s) is None,
    ensures
        mlfq_wf(run_phase(s).0),
{
    let hq = s.queues.len() - 1;
    lemma_top_from_bounds(s.queues, hq);
    match top_queue(s.queues) {
        None => {},
        Some(cq) => {
            let r = run_phase(s).0;
            let j = s.queues[cq][0];
            assert(j < s.jobs.len());
            assert forall|k: int| 0 <= k < s.queues[cq].len() implies #[trigger] s.queues[cq][k] < s.jobs.len() by {}
            lemma_row_ops_valid(s.queues[cq], s.jobs.len() as int);
            assert forall|q: int, k: int|
                0 <= q < r.queues.len() && 0 <= k < r.queues[q].len() implies #[trigger] r.queues[q][k] < r.jobs.len() by {
                if r.queues[q] == s.queues[q] {
                } else if r.queues[q] == s.queues[q].drop_first() {
                    assert(s.queues[q].drop_first()[k] < s.jobs.len());
                } else if k < r.queues[q].len() - 1 {
                    if r.queues[q] == s.queues[q].push(j) {
                        assert(r.queues[q][k] == s.queues[q][k]);
                    } else {
                        assert(r.queues[q] == s.queues[q].drop_first().push(j));
                        assert(r.queues[q][k] == s.queues[q].drop_first()[k]);
                    }
                } else {
                    assert(r.queues[q][k] == j);
                }
            }
            assert forall|i: int| 0 <= i < r.jobs.len() implies 0 <= (#[trigger] r.jobs[i]).curr_pri < r.queues.len() by {
                if i != j {
                    assert(r.jobs[i] == s.jobs[i]);
                }
            }
            assert forall|e: int| 0 <= e < r.io_done.len() implies (#[trigger] r.io_done[e]).job < r.jobs.len() by {
                if e < s.io_done.len() {
                    assert(r.io_done[e] == s.io_done[e]);
                }
            }
        },
    }
}

proof fn lemma_deliver_all_keeps(s: MlfqState, evs: Seq<IoEvent>)
    ensures
        deliver_all(s, evs).curr_time == s.curr_time,
        deliver_all(s, evs).finished == s.finished,
        deliver_all(s, evs).io_done == s.io_done,
    decreases evs.len(),
{
    if evs.len() > 0 {
        lemma_deliver_all_keeps(s, evs.drop_last());
    }
}

/// A job that uses up its quantum in a tick (without finishing and
/// without issuing an I/O) leaves the front of its queue `cq`: where its
/// allotment is used up too and `cq` is not the bottom queue, it is demoted,
/// with priority `cq - 1`, at the back of queue `cq - 1` with that queue's
/// quantum; where its allotment is not used up, it keeps priority `cq` and
/// goes to the back of queue `cq` with a fresh quantum and one allotment
/// less. Either way the tick ran it from queue `cq` and the clock moves on
/// by one.
pub proof fn law_quantum_end(s: MlfqState)
    requires
        mlfq_wf(s),
        run_fault(s) is None,
        top_queue(s.queues) is Some,
        ({
            let cq = top_queue(s.queues)->0;
            let j = s.queues[cq][0] as int;
            &&& s.jobs[j].time_left > 1
            &&& s.jobs[j].ticks_left == 1
            &&& !issues_io(ran_job(s, j))
        }),
    ensures
        ({
            let cq = top_queue(s.queues)->0;
            let j = s.queues[cq][0];
            let a = s.jobs[j as int].allot_left;
            let (t, out) = run_phase(s);
            &&& out matches RunOutcome::Ran { job, queue, finished, io_started, .. } && job == j && queue == cq && !finished && !io_started
            &&& t.curr_time == s.curr_time + 1
            &&& (a == 1 && cq > 0) ==> {
                &&& t.jobs[j as int].curr_pri == cq - 1
                &&& t.jobs[j as int].ticks_left == s.quantum[cq - 1]
                &&& t.queues[cq] == s.queues[cq].drop_first()
                &&& t.queues[cq - 1] == s.queues[cq - 1].push(j)
            }
            &&& a != 1 ==> {
                &&& t.jobs[j as int].curr_pri == cq
                &&& t.jobs[j as int].ticks_left == s.quantum[cq]
                &&& t.jobs[j as int].allot_left == a - 1
                &&& t.queues[cq] == s.queues[cq].drop_first().push(j)
            }
        }),
{
    let cq = top_queue(s.queues)->0;
    lemma_top_from_bounds(s.queues, s.queues.len() - 1);
    let j = s.queues[cq][0] as int;
    assert(s.jobs[j].curr_pri == cq);
}

/// The other outcomes of running the job `j` at the head of the highest
/// non-empty queue `cq` for a tick: it runs (its time left and its quantum
/// go down by one, and it first ran now if it had not run before); a job
/// with one tick left finishes now, leaves its queue and counts as
/// finished; a job that issues an I/O leaves its queue, is marked doing
/// I/O and gets a completion `io_time` ticks after the tick; a job with
/// quantum left that issues no I/O keeps its place at the head of its
/// queue. Only queue `cq` changes but where a used-up quantum moves the
/// job (see `law_quantum_end`).
pub proof fn law_run_cases(s: MlfqState)
    requires
        mlfq_wf(s),
        run_fault(s) is None,
        top_queue(s.queues) is Some,
    ensures
        ({
            let cq = top_queue(s.queues)->0;
            let j = s.queues[cq][0];
            let job0 = s.jobs[j as int];
            let (t, out) = run_phase(s);
            &&& t.curr_time == s.curr_time + 1
            &&& t.jobs.len() == s.jobs.len()
            &&& t.jobs[j as int].time_left == job0.time_left - 1
            &&& t.jobs[j as int].first_run == (if job0.first_run == -1 { s.curr_time as int } else { job0.first_run as int })
            &&& forall|k: int| 0 <= k < s.jobs.len() && k != j ==> t.jobs[k] == s.jobs[k]
            &&& job0.time_left == 1 ==> {
                &&& out matches RunOutcome::Ran { job, finished, .. } && job == j && finished
                &&& t.jobs[j as int].end_time == s.curr_time + 1
                &&& t.finished == s.finished + 1
                &&& t.queues == s.queues.update(cq, s.queues[cq].drop_first())
                &&& t.io_done == s.io_done
            }
            &&& job0.time_left > 1 ==> t.finished == s.finished
            &&& job0.time_left > 1 && issues_io(ran_job(s, j as int)) ==> {
                &&& out matches RunOutcome::Ran { job, io_started, finished, .. } && job == j && io_started && !finished
                &&& t.jobs[j as int].doing_io
                &&& t.io_done == s.io_done.push(IoEvent { time: (s.curr_time + 1 + s.io_time) as i32, job: j, begins: false })
                &&& t.queues == s.queues.update(cq, s.queues[cq].drop_first())
            }
            &&& job0.time_left > 1 && !issues_io(ran_job(s, j as int)) ==> {
                &&& t.io_done == s.io_done
                &&& !t.jobs[j as int].doing_io == !job0.doing_io
            }
            &&& job0.time_left > 1 && !issues_io(ran_job(s, j as int)) && job0.ticks_left > 1 ==> {
                &&& t.queues == s.queues
                &&& t.jobs[j as int].ticks_left == job0.ticks_left - 1
                &&& t.jobs[j as int].curr_pri == cq
            }
        }),
{
    let cq = top_queue(s.queues)->0;
    lemma_top_from_bounds(s.queues, s.queues.len() - 1);
    let j = s.queues[cq][0] as int;
    assert(s.jobs[j].curr_pri == cq);
    let (t, out) = run_phase(s);
    if s.jobs[j].time_left > 1 && issues_io(ran_job(s, j)) {
        assert(t.queues =~= s.queues.update(cq, s.queues[cq].drop_first()));
    }
    if s.jobs[j].time_left > 1 && !issues_io(ran_job(s, j)) && s.jobs[j].ticks_left > 1 {
        assert(t.queues =~= s.queues);
    }
}

/// A boost, when one is due, gives every job with time left the top
/// priority and the top queue's quantum, keeps the top queue's jobs at its
/// front, and leaves the other queues and finished jobs as they were; when
/// none is due nothing changes.
pub proof fn law_boost(s: MlfqState)
    requires
        mlfq_wf(s),
    ensures
        ({
            let t = boost_phase(s);
            let h = s.queues.len() - 1;
            &&& !boost_due(s) ==> t == s
            &&& boost_due(s) ==> {
                &&& t.jobs.len() == s.jobs.len()
                &&& forall|j: int| 0 <= j < s.jobs.len() && s.jobs[j].time_left > 0 ==>
                    (#[trigger] t.jobs[j]).curr_pri == h && t.jobs[j].ticks_left == s.quantum[h]
                        && t.jobs[j].allot_left == s.jobs[j].allot_left && t.jobs[j].time_left == s.jobs[j].time_left
                &&& forall|j: int| 0 <= j < s.jobs.len() && s.jobs[j].time_left <= 0 ==> #[trigger] t.jobs[j] == s.jobs[j]
                &&& forall|q: int| 0 <= q < h ==> #[trigger] t.queues[q] == s.queues[q]
                &&& t.queues[h].subrange(0, s.queues[h].len() as int) == s.queues[h]
                &&& t.queues.len() == s.queues.len()
                &&& t.curr_time == s.curr_time && t.io_done == s.io_done
            }
        }),
{
    let h = s.queues.len() - 1;
    if boost_due(s) {
        let t = boost_phase(s);
        assert(t.queues[h].subrange(0, s.queues[h].len() as int) =~= s.queues[h]);
    }
}

/// Delivering an arrival or an I/O completion of job `j` puts `j` into the
/// queue of its priority: at the back, or at the front where I/O bumping is
/// on and it is an I/O completion; the job stops doing I/O, and the other
/// queues and jobs stay as they were.
pub proof fn law_deliver(s: MlfqState, e: IoEvent)
    requires
        mlfq_wf(s),
        e.job < s.jobs.len(),
    ensures
        ({
            let t = deliver(s, e);
            let j = e.job as int;
            let q = s.jobs[j].curr_pri as int;
            &&& t.queues[q] == (if s.iobump && !e.begins { seq![e.job] + s.queues[q] } else { s.queues[q].push(e.job) })
            &&& forall|r: int| 0 <= r < s.queues.len() && r != q ==> #[trigger] t.queues[r] == s.queues[r]
            &&& !t.jobs[j].doing_io
            &&& t.jobs[j].curr_pri == s.jobs[j].curr_pri
            &&& forall|k: int| 0 <= k < s.jobs.len() && k != j ==> #[trigger] t.jobs[k] == s.jobs[k]
        }),
{
    let j = e.job as int;
    let q = s.jobs[j].curr_pri as int;
    assert(s.queues[q].insert(0, e.job) =~= seq![e.job] + s.queues[q]);
}

/// Each tick moves the clock on by exactly one; the count of finished jobs
/// grows by one exactly when the tick finishes a job; the list of pending
/// arrivals and I/O completions only grows, by the I/O that the tick starts.
pub proof fn law_tick_progress(s: MlfqState)
    requires
        mlfq_wf(s),
        tick_fault(s) is None,
    ensures
        tick_spec(s).0.curr_time == s.curr_time + 1,
        tick_spec(s).0.finished == s.finished + (if tick_spec(s).1 matches RunOutcome::Ran {
            finished: true,
            ..
        } {
            1int
        } else {
            0int
        }),
        tick_spec(s).0.io_done == s.io_done + (if tick_spec(s).1 matches RunOutcome::Ran {
            io_started: true,
            ..
        } {
            seq![tick_spec(s).0.io_done.last()]
        } else {
            Seq::<IoEvent>::empty()
        }),
{
    let b = boost_phase(s);
    lemma_deliver_all_keeps(b, due_events(b));
    let d = io_phase(b);
    match tick_spec(s).1 {
        RunOutcome::Ran { io_started: true, .. } => {
            assert(tick_spec(s).0.io_done =~= s.io_done + seq![tick_spec(s).0.io_done.last()]);
        },
        _ => {
            assert(tick_spec(s).0.io_done =~= s.io_done + Seq::<IoEvent>::empty());
        },
    }
}

/// Why the queue levels cannot be set up from the options.
#[derive(Clone, Copy, PartialEq, Eq, Structural, Debug)]
pub enum LevelError {
    /// A number in a list is no integer.
    BadNumber,
    /// The number of allotments differs from the number of quanta.
    AllotmentCountMismatch,
    /// An allotment above the lowest queue is not positive.
    AllotmentNotPositive,
    /// There would be no queue.
    NoQueues,
}

/// The allotments read from the list pieces `ap`, for `nq` queues, checked
/// from piece `i` on: the first error, if any.
pub open spec fn allot_check(ap: Seq<Seq<char>>, nq: int, i: int) -> Option<LevelError>
    decreases nq - i,
{
    if i >= nq {
        None
    } else {
        match spec_parse_i32(ap[i]) {
            None => Some(LevelError::BadNumber),
            Some(v) => if nq - 1 - i != 0 && v <= 0 {
                Some(LevelError::AllotmentNotPositive)
            } else {
                allot_check(ap, nq, i + 1)
            },
        }
    }
}

pub open spec fn all_parse(ps: Seq<Seq<char>>) -> bool {
    forall|i: int| 0 <= i < ps.len() ==> (#[trigger] spec_parse_i32(ps[i])) is Some
}

/// The per-queue list read from `ps`: the first piece is the top queue.
pub open spec fn reversed_values(ps: Seq<Seq<char>>) -> Seq<i32> {
    Seq::new(ps.len(), |q: int| spec_parse_i32(ps[ps.len() - 1 - q])->0)
}

/// The quanta and allotments, indexed by queue (0 is the lowest), that the
/// options give. A quantum list sets the number of queues; the allotment
/// list is read from the pieces of the quantum list.
pub open spec fn spec_levels(
    num_queues: i32,
    quantum: i32,
    ql: Seq<char>,
    allotment: i32,
    al: Seq<char>,
) -> Result<(Seq<i32>, Seq<i32>), LevelError> {
    let qp = split_spec(ql, ',');
    let nq: int = if ql.len() > 0 {
        qp.len() as int
    } else {
        num_queues as int
    };
    if ql.len() > 0 && !all_parse(qp) {
        Err(LevelError::BadNumber)
    } else {
        let quanta = if ql.len() > 0 {
            reversed_values(qp)
        } else {
            Seq::new(nq as nat, |q: int| quantum)
        };
        if al.len() > 0 {
            if nq != qp.len() {
                Err(LevelError::AllotmentCountMismatch)
            } else {
                match allot_check(qp, nq, 0) {
                    Some(e) => Err(e),
                    None => if nq < 1 {
                        Err(LevelError::NoQueues)
                    } else {
                        Ok((quanta, reversed_values(qp)))
                    },
                }
            }
        } else if nq < 1 {
            Err(LevelError::NoQueues)
        } else {
            Ok((quanta, Seq::new(nq as nat, |q: int| allotment)))
        }
    }
}

fn reversed_parse(pieces: &Vec<Vec<char>>) -> (r: Option<Vec<i32>>)
    ensures
        match r {
            Some(v) => all_parse(views_of(pieces@)) && v@ == reversed_values(views_of(pieces@)),
            None => !all_parse(views_of(pieces@)),
        },
{
    let ghost ps = views_of(pieces@);
    let n = pieces.len();
    let mut out: Vec<i32> = Vec::new();
    let mut q: usize = 0;
    while q < n
        invariant
            n == ps.len(),
            ps == views_of(pieces@),
            q <= n,
            out@.len() == q,
            forall|k: int| 0 <= k < q ==> spec_parse_i32(ps[n - 1 - k]) == Some(#[trigger] out@[k]),
        decreases n - q,
    {
        let p = &pieces[n - 1 - q];
        assert(p@ == ps[n - 1 - q]);
        assert(p@.subrange(0, p@.len() as int) =~= p@);
        match parse_i32_range(p, 0, p.len()) {
            Some(v) => out.push(v),
            None => {
                assert(spec_parse_i32(ps[n - 1 - q]) is None);
                return None;
            },
        }
        q = q + 1;
    }
    assert forall|i: int| 0 <= i < ps.len() implies (#[trigger] spec_parse_i32(ps[i])) is Some by {
        assert(spec_parse_i32(ps[n - 1 - (n - 1 - i)]) == Some(out@[n - 1 - i]));
    }
    assert(out@ =~= reversed_values(ps));
    Some(out)
}

fn allot_checked(pieces: &Vec<Vec<char>>) -> (r: Option<LevelError>)
    ensures
        r == allot_check(views_of(pieces@), pieces@.len() as int, 0),
{
    let ghost ps = views_of(pieces@);
    let n = pieces.len();
    let mut i: usize = 0;
    while i < n
        invariant
            n == ps.len(),
            ps == views_of(pieces@),
            i <= n,
            allot_check(ps, n as int, 0) == allot_check(ps, n as int, i as int),
        decreases n - i,
    {
        let p = &pieces[i];
        assert(p@ == ps[i as int]);
        assert(p@.subrange(0, p@.len() as int) =~= p@);
        match parse_i32_range(p, 0, p.len()) {
            None => {
                return Some(LevelError::BadNumber);
            },
            Some(v) => {
                if n - 1 - i != 0 && v <= 0 {
                    return Some(LevelError::AllotmentNotPositive);
                }
            },
        }
        i = i + 1;
    }
    None
}

/// The quanta and allotments per queue (index 0 is the lowest) that the
/// options give (see `spec_levels`).
pub fn mlfq_levels(
    num_queues: i32,
    quantum: i32,
    quantum_list: &str,
    allotment: i32,
    allotment_list: &str,
) -> (r: Result<(Vec<i32>, Vec<i32>), LevelError>)
    ensures
        match r {
            Ok((q, a)) => spec_levels(num_queues, quantum, quantum_list@, allotment, allotment_list@)
                == Ok::<(Seq<i32>, Seq<i32>), LevelError>((q@, a@)),
            Err(e) => spec_levels(num_queues, quantum, quantum_list@, allotment, allotment_list@)
                == Err::<(Seq<i32>, Seq<i32>), LevelError>(e),
        },
{
    let qcs = chars_of(quantum_list);
    let acs = chars_of(allotment_list);
    let pieces = split_chars(&qcs, ',');
    let ghost qp = split_spec(quantum_list@, ',');
    let has_list = qcs.len() > 0;
    let listed: Option<Vec<i32>> = if has_list {
        match reversed_parse(&pieces) {
            Some(v) => Some(v),
            None => {
                return Err(LevelError::BadNumber);
            },
        }
    } else {
        None
    };
    // the number of queues agrees with the number of list pieces
    let same_count = if has_list {
        true
    } else {
        num_queues >= 0 && num_queues as usize == pieces.len()
    };
    let no_queues = if has_list {
        pieces.len() < 1
    } else {
        num_queues < 1
    };
    let allot: Vec<i32> = if acs.len() > 0 {
        if !same_count {
            return Err(LevelError::AllotmentCountMismatch);
        }
        match allot_checked(&pieces) {
            Some(e) => {
                return Err(e);
            },
            None => {},
        }
        if no_queues {
            return Err(LevelError::NoQueues);
        }
        match reversed_parse(&pieces) {
            Some(a) => a,
            None => {
                proof {
                    lemma_allot_check_parses(qp, qp.len() as int, 0);
                }
                return Err(LevelError::BadNumber);
            },
        }
    } else {
        if no_queues {
            return Err(LevelError::NoQueues);
        }
        let nq: usize = if has_list {
            pieces.len()
        } else {
            num_queues as usize
        };
        let mut a: Vec<i32> = Vec::new();
        let mut k: usize = 0;
        while k < nq
            invariant
                k <= nq,
                a@ == Seq::new(k as nat, |q: int| allotment),
            decreases nq - k,
        {
            a.push(allotment);
            k = k + 1;
            assert(a@ =~= Seq::new(k as nat, |q: int| allotment));
        }
        a
    };
    let quanta: Vec<i32> = match listed {
        Some(v) => v,
        None => {
            let nq = num_queues as usize;
            let mut v: Vec<i32> = Vec::new();
            let mut k: usize = 0;
            while k < nq
                invariant
                    k <= nq,
                    v@ == Seq::new(k as nat, |q: int| quantum),
                decreases nq - k,
            {
                v.push(quantum);
                k = k + 1;
                assert(v@ =~= Seq::new(k as nat, |q: int| quantum));
            }
            v
        },
    };
    Ok((quanta, allot))
}

proof fn lemma_allot_check_parses(ps: Seq<Seq<char>>, nq: int, i: int)
    requires
        nq == ps.len(),
        0 <= i <= nq,
        allot_check(ps, nq, i) is None,
    ensures
        forall|k: int| i <= k < nq ==> (#[trigger] spec_parse_i32(ps[k])) is Some,
    decreases nq - i,
{
    if i < nq {
        lemma_allot_check_parses(ps, nq, i + 1);
    }
}

/// Why a job list cannot be read.
#[derive(Clone, Copy, PartialEq, Eq, Structural, Debug)]
pub enum JobListError {
    /// A job is not three comma-separated fields.
    Malformed,
    /// A field is no integer.
    BadNumber,
}

/// The jobs `start,run,io` of a colon-separated list, read from piece `i`
/// on: the first error, or the jobs.
pub open spec fn jobs_from(ps: Seq<Seq<char>>, i: int) -> Result<Seq<(i32, i32, i32)>, JobListError>
    decreases ps.len() - i,
{
    if i >= ps.len() {
        Ok(Seq::empty())
    } else {
        let f = split_spec(ps[i], ',');
        if f.len() != 3 {
            Err(JobListError::Malformed)
        } else if spec_parse_i32(f[0]) is None || spec_parse_i32(f[1]) is None || spec_parse_i32(f[2]) is None {
            Err(JobListError::BadNumber)
        } else {
            match jobs_from(ps, i + 1) {
                Ok(rest) => Ok(
                    seq![(spec_parse_i32(f[0])->0, spec_parse_i32(f[1])->0, spec_parse_i32(f[2])->0)] + rest,
                ),
                Err(e) => Err(e),
            }
        }
    }
}

/// Reads a job list such as `0,100,0:10,50,5` (start time, run time, I/O
/// frequency per job).
pub fn parse_job_list(jlist: &str) -> (r: Result<Vec<(i32, i32, i32)>, JobListError>)
    ensures
        match r {
            Ok(v) => jobs_from(split_spec(jlist@, ':'), 0) == Ok::<Seq<(i32, i32, i32)>, JobListError>(v@),
            Err(e) => jobs_from(split_spec(jlist@, ':'), 0) == Err::<Seq<(i32, i32, i32)>, JobListError>(e),
        },
{
    let cs = chars_of(jlist);
    let pieces = split_chars(&cs, ':');
    let ghost ps = split_spec(jlist@, ':');
    let n = pieces.len();
    let mut out: Vec<(i32, i32, i32)> = Vec::new();
    let mut i: usize = 0;
    while i < n
        invariant
            n == ps.len(),
            views_of(pieces@) == ps,
            ps == split_spec(jlist@, ':'),
            i <= n,
            jobs_from(ps, 0) == (match jobs_from(ps, i as int) {
                Ok(rest) => Ok(out@ + rest),
                Err(e) => Err(e),
            }),
        decreases n - i,
    {
        let p = &pieces[i];
        assert(p@ == ps[i as int]);
        let fields = split_chars(p, ',');
        let ghost f = split_spec(ps[i as int], ',');
        assert(views_of(fields@) == f);
        if fields.len() != 3 {
            assert(jobs_from(ps, i as int) == Err::<Seq<(i32, i32, i32)>, JobListError>(JobListError::Malformed));
            return Err(JobListError::Malformed);
        }
        assert(views_of(fields@)[0] == fields@[0]@);
        assert(views_of(fields@)[1] == fields@[1]@);
        assert(views_of(fields@)[2] == fields@[2]@);
        assert(fields@[0]@.subrange(0, fields@[0]@.len() as int) =~= fields@[0]@);
        assert(fields@[1]@.subrange(0, fields@[1]@.len() as int) =~= fields@[1]@);
        assert(fields@[2]@.subrange(0, fields@[2]@.len() as int) =~= fields@[2]@);
        let a = parse_i32_range(&fields[0], 0, fields[0].len());
        let b = parse_i32_range(&fields[1], 0, fields[1].len());
        let c = parse_i32_range(&fields[2], 0, fields[2].len());
        match (a, b, c) {
            (Some(x), Some(y), Some(z)) => {
                let ghost old_out = out@;
                out.push((x, y, z));
                proof {
                    match jobs_from(ps, i + 1) {
                        Ok(rest) => {
                            assert(old_out + (seq![(x, y, z)] + rest) =~= out@ + rest);
                        },
                        Err(e) => {},
                    }
                }
            },
            _ => {
                assert(jobs_from(ps, i as int) == Err::<Seq<(i32, i32, i32)>, JobListError>(JobListError::BadNumber));
                return Err(JobListError::BadNumber);
            },
        }
        i = i + 1;
    }
    assert(out@ + Seq::<(i32, i32, i32)>::empty() =~= out@);
    Ok(out)
}

} // verus!
