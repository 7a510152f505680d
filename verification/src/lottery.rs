//! Lottery scheduling: each job holds tickets, a random number modulo the
//! number of tickets held picks the winning ticket, and the job holding it
//! runs for one quantum.

use vstd::prelude::*;
use crate::text::{chars_of, split_chars, split_spec, spec_parse_i32, parse_i32_range, views_of};

verus! {

/// The options of a lottery run, as given on the command line.
pub struct LotteryOption {
    pub seed: u64,
    pub jobs: i32,
    pub jlist: String,
    pub maxlen: i32,
    pub maxticket: i32,
    pub quantum: i32,
    pub solve: bool,
}

impl LotteryOption {
    /// The defaults: seed 0, three random jobs of length below 10 with up
    /// to 100 tickets, a quantum of 1, no job list, no solution.
    pub fn new() -> (o: LotteryOption)
        ensures
            o.seed == 0,
            o.jobs == 3,
            o.jlist@ == Seq::<char>::empty(),
            o.maxlen == 10,
            o.maxticket == 100,
            o.quantum == 1,
            !o.solve,
    {
        LotteryOption {
            seed: 0,
            jobs: 3,
            jlist: String::new(),
            maxlen: 10,
            maxticket: 100,
            quantum: 1,
            solve: false,
        }
    }
}

/// A job: the time it still has to run and the tickets it holds.
#[derive(Clone, Copy, PartialEq, Eq, Structural, Debug)]
pub struct LotteryJob {
    pub runtime: i32,
    pub tickets: i32,
}

/// The job that an entry `runtime:tickets` of a job list describes.
pub open spec fn entry_job(e: Seq<char>) -> Option<LotteryJob> {
    let parts = split_spec(e, ':');
    if parts.len() >= 2 && spec_parse_i32(parts[0]) is Some && spec_parse_i32(parts[1]) is Some {
        Some(LotteryJob { runtime: spec_parse_i32(parts[0])->0, tickets: spec_parse_i32(parts[1])->0 })
    } else {
        None
    }
}

/// Reads a job list such as `10:100,20:100` (run time and tickets of each
/// job, comma-separated). `Err(i)` names the first entry that is not two
/// integers separated by a colon (anything after a second colon is
/// ignored).
pub fn parse_lottery_jobs(jlist: &str) -> (r: Result<Vec<LotteryJob>, usize>)
    ensures
        ({
            let es = split_spec(jlist@, ',');
            match r {
                Ok(v) => v@.len() == es.len() && forall|i: int|
                    0 <= i < es.len() ==> entry_job(#[trigger] es[i]) == Some(v@[i]),
                Err(i) => i < es.len() && entry_job(es[i as int]) is None && forall|j: int|
                    0 <= j < i ==> (#[trigger] entry_job(es[j])) is Some,
            }
        }),
{
    let cs = chars_of(jlist);
    let entries = split_chars(&cs, ',');
    let ghost es = split_spec(jlist@, ',');
    let mut jobs: Vec<LotteryJob> = Vec::new();
    let mut i: usize = 0;
    while i < entries.len()
        invariant
            views_of(entries@) == es,
            es == split_spec(jlist@, ','),
            i <= es.len(),
            jobs@.len() == i,
            forall|j: int| 0 <= j < i ==> entry_job(#[trigger] es[j]) == Some(jobs@[j]),
        decreases es.len() - i,
    {
        assert(entries@[i as int]@ == es[i as int]);
        let parts = split_chars(&entries[i], ':');
        let ghost ps = split_spec(es[i as int], ':');
        assert(entries[i as int]@ == es[i as int]);
        assert(views_of(parts@) == ps);
        assert(ps.len() == parts@.len());
        if parts.len() < 2 {
            return Err(i);
        }
        assert(views_of(parts@)[0] == parts@[0]@);
        assert(views_of(parts@)[1] == parts@[1]@);
        assert(parts@[0]@.subrange(0, parts@[0]@.len() as int) =~= parts@[0]@);
        assert(parts@[1]@.subrange(0, parts@[1]@.len() as int) =~= parts@[1]@);
        assert(ps[0] == parts@[0]@ && ps[1] == parts@[1]@);
        let rt = parse_i32_range(&parts[0], 0, parts[0].len());
        let tk = parse_i32_range(&parts[1], 0, parts[1].len());
        match (rt, tk) {
            (Some(runtime), Some(tickets)) => {
                jobs.push(LotteryJob { runtime, tickets });
            },
            _ => {
                return Err(i);
            },
        }
        i = i + 1;
    }
    Ok(jobs)
}

/// The tickets held by `jobs` together.
pub open spec fn ticket_sum(jobs: Seq<LotteryJob>) -> int
    decreases jobs.len(),
{
    if jobs.len() == 0 {
        0
    } else {
        ticket_sum(jobs.drop_last()) + jobs.last().tickets
    }
}

/// The run time of `jobs` together.
pub open spec fn run_sum(jobs: Seq<LotteryJob>) -> int
    decreases jobs.len(),
{
    if jobs.len() == 0 {
        0
    } else {
        run_sum(jobs.drop_last()) + jobs.last().runtime
    }
}

pub open spec fn fits_i32(x: int) -> bool {
    i32::MIN <= x <= i32::MAX
}

/// Every running total of run times and of tickets, job by job, fits in
/// an `i32`.
pub open spec fn sums_fit(jobs: Seq<LotteryJob>) -> bool {
    forall|k: int| 0 <= k <= jobs.len() ==> fits_i32(#[trigger] ticket_sum(jobs.take(k))) && fits_i32(
        run_sum(jobs.take(k)),
    )
}

/// The first job, from `k` on, whose running ticket total exceeds the
/// winning ticket `w`: the job holding ticket `w`.
pub open spec fn first_over(jobs: Seq<LotteryJob>, w: int, k: int) -> Option<int>
    decreases jobs.len() - k,
{
    if k < 0 || k >= jobs.len() {
        None
    } else if ticket_sum(jobs.take(k + 1)) > w {
        Some(k)
    } else {
        first_over(jobs, w, k + 1)
    }
}

/// Whether the running ticket total leaves the `i32` range, from job `k` on,
/// before it exceeds `w`.
pub open spec fn scan_overflows(jobs: Seq<LotteryJob>, w: int, k: int) -> bool
    decreases jobs.len() - k,
{
    if k < 0 || k >= jobs.len() {
        false
    } else if !fits_i32(ticket_sum(jobs.take(k + 1))) {
        true
    } else if ticket_sum(jobs.take(k + 1)) > w {
        false
    } else {
        scan_overflows(jobs, w, k + 1)
    }
}

pub struct LotteryState {
    pub jobs: Seq<LotteryJob>,
    pub tick_total: i32,
    pub run_total: i32,
    pub remaining: nat,
    pub clock: i32,
    pub quantum: i32,
}

/// A lottery in progress: the jobs, the tickets in play, the run time of
/// all jobs at the start, the jobs not yet done, the clock and the quantum.
pub struct Lottery {
    pub jobs: Vec<LotteryJob>,
    pub tick_total: i32,
    pub run_total: i32,
    pub remaining: usize,
    pub clock: i32,
    pub quantum: i32,
}

impl View for Lottery {
    type V = LotteryState;

    open spec fn view(&self) -> LotteryState {
        LotteryState {
            jobs: self.jobs@,
            tick_total: self.tick_total,
            run_total: self.run_total,
            remaining: self.remaining as nat,
            clock: self.clock,
            quantum: self.quantum,
        }
    }
}

/// What one draw decides: the winning ticket, the tickets in play, the
/// job that runs, whether it is done after its quantum, and the clock then.
#[derive(Clone, Copy, PartialEq, Eq, Structural, Debug)]
pub struct LotteryDraw {
    pub winner: i32,
    pub total: i32,
    pub job: usize,
    pub done: bool,
    pub clock: i32,
}

/// Why a draw cannot be made.
#[derive(Clone, Copy, PartialEq, Eq, Structural, Debug)]
pub enum LotteryFault {
    /// No tickets are in play: the modulo would divide by zero.
    NoTickets,
    /// A running ticket total leaves the `i32` range.
    TicketOverflow,
    /// The remaining run time of the winner leaves the `i32` range.
    RuntimeOverflow,
    /// The clock leaves the `i32` range.
    ClockOverflow,
}

pub open spec fn abs(x: int) -> int {
    if x < 0 {
        -x
    } else {
        x
    }
}

/// The winning ticket for the random number `r`.
pub open spec fn winning_ticket(r: int, total: int) -> int {
    r % abs(total)
}

/// One draw with random number `r`: the winning ticket is `r` modulo the
/// tickets in play, the job holding it runs for a quantum (a job that
/// holds no winning ticket is taken as job 0 with nothing left to run), a
/// job with no time left is done and gives up its tickets.
pub open spec fn draw_spec(s: LotteryState, r: int) -> Result<(LotteryState, LotteryDraw), LotteryFault> {
    if s.tick_total == 0 {
        Err(LotteryFault::NoTickets)
    } else {
        let w = winning_ticket(r, s.tick_total as int);
        if scan_overflows(s.jobs, w, 0) {
            Err(LotteryFault::TicketOverflow)
        } else {
            let (wjob, wrun, wtix) = match first_over(s.jobs, w, 0) {
                Some(k) => (k, s.jobs[k].runtime as int, s.jobs[k].tickets as int),
                None => (0int, 0int, 0int),
            };
            let left = if wrun >= s.quantum { wrun - s.quantum } else { 0int };
            let clock = s.clock + s.quantum;
            if !fits_i32(left) {
                Err(LotteryFault::RuntimeOverflow)
            } else if !fits_i32(clock) {
                Err(LotteryFault::ClockOverflow)
            } else {
                let done = left == 0;
                let total = if done { s.tick_total - wtix } else { s.tick_total as int };
                if !fits_i32(total) {
                    Err(LotteryFault::TicketOverflow)
                } else {
                    let tix = if done { 0int } else { wtix };
                    let s2 = LotteryState {
                        jobs: s.jobs.update(wjob, LotteryJob { runtime: left as i32, tickets: tix as i32 }),
                        tick_total: total as i32,
                        remaining: if done { (s.remaining - 1) as nat } else { s.remaining },
                        clock: clock as i32,
                        ..s
                    };
                    Ok((s2, LotteryDraw { winner: w as i32, total: s.tick_total, job: wjob as usize, done, clock: clock as i32 }))
                }
            }
        }
    }
}

/// The tickets in play are those the jobs hold, and no job holds a
/// negative number of tickets.
pub open spec fn lottery_wf(s: LotteryState) -> bool {
    &&& s.tick_total == ticket_sum(s.jobs)
    &&& forall|i: int| 0 <= i < s.jobs.len() ==> (#[trigger] s.jobs[i]).tickets >= 0
}

proof fn lemma_take_last(jobs: Seq<LotteryJob>, k: int)
    requires
        0 <= k < jobs.len(),
    ensures
        ticket_sum(jobs.take(k + 1)) == ticket_sum(jobs.take(k)) + jobs[k].tickets,
        run_sum(jobs.take(k + 1)) == run_sum(jobs.take(k)) + jobs[k].runtime,
{
    assert(jobs.take(k + 1).drop_last() =~= jobs.take(k));
}


proof fn lemma_ticket_sum_update(jobs: Seq<LotteryJob>, i: int, x: LotteryJob)
    requires
        0 <= i < jobs.len(),
    ensures
        ticket_sum(jobs.update(i, x)) == ticket_sum(jobs) - jobs[i].tickets + x.tickets,
    decreases jobs.len(),
{
    let u = jobs.update(i, x);
    if i == jobs.len() - 1 {
        assert(u.drop_last() =~= jobs.drop_last());
    } else {
        assert(u.drop_last() =~= jobs.drop_last().update(i, x));
        lemma_ticket_sum_update(jobs.drop_last(), i, x);
    }
}

proof fn lemma_ticket_sum_nonneg_prefix(jobs: Seq<LotteryJob>, j: int, k: int)
    requires
        0 <= j <= k <= jobs.len(),
        forall|i: int| 0 <= i < jobs.len() ==> (#[trigger] jobs[i]).tickets >= 0,
    ensures
        0 <= ticket_sum(jobs.take(j)) <= ticket_sum(jobs.take(k)),
    decreases k,
{
    if k > 0 {
        if j < k {
            lemma_take_last(jobs, k - 1);
            lemma_ticket_sum_nonneg_prefix(jobs, j, k - 1);
        } else {
            lemma_take_last(jobs, k - 1);
            lemma_ticket_sum_nonneg_prefix(jobs, k - 1, k - 1);
        }
    }
}

proof fn lemma_first_over_found(jobs: Seq<LotteryJob>, w: int, k: int)
    requires
        0 <= k <= jobs.len(),
        forall|i: int| 0 <= i < jobs.len() ==> (#[trigger] jobs[i]).tickets >= 0,
        ticket_sum(jobs.take(k)) <= w < ticket_sum(jobs),
    ensures
        first_over(jobs, w, k) matches Some(j) && k <= j < jobs.len() && ticket_sum(jobs.take(j)) <= w
            < ticket_sum(jobs.take(j + 1)) && jobs[j].tickets > 0,
    decreases jobs.len() - k,
{
    assert(jobs.take(jobs.len() as int) =~= jobs);
    if k == jobs.len() {
    } else {
        lemma_take_last(jobs, k);
        if ticket_sum(jobs.take(k + 1)) > w {
        } else {
            lemma_first_over_found(jobs, w, k + 1);
        }
    }
}

/// A lottery whose tickets in play are those its jobs hold, none negative,
/// has a winner for every draw: ticket `r % total` is held by exactly the
/// job whose running ticket total first exceeds it, and that job holds at
/// least one ticket.
pub proof fn law_winner_holds_ticket(s: LotteryState, r: int)
    requires
        lottery_wf(s),
        s.tick_total != 0,
        0 <= r,
    ensures
        ({
            let w = winning_ticket(r, s.tick_total as int);
            &&& 0 <= w < s.tick_total
            &&& first_over(s.jobs, w, 0) matches Some(j) && 0 <= j < s.jobs.len() && ticket_sum(s.jobs.take(j)) <= w
                < ticket_sum(s.jobs.take(j + 1)) && s.jobs[j].tickets > 0
        }),
{
    assert(s.jobs.take(s.jobs.len() as int) =~= s.jobs);
    lemma_ticket_sum_nonneg_prefix(s.jobs, 0, s.jobs.len() as int);
    assert(s.jobs.take(0) =~= Seq::<LotteryJob>::empty());
    let w = winning_ticket(r, s.tick_total as int);
    lemma_first_over_found(s.jobs, w, 0);
}

/// A draw keeps the tickets in play equal to the tickets the jobs hold,
/// none negative: a job that is done gives up exactly its tickets.
pub proof fn law_draw_keeps_tickets(s: LotteryState, r: int)
    requires
        lottery_wf(s),
        0 <= r,
        s.jobs.len() > 0,
        draw_spec(s, r) is Ok,
    ensures
        lottery_wf(draw_spec(s, r)->Ok_0.0),
{
    law_winner_holds_ticket(s, r);
    let w = winning_ticket(r, s.tick_total as int);
    let k = first_over(s.jobs, w, 0)->0;
    let s2 = draw_spec(s, r)->Ok_0.0;
    let x = s2.jobs[k];
    assert(s2.jobs == s.jobs.update(k, x));
    lemma_ticket_sum_update(s.jobs, k, x);
}

impl Lottery {
    /// Starts a lottery over `jobs`; `None` where a running total of run
    /// times or tickets leaves the `i32` range.
    pub fn new(jobs: Vec<LotteryJob>, quantum: i32) -> (r: Option<Lottery>)
        ensures
            match r {
                Some(l) => {
                    &&& sums_fit(jobs@)
                    &&& l@ == LotteryState {
                        jobs: jobs@,
                        tick_total: ticket_sum(jobs@) as i32,
                        run_total: run_sum(jobs@) as i32,
                        remaining: jobs@.len(),
                        clock: 0,
                        quantum,
                    }
                },
                None => !sums_fit(jobs@),
            },
    {
        let mut tick: i64 = 0;
        let mut run: i64 = 0;
        let mut k: usize = 0;
        while k < jobs.len()
            invariant
                k <= jobs@.len(),
                tick == ticket_sum(jobs@.take(k as int)),
                run == run_sum(jobs@.take(k as int)),
                fits_i32(tick as int),
                fits_i32(run as int),
                forall|j: int| 0 <= j <= k ==> fits_i32(#[trigger] ticket_sum(jobs@.take(j))) && fits_i32(
                    run_sum(jobs@.take(j)),
                ),
            decreases jobs@.len() - k,
        {
            proof {
                lemma_take_last(jobs@, k as int);
            }
            tick = tick + jobs[k].tickets as i64;
            run = run + jobs[k].runtime as i64;
            if tick < -2147483648 || tick > 2147483647 || run < -2147483648 || run > 2147483647 {
                assert(!fits_i32(ticket_sum(jobs@.take(k + 1))) || !fits_i32(run_sum(jobs@.take(k + 1))));
                return None;
            }
            k = k + 1;
        }
        assert(jobs@.take(k as int) =~= jobs@);
        let n = jobs.len();
        Some(Lottery { jobs, tick_total: tick as i32, run_total: run as i32, remaining: n, clock: 0, quantum })
    }

    /// The job holding the winning ticket `w`, scanning the running ticket
    /// totals; `None` where none holds it.
    fn find_winner(&self, w: i32) -> (r: Result<Option<usize>, LotteryFault>)
        ensures
            match r {
                Ok(Some(k)) => k < self@.jobs.len() && !scan_overflows(self@.jobs, w as int, 0) && first_over(self@.jobs, w as int, 0) == Some(k as int),
                Ok(None) => !scan_overflows(self@.jobs, w as int, 0) && first_over(self@.jobs, w as int, 0) is None,
                Err(f) => f == LotteryFault::TicketOverflow && scan_overflows(self@.jobs, w as int, 0),
            },
    {
        let ghost js = self@.jobs;
        let mut current: i64 = 0;
        let mut k: usize = 0;
        while k < self.jobs.len()
            invariant
                js == self@.jobs,
                k <= js.len(),
                current == ticket_sum(js.take(k as int)),
                fits_i32(current as int),
                first_over(js, w as int, 0) == first_over(js, w as int, k as int),
                scan_overflows(js, w as int, 0) == scan_overflows(js, w as int, k as int),
            decreases js.len() - k,
        {
            proof {
                lemma_take_last(js, k as int);
            }
            current = current + self.jobs[k].tickets as i64;
            if current < -2147483648 || current > 2147483647 {
                return Err(LotteryFault::TicketOverflow);
            }
            if current > w as i64 {
                return Ok(Some(k));
            }
            k = k + 1;
        }
        Ok(None)
    }

    /// One draw with the random number `r` (see `draw_spec`).
    pub fn draw(&mut self, r: i32) -> (res: Result<LotteryDraw, LotteryFault>)
        requires
            0 <= r,
            old(self)@.remaining > 0,
            old(self)@.jobs.len() > 0,
        ensures
            match res {
                Ok(d) => draw_spec(old(self)@, r as int) == Ok::<(LotteryState, LotteryDraw), LotteryFault>((final(self)@, d)),
                Err(f) => draw_spec(old(self)@, r as int) == Err::<(LotteryState, LotteryDraw), LotteryFault>(f) && final(self)@ == old(self)@,
            },
    {
        if self.tick_total == 0 {
            return Err(LotteryFault::NoTickets);
        }
        let t: i64 = self.tick_total as i64;
        let m: i64 = if t < 0 { -t } else { t };
        let w: i32 = ((r as i64) % m) as i32;
        let (wjob, wrun, wtix) = match self.find_winner(w) {
            Err(f) => {
                return Err(f);
            },
            Ok(Some(k)) => (k, self.jobs[k].runtime as i64, self.jobs[k].tickets as i64),
            Ok(None) => (0usize, 0i64, 0i64),
        };
        let left: i64 = if wrun >= self.quantum as i64 { wrun - self.quantum as i64 } else { 0 };
        let clock: i64 = self.clock as i64 + self.quantum as i64;
        if left < -2147483648 || left > 2147483647 {
            return Err(LotteryFault::RuntimeOverflow);
        }
        if clock < -2147483648 || clock > 2147483647 {
            return Err(LotteryFault::ClockOverflow);
        }
        let done = left == 0;
        let total: i64 = if done { self.tick_total as i64 - wtix } else { self.tick_total as i64 };
        if total < -2147483648 || total > 2147483647 {
            return Err(LotteryFault::TicketOverflow);
        }
        let tix: i64 = if done { 0 } else { wtix };
        let before = self.tick_total;
        self.jobs.set(wjob, LotteryJob { runtime: left as i32, tickets: tix as i32 });
        self.tick_total = total as i32;
        if done {
            self.remaining = self.remaining - 1;
        }
        self.clock = clock as i32;
        Ok(LotteryDraw { winner: w, total: before, job: wjob, done, clock: clock as i32 })
    }
}

} // verus!
