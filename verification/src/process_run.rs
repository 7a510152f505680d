//! Processes that alternate CPU work and I/O, run by a simple scheduler one
//! clock tick at a time: which process runs, which wait for I/O, and how
//! busy the CPU and the I/O device are.

use vstd::prelude::*;
use crate::text::{chars_of, split_chars, split_spec, spec_parse_i32, parse_i32_range, views_of, text_eq};

verus! {

#[derive(Clone, Copy, PartialEq, Eq, Structural, Debug)]
pub enum ProcState {
    Running,
    Ready,
    Done,
    Waiting,
}

#[derive(Clone, Copy, PartialEq, Eq, Structural, Debug)]
pub enum Instr {
    Cpu,
    Io,
    IoDone,
}

/// When the scheduler switches away from the running process.
#[derive(Clone, Copy, PartialEq, Eq, Structural, Debug)]
pub enum SwitchBehavior {
    OnIo,
    OnEnd,
}

/// What happens to a process whose I/O completes.
#[derive(Clone, Copy, PartialEq, Eq, Structural, Debug)]
pub enum IoDoneBehavior {
    RunLater,
    RunImmediate,
}

pub open spec fn spec_switch_behavior(cs: Seq<char>) -> Option<SwitchBehavior> {
    if cs == "SWITCH_ON_IO"@ {
        Some(SwitchBehavior::OnIo)
    } else if cs == "SWITCH_ON_END"@ {
        Some(SwitchBehavior::OnEnd)
    } else {
        None
    }
}

pub open spec fn spec_io_done_behavior(cs: Seq<char>) -> Option<IoDoneBehavior> {
    if cs == "IO_RUN_LATER"@ {
        Some(IoDoneBehavior::RunLater)
    } else if cs == "IO_RUN_IMMEDIATE"@ {
        Some(IoDoneBehavior::RunImmediate)
    } else {
        None
    }
}

/// Reads `SWITCH_ON_IO` or `SWITCH_ON_END`.
pub fn switch_behavior_from(s: &str) -> (r: Option<SwitchBehavior>)
    ensures
        r == spec_switch_behavior(s@),
{
    if text_eq(s, "SWITCH_ON_IO") {
        Some(SwitchBehavior::OnIo)
    } else if text_eq(s, "SWITCH_ON_END") {
        Some(SwitchBehavior::OnEnd)
    } else {
        None
    }
}

/// Reads `IO_RUN_LATER` or `IO_RUN_IMMEDIATE`.
pub fn io_done_behavior_from(s: &str) -> (r: Option<IoDoneBehavior>)
    ensures
        r == spec_io_done_behavior(s@),
{
    if text_eq(s, "IO_RUN_LATER") {
        Some(IoDoneBehavior::RunLater)
    } else if text_eq(s, "IO_RUN_IMMEDIATE") {
        Some(IoDoneBehavior::RunImmediate)
    } else {
        None
    }
}

/// The number of bytes of the UTF-8 encoding of `c`.
pub open spec fn utf8_len(c: char) -> nat {
    if (c as int) < 0x80 {
        1
    } else if (c as int) < 0x800 {
        2
    } else if (c as int) < 0x10000 {
        3
    } else {
        4
    }
}

pub open spec fn utf8_len_of(cs: Seq<char>) -> nat
    decreases cs.len(),
{
    if cs.len() == 0 {
        0
    } else {
        utf8_len_of(cs.drop_last()) + utf8_len(cs.last())
    }
}

/// The instructions of one program piece: `c` followed by n more bytes is n
/// CPU instructions; `i...` is an I/O and its completion; anything else is
/// a bad opcode.
pub open spec fn piece_code(p: Seq<char>) -> Option<Seq<Instr>> {
    if p.len() > 0 && p[0] == 'c' {
        Some(Seq::new(utf8_len_of(p.drop_first()) as nat, |i: int| Instr::Cpu))
    } else if p.len() > 0 && p[0] == 'i' {
        Some(seq![Instr::Io, Instr::IoDone])
    } else {
        None
    }
}

/// The code of a program such as `c7,i,c1`, read from piece `i` on: the
/// instructions read, and the index of the first bad piece, if any.
pub open spec fn program_code(ps: Seq<Seq<char>>, i: int) -> (Seq<Instr>, Option<int>)
    decreases ps.len() - i,
{
    if i >= ps.len() || i < 0 {
        (Seq::empty(), None)
    } else {
        match piece_code(ps[i]) {
            Some(c) => {
                let rest = program_code(ps, i + 1);
                (c + rest.0, rest.1)
            },
            None => (Seq::empty(), Some(i)),
        }
    }
}

pub struct SchedState {
    pub code: Seq<Seq<Instr>>,
    pub states: Seq<ProcState>,
    pub io_times: Seq<Seq<i32>>,
    pub curr: int,
    pub clock: i32,
    pub cpu_busy: i32,
    pub io_busy: i32,
    pub switch: SwitchBehavior,
    pub io_behavior: IoDoneBehavior,
    pub io_length: i32,
}

/// The processes (their remaining code and state), the current process,
/// the I/O completion times of each process, the clock and the busy counts.
pub struct Scheduler {
    pub code: Vec<Vec<Instr>>,
    pub states: Vec<ProcState>,
    pub io_times: Vec<Vec<i32>>,
    pub curr: usize,
    pub clock: i32,
    pub cpu_busy: i32,
    pub io_busy: i32,
    pub switch: SwitchBehavior,
    pub io_behavior: IoDoneBehavior,
    pub io_length: i32,
}

pub open spec fn code_rows(v: Seq<Vec<Instr>>) -> Seq<Seq<Instr>> {
    Seq::new(v.len(), |i: int| v[i]@)
}

pub open spec fn time_rows(v: Seq<Vec<i32>>) -> Seq<Seq<i32>> {
    Seq::new(v.len(), |i: int| v[i]@)
}

impl View for Scheduler {
    type V = SchedState;

    open spec fn view(&self) -> SchedState {
        SchedState {
            code: code_rows(self.code@),
            states: self.states@,
            io_times: time_rows(self.io_times@),
            curr: self.curr as int,
            clock: self.clock,
            cpu_busy: self.cpu_busy,
            io_busy: self.io_busy,
            switch: self.switch,
            io_behavior: self.io_behavior,
            io_length: self.io_length,
        }
    }
}

/// Every process has its code, its state and its list of I/O completion
/// times, and the current process is one of them.
pub open spec fn sched_wf(s: SchedState) -> bool {
    &&& s.code.len() == s.states.len()
    &&& s.io_times.len() == s.states.len()
    &&& 0 <= s.curr < s.states.len()
    &&& s.states.len() < i32::MAX
}

/// `b` differs from `a` at most in the process states and the current
/// process.
pub open spec fn keeps_data(a: SchedState, b: SchedState) -> bool {
    b == SchedState { states: b.states, curr: b.curr, ..a }
}

/// Moving process `pid` from state `expected` to `new`; `None` where it is
/// not in state `expected` (the scheduler aborts there).
pub open spec fn move_state(s: SchedState, pid: int, expected: ProcState, new: ProcState) -> Option<SchedState> {
    if s.states[pid] == expected {
        Some(SchedState { states: s.states.update(pid, new), ..s })
    } else {
        None
    }
}

/// The first process in `lo..hi` that is ready.
pub open spec fn first_ready(states: Seq<ProcState>, lo: int, hi: int) -> Option<int>
    decreases hi - lo,
{
    if lo >= hi {
        None
    } else if states[lo] == ProcState::Ready {
        Some(lo)
    } else {
        first_ready(states, lo + 1, hi)
    }
}

/// Switching to process `pid`, or, given none, to the next ready process
/// after the current one (wrapping around); where none is ready nothing
/// changes.
pub open spec fn next_proc(s: SchedState, pid: Option<int>) -> Option<SchedState> {
    match pid {
        Some(p) => move_state(SchedState { curr: p, ..s }, p, ProcState::Ready, ProcState::Running),
        None => match first_ready(s.states, s.curr + 1, s.states.len() as int) {
            Some(p) => move_state(SchedState { curr: p, ..s }, p, ProcState::Ready, ProcState::Running),
            None => match first_ready(s.states, 0, s.curr + 1) {
                Some(p) => move_state(SchedState { curr: p, ..s }, p, ProcState::Ready, ProcState::Running),
                None => Some(s),
            },
        },
    }
}

/// A running current process whose code is used up is done, and the
/// scheduler moves on.
pub open spec fn check_done(s: SchedState) -> Option<SchedState> {
    if s.code[s.curr].len() == 0 && s.states[s.curr] == ProcState::Running {
        match move_state(s, s.curr, ProcState::Running, ProcState::Done) {
            Some(s1) => next_proc(s1, None),
            None => None,
        }
    } else {
        Some(s)
    }
}

pub open spec fn is_runnable(st: ProcState) -> bool {
    st == ProcState::Ready || st == ProcState::Running
}

pub open spec fn count_runnable(states: Seq<ProcState>) -> int
    decreases states.len(),
{
    if states.len() == 0 {
        0
    } else {
        count_runnable(states.drop_last()) + if is_runnable(states.last()) {
            1int
        } else {
            0int
        }
    }
}

pub open spec fn count_active(states: Seq<ProcState>) -> int
    decreases states.len(),
{
    if states.len() == 0 {
        0
    } else {
        count_active(states.drop_last()) + if states.last() != ProcState::Done {
            1int
        } else {
            0int
        }
    }
}

/// The I/O of `pid` completes: it becomes ready, and runs at once or when
/// the policy says so.
pub open spec fn io_complete(s: SchedState, pid: int) -> Option<SchedState> {
    match move_state(s, pid, ProcState::Waiting, ProcState::Ready) {
        None => None,
        Some(s1) => {
            let s2 = if s1.io_behavior == IoDoneBehavior::RunImmediate {
                let s1b = if s1.curr != pid && s1.states[s1.curr] == ProcState::Running {
                    move_state(s1, s1.curr, ProcState::Running, ProcState::Ready)
                } else {
                    Some(s1)
                };
                match s1b {
                    Some(t) => next_proc(t, Some(pid)),
                    None => None,
                }
            } else {
                let s1b = if s1.switch == SwitchBehavior::OnEnd {
                    next_proc(s1, Some(pid))
                } else {
                    Some(s1)
                };
                match s1b {
                    Some(t) => if count_runnable(t.states) == 1 {
                        next_proc(t, Some(pid))
                    } else {
                        Some(t)
                    },
                    None => None,
                }
            };
            match s2 {
                Some(t) => check_done(t),
                None => None,
            }
        },
    }
}

/// The I/O completions due at the clock, for processes `0..k`.
pub open spec fn io_phase(s: SchedState, k: int) -> Option<SchedState>
    decreases k,
{
    if k <= 0 {
        Some(s)
    } else {
        match io_phase(s, k - 1) {
            Some(t) => if t.io_times[k - 1].contains(t.clock) {
                io_complete(t, k - 1)
            } else {
                Some(t)
            },
            None => None,
        }
    }
}

/// Whether any I/O completed at the clock, for processes `0..k`.
pub open spec fn any_io_due(s: SchedState, k: int) -> bool {
    exists|p: int| 0 <= p < k && (#[trigger] s.io_times[p]).contains(s.clock)
}

/// The number of I/O completions later than `t`.
pub open spec fn in_flight(io: Seq<Seq<i32>>, t: i32) -> int
    decreases io.len(),
{
    if io.len() == 0 {
        0
    } else {
        in_flight(io.drop_last(), t) + io.last().filter(|x: i32| x > t).len()
    }
}

/// What a tick reports for printing: the clock, whether an I/O completed,
/// the instruction run (if any) by the process then current, the states
/// then, and the I/O in flight.
pub struct TickRecord {
    pub clock: i32,
    pub io_done: bool,
    pub curr: usize,
    pub executed: Option<Instr>,
    pub states: Vec<ProcState>,
    pub outstanding: i32,
}

/// The part of a tick after the I/O completions: the current process runs
/// one instruction if it is running and has one; an I/O instruction sends
/// it to wait (and the scheduler switches on I/O where told to).
pub open spec fn exec_phase(s: SchedState) -> Option<(SchedState, Option<Instr>, Seq<ProcState>, int)> {
    let runs = s.states[s.curr] == ProcState::Running && s.code[s.curr].len() > 0;
    let instr = if runs {
        Some(s.code[s.curr][0])
    } else {
        None
    };
    let s1 = if runs {
        SchedState {
            code: s.code.update(s.curr, s.code[s.curr].drop_first()),
            cpu_busy: (s.cpu_busy + 1) as i32,
            ..s
        }
    } else {
        s
    };
    let out = in_flight(s1.io_times, s1.clock);
    let s2 = if out > 0 {
        SchedState { io_busy: (s1.io_busy + 1) as i32, ..s1 }
    } else {
        s1
    };
    let s3 = if instr == Some(Instr::Io) {
        match move_state(s2, s2.curr, ProcState::Running, ProcState::Waiting) {
            Some(t) => if !(i32::MIN <= t.clock + t.io_length + 1 <= i32::MAX) {
                None
            } else {
                let t2 = SchedState {
                    io_times: t.io_times.update(t.curr, t.io_times[t.curr].push((t.clock + t.io_length + 1) as i32)),
                    ..t
                };
                if t2.switch == SwitchBehavior::OnIo {
                    next_proc(t2, None)
                } else {
                    Some(t2)
                }
            },
            None => None,
        }
    } else {
        Some(s2)
    };
    if (runs && s.cpu_busy == i32::MAX) || out > i32::MAX || (out > 0 && s1.io_busy == i32::MAX) {
        None
    } else {
        match s3 {
        Some(t) => match check_done(t) {
            Some(u) => Some((u, instr, s1.states, out)),
            None => None,
        },
        None => None,
        }
    }
}

/// One tick: the clock advances, I/O completions are handled, then the
/// execution phase. `None` where the scheduler aborts.
pub open spec fn tick_spec(s: SchedState) -> Option<(SchedState, Option<Instr>, Seq<ProcState>, int, int)> {
    let s0 = SchedState { clock: (s.clock + 1) as i32, ..s };
    if s.clock == i32::MAX {
        None
    } else {
    match io_phase(s0, s.states.len() as int) {
        Some(s1) => match exec_phase(s1) {
            Some((s2, instr, states, out)) => Some((s2, instr, states, out, s1.curr)),
            None => None,
        },
        None => None,
    }
    }
}

/// Why a process description `x:y` cannot be read.
#[derive(Clone, Copy, PartialEq, Eq, Structural, Debug)]
pub enum DescError {
    /// It is not two pieces separated by a colon.
    NotTwoParts,
    /// The number of instructions is no integer.
    BadCount,
}

/// Splits a process description `x:y` into the number of instructions `x`
/// and the text `y` of the chance (in percent) that an instruction is CPU.
pub fn parse_description(d: &str) -> (r: Result<(i32, Vec<char>), DescError>)
    ensures
        ({
            let ps = split_spec(d@, ':');
            match r {
                Ok((n, c)) => ps.len() == 2 && spec_parse_i32(ps[0]) == Some(n) && c@ == ps[1],
                Err(DescError::NotTwoParts) => ps.len() != 2,
                Err(DescError::BadCount) => ps.len() == 2 && spec_parse_i32(ps[0]) is None,
            }
        }),
{
    let cs = chars_of(d);
    let pieces = split_chars(&cs, ':');
    if pieces.len() != 2 {
        return Err(DescError::NotTwoParts);
    }
    assert(views_of(pieces@)[0] == pieces@[0]@);
    assert(views_of(pieces@)[1] == pieces@[1]@);
    assert(pieces@[0]@.subrange(0, pieces@[0]@.len() as int) =~= pieces@[0]@);
    let n = match parse_i32_range(&pieces[0], 0, pieces[0].len()) {
        Some(n) => n,
        None => {
            return Err(DescError::BadCount);
        },
    };
    let mut c: Vec<char> = Vec::new();
    let mut i: usize = 0;
    while i < pieces[1].len()
        invariant
            pieces@.len() == 2,
            i <= pieces@[1]@.len(),
            c@ == pieces@[1]@.subrange(0, i as int),
        decreases pieces@[1]@.len() - i,
    {
        c.push(pieces[1][i]);
        i = i + 1;
        assert(c@ =~= pieces@[1]@.subrange(0, i as int));
    }
    assert(c@ =~= pieces@[1]@);
    Ok((n, c))
}

fn utf8_len_exec(c: char) -> (n: usize)
    ensures
        n == utf8_len(c),
{
    let v = c as u32;
    if v < 0x80 {
        1
    } else if v < 0x800 {
        2
    } else if v < 0x10000 {
        3
    } else {
        4
    }
}

impl Scheduler {
    /// A scheduler with no processes.
    pub fn new(switch: SwitchBehavior, io_behavior: IoDoneBehavior, io_length: i32) -> (s: Scheduler)
        ensures
            s@.code.len() == 0,
            s@.states.len() == 0,
            s@.io_times.len() == 0,
            s@.curr == 0,
            s@.clock == 0,
            s@.cpu_busy == 0,
            s@.io_busy == 0,
            s@.switch == switch,
            s@.io_behavior == io_behavior,
            s@.io_length == io_length,
    {
        Scheduler {
            code: Vec::new(),
            states: Vec::new(),
            io_times: Vec::new(),
            curr: 0,
            clock: 0,
            cpu_busy: 0,
            io_busy: 0,
            switch,
            io_behavior,
            io_length,
        }
    }

    /// Adds a process with no code, ready to run; returns its number.
    pub fn new_process(&mut self) -> (pid: usize)
        requires
            old(self)@.code.len() == old(self)@.states.len(),
            old(self)@.io_times.len() == old(self)@.states.len(),
        ensures
            pid == old(self)@.states.len(),
            final(self)@ == (SchedState {
                code: old(self)@.code.push(Seq::empty()),
                states: old(self)@.states.push(ProcState::Ready),
                io_times: old(self)@.io_times.push(Seq::empty()),
                ..old(self)@
            }),
    {
        let pid = self.states.len();
        let ghost c0 = code_rows(self.code@);
        let ghost t0 = time_rows(self.io_times@);
        let e1: Vec<Instr> = Vec::new();
        let e2: Vec<i32> = Vec::new();
        assert(e1@ =~= Seq::<Instr>::empty());
        assert(e2@ =~= Seq::<i32>::empty());
        self.code.push(e1);
        self.states.push(ProcState::Ready);
        self.io_times.push(e2);
        assert(code_rows(self.code@) =~= c0.push(Seq::empty()));
        assert(time_rows(self.io_times@) =~= t0.push(Seq::empty()));
        pid
    }

    /// Adds a process with the code of `program` (such as `c7,i,c1`); where
    /// a piece is a bad opcode the code stops before it and its index is
    /// returned.
    pub fn load_program(&mut self, program: &str) -> (bad: Option<usize>)
        requires
            old(self)@.code.len() == old(self)@.states.len(),
            old(self)@.io_times.len() == old(self)@.states.len(),
        ensures
            ({
                let pc = program_code(split_spec(program@, ','), 0);
                &&& final(self)@ == (SchedState {
                    code: old(self)@.code.push(pc.0),
                    states: old(self)@.states.push(ProcState::Ready),
                    io_times: old(self)@.io_times.push(Seq::empty()),
                    ..old(self)@
                })
                &&& match bad {
                    Some(i) => pc.1 == Some(i as int),
                    None => pc.1 is None,
                }
            }),
    {
        let (code, bad) = program_instrs(program);
        self.add_with_code(code);
        bad
    }

    /// Adds a process whose instructions are CPU where `cpu` says so and an
    /// I/O and its completion otherwise.
    pub fn load_choices(&mut self, cpu: &Vec<bool>)
        requires
            old(self)@.code.len() == old(self)@.states.len(),
            old(self)@.io_times.len() == old(self)@.states.len(),
        ensures
            final(self)@ == (SchedState {
                code: old(self)@.code.push(choice_code(cpu@)),
                states: old(self)@.states.push(ProcState::Ready),
                io_times: old(self)@.io_times.push(Seq::empty()),
                ..old(self)@
            }),
    {
        let code = choice_instrs(cpu);
        self.add_with_code(code);
    }

    fn add_with_code(&mut self, code: Vec<Instr>)
        requires
            old(self)@.code.len() == old(self)@.states.len(),
            old(self)@.io_times.len() == old(self)@.states.len(),
        ensures
            final(self)@ == (SchedState {
                code: old(self)@.code.push(code@),
                states: old(self)@.states.push(ProcState::Ready),
                io_times: old(self)@.io_times.push(Seq::empty()),
                ..old(self)@
            }),
    {
        let pid = self.new_process();
        let ghost c0 = code_rows(self.code@);
        assert(self.code@.len() == c0.len());
        self.code.set(pid, code);
        assert(code_rows(self.code@) =~= c0.update(pid as int, code@));
        assert(code_rows(self.code@) =~= old(self)@.code.push(code@));
    }

    fn move_state_x(&mut self, pid: usize, expected: ProcState, new: ProcState) -> (ok: bool)
        requires
            sched_wf(old(self)@),
            pid < old(self)@.states.len(),
        ensures
            ok ==> move_state(old(self)@, pid as int, expected, new) == Some(final(self)@),
            !ok ==> move_state(old(self)@, pid as int, expected, new) is None,
            !ok ==> final(self)@ == old(self)@,
            sched_wf(final(self)@),
            keeps_data(old(self)@, final(self)@),
    {
        if self.states[pid] == expected {
            self.states.set(pid, new);
            true
        } else {
            false
        }
    }

    fn first_ready_x(&self, lo: usize, hi: usize) -> (r: Option<usize>)
        requires
            hi <= self@.states.len(),
        ensures
            match r {
                Some(p) => first_ready(self@.states, lo as int, hi as int) == Some(p as int) && lo <= p < hi,
                None => first_ready(self@.states, lo as int, hi as int) is None,
            },
    {
        let mut p = lo;
        while p < hi
            invariant
                lo <= p,
                hi <= self@.states.len(),
                first_ready(self@.states, lo as int, hi as int) == first_ready(self@.states, p as int, hi as int),
            decreases hi - p,
        {
            if self.states[p] == ProcState::Ready {
                return Some(p);
            }
            p = p + 1;
        }
        None
    }

    fn next_proc_x(&mut self, pid: Option<usize>) -> (ok: bool)
        requires
            sched_wf(old(self)@),
            pid matches Some(p) ==> p < old(self)@.states.len(),
        ensures
            ok ==> next_proc(old(self)@, match pid {
                Some(p) => Some(p as int),
                None => None,
            }) == Some(final(self)@),
            !ok ==> next_proc(old(self)@, match pid {
                Some(p) => Some(p as int),
                None => None,
            }) is None,
            sched_wf(final(self)@),
            keeps_data(old(self)@, final(self)@),
    {
        match pid {
            Some(p) => {
                self.curr = p;
                self.move_state_x(p, ProcState::Ready, ProcState::Running)
            },
            None => {
                let n = self.states.len();
                match self.first_ready_x(self.curr + 1, n) {
                    Some(p) => {
                        self.curr = p;
                        self.move_state_x(p, ProcState::Ready, ProcState::Running)
                    },
                    None => match self.first_ready_x(0, self.curr + 1) {
                        Some(p) => {
                            self.curr = p;
                            self.move_state_x(p, ProcState::Ready, ProcState::Running)
                        },
                        None => true,
                    },
                }
            },
        }
    }

    fn check_done_x(&mut self) -> (ok: bool)
        requires
            sched_wf(old(self)@),
        ensures
            ok ==> check_done(old(self)@) == Some(final(self)@),
            !ok ==> check_done(old(self)@) is None,
            sched_wf(final(self)@),
            keeps_data(old(self)@, final(self)@),
    {
        assert(self.code@[self.curr as int]@ == self@.code[self.curr as int]);
        if self.code[self.curr].len() == 0 && self.states[self.curr] == ProcState::Running {
            let c = self.curr;
            if !self.move_state_x(c, ProcState::Running, ProcState::Done) {
                return false;
            }
            self.next_proc_x(None)
        } else {
            true
        }
    }

    fn count_runnable_x(&self) -> (n: usize)
        ensures
            n == count_runnable(self@.states),
    {
        let mut n: usize = 0;
        let mut i: usize = 0;
        while i < self.states.len()
            invariant
                i <= self@.states.len(),
                n == count_runnable(self@.states.subrange(0, i as int)),
                n <= i,
            decreases self@.states.len() - i,
        {
            assert(self@.states.subrange(0, i + 1).drop_last() =~= self@.states.subrange(0, i as int));
            if self.states[i] == ProcState::Ready || self.states[i] == ProcState::Running {
                n = n + 1;
            }
            i = i + 1;
        }
        assert(self@.states.subrange(0, i as int) =~= self@.states);
        n
    }

    /// The number of processes that are not done.
    pub fn active_count(&self) -> (n: usize)
        ensures
            n == count_active(self@.states),
    {
        let mut n: usize = 0;
        let mut i: usize = 0;
        while i < self.states.len()
            invariant
                i <= self@.states.len(),
                n == count_active(self@.states.subrange(0, i as int)),
                n <= i,
            decreases self@.states.len() - i,
        {
            assert(self@.states.subrange(0, i + 1).drop_last() =~= self@.states.subrange(0, i as int));
            if self.states[i] != ProcState::Done {
                n = n + 1;
            }
            i = i + 1;
        }
        assert(self@.states.subrange(0, i as int) =~= self@.states);
        n
    }

    fn io_complete_x(&mut self, pid: usize) -> (ok: bool)
        requires
            sched_wf(old(self)@),
            pid < old(self)@.states.len(),
        ensures
            ok ==> io_complete(old(self)@, pid as int) == Some(final(self)@),
            !ok ==> io_complete(old(self)@, pid as int) is None,
            sched_wf(final(self)@),
            keeps_data(old(self)@, final(self)@),
    {
        if !self.move_state_x(pid, ProcState::Waiting, ProcState::Ready) {
            return false;
        }
        if self.io_behavior == IoDoneBehavior::RunImmediate {
            if self.curr != pid && self.states[self.curr] == ProcState::Running {
                let c = self.curr;
                if !self.move_state_x(c, ProcState::Running, ProcState::Ready) {
                    return false;
                }
            }
            if !self.next_proc_x(Some(pid)) {
                return false;
            }
        } else {
            if self.switch == SwitchBehavior::OnEnd {
                if !self.next_proc_x(Some(pid)) {
                    return false;
                }
            }
            if self.count_runnable_x() == 1 {
                if !self.next_proc_x(Some(pid)) {
                    return false;
                }
            }
        }
        self.check_done_x()
    }

    fn in_flight_x(&self, t: i32) -> (n: u64)
        ensures
            n as int == in_flight(self@.io_times, t) || (n == u64::MAX && in_flight(self@.io_times, t) > i32::MAX),
    {
        let mut n: u64 = 0;
        let mut p: usize = 0;
        let ghost rows = self@.io_times;
        while p < self.io_times.len()
            invariant
                rows == self@.io_times,
                p <= rows.len(),
                n as int == in_flight(rows.subrange(0, p as int), t),
                n <= i32::MAX,
            decreases rows.len() - p,
        {
            let ghost pre = rows.subrange(0, p as int);
            assert(rows.subrange(0, p + 1).drop_last() =~= pre);
            assert(rows.subrange(0, p + 1).last() == rows[p as int]);
            let row = &self.io_times[p];
            assert(row@ == rows[p as int]);
            let mut k: usize = 0;
            let ghost base = n;
            while k < row.len()
                invariant
                    rows == self@.io_times,
                    p < rows.len(),
                    row@ == rows[p as int],
                    base as int == in_flight(rows.subrange(0, p as int), t),
                    k <= row@.len(),
                    n as int == base + row@.subrange(0, k as int).filter(|x: i32| x > t).len(),
                    n <= i32::MAX,
                decreases row@.len() - k,
            {
                let ghost pre2 = row@.subrange(0, k as int);
                assert(row@.subrange(0, k + 1) =~= pre2.push(row@[k as int]));
                proof {
                    pre2.lemma_filter_push(row@[k as int], |x: i32| x > t);
                }
                if row[k] > t {
                    if n == 2147483647 {
                        proof {
                            lemma_in_flight_grows(rows, t, p as int, k as int);
                        }
                        return u64::MAX;
                    }
                    n = n + 1;
                }
                k = k + 1;
            }
            assert(row@.subrange(0, k as int) =~= row@);
            p = p + 1;
        }
        assert(rows.subrange(0, p as int) =~= rows);
        n
    }

    /// Starts the run: process 0 becomes the current process and runs.
    /// `false` where there is no process or process 0 is not ready.
    pub fn start(&mut self) -> (ok: bool)
        requires
            old(self)@.code.len() == old(self)@.states.len(),
            old(self)@.io_times.len() == old(self)@.states.len(),
            old(self)@.states.len() < i32::MAX,
        ensures
            ok ==> old(self)@.states.len() > 0 && move_state(SchedState { curr: 0, ..old(self)@ }, 0, ProcState::Ready, ProcState::Running) == Some(final(self)@) && sched_wf(final(self)@),
            !ok ==> old(self)@.states.len() == 0 || old(self)@.states[0] != ProcState::Ready,
    {
        if self.states.len() == 0 {
            return false;
        }
        if self.states[0] != ProcState::Ready {
            return false;
        }
        self.curr = 0;
        self.move_state_x(0, ProcState::Ready, ProcState::Running)
    }

    /// One clock tick (see `tick_spec`); `None` where the scheduler aborts.
    pub fn tick(&mut self) -> (r: Option<TickRecord>)
        requires
            sched_wf(old(self)@),
        ensures
            match r {
                Some(rec) => {
                    &&& tick_spec(old(self)@) == Some((final(self)@, rec.executed, rec.states@, rec.outstanding as int, rec.curr as int))
                    &&& rec.clock == old(self)@.clock + 1
                    &&& rec.io_done == any_io_due(SchedState { clock: rec.clock, ..old(self)@ }, old(self)@.states.len() as int)
                    &&& sched_wf(final(self)@)
                },
                None => tick_spec(old(self)@) is None,
            },
    {
        let ghost s = self@;
        if self.clock == i32::MAX {
            return None;
        }
        self.clock = self.clock + 1;
        let ghost s0 = self@;
        let n = self.states.len();
        let mut io_done = false;
        let mut pid: usize = 0;
        while pid < n
            invariant
                n == s0.states.len(),
                pid <= n,
                sched_wf(self@),
                sched_wf(s0),
                io_phase(s0, pid as int) == Some(self@),
                self@.io_times == s0.io_times,
                self@.clock == s0.clock,
                self@.states.len() == n,
                io_done == any_io_due(s0, pid as int),
                s == old(self)@,
                s.clock < i32::MAX,
                s0 == (SchedState { clock: (s.clock + 1) as i32, ..s }),
            decreases n - pid,
        {
            let due = vec_contains(&self.io_times[pid], self.clock);
            assert(self.io_times@[pid as int]@ == self@.io_times[pid as int]);
            let ghost before = self@;
            if due {
                io_done = true;
                if !self.io_complete_x(pid) {
                    proof {
                        assert(io_phase(s0, pid as int + 1) == io_complete(before, pid as int));
                        lemma_io_phase_none(s0, pid as int + 1, n as int);
                    }
                    return None;
                }
            }
            proof {
                if !due && io_done == false {
                    assert forall|p: int| 0 <= p < pid + 1 implies !(#[trigger] s0.io_times[p]).contains(s0.clock) by {
                        if p < pid {
                            assert(!any_io_due(s0, pid as int));
                        }
                    }
                }
            }
            pid = pid + 1;
        }
        let ghost s1 = self@;
        let c = self.curr;
        let snapshot_curr = c;
        assert(self.code@[c as int]@ == s1.code[c as int]);
        let runs = self.states[c] == ProcState::Running && self.code[c].len() > 0;
        let mut executed: Option<Instr> = None;
        if runs {
            if self.cpu_busy == i32::MAX {
                return None;
            }
            let mut row: Vec<Instr> = Vec::new();
            self.code.set_and_swap(c, &mut row);
            let ins = row.remove(0);
            self.code.set(c, row);
            executed = Some(ins);
            self.cpu_busy = self.cpu_busy + 1;
            assert(code_rows(self.code@) =~= s1.code.update(c as int, s1.code[c as int].drop_first()));
        }
        let states = copy_states(&self.states);
        let out = self.in_flight_x(self.clock);
        if out > 2147483647 {
            return None;
        }
        if out > 0 {
            if self.io_busy == i32::MAX {
                return None;
            }
            self.io_busy = self.io_busy + 1;
        }
        if executed == Some(Instr::Io) {
            let c = self.curr;
            if !self.move_state_x(c, ProcState::Running, ProcState::Waiting) {
                return None;
            }
            let fin = self.clock as i64 + self.io_length as i64 + 1;
            if fin < -2147483648 || fin > 2147483647 {
                return None;
            }
            let mut row: Vec<i32> = Vec::new();
            let ghost t0 = time_rows(self.io_times@);
            self.io_times.set_and_swap(c, &mut row);
            row.push(fin as i32);
            self.io_times.set(c, row);
            assert(time_rows(self.io_times@) =~= t0.update(c as int, t0[c as int].push(fin as i32)));
            if self.switch == SwitchBehavior::OnIo {
                if !self.next_proc_x(None) {
                    return None;
                }
            }
        }
        if !self.check_done_x() {
            return None;
        }
        Some(TickRecord {
            clock: self.clock,
            io_done,
            curr: snapshot_curr,
            executed,
            states,
            outstanding: out as i32,
        })
    }
}

/// The instructions of `program` (such as `c7,i,c1`), up to its first bad
/// piece, and the index of that piece.
fn program_instrs(program: &str) -> (r: (Vec<Instr>, Option<usize>))
    ensures
        ({
            let pc = program_code(split_spec(program@, ','), 0);
            &&& r.0@ == pc.0
            &&& match r.1 {
                Some(i) => pc.1 == Some(i as int),
                None => pc.1 is None,
            }
        }),
{
    let cs = chars_of(program);
    let pieces = split_chars(&cs, ',');
    let ghost ps = split_spec(program@, ',');
    let mut code: Vec<Instr> = Vec::new();
    let mut i: usize = 0;
    let mut bad: Option<usize> = None;
    while i < pieces.len() && bad.is_none()
        invariant
            views_of(pieces@) == ps,
            i <= ps.len(),
            match bad {
                None => program_code(ps, 0) == (code@ + program_code(ps, i as int).0, program_code(ps, i as int).1),
                Some(b) => b == i && program_code(ps, 0) == (code@, Some(i as int)),
            },
        decreases ps.len() - i, (if bad is None { 1int } else { 0int }),
    {
        let p = &pieces[i];
        assert(p@ == ps[i as int]);
        if p.len() > 0 && p[0] == 'c' {
            let mut k: usize = 1;
            let ghost base = code@;
            let ghost tail = p@.drop_first();
            while k < p.len()
                invariant
                    1 <= k <= p@.len(),
                    tail == p@.drop_first(),
                    code@ == base + Seq::new(utf8_len_of(tail.subrange(0, k - 1)), |j: int| Instr::Cpu),
                decreases p@.len() - k,
            {
                let n = utf8_len_exec(p[k]);
                let ghost pre = tail.subrange(0, k - 1);
                let ghost nxt = tail.subrange(0, k as int);
                assert(nxt.drop_last() =~= pre);
                assert(nxt.last() == p@[k as int]);
                assert(utf8_len_of(nxt) == utf8_len_of(pre) + n);
                let mut m: usize = 0;
                let ghost base2 = code@;
                while m < n
                    invariant
                        m <= n <= 4,
                        code@ == base2 + Seq::new(m as nat, |j: int| Instr::Cpu),
                    decreases n - m,
                {
                    code.push(Instr::Cpu);
                    m = m + 1;
                    assert(code@ =~= base2 + Seq::new(m as nat, |j: int| Instr::Cpu));
                }
                assert(code@ =~= base + Seq::new(utf8_len_of(nxt), |j: int| Instr::Cpu));
                k = k + 1;
            }
            assert(tail.subrange(0, k - 1) =~= tail);
            let ghost rest = program_code(ps, i + 1);
            assert(program_code(ps, i as int) == (piece_code(ps[i as int])->0 + rest.0, rest.1));
            assert(code@ + rest.0 =~= base + (piece_code(ps[i as int])->0 + rest.0));
            i = i + 1;
        } else if p.len() > 0 && p[0] == 'i' {
            let ghost base = code@;
            code.push(Instr::Io);
            code.push(Instr::IoDone);
            let ghost rest = program_code(ps, i + 1);
            assert(code@ + rest.0 =~= base + (seq![Instr::Io, Instr::IoDone] + rest.0));
            i = i + 1;
        } else {
            bad = Some(i);
            assert(program_code(ps, i as int) == (Seq::<Instr>::empty(), Some(i as int)));
            assert(code@ + Seq::<Instr>::empty() =~= code@);
        }
    }
    proof {
        if bad is None {
            assert(program_code(ps, i as int) == (Seq::<Instr>::empty(), None::<int>));
            assert(code@ + Seq::<Instr>::empty() =~= code@);
        }
    }
    (code, bad)
}

/// The instructions chosen by `cpu`: CPU where it holds, an I/O and its
/// completion otherwise.
fn choice_instrs(cpu: &Vec<bool>) -> (code: Vec<Instr>)
    ensures
        code@ == choice_code(cpu@),
{
    let mut code: Vec<Instr> = Vec::new();
    let mut i: usize = 0;
    while i < cpu.len()
        invariant
            i <= cpu@.len(),
            code@ == choice_code(cpu@.subrange(0, i as int)),
        decreases cpu@.len() - i,
    {
        let ghost pre = cpu@.subrange(0, i as int);
        assert(cpu@.subrange(0, i + 1).drop_last() =~= pre);
        if cpu[i] {
            code.push(Instr::Cpu);
        } else {
            code.push(Instr::Io);
            code.push(Instr::IoDone);
        }
        i = i + 1;
        assert(code@ =~= choice_code(cpu@.subrange(0, i as int)));
    }
    assert(cpu@.subrange(0, i as int) =~= cpu@);
    code
}

/// The code of a process whose instructions are CPU where `cpu` says so and
/// an I/O with its completion otherwise.
pub open spec fn choice_code(cpu: Seq<bool>) -> Seq<Instr>
    decreases cpu.len(),
{
    if cpu.len() == 0 {
        Seq::empty()
    } else {
        choice_code(cpu.drop_last()) + if cpu.last() {
            seq![Instr::Cpu]
        } else {
            seq![Instr::Io, Instr::IoDone]
        }
    }
}

fn vec_contains(v: &Vec<i32>, x: i32) -> (r: bool)
    ensures
        r == v@.contains(x),
{
    let mut i: usize = 0;
    while i < v.len()
        invariant
            i <= v@.len(),
            forall|k: int| 0 <= k < i ==> v@[k] != x,
        decreases v@.len() - i,
    {
        if v[i] == x {
            assert(v@[i as int] == x);
            return true;
        }
        i = i + 1;
    }
    false
}

fn copy_states(v: &Vec<ProcState>) -> (r: Vec<ProcState>)
    ensures
        r@ == v@,
{
    let mut r: Vec<ProcState> = Vec::new();
    let mut i: usize = 0;
    while i < v.len()
        invariant
            i <= v@.len(),
            r@ == v@.subrange(0, i as int),
        decreases v@.len() - i,
    {
        r.push(v[i]);
        i = i + 1;
        assert(r@ =~= v@.subrange(0, i as int));
    }
    assert(r@ =~= v@);
    r
}

proof fn lemma_io_phase_none(s: SchedState, k: int, n: int)
    requires
        0 <= k <= n,
        io_phase(s, k) is None,
    ensures
        io_phase(s, n) is None,
    decreases n - k,
{
    if k < n {
        lemma_io_phase_none(s, k + 1, n);
    }
}

proof fn lemma_in_flight_prefix(rows: Seq<Seq<i32>>, t: i32, q: int)
    requires
        0 <= q <= rows.len(),
    ensures
        in_flight(rows, t) >= in_flight(rows.subrange(0, q), t),
    decreases rows.len(),
{
    if q < rows.len() {
        assert(rows.drop_last().subrange(0, q) =~= rows.subrange(0, q));
        lemma_in_flight_prefix(rows.drop_last(), t, q);
    } else {
        assert(rows.subrange(0, q) =~= rows);
    }
}

proof fn lemma_in_flight_grows(rows: Seq<Seq<i32>>, t: i32, p: int, k: int)
    requires
        0 <= p < rows.len(),
        0 <= k < rows[p].len(),
        rows[p][k] > t,
        in_flight(rows.subrange(0, p), t) + rows[p].subrange(0, k).filter(|x: i32| x > t).len() == i32::MAX,
    ensures
        in_flight(rows, t) > i32::MAX,
{
    let f = |x: i32| x > t;
    let row = rows[p];
    assert(row.subrange(0, k + 1) =~= row.subrange(0, k).push(row[k]));
    row.subrange(0, k).lemma_filter_len_push(f, row[k]);
    row.lemma_filter_take_len(f, k + 1);
    assert(row.take(k + 1) =~= row.subrange(0, k + 1));
    let pre = rows.subrange(0, p + 1);
    assert(pre.drop_last() =~= rows.subrange(0, p));
    assert(pre.last() == row);
    assert(in_flight(pre, t) == in_flight(rows.subrange(0, p), t) + row.filter(f).len());
    lemma_in_flight_prefix(rows, t, p + 1);
}

/// `b` has the processes of `a`, a current process among them, and every
/// process done in `a` is still done in `b`.
pub open spec fn done_kept(a: SchedState, b: SchedState) -> bool {
    &&& b.states.len() == a.states.len()
    &&& 0 <= b.curr < b.states.len()
    &&& forall|q: int| 0 <= q < a.states.len() && a.states[q] == ProcState::Done ==> #[trigger] b.states[q] == ProcState::Done
}

proof fn lemma_done_kept_trans(a: SchedState, b: SchedState, c: SchedState)
    requires
        done_kept(a, b),
        done_kept(b, c),
    ensures
        done_kept(a, c),
{
    assert forall|q: int| 0 <= q < a.states.len() && a.states[q] == ProcState::Done implies #[trigger] c.states[q] == ProcState::Done by {
        assert(b.states[q] == ProcState::Done);
    }
}

proof fn lemma_first_ready_range(states: Seq<ProcState>, lo: int, hi: int)
    ensures
        first_ready(states, lo, hi) matches Some(p) ==> lo <= p < hi,
    decreases hi - lo,
{
    if lo < hi && states[lo] != ProcState::Ready {
        lemma_first_ready_range(states, lo + 1, hi);
    }
}

proof fn lemma_move_kept(s: SchedState, pid: int, e: ProcState, n: ProcState)
    requires
        0 <= pid < s.states.len(),
        0 <= s.curr < s.states.len(),
        e != ProcState::Done,
    ensures
        move_state(s, pid, e, n) matches Some(t) ==> done_kept(s, t),
{
}

proof fn lemma_next_kept(s: SchedState, pid: Option<int>)
    requires
        0 <= s.curr < s.states.len(),
        pid matches Some(p) ==> 0 <= p < s.states.len(),
    ensures
        next_proc(s, pid) matches Some(t) ==> done_kept(s, t),
{
    lemma_first_ready_range(s.states, s.curr + 1, s.states.len() as int);
    lemma_first_ready_range(s.states, 0, s.curr + 1);
    match pid {
        Some(p) => lemma_move_kept(SchedState { curr: p, ..s }, p, ProcState::Ready, ProcState::Running),
        None => match first_ready(s.states, s.curr + 1, s.states.len() as int) {
            Some(p) => lemma_move_kept(SchedState { curr: p, ..s }, p, ProcState::Ready, ProcState::Running),
            None => match first_ready(s.states, 0, s.curr + 1) {
                Some(p) => lemma_move_kept(SchedState { curr: p, ..s }, p, ProcState::Ready, ProcState::Running),
                None => {},
            },
        },
    }
}

proof fn lemma_check_done_kept(s: SchedState)
    requires
        0 <= s.curr < s.states.len(),
    ensures
        check_done(s) matches Some(t) ==> done_kept(s, t),
{
    if s.code[s.curr].len() == 0 && s.states[s.curr] == ProcState::Running {
        if let Some(s1) = move_state(s, s.curr, ProcState::Running, ProcState::Done) {
            lemma_next_kept(s1, None);
            if let Some(t) = next_proc(s1, None) {
                lemma_done_kept_trans(s, s1, t);
            }
        }
    }
}

proof fn lemma_io_complete_kept(s: SchedState, pid: int)
    requires
        0 <= pid < s.states.len(),
        0 <= s.curr < s.states.len(),
    ensures
        io_complete(s, pid) matches Some(t) ==> done_kept(s, t),
{
    lemma_move_kept(s, pid, ProcState::Waiting, ProcState::Ready);
    if let Some(s1) = move_state(s, pid, ProcState::Waiting, ProcState::Ready) {
        let s1b = if s1.io_behavior == IoDoneBehavior::RunImmediate {
            if s1.curr != pid && s1.states[s1.curr] == ProcState::Running {
                lemma_move_kept(s1, s1.curr, ProcState::Running, ProcState::Ready);
                move_state(s1, s1.curr, ProcState::Running, ProcState::Ready)
            } else {
                Some(s1)
            }
        } else {
            if s1.switch == SwitchBehavior::OnEnd {
                lemma_next_kept(s1, Some(pid));
                next_proc(s1, Some(pid))
            } else {
                Some(s1)
            }
        };
        if let Some(t) = s1b {
            lemma_done_kept_trans(s, s1, t);
            lemma_next_kept(t, Some(pid));
            let s2 = if s1.io_behavior == IoDoneBehavior::RunImmediate {
                next_proc(t, Some(pid))
            } else if count_runnable(t.states) == 1 {
                next_proc(t, Some(pid))
            } else {
                Some(t)
            };
            if let Some(u) = s2 {
                lemma_done_kept_trans(s, t, u);
                lemma_check_done_kept(u);
                if let Some(w) = check_done(u) {
                    lemma_done_kept_trans(s, u, w);
                }
            }
        }
    }
}

proof fn lemma_io_phase_kept(s: SchedState, k: int)
    requires
        0 <= k <= s.states.len(),
        0 <= s.curr < s.states.len(),
    ensures
        io_phase(s, k) matches Some(t) ==> done_kept(s, t),
    decreases k,
{
    if k > 0 {
        lemma_io_phase_kept(s, k - 1);
        if let Some(t) = io_phase(s, k - 1) {
            if t.io_times[k - 1].contains(t.clock) {
                lemma_io_complete_kept(t, k - 1);
                if let Some(u) = io_complete(t, k - 1) {
                    lemma_done_kept_trans(s, t, u);
                }
            }
        }
    }
}

proof fn lemma_exec_kept(s: SchedState)
    requires
        0 <= s.curr < s.states.len(),
    ensures
        exec_phase(s) matches Some((t, _, _, _)) ==> done_kept(s, t),
{
    let runs = s.states[s.curr] == ProcState::Running && s.code[s.curr].len() > 0;
    let instr = if runs { Some(s.code[s.curr][0]) } else { None };
    let s1 = if runs {
        SchedState { code: s.code.update(s.curr, s.code[s.curr].drop_first()), cpu_busy: (s.cpu_busy + 1) as i32, ..s }
    } else {
        s
    };
    let out = in_flight(s1.io_times, s1.clock);
    let s2 = if out > 0 { SchedState { io_busy: (s1.io_busy + 1) as i32, ..s1 } } else { s1 };
    assert(done_kept(s, s2));
    if instr == Some(Instr::Io) {
        lemma_move_kept(s2, s2.curr, ProcState::Running, ProcState::Waiting);
        if let Some(t) = move_state(s2, s2.curr, ProcState::Running, ProcState::Waiting) {
            lemma_done_kept_trans(s, s2, t);
            let t2 = SchedState {
                io_times: t.io_times.update(t.curr, t.io_times[t.curr].push((t.clock + t.io_length + 1) as i32)),
                ..t
            };
            assert(done_kept(t, t2));
            lemma_done_kept_trans(s, t, t2);
            lemma_next_kept(t2, None);
            if let Some(u) = next_proc(t2, None) {
                lemma_done_kept_trans(s, t2, u);
                lemma_check_done_kept(u);
                if let Some(w) = check_done(u) {
                    lemma_done_kept_trans(s, u, w);
                }
            }
            lemma_check_done_kept(t2);
            if let Some(w) = check_done(t2) {
                lemma_done_kept_trans(s, t2, w);
            }
        }
    } else {
        lemma_check_done_kept(s2);
        if let Some(w) = check_done(s2) {
            lemma_done_kept_trans(s, s2, w);
        }
    }
}

/// A finished process stays finished: no tick brings a done process back,
/// and the scheduler keeps its processes and a current one among them.
pub proof fn law_done_stays_done(s: SchedState)
    requires
        sched_wf(s),
    ensures
        tick_spec(s) matches Some((t, _, _, _, _)) ==> done_kept(s, t),
{
    let s0 = SchedState { clock: (s.clock + 1) as i32, ..s };
    if s.clock != i32::MAX {
        lemma_io_phase_kept(s0, s.states.len() as int);
        if let Some(s1) = io_phase(s0, s.states.len() as int) {
            assert(done_kept(s, s0));
            lemma_done_kept_trans(s, s0, s1);
            lemma_exec_kept(s1);
            if let Some((s2, _, _, _)) = exec_phase(s1) {
                lemma_done_kept_trans(s, s1, s2);
            }
        }
    }
}


proof fn lemma_two_runnable(states: Seq<ProcState>, a: int, b: int)
    requires
        0 <= a < states.len(),
        0 <= b < states.len(),
        a != b,
        is_runnable(states[a]),
        is_runnable(states[b]),
    ensures
        count_runnable(states) >= 2,
    decreases states.len(),
{
    let n = states.len() - 1;
    let d = states.drop_last();
    if a != n && b != n {
        assert(d[a] == states[a] && d[b] == states[b]);
        lemma_two_runnable(d, a, b);
    } else {
        let o = if a == n { b } else { a };
        assert(d[o] == states[o]);
        lemma_one_runnable(d, o);
    }
}

proof fn lemma_one_runnable(states: Seq<ProcState>, a: int)
    requires
        0 <= a < states.len(),
        is_runnable(states[a]),
    ensures
        count_runnable(states) >= 1,
    decreases states.len(),
{
    lemma_count_runnable_nonneg(states.drop_last());
    if a != states.len() - 1 {
        assert(states.drop_last()[a] == states[a]);
        lemma_one_runnable(states.drop_last(), a);
    }
}

proof fn lemma_count_runnable_nonneg(states: Seq<ProcState>)
    ensures
        count_runnable(states) >= 0,
    decreases states.len(),
{
    if states.len() > 0 {
        lemma_count_runnable_nonneg(states.drop_last());
    }
}

/// When the I/O of process `p` completes while another process `q` is
/// running (and has code left), under SWITCH_ON_IO: with IO_RUN_LATER, `q`
/// keeps running and stays current, and `p` only goes from waiting to
/// ready; with IO_RUN_IMMEDIATE, `p` (which has code left) becomes current
/// and running at once, and `q` is preempted to ready. Nothing else
/// changes.
pub proof fn law_io_completion(s: SchedState, p: int)
    requires
        sched_wf(s),
        0 <= p < s.states.len(),
        s.curr != p,
        s.states[p] == ProcState::Waiting,
        s.states[s.curr] == ProcState::Running,
        s.code[s.curr].len() > 0,
        s.code[p].len() > 0,
        s.switch == SwitchBehavior::OnIo,
    ensures
        s.io_behavior == IoDoneBehavior::RunLater ==> io_complete(s, p) == Some(
            SchedState { states: s.states.update(p, ProcState::Ready), ..s },
        ),
        s.io_behavior == IoDoneBehavior::RunImmediate ==> io_complete(s, p) == Some(
            SchedState { states: s.states.update(p, ProcState::Running).update(s.curr, ProcState::Ready), curr: p, ..s },
        ),
{
    let q = s.curr;
    let s1 = SchedState { states: s.states.update(p, ProcState::Ready), ..s };
    if s.io_behavior == IoDoneBehavior::RunLater {
        lemma_two_runnable(s1.states, p, q);
    } else if s.io_behavior == IoDoneBehavior::RunImmediate {
        let t = SchedState { states: s1.states.update(q, ProcState::Ready), ..s1 };
        assert(t.states[p] == ProcState::Ready);
        let u = SchedState { curr: p, states: t.states.update(p, ProcState::Running), ..t };
        assert(next_proc(t, Some(p)) == Some(u));
        assert(u.states =~= s.states.update(p, ProcState::Running).update(q, ProcState::Ready));
    }
}

proof fn lemma_first_ready_found(states: Seq<ProcState>, lo: int, hi: int, p: int)
    ensures
        first_ready(states, lo, hi) matches Some(r) ==> lo <= r < hi && states[r] == ProcState::Ready,
        lo <= p < hi && states[p] == ProcState::Ready ==> first_ready(states, lo, hi) is Some,
    decreases hi - lo,
{
    if lo < hi && states[lo] != ProcState::Ready {
        lemma_first_ready_found(states, lo + 1, hi, p);
    }
}

proof fn lemma_waiting_stays(s: SchedState, k: int)
    requires
        sched_wf(s),
        0 <= k < s.states.len(),
        s.states[k] == ProcState::Waiting,
    ensures
        next_proc(s, None) matches Some(t) ==> t.states[k] == ProcState::Waiting && t.states.len() == s.states.len() && 0 <= t.curr < t.states.len(),
        check_done(s) matches Some(t) ==> t.states[k] == ProcState::Waiting && t.states.len() == s.states.len(),
{
    let n = s.states.len() as int;
    lemma_first_ready_found(s.states, s.curr + 1, n, 0);
    lemma_first_ready_found(s.states, 0, s.curr + 1, 0);
    if s.code[s.curr].len() == 0 && s.states[s.curr] == ProcState::Running {
        let s1 = SchedState { states: s.states.update(s.curr, ProcState::Done), ..s };
        lemma_first_ready_found(s1.states, s1.curr + 1, n, 0);
        lemma_first_ready_found(s1.states, 0, s1.curr + 1, 0);
    }
}

/// Running an I/O instruction: the running process `p` runs it (counted as
/// CPU work), goes from running to waiting, and gets an I/O completion
/// `io_length + 1` ticks after the current clock. Under SWITCH_ON_END `p`
/// stays the current process; under SWITCH_ON_IO another process becomes
/// current where one is ready. Running any other instruction only takes
/// it off the process's code and counts CPU work.
pub proof fn law_exec_instruction(s: SchedState)
    requires
        sched_wf(s),
        s.states[s.curr] == ProcState::Running,
        s.code[s.curr].len() > 0,
        exec_phase(s) is Some,
    ensures
        ({
            let p = s.curr;
            let (t, instr, _, _) = exec_phase(s)->0;
            &&& instr == Some(s.code[p][0])
            &&& t.code[p] == s.code[p].drop_first()
            &&& t.cpu_busy == s.cpu_busy + 1
            &&& s.code[p][0] == Instr::Io ==> {
                &&& t.states[p] == ProcState::Waiting
                &&& t.io_times[p] == s.io_times[p].push((s.clock + s.io_length + 1) as i32)
                &&& s.switch == SwitchBehavior::OnEnd ==> t.curr == p
                &&& s.switch == SwitchBehavior::OnIo && (exists|q: int| 0 <= q < s.states.len() && s.states[q] == ProcState::Ready) ==> t.curr != p
            }
            &&& s.code[p][0] != Instr::Io && s.code[p].len() > 1 ==> t.states == s.states && t.curr == p && t.io_times == s.io_times
        }),
{
    let p = s.curr;
    let n = s.states.len() as int;
    if s.code[p][0] == Instr::Io {
        let s1 = SchedState { code: s.code.update(p, s.code[p].drop_first()), cpu_busy: (s.cpu_busy + 1) as i32, ..s };
        let out = in_flight(s1.io_times, s1.clock);
        let s2 = if out > 0 { SchedState { io_busy: (s1.io_busy + 1) as i32, ..s1 } } else { s1 };
        let t = SchedState { states: s2.states.update(p, ProcState::Waiting), ..s2 };
        let t2 = SchedState { io_times: t.io_times.update(p, t.io_times[p].push((t.clock + t.io_length + 1) as i32)), ..t };
        lemma_waiting_stays(t2, p);
        if s.switch == SwitchBehavior::OnIo {
            if let Some(u) = next_proc(t2, None) {
                lemma_waiting_stays(u, p);
            }
        } else {
            lemma_waiting_stays(t2, p);
        }
    }
    if s.code[p][0] == Instr::Io && s.switch == SwitchBehavior::OnIo {
        if exists|q: int| 0 <= q < s.states.len() && s.states[q] == ProcState::Ready {
            let q = choose|q: int| 0 <= q < s.states.len() && s.states[q] == ProcState::Ready;
            assert(q != p);
            let s1 = SchedState { code: s.code.update(p, s.code[p].drop_first()), cpu_busy: (s.cpu_busy + 1) as i32, ..s };
            let out = in_flight(s1.io_times, s1.clock);
            let s2 = if out > 0 { SchedState { io_busy: (s1.io_busy + 1) as i32, ..s1 } } else { s1 };
            let t = SchedState { states: s2.states.update(p, ProcState::Waiting), ..s2 };
            let t2 = SchedState { io_times: t.io_times.update(p, t.io_times[p].push((t.clock + t.io_length + 1) as i32)), ..t };
            assert(t2.states[q] == ProcState::Ready);
            lemma_first_ready_found(t2.states, p + 1, n, q);
            lemma_first_ready_found(t2.states, 0, p + 1, q);
            let u = next_proc(t2, None)->0;
            assert(u.curr != p);
            assert(u.states[u.curr] == ProcState::Running);
            assert(u.states[p] == ProcState::Waiting);
            lemma_first_ready_found(u.states, u.curr + 1, n, q);
            lemma_first_ready_found(u.states, 0, u.curr + 1, q);
            if u.code[u.curr].len() == 0 {
                let v = SchedState { states: u.states.update(u.curr, ProcState::Done), ..u };
                lemma_first_ready_found(v.states, v.curr + 1, n, q);
                lemma_first_ready_found(v.states, 0, v.curr + 1, q);
            }
        }
    }
}

proof fn lemma_count_only(states: Seq<ProcState>, p: int)
    requires
        0 <= p < states.len(),
        is_runnable(states[p]),
        forall|k: int| 0 <= k < states.len() && k != p ==> !is_runnable(#[trigger] states[k]),
    ensures
        count_runnable(states) == 1,
    decreases states.len(),
{
    let d = states.drop_last();
    if p < states.len() - 1 {
        assert forall|k: int| 0 <= k < d.len() && k != p implies !is_runnable(#[trigger] d[k]) by {
            assert(d[k] == states[k]);
        }
        assert(d[p] == states[p]);
        lemma_count_only(d, p);
    } else {
        lemma_count_none(d);
    }
}

proof fn lemma_count_none(states: Seq<ProcState>)
    requires
        forall|k: int| 0 <= k < states.len() ==> !is_runnable(#[trigger] states[k]),
    ensures
        count_runnable(states) == 0,
    decreases states.len(),
{
    if states.len() > 0 {
        let d = states.drop_last();
        assert forall|k: int| 0 <= k < d.len() implies !is_runnable(#[trigger] d[k]) by {
            assert(d[k] == states[k]);
        }
        lemma_count_none(d);
    }
}

/// Under IO_RUN_LATER with SWITCH_ON_IO, the I/O completion of process `p`
/// while no other process can run makes `p` current and running at once.
pub proof fn law_io_completion_alone(s: SchedState, p: int)
    requires
        sched_wf(s),
        0 <= p < s.states.len(),
        s.states[p] == ProcState::Waiting,
        forall|k: int| 0 <= k < s.states.len() && k != p ==> !is_runnable(#[trigger] s.states[k]),
        s.code[p].len() > 0,
        s.switch == SwitchBehavior::OnIo,
        s.io_behavior == IoDoneBehavior::RunLater,
    ensures
        io_complete(s, p) == Some(SchedState { states: s.states.update(p, ProcState::Running), curr: p, ..s }),
{
    let s1 = SchedState { states: s.states.update(p, ProcState::Ready), ..s };
    assert forall|k: int| 0 <= k < s1.states.len() && k != p implies !is_runnable(#[trigger] s1.states[k]) by {
        assert(s1.states[k] == s.states[k]);
    }
    lemma_count_only(s1.states, p);
    let u = SchedState { curr: p, states: s1.states.update(p, ProcState::Running), ..s1 };
    assert(u.states =~= s.states.update(p, ProcState::Running));
}

} // verus!
