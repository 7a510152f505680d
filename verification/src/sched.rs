//! Scheduling a list of jobs of known length: first in, first out; shortest
//! job first; and round robin with a time slice. Times are whole seconds.

use vstd::prelude::*;

verus! {

/// The options of a scheduling run, as given on the command line.
pub struct SchedulerOption {
    pub seed: u64,
    pub jobs: u32,
    pub jlist: String,
    pub maxlen: u32,
    pub policy: String,
    pub quantum: u32,
    pub solve: bool,
}

impl SchedulerOption {
    /// The defaults: seed 0, three random jobs of length at most 10, FIFO,
    /// a time slice of 1, no job list, no solution.
    pub fn new() -> (o: SchedulerOption)
        ensures
            o.seed == 0,
            o.jobs == 3,
            o.jlist@ == Seq::<char>::empty(),
            o.maxlen == 10,
            o.policy@ == "FIFO"@,
            o.quantum == 1,
            !o.solve,
    {
        SchedulerOption {
            seed: 0,
            jobs: 3,
            jlist: String::new(),
            maxlen: 10,
            policy: "FIFO".to_owned(),
            quantum: 1,
            solve: false,
        }
    }
}

/// A job: its number and its run time (for round robin: the time it still
/// has to run).
#[derive(Clone, Copy, PartialEq, Eq, Structural, Debug)]
pub struct Job {
    pub jobnum: u32,
    pub runtime: u32,
}

impl Job {
    pub fn new(jobnum: u32, runtime: u32) -> (j: Job)
        ensures
            j.jobnum == jobnum,
            j.runtime == runtime,
    {
        Job { jobnum, runtime }
    }
}

/// `x` put into `t` behind every job that is not longer.
pub open spec fn insert_by_runtime(t: Seq<Job>, x: Job) -> Seq<Job>
    decreases t.len(),
{
    if t.len() == 0 {
        seq![x]
    } else if t.last().runtime <= x.runtime {
        t.push(x)
    } else {
        insert_by_runtime(t.drop_last(), x).push(t.last())
    }
}

/// The jobs in shortest-job-first order: sorted by run time, jobs of equal
/// length in the order they came in (the order of a stable sort).
pub open spec fn sjf_spec(s: Seq<Job>) -> Seq<Job>
    decreases s.len(),
{
    if s.len() == 0 {
        s
    } else {
        insert_by_runtime(sjf_spec(s.drop_last()), s.last())
    }
}

pub open spec fn sorted_by_runtime(s: Seq<Job>) -> bool {
    forall|i: int, j: int| 0 <= i < j < s.len() ==> (#[trigger] s[i]).runtime <= (#[trigger] s[j]).runtime
}

proof fn lemma_insert_at(t: Seq<Job>, x: Job, p: int)
    requires
        0 <= p <= t.len(),
        forall|j: int| p <= j < t.len() ==> (#[trigger] t[j]).runtime > x.runtime,
        p > 0 ==> t[p - 1].runtime <= x.runtime,
    ensures
        insert_by_runtime(t, x) == t.insert(p, x),
    decreases t.len(),
{
    if t.len() == 0 {
        assert(t.insert(p, x) =~= seq![x]);
    } else if p == t.len() {
        assert(t.insert(p, x) =~= t.push(x));
    } else {
        let d = t.drop_last();
        assert(t[t.len() - 1].runtime > x.runtime);
        assert forall|j: int| p <= j < d.len() implies (#[trigger] d[j]).runtime > x.runtime by {
            assert(d[j] == t[j]);
        }
        if p > 0 {
            assert(d[p - 1] == t[p - 1]);
        }
        lemma_insert_at(d, x, p);
        assert(d.insert(p, x).push(t.last()) =~= t.insert(p, x));
    }
}

/// The jobs in shortest-job-first order (see `sjf_spec`).
pub fn sjf_order(jobs: &Vec<Job>) -> (r: Vec<Job>)
    ensures
        r@ == sjf_spec(jobs@),
{
    let mut out: Vec<Job> = Vec::new();
    let mut i: usize = 0;
    while i < jobs.len()
        invariant
            i <= jobs@.len(),
            out@ == sjf_spec(jobs@.subrange(0, i as int)),
        decreases jobs@.len() - i,
    {
        let x = jobs[i];
        let mut p = out.len();
        while p > 0 && out[p - 1].runtime > x.runtime
            invariant
                p <= out@.len(),
                forall|j: int| p <= j < out@.len() ==> (#[trigger] out@[j]).runtime > x.runtime,
            decreases p,
        {
            p = p - 1;
        }
        proof {
            lemma_insert_at(out@, x, p as int);
            let nxt = jobs@.subrange(0, i + 1);
            assert(nxt.drop_last() =~= jobs@.subrange(0, i as int));
            assert(nxt.last() == x);
        }
        out.insert(p, x);
        i = i + 1;
    }
    assert(jobs@.subrange(0, i as int) =~= jobs@);
    out
}

proof fn lemma_insert_sorted(t: Seq<Job>, x: Job)
    requires
        sorted_by_runtime(t),
    ensures
        sorted_by_runtime(insert_by_runtime(t, x)),
        insert_by_runtime(t, x).len() == t.len() + 1,
        forall|j: int| 0 <= j < insert_by_runtime(t, x).len() ==> (#[trigger] insert_by_runtime(t, x)[j]).runtime <= x.runtime
            || (j < t.len() && insert_by_runtime(t, x)[j] == t[j]) || (j >= 1 && insert_by_runtime(t, x)[j] == t[j - 1]),
    decreases t.len(),
{
    let r = insert_by_runtime(t, x);
    if t.len() == 0 {
    } else if t.last().runtime <= x.runtime {
        assert forall|i: int, j: int| 0 <= i < j < r.len() implies (#[trigger] r[i]).runtime <= (#[trigger] r[j]).runtime by {
            if j == r.len() - 1 {
                assert(t[i].runtime <= t[t.len() - 1].runtime || i == t.len() - 1);
            }
        }
    } else {
        let d = t.drop_last();
        assert(sorted_by_runtime(d)) by {
            assert forall|i: int, j: int| 0 <= i < j < d.len() implies (#[trigger] d[i]).runtime <= (#[trigger] d[j]).runtime by {
                assert(d[i] == t[i] && d[j] == t[j]);
            }
        }
        lemma_insert_sorted(d, x);
        let q = insert_by_runtime(d, x);
        assert forall|j: int| 0 <= j < q.len() implies (#[trigger] q[j]).runtime <= t.last().runtime by {
            if q[j].runtime <= x.runtime {
            } else if j < d.len() && q[j] == d[j] {
                assert(d[j] == t[j]);
            } else {
                assert(q[j] == d[j - 1]);
                assert(d[j - 1] == t[j - 1]);
            }
        }
        assert forall|i: int, j: int| 0 <= i < j < r.len() implies (#[trigger] r[i]).runtime <= (#[trigger] r[j]).runtime by {
            if j == r.len() - 1 {
                assert(r[i] == q[i]);
            } else {
                assert(r[i] == q[i] && r[j] == q[j]);
            }
        }
        assert forall|j: int| 0 <= j < r.len() implies (#[trigger] r[j]).runtime <= x.runtime || (j < t.len() && r[j] == t[j]) || (
        j >= 1 && r[j] == t[j - 1]) by {
            if j == r.len() - 1 {
                assert(r[j] == t[j - 1]);
            } else {
                assert(r[j] == q[j]);
                if j < d.len() && q[j] == d[j] {
                    assert(d[j] == t[j]);
                } else if j >= 1 && q[j] == d[j - 1] {
                    assert(d[j - 1] == t[j - 1]);
                }
            }
        }
    }
}

proof fn lemma_insert_multiset(t: Seq<Job>, x: Job)
    ensures
        insert_by_runtime(t, x).to_multiset() == t.to_multiset().insert(x),
    decreases t.len(),
{
    broadcast use vstd::seq_lib::to_multiset_build;
    broadcast use vstd::multiset::group_multiset_axioms;

    let r = insert_by_runtime(t, x);
    if t.len() == 0 {
        assert(t =~= Seq::<Job>::empty());
        assert(r =~= t.push(x));
        assert(r.to_multiset() == t.push(x).to_multiset());
    } else if t.last().runtime <= x.runtime {
        assert(r.to_multiset() == t.push(x).to_multiset());
    } else {
        let d = t.drop_last();
        assert(t =~= d.push(t.last()));
        lemma_insert_multiset(d, x);
        assert(r.to_multiset() == insert_by_runtime(d, x).push(t.last()).to_multiset());
        assert(r.to_multiset() =~= t.to_multiset().insert(x));
    }
}

/// Shortest job first runs the same jobs as were given, shortest first:
/// the order is sorted by run time and is a rearrangement of the list.
pub proof fn law_sjf_sorted(s: Seq<Job>)
    ensures
        sorted_by_runtime(sjf_spec(s)),
        sjf_spec(s).to_multiset() == s.to_multiset(),
    decreases s.len(),
{
    broadcast use vstd::seq_lib::to_multiset_build;

    if s.len() == 0 {
    } else {
        law_sjf_sorted(s.drop_last());
        lemma_insert_sorted(sjf_spec(s.drop_last()), s.last());
        lemma_insert_multiset(sjf_spec(s.drop_last()), s.last());
        assert(s =~= s.drop_last().push(s.last()));
    }
}

/// The jobs of `s` whose run time is `r`, in their order in `s`.
pub open spec fn with_runtime(s: Seq<Job>, r: u32) -> Seq<Job>
    decreases s.len(),
{
    if s.len() == 0 {
        Seq::empty()
    } else if s.last().runtime == r {
        with_runtime(s.drop_last(), r).push(s.last())
    } else {
        with_runtime(s.drop_last(), r)
    }
}

proof fn lemma_insert_with_runtime(t: Seq<Job>, x: Job, r: u32)
    ensures
        with_runtime(insert_by_runtime(t, x), r) == (if x.runtime == r { with_runtime(t, r).push(x) } else { with_runtime(t, r) }),
    decreases t.len(),
{
    let res = insert_by_runtime(t, x);
    if t.len() == 0 {
        assert(res == seq![x]);
        assert(res.drop_last() =~= Seq::<Job>::empty());
        assert(with_runtime(Seq::<Job>::empty(), r) == Seq::<Job>::empty());
        assert(res.last() == x);
    } else if t.last().runtime <= x.runtime {
        assert(res == t.push(x));
        assert(res.drop_last() =~= t);
        assert(res.last() == x);
    } else {
        let d = t.drop_last();
        lemma_insert_with_runtime(d, x, r);
        assert(res == insert_by_runtime(d, x).push(t.last()));
        assert(res.drop_last() =~= insert_by_runtime(d, x));
        assert(res.last() == t.last());
    }
}

/// Shortest job first is stable: the jobs of any one run time come in the
/// order in which they were listed.
pub proof fn law_sjf_keeps_ties_in_order(s: Seq<Job>, r: u32)
    ensures
        with_runtime(sjf_spec(s), r) == with_runtime(s, r),
    decreases s.len(),
{
    if s.len() > 0 {
        law_sjf_keeps_ties_in_order(s.drop_last(), r);
        lemma_insert_with_runtime(sjf_spec(s.drop_last()), s.last(), r);
    }
}

/// The run time of the first `k` jobs together.
pub open spec fn run_before(jobs: Seq<Job>, k: int) -> int
    decreases k,
{
    if k <= 0 {
        0
    } else {
        run_before(jobs, k - 1) + jobs[k - 1].runtime
    }
}

/// When a job of a first-in-first-out run starts and finishes: its
/// response time and wait are its start, its turnaround its finish.
#[derive(Clone, Copy, PartialEq, Eq, Structural, Debug)]
pub struct FifoTimes {
    pub jobnum: u32,
    pub runtime: u32,
    pub start: u64,
    pub finish: u64,
}

/// The jobs run one after the other, in the order given, from time 0.
pub fn fifo_times(jobs: &Vec<Job>) -> (r: Vec<FifoTimes>)
    requires
        run_before(jobs@, jobs@.len() as int) <= u64::MAX,
    ensures
        r@.len() == jobs@.len(),
        forall|i: int|
            0 <= i < jobs@.len() ==> (#[trigger] r@[i]) == (FifoTimes {
                jobnum: jobs@[i].jobnum,
                runtime: jobs@[i].runtime,
                start: run_before(jobs@, i) as u64,
                finish: run_before(jobs@, i + 1) as u64,
            }),
{
    let mut out: Vec<FifoTimes> = Vec::new();
    let mut t: u64 = 0;
    let mut i: usize = 0;
    while i < jobs.len()
        invariant
            i <= jobs@.len(),
            run_before(jobs@, jobs@.len() as int) <= u64::MAX,
            t == run_before(jobs@, i as int),
            out@.len() == i,
            forall|k: int|
                0 <= k < i ==> (#[trigger] out@[k]) == (FifoTimes {
                    jobnum: jobs@[k].jobnum,
                    runtime: jobs@[k].runtime,
                    start: run_before(jobs@, k) as u64,
                    finish: run_before(jobs@, k + 1) as u64,
                }),
        decreases jobs@.len() - i,
    {
        proof {
            lemma_run_before_mono(jobs@, i + 1, jobs@.len() as int);
        }
        let j = jobs[i];
        let fin = t + j.runtime as u64;
        out.push(FifoTimes { jobnum: j.jobnum, runtime: j.runtime, start: t, finish: fin });
        t = fin;
        i = i + 1;
    }
    out
}

proof fn lemma_run_before_mono(jobs: Seq<Job>, j: int, k: int)
    requires
        0 <= j <= k,
    ensures
        run_before(jobs, j) <= run_before(jobs, k),
    decreases k,
{
    if j < k {
        lemma_run_before_mono(jobs, j, k - 1);
    }
}

/// The sum of the finishing times of the jobs run one after the other in
/// the order given: their total turnaround, all jobs arriving at time 0.
pub open spec fn total_turnaround(jobs: Seq<Job>) -> int
    decreases jobs.len(),
{
    if jobs.len() == 0 {
        0
    } else {
        total_turnaround(jobs.drop_last()) + run_before(jobs, jobs.len() as int)
    }
}

proof fn lemma_run_before_prefix(jobs: Seq<Job>, k: int)
    requires
        0 <= k <= jobs.len(),
        jobs.len() > 0,
    ensures
        k < jobs.len() ==> run_before(jobs.drop_last(), k) == run_before(jobs, k),
    decreases k,
{
    if k > 0 {
        lemma_run_before_prefix(jobs, k - 1);
    }
}

proof fn lemma_run_before_last(jobs: Seq<Job>)
    requires
        jobs.len() > 0,
    ensures
        run_before(jobs, jobs.len() as int) == run_before(jobs.drop_last(), jobs.len() - 1) + jobs.last().runtime,
{
    lemma_run_before_prefix(jobs, jobs.len() - 1);
}

proof fn lemma_insert_total(t: Seq<Job>, x: Job)
    ensures
        run_before(insert_by_runtime(t, x), t.len() + 1int) == run_before(t, t.len() as int) + x.runtime,
        insert_by_runtime(t, x).len() == t.len() + 1,
        total_turnaround(insert_by_runtime(t, x)) <= total_turnaround(t) + run_before(t, t.len() as int) + x.runtime,
    decreases t.len(),
{
    let r = insert_by_runtime(t, x);
    if t.len() == 0 {
        assert(r == seq![x]);
        assert(r.drop_last() =~= Seq::<Job>::empty());
        lemma_run_before_last(r);
        assert(total_turnaround(r) == total_turnaround(r.drop_last()) + run_before(r, 1));
        assert(total_turnaround(r.drop_last()) == 0);
        assert(run_before(t, 0) == 0);
        assert(total_turnaround(t) == 0);
    } else if t.last().runtime <= x.runtime {
        assert(r == t.push(x));
        assert(r.drop_last() =~= t);
        lemma_run_before_last(r);
        assert(total_turnaround(r) == total_turnaround(t) + run_before(r, r.len() as int));
    } else {
        let d = t.drop_last();
        lemma_insert_total(d, x);
        let r1 = insert_by_runtime(d, x);
        assert(r == r1.push(t.last()));
        assert(r.drop_last() =~= r1);
        lemma_run_before_last(r);
        lemma_run_before_last(t);
        assert(t.drop_last() == d);
        assert(total_turnaround(r) == total_turnaround(r1) + run_before(r, r.len() as int));
        assert(total_turnaround(t) == total_turnaround(d) + run_before(t, t.len() as int));
        assert(run_before(r, r.len() as int) == run_before(r1, r1.len() as int) + t.last().runtime);
        assert(run_before(r1, r1.len() as int) == run_before(d, d.len() as int) + x.runtime);
        assert(run_before(t, t.len() as int) == run_before(d, d.len() as int) + t.last().runtime);
    }
}

proof fn lemma_sjf_total(s: Seq<Job>)
    ensures
        sjf_spec(s).len() == s.len(),
        run_before(sjf_spec(s), s.len() as int) == run_before(s, s.len() as int),
        total_turnaround(sjf_spec(s)) <= total_turnaround(s),
    decreases s.len(),
{
    if s.len() > 0 {
        let d = s.drop_last();
        lemma_sjf_total(d);
        lemma_insert_total(sjf_spec(d), s.last());
        lemma_run_before_last(s);
    }
}

/// Shortest job first never does worse than running the jobs in the order
/// given: with all jobs arriving at time 0, the total (and so the average)
/// turnaround of the SJF order is at most that of the FIFO order, and the
/// last job finishes at the same time in both.
pub proof fn law_sjf_beats_fifo(jobs: Seq<Job>)
    ensures
        sjf_spec(jobs).len() == jobs.len(),
        total_turnaround(sjf_spec(jobs)) <= total_turnaround(jobs),
        run_before(sjf_spec(jobs), jobs.len() as int) == run_before(jobs, jobs.len() as int),
{
    lemma_sjf_total(jobs);
}

/// The run times of `jobs`, in order.
pub open spec fn runtimes(jobs: Seq<Job>) -> Seq<u32> {
    Seq::new(jobs.len(), |i: int| jobs[i].runtime)
}

pub open spec fn runtime_leq() -> spec_fn(u32, u32) -> bool {
    |a: u32, b: u32| a <= b
}

proof fn lemma_runtimes_multiset(s: Seq<Job>, p: Seq<Job>)
    requires
        s.to_multiset() == p.to_multiset(),
    ensures
        runtimes(s).to_multiset() == runtimes(p).to_multiset(),
    decreases s.len(),
{
    broadcast use vstd::seq_lib::group_to_multiset_ensures;
    broadcast use vstd::multiset::group_multiset_axioms;

    if s.len() == 0 {
        assert(p.to_multiset().len() == 0);
        assert(p.len() == 0);
        assert(runtimes(s) =~= runtimes(p));
    } else {
        let d = s.drop_last();
        let x = s.last();
        assert(s =~= d.push(x));
        assert(s.to_multiset() == d.to_multiset().insert(x));
        assert(p.to_multiset().count(x) > 0);
        assert(p.contains(x));
        let i = choose|i: int| 0 <= i < p.len() && p[i] == x;
        let q = p.remove(i);
        assert(q.to_multiset() == p.to_multiset().remove(x));
        assert(q.to_multiset() =~= d.to_multiset());
        lemma_runtimes_multiset(d, q);
        assert(runtimes(s) =~= runtimes(d).push(x.runtime));
        assert(runtimes(q) =~= runtimes(p).remove(i));
        assert(runtimes(p)[i] == x.runtime);
        assert(runtimes(q).to_multiset() == runtimes(p).to_multiset().remove(x.runtime));
        assert(runtimes(p).to_multiset().count(x.runtime) > 0) by {
            assert(runtimes(p).contains(x.runtime));
        }
        assert(runtimes(p).to_multiset() =~= runtimes(q).to_multiset().insert(x.runtime));
    }
}

proof fn lemma_turnaround_by_runtimes(a: Seq<Job>, b: Seq<Job>)
    requires
        runtimes(a) == runtimes(b),
    ensures
        total_turnaround(a) == total_turnaround(b),
        run_before(a, a.len() as int) == run_before(b, b.len() as int),
    decreases a.len(),
{
    assert(a.len() == runtimes(a).len());
    assert(b.len() == runtimes(b).len());
    if a.len() > 0 {
        assert(runtimes(a.drop_last()) =~= runtimes(a).drop_last());
        assert(runtimes(b.drop_last()) =~= runtimes(b).drop_last());
        lemma_turnaround_by_runtimes(a.drop_last(), b.drop_last());
        lemma_run_before_last(a);
        lemma_run_before_last(b);
        assert(a.last().runtime == runtimes(a)[a.len() - 1]);
        assert(b.last().runtime == runtimes(b)[b.len() - 1]);
    }
}

/// Shortest job first gives the least total (and so average) turnaround
/// of all orders of the same jobs, all arriving at time 0.
pub proof fn law_sjf_is_optimal(jobs: Seq<Job>, order: Seq<Job>)
    requires
        order.to_multiset() == jobs.to_multiset(),
    ensures
        total_turnaround(sjf_spec(jobs)) <= total_turnaround(order),
{
    let a = sjf_spec(jobs);
    let b = sjf_spec(order);
    law_sjf_sorted(jobs);
    law_sjf_sorted(order);
    lemma_sjf_total(order);
    lemma_runtimes_multiset(a, b);
    let leq = runtime_leq();
    assert(vstd::relations::total_ordering(leq));
    assert(vstd::relations::sorted_by(runtimes(a), leq)) by {
        assert forall|i: int, j: int| 0 <= i < j < runtimes(a).len() implies #[trigger] leq(runtimes(a)[i], runtimes(a)[j]) by {
            assert(a[i].runtime <= a[j].runtime);
        }
    }
    assert(vstd::relations::sorted_by(runtimes(b), leq)) by {
        assert forall|i: int, j: int| 0 <= i < j < runtimes(b).len() implies #[trigger] leq(runtimes(b)[i], runtimes(b)[j]) by {
            assert(b[i].runtime <= b[j].runtime);
        }
    }
    vstd::seq_lib::lemma_sorted_unique(runtimes(a), runtimes(b), leq);
    lemma_turnaround_by_runtimes(a, b);
}

/// In a first-in-first-out run every job waits exactly until it starts
/// and its turnaround is that wait plus its run time; the last job
/// finishes when all the work is done.
pub proof fn law_fifo_turnaround(jobs: Seq<Job>, i: int)
    requires
        0 <= i < jobs.len(),
    ensures
        run_before(jobs, i + 1) == run_before(jobs, i) + jobs[i].runtime,
        run_before(jobs, i + 1) <= run_before(jobs, jobs.len() as int),
{
    lemma_run_before_mono(jobs, i + 1, jobs.len() as int);
}

/// The state of a round-robin run: the run list (each job with the time it
/// still has to run), the clock, and for each job its response time (-1
/// before it first runs), when it last ran, its wait and its turnaround.
pub struct RrState {
    pub queue: Seq<Job>,
    pub time: int,
    pub response: Seq<int>,
    pub lastran: Seq<int>,
    pub wait: Seq<int>,
    pub turnaround: Seq<int>,
    pub jobcount: int,
    pub quantum: int,
}

/// One slice of a round-robin run: the job at the head of the run list
/// runs for a quantum, or for what it has left, and goes to the back of the
/// list if it is not done.
pub open spec fn rr_step(s: RrState) -> RrState {
    let job = s.queue[0];
    let j = job.jobnum as int;
    let rest = s.queue.drop_first();
    let response = if s.response[j] == -1 { s.response.update(j, s.time) } else { s.response };
    let wait = s.wait.update(j, s.wait[j] + s.time - s.lastran[j]);
    if job.runtime > s.quantum {
        let t = s.time + s.quantum;
        RrState {
            queue: rest.push(Job { jobnum: job.jobnum, runtime: (job.runtime - s.quantum) as u32 }),
            time: t,
            response,
            lastran: s.lastran.update(j, t),
            wait,
            ..s
        }
    } else {
        let t = s.time + job.runtime;
        RrState {
            queue: rest,
            time: t,
            response,
            lastran: s.lastran.update(j, t),
            wait,
            turnaround: s.turnaround.update(j, t),
            jobcount: s.jobcount - 1,
            ..s
        }
    }
}

/// What a slice shows: when it starts, the job, how long it runs, and
/// whether the job is done then.
#[derive(Clone, Copy, PartialEq, Eq, Structural, Debug)]
pub struct RrSlice {
    pub start: u64,
    pub jobnum: u32,
    pub ran: u32,
    pub done: bool,
}

/// The total time that the jobs still in the run list have left.
pub open spec fn queue_work(q: Seq<Job>) -> int
    decreases q.len(),
{
    if q.len() == 0 {
        0
    } else {
        queue_work(q.drop_last()) + q.last().runtime
    }
}

/// A round-robin run in progress.
pub struct RoundRobin {
    pub queue: Vec<Job>,
    pub time: u64,
    pub response: Vec<i64>,
    pub lastran: Vec<u64>,
    pub wait: Vec<u64>,
    pub turnaround: Vec<u64>,
    pub jobcount: usize,
    pub quantum: u32,
}

pub open spec fn ints_i64(s: Seq<i64>) -> Seq<int> {
    Seq::new(s.len(), |i: int| s[i] as int)
}

pub open spec fn ints_u64(s: Seq<u64>) -> Seq<int> {
    Seq::new(s.len(), |i: int| s[i] as int)
}

impl View for RoundRobin {
    type V = RrState;

    open spec fn view(&self) -> RrState {
        RrState {
            queue: self.queue@,
            time: self.time as int,
            response: ints_i64(self.response@),
            lastran: ints_u64(self.lastran@),
            wait: ints_u64(self.wait@),
            turnaround: ints_u64(self.turnaround@),
            jobcount: self.jobcount as int,
            quantum: self.quantum as int,
        }
    }
}

/// The jobs of the run list are numbered by their place in it, the
/// per-job tables have an entry for each, the clock and the work left fit
/// comfortably in 62 bits, and the job count is the length of the run
/// list.
pub open spec fn rr_wf(s: RrState) -> bool {
    &&& s.response.len() == s.lastran.len()
    &&& s.wait.len() == s.lastran.len()
    &&& s.turnaround.len() == s.lastran.len()
    &&& forall|i: int| 0 <= i < s.queue.len() ==> (#[trigger] s.queue[i]).jobnum < s.lastran.len()
    &&& forall|j: int| 0 <= j < s.lastran.len() ==> 0 <= #[trigger] s.lastran[j] <= s.time
    &&& forall|j: int| 0 <= j < s.lastran.len() ==> 0 <= #[trigger] s.wait[j] <= s.lastran[j]
    &&& forall|j: int| 0 <= j < s.lastran.len() ==> -1 <= #[trigger] s.response[j] <= s.time
    &&& forall|j: int| 0 <= j < s.lastran.len() ==> 0 <= #[trigger] s.turnaround[j] <= s.time
    &&& 0 <= s.time
    &&& s.time + queue_work(s.queue) <= 0x3fff_ffff_ffff_ffff
    &&& s.jobcount == s.queue.len()
    &&& s.quantum > 0
}

proof fn lemma_queue_work_nonneg(q: Seq<Job>)
    ensures
        queue_work(q) >= 0,
    decreases q.len(),
{
    if q.len() > 0 {
        lemma_queue_work_nonneg(q.drop_last());
    }
}

proof fn lemma_queue_work_first(q: Seq<Job>)
    requires
        q.len() > 0,
    ensures
        queue_work(q) == q[0].runtime + queue_work(q.drop_first()),
    decreases q.len(),
{
    if q.len() > 1 {
        lemma_queue_work_first(q.drop_last());
        assert(q.drop_last().drop_first() =~= q.drop_first().drop_last());
    } else {
        assert(q.drop_first() =~= Seq::<Job>::empty());
        assert(q.drop_last() =~= Seq::<Job>::empty());
    }
}

proof fn lemma_queue_work_push(q: Seq<Job>, x: Job)
    ensures
        queue_work(q.push(x)) == queue_work(q) + x.runtime,
{
    assert(q.push(x).drop_last() =~= q);
}

/// The work in the run list plus the time already run is the same before
/// and after a slice: a slice runs exactly the time it takes from the job.
pub proof fn law_rr_conserves_work(s: RrState)
    requires
        rr_wf(s),
        s.queue.len() > 0,
    ensures
        rr_step(s).time + queue_work(rr_step(s).queue) == s.time + queue_work(s.queue),
        rr_wf(rr_step(s)),
{
    let job = s.queue[0];
    lemma_queue_work_first(s.queue);
    lemma_queue_work_nonneg(s.queue.drop_first());
    if job.runtime > s.quantum {
        lemma_queue_work_push(s.queue.drop_first(), Job { jobnum: job.jobnum, runtime: (job.runtime - s.quantum) as u32 });
    }
    let t = rr_step(s);
    assert forall|i: int| 0 <= i < t.queue.len() implies (#[trigger] t.queue[i]).jobnum < t.lastran.len() by {
        if i < s.queue.len() - 1 {
            assert(t.queue[i] == s.queue[i + 1]);
        }
    }
}

/// The time job `j` still has to run in the run list `q` (0 where it is
/// not in the list).
pub open spec fn left_of(q: Seq<Job>, j: int) -> int
    decreases q.len(),
{
    if q.len() == 0 {
        0
    } else if q.last().jobnum == j {
        q.last().runtime as int
    } else {
        left_of(q.drop_last(), j)
    }
}

/// Whether job `j` is in the run list `q`.
pub open spec fn has_job(q: Seq<Job>, j: int) -> bool
    decreases q.len(),
{
    if q.len() == 0 {
        false
    } else if q.last().jobnum == j {
        true
    } else {
        has_job(q.drop_last(), j)
    }
}

pub open spec fn distinct_jobs(q: Seq<Job>) -> bool {
    forall|a: int, b: int| 0 <= a < b < q.len() ==> (#[trigger] q[a]).jobnum != (#[trigger] q[b]).jobnum
}

/// The bookkeeping of each job `j` of a round-robin run whose jobs had the
/// run times `orig`: each job is in the run list at most once; the time up
/// to its last run is its wait plus the time it has run; a job no longer in
/// the list finished at its last run; a job that has not run yet has
/// neither waited nor run; and a job's response is no later than its wait.
pub open spec fn rr_jobs_ok(s: RrState, orig: Seq<u32>) -> bool {
    &&& orig.len() == s.lastran.len()
    &&& distinct_jobs(s.queue)
    &&& forall|j: int| 0 <= j < orig.len() ==> #[trigger] s.lastran[j] == s.wait[j] + orig[j] - left_of(s.queue, j)
    &&& forall|j: int| 0 <= j < orig.len() && !has_job(s.queue, j) ==> #[trigger] s.turnaround[j] == s.lastran[j]
    &&& forall|j: int| 0 <= j < orig.len() && #[trigger] s.response[j] == -1 ==> s.wait[j] == 0 && s.lastran[j] == 0
    &&& forall|j: int| 0 <= j < orig.len() && #[trigger] s.response[j] != -1 ==> s.response[j] <= s.wait[j]
}

proof fn lemma_left_absent(q: Seq<Job>, j: int)
    requires
        !has_job(q, j),
    ensures
        left_of(q, j) == 0,
    decreases q.len(),
{
    if q.len() > 0 {
        lemma_left_absent(q.drop_last(), j);
    }
}

proof fn lemma_left_first(q: Seq<Job>, j: int)
    requires
        q.len() > 0,
        distinct_jobs(q),
    ensures
        j != q[0].jobnum ==> left_of(q.drop_first(), j) == left_of(q, j) && has_job(q.drop_first(), j) == has_job(q, j),
        j == q[0].jobnum ==> left_of(q, j) == q[0].runtime && has_job(q, j) && !has_job(q.drop_first(), j),
    decreases q.len(),
{
    if q.len() == 1 {
        assert(q.drop_first() =~= Seq::<Job>::empty());
        assert(q.drop_last() =~= Seq::<Job>::empty());
    } else {
        let d = q.drop_last();
        assert(distinct_jobs(d)) by {
            assert forall|a: int, b: int| 0 <= a < b < d.len() implies (#[trigger] d[a]).jobnum != (#[trigger] d[b]).jobnum by {
                assert(d[a] == q[a] && d[b] == q[b]);
            }
        }
        lemma_left_first(d, j);
        assert(d.drop_first() =~= q.drop_first().drop_last());
        assert(q.drop_first().last() == q.last());
        assert(d[0] == q[0]);
        assert(q.last().jobnum != q[0].jobnum) by {
            assert(q[0].jobnum != q[q.len() - 1].jobnum);
        }
    }
}

/// A new round-robin run keeps its books right: each job `i` of the list,
/// numbered by its place, has its full run time `jobs[i].runtime` left.
pub proof fn law_rr_books_start(jobs: Seq<Job>, quantum: int)
    requires
        forall|i: int| 0 <= i < jobs.len() ==> (#[trigger] jobs[i]).jobnum == i,
    ensures
        rr_jobs_ok(
            RrState {
                queue: jobs,
                time: 0,
                response: Seq::new(jobs.len(), |i: int| -1),
                lastran: Seq::new(jobs.len(), |i: int| 0),
                wait: Seq::new(jobs.len(), |i: int| 0),
                turnaround: Seq::new(jobs.len(), |i: int| 0),
                jobcount: jobs.len() as int,
                quantum,
            },
            runtimes(jobs),
        ),
{
    assert forall|j: int| 0 <= j < jobs.len() implies left_of(jobs, j) == jobs[j].runtime && has_job(jobs, j) by {
        lemma_left_numbered(jobs, j, jobs.len() as int);
    }
}

proof fn lemma_left_numbered(jobs: Seq<Job>, j: int, n: int)
    requires
        0 <= j < n <= jobs.len(),
        forall|i: int| 0 <= i < jobs.len() ==> (#[trigger] jobs[i]).jobnum == i,
    ensures
        left_of(jobs.subrange(0, n), j) == jobs[j].runtime,
        has_job(jobs.subrange(0, n), j),
        n == jobs.len() ==> left_of(jobs, j) == jobs[j].runtime && has_job(jobs, j),
    decreases n,
{
    let t = jobs.subrange(0, n);
    assert(t.last() == jobs[n - 1]);
    if n - 1 != j {
        lemma_left_numbered(jobs, j, n - 1);
        assert(t.drop_last() =~= jobs.subrange(0, n - 1));
    }
    if n == jobs.len() {
        assert(t =~= jobs);
    }
}

proof fn lemma_step_queue(s: RrState, j: int)
    requires
        s.queue.len() > 0,
        s.quantum > 0,
        distinct_jobs(s.queue),
    ensures
        ({
            let job = s.queue[0];
            let q = rr_step(s).queue;
            if job.runtime > s.quantum {
                &&& left_of(q, j) == (if j == job.jobnum { job.runtime - s.quantum } else { left_of(s.queue, j) })
                &&& has_job(q, j) == has_job(s.queue, j)
            } else {
                &&& left_of(q, j) == (if j == job.jobnum { 0 } else { left_of(s.queue, j) })
                &&& has_job(q, j) == (j != job.jobnum && has_job(s.queue, j))
            }
        }),
{
    let job = s.queue[0];
    let rest = s.queue.drop_first();
    lemma_left_first(s.queue, j);
    if j == job.jobnum {
        lemma_left_absent(rest, j);
    }
    if job.runtime > s.quantum {
        let y = Job { jobnum: job.jobnum, runtime: (job.runtime - s.quantum) as u32 };
        assert(rr_step(s).queue == rest.push(y));
        assert(rest.push(y).drop_last() =~= rest);
    }
}

/// One round-robin slice keeps the books right (see `rr_jobs_ok`).
pub proof fn law_rr_step_keeps_books(s: RrState, orig: Seq<u32>)
    requires
        rr_wf(s),
        rr_jobs_ok(s, orig),
        s.queue.len() > 0,
    ensures
        rr_jobs_ok(rr_step(s), orig),
{
    let job = s.queue[0];
    let jn = job.jobnum as int;
    let rest = s.queue.drop_first();
    let t = rr_step(s);
    assert forall|j: int| 0 <= j < orig.len() implies left_of(rest, j) == (if j == jn { 0 } else { left_of(s.queue, j) })
        && has_job(rest, j) == (j != jn && has_job(s.queue, j)) by {
        lemma_left_first(s.queue, j);
        if j == jn {
            lemma_left_absent(rest, j);
        }
    }
    lemma_left_first(s.queue, jn);
    assert(distinct_jobs(rest)) by {
        assert forall|a: int, b: int| 0 <= a < b < rest.len() implies (#[trigger] rest[a]).jobnum != (#[trigger] rest[b]).jobnum by {
            assert(rest[a] == s.queue[a + 1] && rest[b] == s.queue[b + 1]);
        }
    }
    if job.runtime > s.quantum {
        let y = Job { jobnum: job.jobnum, runtime: (job.runtime - s.quantum) as u32 };
        assert(t.queue == rest.push(y));
        assert(rest.push(y).drop_last() =~= rest);
        assert forall|j: int| 0 <= j < orig.len() implies left_of(t.queue, j) == (if j == jn { y.runtime as int } else { left_of(rest, j) })
            && has_job(t.queue, j) == (j == jn || has_job(rest, j)) by {
        }
        assert(distinct_jobs(t.queue)) by {
            assert forall|a: int, b: int| 0 <= a < b < t.queue.len() implies (#[trigger] t.queue[a]).jobnum != (#[trigger] t.queue[b]).jobnum by {
                if b == rest.len() {
                    assert(t.queue[a] == s.queue[a + 1]);
                    assert(s.queue[0].jobnum != s.queue[a + 1].jobnum);
                } else {
                    assert(t.queue[a] == rest[a] && t.queue[b] == rest[b]);
                }
            }
        }
    } else {
        assert(t.queue == rest);
    }
    assert(s.lastran[jn] <= s.time);
    assert(left_of(s.queue, jn) == job.runtime);
    assert forall|j: int| 0 <= j < orig.len() implies #[trigger] t.lastran[j] == t.wait[j] + orig[j] - left_of(t.queue, j) by {
        lemma_step_queue(s, j);
        if j != jn {
            assert(t.lastran[j] == s.lastran[j] && t.wait[j] == s.wait[j]);
        }
    }
    assert forall|j: int| 0 <= j < orig.len() && !has_job(t.queue, j) implies #[trigger] t.turnaround[j] == t.lastran[j] by {
        lemma_step_queue(s, j);
        if j != jn {
            assert(t.turnaround[j] == s.turnaround[j] && t.lastran[j] == s.lastran[j]);
        }
    }
    assert forall|j: int| 0 <= j < orig.len() && #[trigger] t.response[j] == -1 implies t.wait[j] == 0 && t.lastran[j] == 0 by {
        if j != jn {
            assert(t.response[j] == s.response[j]);
        }
    }
    assert forall|j: int| 0 <= j < orig.len() && #[trigger] t.response[j] != -1 implies t.response[j] <= t.wait[j] by {
        if j != jn {
            assert(t.response[j] == s.response[j] && t.wait[j] == s.wait[j]);
        }
    }
}

/// In a round-robin run whose books are right (see `law_rr_books_start` and
/// `law_rr_step_keeps_books`), a finished job's turnaround is its wait plus
/// its run time, and a job that has run responded no later than its wait.
pub proof fn law_rr_finished_job(s: RrState, orig: Seq<u32>, j: int)
    requires
        rr_jobs_ok(s, orig),
        0 <= j < orig.len(),
    ensures
        !has_job(s.queue, j) ==> s.turnaround[j] == s.wait[j] + orig[j],
        s.response[j] != -1 ==> s.response[j] <= s.wait[j],
{
    if !has_job(s.queue, j) {
        lemma_left_absent(s.queue, j);
    }
}

impl RoundRobin {
    /// A round-robin run of `jobs` (numbered by their place in the list)
    /// with time slice `quantum`, at time 0.
    pub fn new(jobs: &Vec<Job>, quantum: u32) -> (r: RoundRobin)
        requires
            quantum > 0,
            forall|i: int| 0 <= i < jobs@.len() ==> (#[trigger] jobs@[i]).jobnum == i,
            queue_work(jobs@) <= 0x3fff_ffff_ffff_ffff,
        ensures
            r@ == (RrState {
                queue: jobs@,
                time: 0,
                response: Seq::new(jobs@.len(), |i: int| -1),
                lastran: Seq::new(jobs@.len(), |i: int| 0),
                wait: Seq::new(jobs@.len(), |i: int| 0),
                turnaround: Seq::new(jobs@.len(), |i: int| 0),
                jobcount: jobs@.len() as int,
                quantum: quantum as int,
            }),
            rr_wf(r@),
    {
        let n = jobs.len();
        let mut response: Vec<i64> = Vec::new();
        let mut zeros: Vec<u64> = Vec::new();
        let mut queue: Vec<Job> = Vec::new();
        let mut i: usize = 0;
        while i < n
            invariant
                n == jobs@.len(),
                i <= n,
                response@ == Seq::new(i as nat, |k: int| -1i64),
                zeros@ == Seq::new(i as nat, |k: int| 0u64),
                queue@ == jobs@.subrange(0, i as int),
            decreases n - i,
        {
            response.push(-1);
            zeros.push(0);
            queue.push(jobs[i]);
            i = i + 1;
            assert(response@ =~= Seq::new(i as nat, |k: int| -1i64));
            assert(zeros@ =~= Seq::new(i as nat, |k: int| 0u64));
            assert(queue@ =~= jobs@.subrange(0, i as int));
        }
        assert(queue@ =~= jobs@);
        let r = RoundRobin {
            queue,
            time: 0,
            response,
            lastran: zeros.clone(),
            wait: zeros.clone(),
            turnaround: zeros,
            jobcount: n,
            quantum,
        };
        assert(r@.response =~= Seq::new(jobs@.len(), |i: int| -1));
        assert(r@.lastran =~= Seq::new(jobs@.len(), |i: int| 0));
        assert(r@.wait =~= Seq::new(jobs@.len(), |i: int| 0));
        assert(r@.turnaround =~= Seq::new(jobs@.len(), |i: int| 0));
        r
    }

    /// Whether every job is done.
    pub fn finished(&self) -> (b: bool)
        ensures
            b == (self@.jobcount == 0),
    {
        self.jobcount == 0
    }

    /// Runs one slice (see `rr_step`) and tells what ran.
    pub fn step(&mut self) -> (sl: RrSlice)
        requires
            rr_wf(old(self)@),
            old(self)@.jobcount > 0,
        ensures
            final(self)@ == rr_step(old(self)@),
            rr_wf(final(self)@),
            sl.start == old(self)@.time,
            sl.jobnum == old(self)@.queue[0].jobnum,
            sl.done == (old(self)@.queue[0].runtime <= old(self)@.quantum),
            sl.ran == (if sl.done { old(self)@.queue[0].runtime } else { old(self)@.quantum as u32 }),
    {
        proof {
            law_rr_conserves_work(self@);
            lemma_queue_work_first(self@.queue);
            lemma_queue_work_nonneg(self@.queue.drop_first());
        }
        let ghost s = self@;
        let job = self.queue.remove(0);
        assert(self.queue@ =~= s.queue.drop_first());
        let j = job.jobnum as usize;
        let start = self.time;
        if self.response[j] == -1 {
            self.response.set(j, start as i64);
        }
        let w = self.wait[j] + (start - self.lastran[j]);
        self.wait.set(j, w);
        let done = !(job.runtime > self.quantum);
        let ran = if done { job.runtime } else { self.quantum };
        if !done {
            self.queue.push(Job { jobnum: job.jobnum, runtime: job.runtime - self.quantum });
        } else {
            self.turnaround.set(j, start + ran as u64);
            self.jobcount = self.jobcount - 1;
        }
        self.time = start + ran as u64;
        self.lastran.set(j, self.time);
        assert(self@.response =~= rr_step(s).response);
        assert(self@.wait =~= rr_step(s).wait);
        assert(self@.lastran =~= rr_step(s).lastran);
        assert(self@.turnaround =~= rr_step(s).turnaround);
        assert(self@.queue =~= rr_step(s).queue);
        RrSlice { start, jobnum: job.jobnum, ran, done }
    }
}

} // verus!
