use ostep_sim::sched::{fifo_times, sjf_order, FifoTimes, Job, RoundRobin, RrSlice, SchedulerOption};

#[test]
fn scheduler_defaults() {
    let o = SchedulerOption::new();
    assert_eq!(o.jobs, 3);
    assert_eq!(o.maxlen, 10);
    assert_eq!(o.policy, "FIFO");
    assert_eq!(o.quantum, 1);
}

#[test]
fn sjf_orders_by_runtime_keeping_ties_in_order() {
    let jobs = vec![Job::new(0, 5), Job::new(1, 2), Job::new(2, 5), Job::new(3, 1)];
    let r = sjf_order(&jobs);
    assert_eq!(r, vec![Job::new(3, 1), Job::new(1, 2), Job::new(0, 5), Job::new(2, 5)]);
}

#[test]
fn fifo_start_and_finish_times() {
    let jobs = vec![Job::new(0, 3), Job::new(1, 5), Job::new(2, 0)];
    let t = fifo_times(&jobs);
    assert_eq!(t[0], FifoTimes { jobnum: 0, runtime: 3, start: 0, finish: 3 });
    assert_eq!(t[1], FifoTimes { jobnum: 1, runtime: 5, start: 3, finish: 8 });
    assert_eq!(t[2], FifoTimes { jobnum: 2, runtime: 0, start: 8, finish: 8 });
}

#[test]
fn round_robin_slices() {
    let jobs = vec![Job::new(0, 3), Job::new(1, 1)];
    let mut rr = RoundRobin::new(&jobs, 2);
    assert_eq!(rr.step(), RrSlice { start: 0, jobnum: 0, ran: 2, done: false });
    assert_eq!(rr.step(), RrSlice { start: 2, jobnum: 1, ran: 1, done: true });
    assert!(!rr.finished());
    assert_eq!(rr.step(), RrSlice { start: 3, jobnum: 0, ran: 1, done: true });
    assert!(rr.finished());
    assert_eq!(rr.response, vec![0, 2]);
    assert_eq!(rr.turnaround, vec![4, 3]);
    assert_eq!(rr.wait, vec![1, 2]);
    // all the work was done: the clock is the total run time
    assert_eq!(rr.time, 4);
}

#[test]
fn sjf_turnaround_is_no_worse_than_fifo() {
    let jobs = vec![Job::new(0, 30), Job::new(1, 10), Job::new(2, 20)];
    let fifo: u64 = fifo_times(&jobs).iter().map(|t| t.finish).sum();
    let sjf: u64 = fifo_times(&sjf_order(&jobs)).iter().map(|t| t.finish).sum();
    assert_eq!(fifo, 130);
    assert_eq!(sjf, 100);
    assert!(sjf <= fifo);
}

#[test]
fn round_robin_turnaround_is_wait_plus_run_time() {
    let runs = [7u32, 2, 5, 0, 4];
    let jobs: Vec<Job> = runs.iter().enumerate().map(|(i, r)| Job::new(i as u32, *r)).collect();
    let mut rr = RoundRobin::new(&jobs, 3);
    while !rr.finished() {
        rr.step();
    }
    for i in 0..runs.len() {
        assert_eq!(rr.turnaround[i], rr.wait[i] + runs[i] as u64);
        assert!(rr.response[i] as u64 <= rr.wait[i]);
    }
}

#[test]
fn sjf_keeps_jobs_of_equal_length_in_list_order() {
    let jobs = vec![Job::new(0, 5), Job::new(1, 2), Job::new(2, 5), Job::new(3, 2), Job::new(4, 5)];
    let order: Vec<u32> = sjf_order(&jobs).iter().map(|j| j.jobnum).collect();
    assert_eq!(order, vec![1, 3, 0, 2, 4]);
}
