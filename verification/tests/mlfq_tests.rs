use ostep_sim::mlfq::{find_queue, mlfq_levels, parse_job_list, JobListError, LevelError, Mlfq, RunOutcome};

#[test]
fn levels_from_options() {
    assert_eq!(mlfq_levels(3, 10, "", 1, ""), Ok((vec![10, 10, 10], vec![1, 1, 1])));
    assert_eq!(mlfq_levels(3, 10, "20,10", 1, ""), Ok((vec![10, 20], vec![1, 1])));
    assert_eq!(mlfq_levels(0, 10, "", 1, ""), Err(LevelError::NoQueues));
    assert_eq!(mlfq_levels(3, 10, "1,x", 1, ""), Err(LevelError::BadNumber));
}

#[test]
fn mlfq_job_lists() {
    assert_eq!(parse_job_list("0,5,0:2,3,1"), Ok(vec![(0, 5, 0), (2, 3, 1)]));
    assert_eq!(parse_job_list("0,5"), Err(JobListError::Malformed));
    assert_eq!(parse_job_list("0,x,1"), Err(JobListError::BadNumber));
}

#[test]
fn the_highest_busy_queue() {
    let q: Vec<Vec<usize>> = vec![vec![], vec![3], vec![]];
    assert_eq!(find_queue(&q, 2), 1);
    let e: Vec<Vec<usize>> = vec![vec![], vec![]];
    assert_eq!(find_queue(&e, 1), -1);
}

#[test]
fn each_tick_advances_the_clock() {
    let mut m = Mlfq::new(vec![10], vec![1], 0, 5, false, false);
    m.add_job(0, 2, 0);
    let mut finished = 0;
    let mut ticks = 0;
    while !m.all_finished() && ticks < 10 {
        let before = m.curr_time;
        let r = m.tick().unwrap();
        assert_eq!(m.curr_time, before + 1);
        if let RunOutcome::Ran { finished: true, .. } = r.outcome {
            finished += 1;
        }
        ticks += 1;
    }
    assert!(m.all_finished());
    assert_eq!(finished, 1);
    assert_eq!(m.jobs[0].end_time, 2);
}
