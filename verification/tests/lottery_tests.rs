use ostep_sim::lottery::{parse_lottery_jobs, Lottery, LotteryDraw, LotteryJob, LotteryOption};

#[test]
fn lottery_defaults() {
    let o = LotteryOption::new();
    assert_eq!(o.seed, 0);
    assert_eq!(o.jobs, 3);
    assert_eq!(o.maxlen, 10);
    assert_eq!(o.maxticket, 100);
    assert_eq!(o.quantum, 1);
    assert_eq!(o.jlist, "");
    assert!(!o.solve);
}

#[test]
fn lottery_job_lists() {
    assert_eq!(
        parse_lottery_jobs("10:100,5:50"),
        Ok(vec![LotteryJob { runtime: 10, tickets: 100 }, LotteryJob { runtime: 5, tickets: 50 }])
    );
    assert_eq!(parse_lottery_jobs("10:100,5"), Err(1));
    assert_eq!(parse_lottery_jobs("x:1"), Err(0));
}

#[test]
fn the_winner_holds_the_drawn_ticket() {
    let jobs = vec![LotteryJob { runtime: 10, tickets: 100 }, LotteryJob { runtime: 5, tickets: 50 }];
    let mut l = Lottery::new(jobs, 1).unwrap();
    assert_eq!(l.tick_total, 150);
    assert_eq!(l.draw(120), Ok(LotteryDraw { winner: 120, total: 150, job: 1, done: false, clock: 1 }));
    assert_eq!(l.jobs[1], LotteryJob { runtime: 4, tickets: 50 });
    assert_eq!(l.draw(30), Ok(LotteryDraw { winner: 30, total: 150, job: 0, done: false, clock: 2 }));
    // 250 % 150 = 100: the first ticket of the second job
    assert_eq!(l.draw(250).unwrap().job, 1);
}

#[test]
fn a_finished_job_gives_up_its_tickets() {
    let jobs = vec![LotteryJob { runtime: 1, tickets: 10 }, LotteryJob { runtime: 3, tickets: 5 }];
    let mut l = Lottery::new(jobs, 2).unwrap();
    let d = l.draw(4).unwrap();
    assert_eq!(d.job, 0);
    assert!(d.done);
    assert_eq!(l.tick_total, 5);
    assert_eq!(l.remaining, 1);
    assert_eq!(l.jobs[0], LotteryJob { runtime: 0, tickets: 0 });
    assert_eq!(l.draw(7).unwrap().job, 1);
}

#[test]
fn overflowing_sums_are_refused() {
    let jobs = vec![LotteryJob { runtime: 1, tickets: i32::MAX }, LotteryJob { runtime: 1, tickets: 1 }];
    assert!(Lottery::new(jobs, 1).is_none());
}
