use ostep_sim::process_run::{
    io_done_behavior_from, parse_description, switch_behavior_from, DescError, Instr, IoDoneBehavior, Scheduler,
    SwitchBehavior,
};

#[test]
fn behaviour_names() {
    assert_eq!(switch_behavior_from("SWITCH_ON_IO"), Some(SwitchBehavior::OnIo));
    assert_eq!(switch_behavior_from("SWITCH_ON_END"), Some(SwitchBehavior::OnEnd));
    assert_eq!(switch_behavior_from("x"), None);
    assert_eq!(io_done_behavior_from("IO_RUN_LATER"), Some(IoDoneBehavior::RunLater));
    assert_eq!(io_done_behavior_from("IO_RUN_IMMEDIATE"), Some(IoDoneBehavior::RunImmediate));
}

#[test]
fn process_descriptions() {
    assert_eq!(parse_description("5:100"), Ok((5, vec!['1', '0', '0'])));
    assert_eq!(parse_description("5"), Err(DescError::NotTwoParts));
    assert_eq!(parse_description("x:50"), Err(DescError::BadCount));
}

#[test]
fn programs_are_loaded_up_to_a_bad_opcode() {
    let mut s = Scheduler::new(SwitchBehavior::OnIo, IoDoneBehavior::RunLater, 5);
    // the count of a `c` piece is the number of its digits
    assert_eq!(s.load_program("c22,x,c1"), Some(1));
    assert_eq!(s.code[0], vec![Instr::Cpu, Instr::Cpu]);
    assert_eq!(s.load_program("c1,i"), None);
    assert_eq!(s.code[1], vec![Instr::Cpu, Instr::Io, Instr::IoDone]);
}

#[test]
fn a_cpu_process_runs_its_instructions() {
    let mut s = Scheduler::new(SwitchBehavior::OnIo, IoDoneBehavior::RunLater, 5);
    s.load_program("c2");
    assert!(s.start());
    assert_eq!(s.active_count(), 1);
    let r = s.tick().unwrap();
    assert_eq!(r.executed, Some(Instr::Cpu));
    assert_eq!(r.clock, 1);
}

#[test]
fn finished_processes_stay_finished() {
    use_scheduler_states();
}

fn use_scheduler_states() {
    let mut s = Scheduler::new(SwitchBehavior::OnIo, IoDoneBehavior::RunLater, 2);
    s.load_program("c1,i");
    s.load_program("c1");
    assert!(s.start());
    let mut done_seen = vec![false; 2];
    let mut ticks = 0;
    while s.active_count() > 0 && ticks < 50 {
        let r = s.tick().unwrap();
        for (p, st) in r.states.iter().enumerate() {
            if done_seen[p] {
                assert_eq!(*st, ostep_sim::process_run::ProcState::Done);
            }
        }
        for (p, st) in s.states.iter().enumerate() {
            if *st == ostep_sim::process_run::ProcState::Done {
                done_seen[p] = true;
            }
            if done_seen[p] {
                assert_eq!(*st, ostep_sim::process_run::ProcState::Done);
            }
        }
        ticks += 1;
    }
    assert_eq!(s.active_count(), 0);
    assert_eq!(done_seen, vec![true, true]);
}
