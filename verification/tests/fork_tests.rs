use ostep_sim::fork::{check_legal, ForkAction, ForkError, ForkOutcome, Forker};

fn kids(f: &Forker, p: char) -> Vec<char> {
    f.children.iter().find(|e| e.0 == p).map(|e| e.1.clone()).unwrap()
}

fn parent(f: &Forker, c: char) -> Option<char> {
    f.parents.iter().find(|e| e.0 == c).map(|e| e.1)
}

#[test]
fn actions_are_read() {
    assert_eq!(check_legal("A+B"), Ok(ForkAction::Fork('A', 'B')));
    assert_eq!(check_legal("B-"), Ok(ForkAction::Exit('B')));
    assert_eq!(check_legal("A+"), Err(ForkError::BadAction));
    assert_eq!(check_legal("AB"), Err(ForkError::BadAction));
}

#[test]
fn fork_links_parent_and_child() {
    let mut f = Forker::new(false, false);
    assert_eq!(f.root_name, 'A');
    assert_eq!(f.apply(ForkAction::Fork('A', 'B')), Ok(ForkOutcome::Forked('A', 'B')));
    assert_eq!(kids(&f, 'A'), vec!['B']);
    assert_eq!(kids(&f, 'B'), Vec::<char>::new());
    assert_eq!(parent(&f, 'B'), Some('A'));
    assert_eq!(f.process_list, vec!['A', 'B']);
}

#[test]
fn names_come_in_order() {
    let mut f = Forker::new(false, false);
    assert_eq!(f.get_name(), 'B');
    assert_eq!(f.get_name(), 'C');
}

fn chain(local: bool) -> Forker {
    let mut f = Forker::new(false, local);
    f.apply(ForkAction::Fork('A', 'B')).unwrap();
    f.apply(ForkAction::Fork('B', 'C')).unwrap();
    f.apply(ForkAction::Fork('C', 'D')).unwrap();
    f
}

#[test]
fn exit_gives_all_descendants_to_the_root() {
    let mut f = chain(false);
    assert_eq!(f.apply(ForkAction::Exit('B')), Ok(ForkOutcome::Exited('B')));
    assert_eq!(f.process_list, vec!['A', 'C', 'D']);
    assert_eq!(kids(&f, 'A'), vec!['C', 'D']);
    assert_eq!(kids(&f, 'C'), Vec::<char>::new());
    assert_eq!(parent(&f, 'D'), Some('A'));
}

#[test]
fn local_exit_gives_children_to_the_grandparent() {
    let mut f = chain(true);
    assert_eq!(f.apply(ForkAction::Exit('B')), Ok(ForkOutcome::Exited('B')));
    assert_eq!(kids(&f, 'A'), vec!['C']);
    assert_eq!(kids(&f, 'C'), vec!['D']);
    assert_eq!(parent(&f, 'C'), Some('A'));
}

#[test]
fn leaf_only_refuses_a_parent_exit() {
    let mut f = Forker::new(true, false);
    f.apply(ForkAction::Fork('A', 'B')).unwrap();
    assert_eq!(f.apply(ForkAction::Exit('A')), Ok(ForkOutcome::ExitRefused('A')));
    assert_eq!(f.apply(ForkAction::Exit('B')), Ok(ForkOutcome::Exited('B')));
    assert_eq!(kids(&f, 'A'), Vec::<char>::new());
}

#[test]
fn unknown_processes_cannot_act() {
    let mut f = Forker::new(false, false);
    assert_eq!(f.apply(ForkAction::Exit('Z')), Err(ForkError::BadAction));
    assert_eq!(f.apply(ForkAction::Fork('Z', 'Y')), Err(ForkError::BadAction));
    assert_eq!(f.apply(ForkAction::Exit('A')), Err(ForkError::NoParent('A')));
}

#[test]
fn subtrees_and_drawing() {
    let f = chain(false);
    assert_eq!(f.collect_children('B'), Ok(vec!['B', 'C', 'D']));
    let mut g = Forker::new(false, false);
    g.apply(ForkAction::Fork('A', 'B')).unwrap();
    let lines = g.print_tree().unwrap();
    let pad = " ".repeat(35);
    assert_eq!(lines, vec![format!("{}A", pad), format!("{}\u{2514}\u{2500}\u{2500} B", pad)]);
}

#[test]
fn basic_drawing_indents_each_level() {
    let mut g = Forker::new(false, false);
    g.apply(ForkAction::Fork('A', 'B')).unwrap();
    g.apply(ForkAction::Fork('B', 'C')).unwrap();
    g.apply(ForkAction::Fork('A', 'D')).unwrap();
    let pad = " ".repeat(35);
    assert_eq!(
        g.print_tree_basic().unwrap(),
        vec![
            format!("{}  A", pad),
            format!("{}     B", pad),
            format!("{}        C", pad),
            format!("{}     D", pad),
        ]
    );
}

#[test]
fn the_first_names_are_distinct_and_not_the_root() {
    let mut f = Forker::new(false, false);
    let names: Vec<char> = (0..51).map(|_| f.get_name()).collect();
    let expected: Vec<char> = ('B'..='Z').chain('a'..='z').collect();
    assert_eq!(names, expected);
    for (i, a) in names.iter().enumerate() {
        assert_ne!(*a, 'A');
        for b in &names[i + 1..] {
            assert_ne!(a, b);
        }
    }
}
