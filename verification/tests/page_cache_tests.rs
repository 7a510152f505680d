use ostep_sim::page_cache::{hfunc, replace_policy_from, vfunc, AccessStep, PageCache, ReplacePolicy};

fn run(p: ReplacePolicy, size: i32, addrs: &Vec<i32>) -> (PageCache, Vec<AccessStep>) {
    let mut c = PageCache::new(p, size, 2);
    let mut out = Vec::new();
    for (i, a) in addrs.iter().enumerate() {
        out.push(c.start_access(*a, addrs, i));
    }
    (c, out)
}

#[test]
fn policy_names() {
    assert_eq!(replace_policy_from("FIFO"), Some(ReplacePolicy::Fifo));
    assert_eq!(replace_policy_from("LRU"), Some(ReplacePolicy::Lru));
    assert_eq!(replace_policy_from("OPT"), Some(ReplacePolicy::Opt));
    assert_eq!(replace_policy_from("CLOCK"), Some(ReplacePolicy::Clock));
    assert_eq!(replace_policy_from("NONE"), None);
    assert_eq!(hfunc(-1), "MISS");
    assert_eq!(vfunc(-1), "-");
    assert_eq!(vfunc(7), "7");
}

#[test]
fn fifo_evicts_the_first_page_in() {
    let (c, steps) = run(ReplacePolicy::Fifo, 2, &vec![1, 2, 1, 3]);
    assert_eq!(steps[2], AccessStep::Done { hit: true, victim: -1 });
    assert_eq!(steps[3], AccessStep::Done { hit: false, victim: 1 });
    assert_eq!(c.memory, vec![2, 3]);
    assert_eq!((c.hits, c.misses), (1, 3));
}

#[test]
fn lru_evicts_the_least_recently_used() {
    let (c, steps) = run(ReplacePolicy::Lru, 2, &vec![1, 2, 1, 3]);
    assert_eq!(steps[3], AccessStep::Done { hit: false, victim: 2 });
    assert_eq!(c.memory, vec![1, 3]);
}

#[test]
fn opt_evicts_the_page_used_furthest_ahead() {
    let (_, steps) = run(ReplacePolicy::Opt, 2, &vec![1, 2, 3, 1]);
    assert_eq!(steps[2], AccessStep::Done { hit: false, victim: 2 });
}

#[test]
fn random_eviction_asks_for_an_index() {
    let mut c = PageCache::new(ReplacePolicy::Rand, 2, 2);
    let addrs = vec![1, 2, 3];
    c.start_access(1, &addrs, 0);
    c.start_access(2, &addrs, 1);
    assert_eq!(c.start_access(3, &addrs, 2), AccessStep::NeedRandom);
    assert_eq!(c.feed_random(1), AccessStep::Done { hit: false, victim: 2 });
    assert_eq!(c.memory, vec![1, 3]);
}

#[test]
fn every_access_of_a_run_is_counted_once() {
    let addrs = vec![0, 1, 2, 0, 1, 3, 0, 3, 1, 2, 1];
    for p in [ReplacePolicy::Fifo, ReplacePolicy::Lru, ReplacePolicy::Mru, ReplacePolicy::Opt, ReplacePolicy::Unopt] {
        let (c, _) = run(p, 3, &addrs);
        assert_eq!((c.hits + c.misses) as usize, addrs.len());
        assert!(c.memory.contains(&1));
        assert!(c.memory.len() <= 3);
    }
}
