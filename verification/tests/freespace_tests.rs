use ostep_sim::freespace::{coalesce_blocks, sort_blocks, FitPolicy, Malloc, ReturnOrder, SortKey};

#[test]
fn best_fit_takes_the_smallest_block_that_fits() {
    let mut m = Malloc::new(100, 1000, 0, "BEST", "ADDRSORT", false, -1);
    assert_eq!(m.policy, FitPolicy::Best);
    assert_eq!(m.order, ReturnOrder::AddrSort);
    assert_eq!(m.malloc(10), (1000, 1));
    assert_eq!(m.malloc(20), (1010, 1));
    assert_eq!(m.freelist, vec![(1030, 70)]);
    assert_eq!(m.free(1000), 0);
    assert_eq!(m.freelist, vec![(1000, 10), (1030, 70)]);
    assert_eq!(m.malloc(5), (1000, 2));
    assert_eq!(m.freelist, vec![(1005, 5), (1030, 70)]);
}

#[test]
fn worst_fit_takes_the_largest_block() {
    let mut m = Malloc::new(100, 1000, 0, "WORST", "ADDRSORT", false, -1);
    assert_eq!(m.malloc(10), (1000, 1));
    assert_eq!(m.free(1000), 0);
    assert_eq!(m.malloc(5), (1010, 2));
}

#[test]
fn first_fit_stops_at_the_first_block() {
    let mut m = Malloc::new(100, 1000, 0, "FIRST", "ADDRSORT", false, -1);
    assert_eq!(m.malloc(10), (1000, 1));
    assert_eq!(m.free(1000), 0);
    assert_eq!(m.malloc(5), (1000, 1));
}

#[test]
fn failed_requests() {
    let mut m = Malloc::new(100, 1000, 0, "BEST", "ADDRSORT", false, -1);
    assert_eq!(m.malloc(200), (-1, 1));
    assert_eq!(m.free(1000), -1);
}

#[test]
fn coalescing_merges_neighbours() {
    let mut m = Malloc::new(100, 1000, 0, "BEST", "ADDRSORT", true, -1);
    assert_eq!(m.malloc(10), (1000, 1));
    assert_eq!(m.malloc(10), (1010, 1));
    assert_eq!(m.free(1000), 0);
    assert_eq!(m.freelist, vec![(1000, 10), (1020, 80)]);
    assert_eq!(m.free(1010), 0);
    assert_eq!(m.freelist, vec![(1000, 100)]);
}

#[test]
fn alignment_and_header_pad_requests() {
    let mut m = Malloc::new(100, 1000, 2, "BEST", "INSERT-BACK", false, 4);
    assert_eq!(m.order, ReturnOrder::InsertBack);
    // 5 rounds up to 8, plus a 2-byte header
    assert_eq!(m.malloc(5), (1000, 1));
    assert_eq!(m.freelist, vec![(1010, 90)]);
    assert_eq!(m.request_size(8), Some(10));
}

#[test]
fn freeing_keeps_the_byte_count() {
    let mut m = Malloc::new(100, 1000, 0, "BEST", "INSERT-FRONT", false, -1);
    let (a, _) = m.malloc(30);
    let (b, _) = m.malloc(12);
    assert_eq!(m.free(a), 0);
    assert_eq!(m.freelist[0], (1000, 30));
    let free_bytes: i32 = m.freelist.iter().map(|e| e.1).sum();
    let used_bytes: i32 = m.sizemap.iter().map(|e| e.1).sum();
    assert_eq!(free_bytes + used_bytes, 100);
    assert_eq!(b, 1030);
}

#[test]
fn sorting_and_coalescing_blocks() {
    let v = vec![(30, 5), (10, 20), (20, 1)];
    assert_eq!(sort_blocks(&v, SortKey::Addr), vec![(10, 20), (20, 1), (30, 5)]);
    assert_eq!(sort_blocks(&v, SortKey::SizeAsc), vec![(20, 1), (30, 5), (10, 20)]);
    assert_eq!(sort_blocks(&v, SortKey::SizeDesc), vec![(10, 20), (30, 5), (20, 1)]);
    assert_eq!(coalesce_blocks(&vec![(0, 10), (10, 5), (20, 1)]), vec![(0, 15), (20, 1)]);
}

#[test]
fn freeing_everything_gives_back_the_whole_heap() {
    for policy in ["BEST", "WORST", "FIRST"] {
        let mut m = Malloc::new(100, 1000, 1, policy, "ADDRSORT", true, 4);
        let mut got = Vec::new();
        for size in [3, 10, 7, 20, 1] {
            let (a, _) = m.malloc(size);
            if a != -1 {
                got.push(a);
            }
        }
        for a in [got[2], got[0], got[4], got[1], got[3]] {
            assert_eq!(m.free(a), 0);
        }
        assert_eq!(m.freelist, vec![(1000, 100)]);
        assert!(m.sizemap.is_empty());
        assert_eq!(m.free(1000), -1);
        assert_eq!(m.freelist, vec![(1000, 100)]);
    }
}
