use ostep_sim::raid::{raid5_layout_from, request_blocks, workload_sequential, Disk, IoKind, Raid, Raid5Layout, RaidOption, Req};

fn array(level: i32, disks: i32) -> Raid {
    let mut r = Raid::new(1, disks, level, Raid5Layout::LeftSymmetric);
    r.init().unwrap();
    r
}

#[test]
fn raid_defaults_and_names() {
    let o = RaidOption::new();
    assert_eq!(o.num_disks, 4);
    assert_eq!(raid5_layout_from("LA"), Raid5Layout::LeftAsymmetric);
    assert_eq!(raid5_layout_from("LS"), Raid5Layout::LeftSymmetric);
    assert_eq!(raid5_layout_from("XX"), Raid5Layout::Unknown);
    assert_eq!(workload_sequential("seq"), Some(true));
    assert_eq!(workload_sequential("r"), Some(false));
    assert_eq!(workload_sequential("x"), None);
    assert_eq!(request_blocks(8192), (2, true));
    assert_eq!(request_blocks(5000), (1, false));
}

#[test]
fn raid0_stripes_blocks_over_disks() {
    let mut r = array(0, 4);
    let run = r.enqueue(5, 1, false);
    assert_eq!(run.reqs, vec![Req { write: false, disk: 1, off: 1, newline: true }]);
    assert_eq!(run.kinds, vec![IoKind::Random]);
    assert!(run.disk_fault.is_none() && run.map_fault.is_none());
    let run = r.enqueue(9, 1, false);
    assert_eq!(run.reqs, vec![Req { write: false, disk: 1, off: 2, newline: true }]);
    assert_eq!(run.kinds, vec![IoKind::Near(1)]);
}

#[test]
fn raid1_writes_both_mirrors() {
    let mut r = array(1, 4);
    let run = r.enqueue(3, 1, true);
    assert_eq!(
        run.reqs,
        vec![Req { write: true, disk: 2, off: 1, newline: false }, Req { write: true, disk: 3, off: 1, newline: true }]
    );
    let run = r.enqueue(3, 1, false);
    assert_eq!(run.reqs, vec![Req { write: false, disk: 3, off: 1, newline: true }]);
}

#[test]
fn raid4_reads_the_data_disk() {
    let mut r = array(4, 4);
    assert_eq!(r.blocks_in_stripe, 3);
    assert_eq!(r.pdisk, 3);
    let run = r.enqueue(4, 1, false);
    assert_eq!(run.reqs, vec![Req { write: false, disk: 1, off: 1, newline: false }]);
}

#[test]
fn a_new_disk_counts_nothing() {
    let d = Disk::new();
    assert_eq!(d.stats(), (0, 0, 0, 0));
    assert_eq!(d.blocks_per_disk, 10000);
}

#[test]
fn a_disk_counts_each_request_once() {
    let mut d = Disk::new();
    assert_eq!(d.enqueue(0), Ok(IoKind::Random));
    assert_eq!(d.enqueue(1), Ok(IoKind::Near(1)));
    assert_eq!(d.enqueue(50), Ok(IoKind::Near(49)));
    assert_eq!(d.enqueue(5000), Ok(IoKind::Random));
    let (io, seq, nseq, rand) = d.stats();
    assert_eq!((io, seq, nseq, rand), (4, 1, 1, 2));
    assert_eq!(io, seq + nseq + rand);
}
