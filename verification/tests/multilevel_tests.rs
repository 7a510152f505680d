use ostep_sim::multilevel::{PMTOption, BLANK_ENTRY, OS};

fn setup() -> OS {
    let mut os = OS::new();
    assert!(os.claim_page(10));
    os.install_page_dir(1, 10);
    os
}

#[test]
fn pmt_defaults() {
    let o = PMTOption::new();
    assert_eq!(o.seed, 0);
    assert_eq!(o.allocated, 64);
    assert_eq!(o.num, 10);
    assert!(!o.solve);
}

#[test]
fn claiming_pages() {
    let mut os = OS::new();
    assert!(os.claim_page(3));
    assert!(!os.claim_page(3));
    assert!(os.claim_page(4));
    assert_eq!(os.used_pages_count, 2);
}

#[test]
fn fresh_directory_is_blank_and_faults() {
    let os = setup();
    assert_eq!(os.get_pdbr(1), 10);
    for i in 0..32 {
        assert_eq!(os.get_value(320 + i), BLANK_ENTRY);
    }
    assert_eq!(os.get_page_dir_entry(1, 0x1234), (0, 127, 320 + 4));
    assert_eq!(os.translate(1, 0x1234), -1);
}

#[test]
fn mapped_page_translates_with_its_offset() {
    let mut os = setup();
    // virtual page 0x91: directory index 4, table index 17
    assert!(os.alloc_allowed(1, 0x91, 20));
    os.alloc_virtual_page(1, 0x91, 33, 20);
    assert_eq!(os.get_page_dir_entry(1, 0x91 << 5), (1, 20, 324));
    assert_eq!(os.get_page_table_entry(0x91 << 5, 20), (1, 33, 20 * 32 + 17));
    for off in 0..32u32 {
        assert_eq!(os.translate(1, (0x91 << 5) | off), (33 * 32 + off) as i32);
    }
    // same table, other entry: still blank
    assert_eq!(os.translate(1, 0x92 << 5), -2);
    // mapping the same page again is refused
    assert!(!os.alloc_allowed(1, 0x91, 21));
}

#[test]
fn second_page_reuses_the_table() {
    let mut os = setup();
    os.alloc_virtual_page(1, 0x91, 33, 20);
    assert!(os.alloc_allowed(1, 0x92, 99));
    os.alloc_virtual_page(1, 0x92, 40, 99);
    assert_eq!(os.translate(1, (0x92 << 5) | 3), 40 * 32 + 3);
    // page 99 was not used as a table
    assert_eq!(os.get_value(99 * 32), 0);
}

#[test]
fn fill_page_writes_its_bytes() {
    let mut os = setup();
    let v: Vec<i32> = (0..32).collect();
    os.fill_page(5, &v);
    assert_eq!(os.get_value(5 * 32 + 7), 7);
    assert_eq!(os.get_value(6 * 32), 0);
}
