use ostep_sim::vsfs::{file_type_from, Bitmap, Block, FileType, Fs, Inode, VsfsError, VsfsOption};

#[test]
fn vsfs_defaults_and_types() {
    let o = VsfsOption::new();
    assert_eq!(o.num_inodes, 8);
    assert_eq!(o.num_data, 8);
    assert_eq!(file_type_from("d"), Some(FileType::Dir));
    assert_eq!(file_type_from("f"), Some(FileType::File));
    assert_eq!(file_type_from("q"), None);
}

#[test]
fn bitmap_allocates_the_first_free_entry() {
    let mut b = Bitmap::new(4);
    assert_eq!(b.allocate(), 0);
    assert_eq!(b.allocate(), 1);
    assert_eq!(b.free(0), Ok(()));
    assert_eq!(b.allocate(), 0);
    assert_eq!(b.dump(), "1100");
    assert_eq!(b.free(3), Err(VsfsError::NotAllocated));
    assert_eq!(b.free(9), Err(VsfsError::OutOfRange));
    assert_eq!(b.mark_allocated(1), Err(VsfsError::AlreadyAllocated));
    assert_eq!(b.mark_allocated(3), Ok(()));
    assert_eq!(b.allocate(), 2);
    assert_eq!(b.allocate(), -1);
}

#[test]
fn directory_blocks_hold_entries() {
    let mut blk = Block::new(FileType::Dir);
    assert_eq!(blk.add_dir_entry(".".to_string(), 0), Ok(()));
    assert_eq!(blk.add_dir_entry("x".to_string(), 3), Ok(()));
    assert_eq!(blk.get_num_entries(), Ok(2));
    assert_eq!(blk.get_free_entries(), Ok(30));
    assert_eq!(blk.dir_entry_exists(&"x".to_string()), Ok(true));
    assert_eq!(blk.del_dir_entry(&"x".to_string()), Ok(()));
    assert_eq!(blk.dir_entry_exists(&"x".to_string()), Ok(false));
    let mut f = Block::new(FileType::File);
    assert_eq!(f.add_dir_entry("y".to_string(), 1), Err(VsfsError::WrongType));
}

#[test]
fn inodes_print_their_fields() {
    assert_eq!(Inode::new().dump(), "[]");
    let mut i = Inode::new_a(FileType::Dir, 4, 2);
    assert_eq!(i.dump(), "[d a:4 r:2]");
    i.inc_ref_cnt();
    assert_eq!(i.get_ref_cnt(), 3);
}

#[test]
fn creating_linking_writing_and_deleting() {
    let mut fs = Fs::new(8, 8);
    assert_eq!(fs.create_root_directory(), Ok(()));
    assert_eq!(fs.inodes[0].dump(), "[d a:0 r:2]");
    assert_eq!(fs.do_create(0, &"a".to_string(), FileType::File), Ok(0));
    assert_eq!(fs.files, vec!["/a".to_string()]);
    assert_eq!(fs.inodes[1].dump(), "[f a:-1 r:-1]");
    assert_eq!(fs.inodes[0].dump(), "[d a:0 r:3]");
    assert!(fs.do_append(0, 'x').is_ok());
    assert_eq!(fs.inodes[1].dump(), "[f a:1 r:-1]");
    assert_eq!(fs.do_create(0, &"d".to_string(), FileType::Dir), Ok(0));
    assert_eq!(fs.dirs, vec!["/".to_string(), "/d".to_string()]);
    assert_eq!(fs.inodes[2].dump(), "[d a:2 r:2]");
    assert_eq!(fs.do_link(1, &"b".to_string(), 0), Ok(0));
    assert_eq!(fs.files, vec!["/a".to_string(), "/d/b".to_string()]);
    assert_eq!(fs.inodes[1].dump(), "[f a:1 r:0]");
    assert_eq!(fs.inodes[2].dump(), "[d a:2 r:3]");
    assert_eq!(fs.ibitmap.dump(), "11100000");
    assert_eq!(fs.dbitmap.dump(), "11100000");
    // a name that the directory already has is refused
    assert_eq!(fs.do_create(0, &"a".to_string(), FileType::File), Ok(-1));
    assert_eq!(fs.do_delete(0), Ok(0));
    assert_eq!(fs.files, vec!["/d/b".to_string()]);
    assert_eq!(fs.inodes[1].dump(), "[f a:1 r:-1]");
}

#[test]
fn operations_on_an_empty_file_list() {
    let mut fs = Fs::new(4, 4);
    fs.create_root_directory().unwrap();
    assert_eq!(fs.do_delete(0), Ok(-1));
    assert_eq!(fs.do_append(0, 'z'), Ok(-1));
    assert_eq!(fs.do_link(0, &"n".to_string(), 0), Ok(-1));
    assert_eq!(fs.do_create(5, &"n".to_string(), FileType::File), Err(VsfsError::OutOfRange));
}

#[test]
fn adding_then_deleting_an_entry_restores_the_block() {
    let mut blk = Block::new(FileType::Dir);
    blk.add_dir_entry(".".to_string(), 0).unwrap();
    let before = (blk.get_num_entries(), blk.get_free_entries(), blk.dump());
    blk.add_dir_entry("n".to_string(), 5).unwrap();
    assert_eq!(blk.dir_entry_exists(&"n".to_string()), Ok(true));
    blk.del_dir_entry(&"/x/n".to_string()).unwrap();
    assert_eq!((blk.get_num_entries(), blk.get_free_entries(), blk.dump()), before);
    assert_eq!(blk.dir_entry_exists(&"n".to_string()), Ok(false));
}
