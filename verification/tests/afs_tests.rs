use ostep_sim::afs::{isset, AfsError, Cache, CacheContent, Client, FdError, FileDesc, Files, Server};

#[test]
fn bits_of_a_number() {
    assert!(isset(5, 0));
    assert!(!isset(5, 1));
    assert!(isset(5, 2));
    assert!(!isset(0, 30));
}

#[test]
fn descriptors() {
    let mut fd = FileDesc::new_a(2);
    fd.init();
    assert_eq!(fd.allocate('a', -1), Ok(0));
    assert_eq!(fd.allocate('b', -1), Ok(1));
    assert_eq!(fd.allocate('c', -1), Ok(-1));
    assert_eq!(fd.lookup(0), Ok('a'));
    assert_eq!(fd.lookup(5), Err(FdError::NoSuchDescriptor));
    let mut fd = FileDesc::new_a(3);
    fd.init();
    assert_eq!(fd.allocate('x', 1), Ok(1));
    assert_eq!(fd.lookup(1), Ok('x'));
    assert_eq!(fd.allocate('y', -1), Ok(0));
    assert_eq!(fd.allocate('z', -1), Ok(2));
}

#[test]
fn files_and_values() {
    let mut f = Files::new(3);
    f.init();
    assert_eq!(f.getfiles(), vec!['a', 'b', 'c']);
    assert_eq!(f.getvalue(), 0);
    assert_eq!(f.getvalue(), 1);
}

#[test]
fn client_cache() {
    let mut c = Cache::new("c0".to_string(), 0, false, 0);
    c.put('a', 5, false, 1);
    assert_eq!(c.checkget('a'), (true, CacheContent { data: 5, dirty: false, refcnt: 1, valid: true }));
    assert_eq!(c.hitcnt, 1);
    assert_eq!(c.checkget('q').0, false);
    assert_eq!(c.misscnt, 1);
    c.invalidate('a');
    assert!(!c.checkvalid('a'));
    assert_eq!(c.invalidcnt, 1);
    c.setdirty('a', true);
    assert!(c.isdirty('a'));
    c.setclean('a');
    assert!(!c.isdirty('a'));
}

fn server() -> Server {
    let mut files = Files::new(2);
    files.init();
    let mut s = Server::new(files, false, 0);
    s.init();
    s.setclients(2);
    s
}

#[test]
fn a_read_gives_back_the_last_write() {
    let mut s = server();
    assert_eq!(s.get(0, 'a'), Ok(0));
    assert_eq!(s.get(0, 'b'), Ok(1));
    assert_eq!(s.put_refusal(0, 'a'), None);
    s.put(0, 'a', 7);
    assert_eq!(s.get(1, 'a'), Ok(7));
    assert_eq!(s.getcnt, 3);
    assert_eq!(s.putcnt, 1);
}

#[test]
fn a_write_to_a_file_another_client_holds_is_refused() {
    let mut s = server();
    s.get(1, 'a').unwrap();
    assert_eq!(s.put_refusal(0, 'a'), Some(AfsError::StaleCallback(1)));
    assert_eq!(s.put_refusal(0, 'q'), Some(AfsError::NotOnServer('q')));
    assert_eq!(s.get(0, 'z'), Err(AfsError::NotOnServer('z')));
}

#[test]
fn a_client_counts_its_steps_down() {
    let mut files = Files::new(2);
    files.init();
    let mut c = Client::new("c0".to_string(), 0, server(), files, false, 0);
    c.init_fds();
    c.add_random_step('a', true).unwrap();
    let codes: Vec<i32> = (0..6).map(|_| c.step().unwrap().code).collect();
    assert_eq!(codes, vec![1, 1, 1, 0, -1, -1]);
}

#[test]
fn a_write_calls_back_the_other_holders() {
    let mut s = server();
    s.get(1, 'a').unwrap();
    s.peers[1].put('a', 0, false, 0);
    assert_eq!(s.put_refusal(0, 'a'), None);
    s.put(0, 'a', 9);
    assert_eq!(s.get(0, 'a'), Ok(9));
    assert!(s.cache[1].is_empty());
    assert_eq!(s.peers[1].invalidcnt, 1);
    assert!(!s.peers[1].get('a').1.valid);
}
