//! A small model of the Andrew File System: a server holding whole files,
//! clients that cache them on open and write them back on close, file
//! descriptors, and callbacks that invalidate stale copies.

use vstd::prelude::*;
use crate::assoc::{first_key, assoc_get, assoc_put, lemma_first_key_range, lemma_first_key_same, lemma_first_key_push, lemma_first_key_update, law_assoc_get_put};
use crate::text::{chars_of, split_chars, split_spec, views_of, digit_val, digit_value_of, push_int};

verus! {

/// The entry for `k` in `v`, the first one.
pub(crate) fn find_entry<V>(v: &Vec<(char, V)>, k: char) -> (r: Option<usize>)
    ensures
        match r {
            Some(i) => first_key(v@, k, 0) == Some(i as int) && i < v@.len(),
            None => first_key(v@, k, 0) is None,
        },
{
    let mut i: usize = 0;
    while i < v.len()
        invariant
            i <= v@.len(),
            first_key(v@, k, 0) == first_key(v@, k, i as int),
        decreases v@.len() - i,
    {
        if v[i].0 == k {
            return Some(i);
        }
        i = i + 1;
    }
    None
}

/// Whether `k` occurs in `v`.
fn contains_char(v: &Vec<char>, k: char) -> (r: bool)
    ensures
        r == v@.contains(k),
{
    let mut i: usize = 0;
    while i < v.len()
        invariant
            i <= v@.len(),
            forall|m: int| 0 <= m < i ==> v@[m] != k,
        decreases v@.len() - i,
    {
        if v[i] == k {
            assert(v@[i as int] == k);
            return true;
        }
        i = i + 1;
    }
    false
}

/// Whether bit `index` of `num` is set (bits 0 to 30).
pub fn isset(num: i32, index: i32) -> (b: bool)
    requires
        0 <= index < 31,
    ensures
        b == ((num & (1i32 << index)) > 0),
{
    let mask: i32 = 1i32 << index;
    (num & mask) > 0
}

/// What a client caches of a file: its data, whether it was written since
/// it was fetched, how many opens refer to it, and whether it is valid.
#[derive(Clone, Copy, PartialEq, Eq, Structural, Debug)]
pub struct CacheContent {
    pub data: i32,
    pub dirty: bool,
    pub refcnt: i32,
    pub valid: bool,
}

/// The content of a cache miss: no data, clean, unreferenced, not valid.
pub open spec fn blank_content() -> CacheContent {
    CacheContent { data: 0, dirty: false, refcnt: 0, valid: false }
}

/// A client's cache of whole files, with its hit, miss and invalidation
/// counts.
pub struct Cache {
    pub name: String,
    pub num: i32,
    pub solve: bool,
    pub detail: i32,
    pub entries: Vec<(char, CacheContent)>,
    pub hitcnt: i32,
    pub misscnt: i32,
    pub invalidcnt: i32,
}

impl Cache {
    /// An empty cache.
    pub fn new(name: String, num: i32, solve: bool, detail: i32) -> (c: Cache)
        ensures
            c.name@ == name@,
            c.num == num,
            c.solve == solve,
            c.detail == detail,
            c.entries@.len() == 0,
            c.hitcnt == 0,
            c.misscnt == 0,
            c.invalidcnt == 0,
    {
        Cache { name, num, solve, detail, entries: Vec::new(), hitcnt: 0, misscnt: 0, invalidcnt: 0 }
    }

    /// Whether `fname` is cached.
    pub open spec fn holds(&self, fname: char) -> bool {
        assoc_get(self.entries@, fname) is Some
    }

    /// What is cached of `fname`.
    pub open spec fn content(&self, fname: char) -> CacheContent {
        assoc_get(self.entries@, fname)->0
    }

    fn store(&mut self, fname: char, cc: CacheContent)
        ensures
            final(self).entries@ == assoc_put(old(self).entries@, fname, cc),
            final(self).name == old(self).name,
            final(self).num == old(self).num,
            final(self).solve == old(self).solve,
            final(self).detail == old(self).detail,
            final(self).hitcnt == old(self).hitcnt,
            final(self).misscnt == old(self).misscnt,
            final(self).invalidcnt == old(self).invalidcnt,
    {
        match find_entry(&self.entries, fname) {
            Some(i) => {
                self.entries.set(i, (fname, cc));
            },
            None => {
                self.entries.push((fname, cc));
            },
        }
    }

    fn fetch(&self, fname: char) -> (cc: CacheContent)
        requires
            self.holds(fname),
        ensures
            cc == self.content(fname),
    {
        match find_entry(&self.entries, fname) {
            Some(i) => self.entries[i].1,
            None => {
                assert(false);
                CacheContent { data: 0, dirty: false, refcnt: 0, valid: false }
            },
        }
    }

    /// Caches `data` for `fname`, valid, with the given dirty flag and
    /// reference count.
    pub fn put(&mut self, fname: char, data: i32, dirty: bool, refcnt: i32)
        ensures
            final(self).entries@ == assoc_put(old(self).entries@, fname, CacheContent { data, dirty, refcnt, valid: true }),
            final(self).hitcnt == old(self).hitcnt,
            final(self).misscnt == old(self).misscnt,
            final(self).invalidcnt == old(self).invalidcnt,
    {
        self.store(fname, CacheContent { data, dirty, refcnt, valid: true });
    }

    /// Writes `data` into the cached copy of `fname`, which becomes dirty.
    pub fn update(&mut self, fname: char, data: i32)
        requires
            old(self).holds(fname),
        ensures
            final(self).entries@ == assoc_put(old(self).entries@, fname, CacheContent { data, dirty: true, ..old(self).content(fname) }),
            final(self).hitcnt == old(self).hitcnt,
            final(self).misscnt == old(self).misscnt,
            final(self).invalidcnt == old(self).invalidcnt,
    {
        let cc = self.fetch(fname);
        self.store(fname, CacheContent { data, dirty: true, ..cc });
    }

    /// Marks the cached copy of `fname` invalid (a callback from the
    /// server) and counts it.
    pub fn invalidate(&mut self, fname: char)
        requires
            old(self).holds(fname),
            old(self).invalidcnt < i32::MAX,
        ensures
            final(self).entries@ == assoc_put(old(self).entries@, fname, CacheContent { valid: false, ..old(self).content(fname) }),
            final(self).invalidcnt == old(self).invalidcnt + 1,
            final(self).hitcnt == old(self).hitcnt,
            final(self).misscnt == old(self).misscnt,
    {
        self.invalidcnt = self.invalidcnt + 1;
        let cc = self.fetch(fname);
        self.store(fname, CacheContent { valid: false, ..cc });
    }

    /// Looks `fname` up, counting a hit or a miss; on a miss the content is
    /// blank.
    pub fn checkget(&mut self, fname: char) -> (r: (bool, CacheContent))
        requires
            old(self).holds(fname) ==> old(self).hitcnt < i32::MAX,
            !old(self).holds(fname) ==> old(self).misscnt < i32::MAX,
        ensures
            final(self).entries@ == old(self).entries@,
            r.0 == old(self).holds(fname),
            r.0 ==> r.1 == old(self).content(fname) && final(self).hitcnt == old(self).hitcnt + 1 && final(self).misscnt == old(self).misscnt,
            !r.0 ==> r.1 == blank_content() && final(self).misscnt == old(self).misscnt + 1 && final(self).hitcnt == old(self).hitcnt,
            final(self).invalidcnt == old(self).invalidcnt,
    {
        match find_entry(&self.entries, fname) {
            Some(i) => {
                self.hitcnt = self.hitcnt + 1;
                (true, self.entries[i].1)
            },
            None => {
                self.misscnt = self.misscnt + 1;
                (false, CacheContent { data: 0, dirty: false, refcnt: 0, valid: false })
            },
        }
    }

    /// The cached content of `fname`.
    pub fn get(&self, fname: char) -> (r: (bool, CacheContent))
        requires
            self.holds(fname),
        ensures
            r == (true, self.content(fname)),
    {
        (true, self.fetch(fname))
    }

    /// One more open refers to the cached `fname`.
    pub fn incref(&mut self, fname: char)
        requires
            old(self).holds(fname),
            old(self).content(fname).refcnt < i32::MAX,
        ensures
            final(self).entries@ == assoc_put(old(self).entries@, fname, CacheContent { refcnt: (old(self).content(fname).refcnt + 1) as i32, ..old(self).content(fname) }),
            final(self).hitcnt == old(self).hitcnt,
            final(self).misscnt == old(self).misscnt,
            final(self).invalidcnt == old(self).invalidcnt,
    {
        let cc = self.fetch(fname);
        self.store(fname, CacheContent { refcnt: cc.refcnt + 1, ..cc });
    }

    /// One open fewer refers to the cached `fname`.
    pub fn decref(&mut self, fname: char)
        requires
            old(self).holds(fname),
            old(self).content(fname).refcnt > i32::MIN,
        ensures
            final(self).entries@ == assoc_put(old(self).entries@, fname, CacheContent { refcnt: (old(self).content(fname).refcnt - 1) as i32, ..old(self).content(fname) }),
            final(self).hitcnt == old(self).hitcnt,
            final(self).misscnt == old(self).misscnt,
            final(self).invalidcnt == old(self).invalidcnt,
    {
        let cc = self.fetch(fname);
        self.store(fname, CacheContent { refcnt: cc.refcnt - 1, ..cc });
    }

    /// Sets the dirty flag of the cached `fname`.
    pub fn setdirty(&mut self, fname: char, dirty: bool)
        requires
            old(self).holds(fname),
        ensures
            final(self).entries@ == assoc_put(old(self).entries@, fname, CacheContent { dirty, ..old(self).content(fname) }),
            final(self).hitcnt == old(self).hitcnt,
            final(self).misscnt == old(self).misscnt,
            final(self).invalidcnt == old(self).invalidcnt,
    {
        let cc = self.fetch(fname);
        self.store(fname, CacheContent { dirty, ..cc });
    }

    /// Clears the dirty flag of the cached `fname`.
    pub fn setclean(&mut self, fname: char)
        requires
            old(self).holds(fname),
        ensures
            final(self).entries@ == assoc_put(old(self).entries@, fname, CacheContent { dirty: false, ..old(self).content(fname) }),
            final(self).hitcnt == old(self).hitcnt,
            final(self).misscnt == old(self).misscnt,
            final(self).invalidcnt == old(self).invalidcnt,
    {
        let cc = self.fetch(fname);
        self.store(fname, CacheContent { dirty: false, ..cc });
    }

    /// Whether the cached `fname` is dirty.
    pub fn isdirty(&self, fname: char) -> (b: bool)
        requires
            self.holds(fname),
        ensures
            b == self.content(fname).dirty,
    {
        self.fetch(fname).dirty
    }

    /// Marks the cached `fname` valid.
    pub fn setvalid(&mut self, fname: char)
        requires
            old(self).holds(fname),
        ensures
            final(self).entries@ == assoc_put(old(self).entries@, fname, CacheContent { valid: true, ..old(self).content(fname) }),
            final(self).hitcnt == old(self).hitcnt,
            final(self).misscnt == old(self).misscnt,
            final(self).invalidcnt == old(self).invalidcnt,
    {
        let cc = self.fetch(fname);
        self.store(fname, CacheContent { valid: true, ..cc });
    }

    /// Whether an invalid, unreferenced copy could be dropped; the cache
    /// keeps it in any case, so nothing changes.
    pub fn checkvalid(&self, fname: char) -> (b: bool)
        requires
            self.holds(fname),
        ensures
            b == (!self.content(fname).valid && self.content(fname).refcnt == 0),
    {
        let cc = self.fetch(fname);
        !cc.valid && cc.refcnt == 0
    }
}

/// Why a file descriptor operation fails.
#[derive(Clone, Copy, PartialEq, Eq, Structural, Debug)]
pub enum FdError {
    /// The descriptor is not in the table.
    NoSuchDescriptor,
    /// The descriptor is not in use.
    NotInUse,
}

/// A file descriptor table: descriptor `i` names a file or is free.
pub struct FileDesc {
    pub max: i32,
    pub fd: Vec<Option<char>>,
}

/// The table after `init`: descriptors below `max` free, any others kept.
pub open spec fn fd_init_spec(fd: Seq<Option<char>>, max: int) -> Seq<Option<char>> {
    Seq::new(
        if fd.len() >= max { fd.len() } else { max as nat },
        |i: int| if i < max { None } else { fd[i] },
    )
}

/// The first free descriptor below `m` in `fd`, from `i` on; `Err(())`
/// where a descriptor below `m` is not in the table before a free one is
/// found.
pub open spec fn first_free(fd: Seq<Option<char>>, m: int, i: int) -> Result<Option<int>, ()>
    decreases m - i,
{
    if i >= m {
        Ok(None)
    } else if i >= fd.len() {
        Err(())
    } else if fd[i] is None {
        Ok(Some(i))
    } else {
        first_free(fd, m, i + 1)
    }
}

proof fn lemma_first_free_range(fd: Seq<Option<char>>, m: int, i: int)
    requires
        0 <= i,
    ensures
        first_free(fd, m, i) matches Ok(Some(j)) ==> i <= j < m && j < fd.len() && fd[j] is None,
    decreases m - i,
{
    if i < m && i < fd.len() && fd[i] is Some {
        lemma_first_free_range(fd, m, i + 1);
    }
}

impl FileDesc {
    /// A table of up to 1024 descriptors, none yet in the table.
    pub fn new() -> (f: FileDesc)
        ensures
            f.max == 1024,
            f.fd@.len() == 0,
    {
        FileDesc { max: 1024, fd: Vec::new() }
    }

    /// A table of up to `max` descriptors, none yet in the table.
    pub fn new_a(max: i32) -> (f: FileDesc)
        ensures
            f.max == max,
            f.fd@.len() == 0,
    {
        FileDesc { max, fd: Vec::new() }
    }

    /// Puts descriptors `0..max` into the table, free.
    pub fn init(&mut self)
        ensures
            final(self).max == old(self).max,
            final(self).fd@ == fd_init_spec(old(self).fd@, old(self).max as int),
    {
        let mut i: i32 = 0;
        let ghost f0 = self.fd@;
        assert(f0 =~= fd_init_spec(f0, 0));
        while i < self.max
            invariant
                0 <= i,
                i <= self.max || (self.max < 0 && i == 0),
                self.max == old(self).max,
                f0 == old(self).fd@,
                self.fd@ == fd_init_spec(f0, i as int),
            decreases self.max - i,
        {
            let k = i as usize;
            if k < self.fd.len() {
                self.fd.set(k, None);
            } else {
                self.fd.push(None);
            }
            i = i + 1;
            assert(self.fd@ =~= fd_init_spec(f0, i as int));
        }
        proof {
            if self.max < 0 {
                assert(fd_init_spec(f0, 0) =~= fd_init_spec(f0, self.max as int));
            } else {
                assert(i == self.max);
            }
        }
    }

    /// Gives `fname` descriptor `sfd`, which must be a free descriptor, or,
    /// where `sfd` is -1, the first free descriptor below `max` (-1 where
    /// there is none).
    pub fn allocate(&mut self, fname: char, sfd: i32) -> (r: Result<i32, FdError>)
        requires
            sfd != -1 ==> 0 <= sfd < old(self).fd@.len() && old(self).fd@[sfd as int] is None,
        ensures
            final(self).max == old(self).max,
            sfd != -1 ==> r == Ok::<i32, FdError>(sfd) && final(self).fd@ == old(self).fd@.update(sfd as int, Some(fname)),
            sfd == -1 ==> match first_free(old(self).fd@, old(self).max as int, 0) {
                Ok(Some(i)) => r == Ok::<i32, FdError>(i as i32) && final(self).fd@ == old(self).fd@.update(i, Some(fname)),
                Ok(None) => r == Ok::<i32, FdError>(-1i32) && final(self).fd@ == old(self).fd@,
                Err(()) => r == Err::<i32, FdError>(FdError::NoSuchDescriptor) && final(self).fd@ == old(self).fd@,
            },
    {
        if sfd != -1 {
            let k = sfd as usize;
            self.fd.set(k, Some(fname));
            Ok(sfd)
        } else {
            let mut i: i32 = 0;
            while i < self.max
                invariant
                    0 <= i,
                    sfd == -1,
                    i <= self.max || self.max < 0,
                    self.max == old(self).max,
                    self.fd@ == old(self).fd@,
                    first_free(self.fd@, self.max as int, 0) == first_free(self.fd@, self.max as int, i as int),
                decreases self.max - i,
            {
                let k = i as usize;
                if k >= self.fd.len() {
                    return Err(FdError::NoSuchDescriptor);
                }
                if self.fd[k].is_none() {
                    self.fd.set(k, Some(fname));
                    return Ok(i);
                }
                i = i + 1;
            }
            Ok(-1)
        }
    }

    /// The file that descriptor `sfd` names.
    pub fn lookup(&self, sfd: i32) -> (r: Result<char, FdError>)
        ensures
            r == (if 0 <= sfd < self.fd@.len() {
                match self.fd@[sfd as int] {
                    Some(n) => Ok(n),
                    None => Err(FdError::NotInUse),
                }
            } else {
                Err(FdError::NoSuchDescriptor)
            }),
    {
        if sfd < 0 || sfd as usize >= self.fd.len() {
            return Err(FdError::NoSuchDescriptor);
        }
        match self.fd[sfd as usize] {
            Some(n) => Ok(n),
            None => Err(FdError::NotInUse),
        }
    }

    /// Freeing a descriptor keeps it in use: the table does not change.
    pub fn free(&self, i: i32) {
    }
}

/// The files of the simulation, named `a` to `z`, and the counter that
/// gives each write a new value.
#[derive(Clone)]
pub struct Files {
    pub numfiles: i32,
    pub value: i32,
    pub filelist: Vec<char>,
}

pub open spec fn alphabet() -> Seq<char> {
    seq!['a', 'b', 'c', 'd', 'e', 'f', 'g', 'h', 'i', 'j', 'k', 'l', 'm', 'n', 'o', 'p', 'q', 'r', 's', 't', 'u', 'v', 'w', 'x', 'y', 'z']
}

impl Files {
    /// The 26 files `a` to `z`, of which the first `numfiles` are used.
    pub fn new(numfiles: i32) -> (f: Files)
        ensures
            f.numfiles == numfiles,
            f.value == 0,
            f.filelist@ == alphabet(),
    {
        let filelist: Vec<char> = vec![
            'a', 'b', 'c', 'd', 'e', 'f', 'g', 'h', 'i', 'j', 'k', 'l', 'm', 'n', 'o', 'p', 'q', 'r', 's', 't', 'u', 'v', 'w', 'x', 'y', 'z'
        ];
        assert(filelist@ =~= alphabet());
        Files { numfiles, value: 0, filelist }
    }

    /// Keeps only the first `numfiles` files.
    pub fn init(&mut self)
        requires
            0 <= old(self).numfiles <= old(self).filelist@.len(),
        ensures
            final(self).filelist@ == old(self).filelist@.take(old(self).numfiles as int),
            final(self).numfiles == old(self).numfiles,
            final(self).value == old(self).value,
    {
        let n = self.numfiles as usize;
        let mut v: Vec<char> = Vec::new();
        let mut i: usize = 0;
        while i < n
            invariant
                n <= self.filelist@.len(),
                i <= n,
                v@ == self.filelist@.take(i as int),
            decreases n - i,
        {
            v.push(self.filelist[i]);
            i = i + 1;
            assert(v@ =~= self.filelist@.take(i as int));
        }
        self.filelist = v;
    }

    /// The files in use.
    pub fn getfiles(&self) -> (v: Vec<char>)
        ensures
            v@ == self.filelist@,
    {
        self.filelist.clone()
    }

    /// The next value to write, counting up from 0.
    pub fn getvalue(&mut self) -> (rc: i32)
        requires
            old(self).value < i32::MAX,
        ensures
            rc == old(self).value,
            final(self).value == old(self).value + 1,
            final(self).numfiles == old(self).numfiles,
            final(self).filelist@ == old(self).filelist@,
    {
        let rc = self.value;
        self.value = self.value + 1;
        rc
    }
}

/// Why a step of the simulation cannot go on (the simulator stops there).
#[derive(Clone, Copy, PartialEq, Eq, Structural, Debug)]
pub enum AfsError {
    /// The file is not on the server.
    NotOnServer(char),
    /// A file descriptor operation failed.
    Fd(FdError),
    /// The file that a descriptor names is not in the client's cache.
    NotCached(char),
    /// No file descriptor was left to give.
    OutOfDescriptors,
    /// The server would call back a client whose copy it holds, and that
    /// copy has not cached the file.
    StaleCallback(usize),
    /// An action of a client's list is malformed.
    BadAction(usize),
    /// A counter would pass `i32::MAX`.
    CounterOverflow,
}

/// The server: the contents of each file, how many whole-file gets and
/// puts it served, for each client the files it has handed out to it (and
/// so will call back on a change), and the caches of its copies of the
/// clients, which take the callbacks.
pub struct Server {
    pub files: Files,
    pub solve: bool,
    pub detail: i32,
    pub contents: Vec<(char, i32)>,
    pub getcnt: i32,
    pub putcnt: i32,
    pub cache: Vec<Vec<char>>,
    pub peers: Vec<Cache>,
}

/// What a cache holds and has counted.
pub struct PeerState {
    pub entries: Seq<(char, CacheContent)>,
    pub hitcnt: int,
    pub misscnt: int,
    pub invalidcnt: int,
}

pub open spec fn peer_view(c: Cache) -> PeerState {
    PeerState { entries: c.entries@, hitcnt: c.hitcnt as int, misscnt: c.misscnt as int, invalidcnt: c.invalidcnt as int }
}

pub open spec fn peers_view(v: Seq<Cache>) -> Seq<PeerState> {
    Seq::new(v.len(), |i: int| peer_view(v[i]))
}

pub struct ServerState {
    pub contents: Seq<(char, i32)>,
    pub getcnt: int,
    pub putcnt: int,
    pub cache: Seq<Seq<char>>,
    pub peers: Seq<PeerState>,
}

pub open spec fn lists_view(v: Seq<Vec<char>>) -> Seq<Seq<char>> {
    Seq::new(v.len(), |i: int| v[i]@)
}

impl View for Server {
    type V = ServerState;

    open spec fn view(&self) -> ServerState {
        ServerState {
            contents: self.contents@,
            getcnt: self.getcnt as int,
            putcnt: self.putcnt as int,
            cache: lists_view(self.cache@),
            peers: peers_view(self.peers@),
        }
    }
}

/// The contents after each file of `fl` got the next value, counting from
/// `v0`.
pub open spec fn server_init_spec(c: Seq<(char, i32)>, fl: Seq<char>, v0: int) -> Seq<(char, i32)>
    decreases fl.len(),
{
    if fl.len() == 0 {
        c
    } else {
        assoc_put(server_init_spec(c, fl.drop_last(), v0), fl.last(), (v0 + fl.len() - 1) as i32)
    }
}

/// A get of `fname` by client `client`: counted, and the file noted as
/// handed out to that client.
pub open spec fn server_get_spec(s: ServerState, client: int, fname: char) -> Result<(ServerState, i32), AfsError> {
    match assoc_get(s.contents, fname) {
        None => Err(AfsError::NotOnServer(fname)),
        Some(v) => if s.getcnt >= i32::MAX {
            Err(AfsError::CounterOverflow)
        } else {
            let list = s.cache[client];
            let cache = if list.contains(fname) { s.cache } else { s.cache.update(client, list.push(fname)) };
            Ok((ServerState { getcnt: s.getcnt + 1, cache, ..s }, v))
        },
    }
}

/// Where `f` first stands in `l` from `i` on (the length of `l` where it
/// does not).
pub open spec fn list_pos(l: Seq<char>, f: char, i: int) -> int
    decreases l.len() - i,
{
    if i < 0 || i >= l.len() {
        l.len() as int
    } else if l[i] == f {
        i
    } else {
        list_pos(l, f, i + 1)
    }
}

/// Why the callbacks of a put of `fname` by `client` to the clients `i..`
/// cannot be made, if they cannot: a client other than `client` whose list
/// holds the file must hold it in its cache, and its count of
/// invalidations must have room.
pub open spec fn callback_fault(cache: Seq<Seq<char>>, peers: Seq<PeerState>, client: int, fname: char, i: int) -> Option<AfsError>
    decreases cache.len() - i,
{
    if i < 0 || i >= cache.len() {
        None
    } else if cache[i].contains(fname) && i != client {
        if i >= peers.len() || assoc_get(peers[i].entries, fname) is None {
            Some(AfsError::StaleCallback(i as usize))
        } else if peers[i].invalidcnt >= i32::MAX {
            Some(AfsError::CounterOverflow)
        } else {
            callback_fault(cache, peers, client, fname, i + 1)
        }
    } else {
        callback_fault(cache, peers, client, fname, i + 1)
    }
}

/// A callback of `fname` to a cache: its copy becomes invalid, and the
/// invalidation is counted.
pub open spec fn invalidated(p: PeerState, fname: char) -> PeerState {
    PeerState {
        entries: assoc_put(p.entries, fname, CacheContent { valid: false, ..assoc_get(p.entries, fname)->0 }),
        invalidcnt: p.invalidcnt + 1,
        ..p
    }
}

/// The callbacks of a put of `fname` by `client` to the clients `i..`:
/// each other client whose list holds the file has its cached copy
/// invalidated and the file taken out of its list (its first occurrence).
pub open spec fn callbacks(cache: Seq<Seq<char>>, peers: Seq<PeerState>, client: int, fname: char, i: int) -> (Seq<Seq<char>>, Seq<PeerState>)
    decreases cache.len() - i,
{
    if i < 0 || i >= cache.len() {
        (cache, peers)
    } else if cache[i].contains(fname) && i != client && i < peers.len() {
        callbacks(
            cache.update(i, cache[i].remove(list_pos(cache[i], fname, 0))),
            peers.update(i, invalidated(peers[i], fname)),
            client,
            fname,
            i + 1,
        )
    } else {
        callbacks(cache, peers, client, fname, i + 1)
    }
}

/// A put of `value` into `fname` by `client`: counted and stored, and a
/// callback made to every other client that holds the file (see
/// `callbacks`); refused where a callback cannot be made (see
/// `callback_fault`).
pub open spec fn server_put_spec(s: ServerState, client: int, fname: char, value: i32) -> Result<ServerState, AfsError> {
    if assoc_get(s.contents, fname) is None {
        Err(AfsError::NotOnServer(fname))
    } else if s.putcnt >= i32::MAX {
        Err(AfsError::CounterOverflow)
    } else {
        match callback_fault(s.cache, s.peers, client, fname, 0) {
            Some(e) => Err(e),
            None => {
                let (cache, peers) = callbacks(s.cache, s.peers, client, fname, 0);
                Ok(ServerState { putcnt: s.putcnt + 1, contents: assoc_put(s.contents, fname, value), cache, peers, ..s })
            },
        }
    }
}

proof fn lemma_list_pos(l: Seq<char>, f: char, i: int)
    requires
        0 <= i <= l.len(),
    ensures
        i <= list_pos(l, f, i) <= l.len(),
        list_pos(l, f, i) < l.len() ==> l[list_pos(l, f, i)] == f,
        forall|m: int| i <= m < list_pos(l, f, i) ==> l[m] != f,
    decreases l.len() - i,
{
    if i < l.len() && l[i] != f {
        lemma_list_pos(l, f, i + 1);
    }
}

proof fn lemma_fault_frame(
    cache: Seq<Seq<char>>,
    peers: Seq<PeerState>,
    cache2: Seq<Seq<char>>,
    peers2: Seq<PeerState>,
    client: int,
    fname: char,
    i: int,
)
    requires
        0 <= i,
        cache.len() == cache2.len(),
        peers.len() == peers2.len(),
        forall|j: int| i <= j < cache.len() ==> cache[j] == cache2[j],
        forall|j: int| i <= j < peers.len() ==> peers[j] == peers2[j],
    ensures
        callback_fault(cache, peers, client, fname, i) == callback_fault(cache2, peers2, client, fname, i),
    decreases cache.len() - i,
{
    if i < cache.len() {
        lemma_fault_frame(cache, peers, cache2, peers2, client, fname, i + 1);
    }
}

impl Server {
    /// A server for `files`, with no contents and no clients yet.
    pub fn new(files: Files, solve: bool, detail: i32) -> (s: Server)
        ensures
            s@.contents.len() == 0,
            s@.getcnt == 0,
            s@.putcnt == 0,
            s@.cache.len() == 0,
            s@.peers.len() == 0,
            s.files.value == files.value,
            s.files.filelist@ == files.filelist@,
            s.solve == solve,
            s.detail == detail,
    {
        Server { files, solve, detail, contents: Vec::new(), getcnt: 0, putcnt: 0, cache: Vec::new(), peers: Vec::new() }
    }

    /// Gives each file the next value of the file counter.
    pub fn init(&mut self)
        requires
            old(self).files.value + old(self).files.filelist@.len() <= i32::MAX,
        ensures
            final(self)@ == (ServerState {
                contents: server_init_spec(old(self)@.contents, old(self).files.filelist@, old(self).files.value as int),
                ..old(self)@
            }),
            final(self).files.value == old(self).files.value + old(self).files.filelist@.len(),
            final(self).files.filelist@ == old(self).files.filelist@,
    {
        let flist = self.files.getfiles();
        let ghost c0 = self.contents@;
        let ghost v0 = self.files.value as int;
        let mut i: usize = 0;
        while i < flist.len()
            invariant
                flist@ == self.files.filelist@,
                flist@ == old(self).files.filelist@,
                v0 == old(self).files.value,
                c0 == old(self).contents@,
                i <= flist@.len(),
                self.files.value == v0 + i,
                v0 + flist@.len() <= i32::MAX,
                self.contents@ == server_init_spec(c0, flist@.take(i as int), v0),
                self.getcnt == old(self).getcnt,
                self.putcnt == old(self).putcnt,
                self.cache == old(self).cache,
                self.peers == old(self).peers,
            decreases flist@.len() - i,
        {
            let f = flist[i];
            let v = self.files.getvalue();
            match find_entry(&self.contents, f) {
                Some(k) => {
                    self.contents.set(k, (f, v));
                },
                None => {
                    self.contents.push((f, v));
                },
            }
            proof {
                let t = flist@.take(i + 1);
                assert(t.drop_last() =~= flist@.take(i as int));
                assert(t.last() == f);
            }
            i = i + 1;
        }
        assert(flist@.take(i as int) =~= flist@);
    }

    /// Makes the server know the clients `0..n`, none holding any file, and
    /// keep a copy of each, with an empty cache.
    pub fn setclients(&mut self, n: usize)
        ensures
            final(self)@ == (ServerState {
                cache: Seq::new(n as nat, |i: int| Seq::<char>::empty()),
                peers: Seq::new(n as nat, |i: int| PeerState { entries: Seq::empty(), hitcnt: 0, misscnt: 0, invalidcnt: 0 }),
                ..old(self)@
            }),
            final(self).files.value == old(self).files.value,
            final(self).files.filelist@ == old(self).files.filelist@,
    {
        let mut cache: Vec<Vec<char>> = Vec::new();
        let mut peers: Vec<Cache> = Vec::new();
        let mut i: usize = 0;
        while i < n
            invariant
                i <= n,
                lists_view(cache@) == Seq::new(i as nat, |k: int| Seq::<char>::empty()),
                peers_view(peers@) == Seq::new(i as nat, |k: int| PeerState { entries: Seq::empty(), hitcnt: 0, misscnt: 0, invalidcnt: 0 }),
            decreases n - i,
        {
            let e: Vec<char> = Vec::new();
            assert(e@ =~= Seq::<char>::empty());
            let ghost before = lists_view(cache@);
            cache.push(e);
            assert(lists_view(cache@) =~= before.push(Seq::<char>::empty()));
            let mut name = String::new();
            name.push('c');
            if i <= i64::MAX as usize {
                push_int(&mut name, i as i64);
            }
            let pc = Cache::new(name, i as i32, self.solve, self.detail);
            assert(pc.entries@ =~= Seq::<(char, CacheContent)>::empty());
            let ghost pbefore = peers_view(peers@);
            peers.push(pc);
            assert(peers_view(peers@) =~= pbefore.push(peer_view(pc)));
            i = i + 1;
            assert(lists_view(cache@) =~= Seq::new(i as nat, |k: int| Seq::<char>::empty()));
            assert(peers_view(peers@) =~= Seq::new(i as nat, |k: int| PeerState { entries: Seq::empty(), hitcnt: 0, misscnt: 0, invalidcnt: 0 }));
        }
        self.cache = cache;
        self.peers = peers;
    }

    /// Hands out `fname` to `client` (see `server_get_spec`).
    pub fn get(&mut self, client: usize, fname: char) -> (r: Result<i32, AfsError>)
        requires
            client < old(self)@.cache.len(),
        ensures
            match r {
                Ok(v) => server_get_spec(old(self)@, client as int, fname) == Ok::<(ServerState, i32), AfsError>((final(self)@, v)),
                Err(e) => server_get_spec(old(self)@, client as int, fname) == Err::<(ServerState, i32), AfsError>(e) && final(self)@ == old(self)@,
            },
            final(self).files.value == old(self).files.value,
            final(self).files.filelist@ == old(self).files.filelist@,
    {
        let v = match find_entry(&self.contents, fname) {
            None => {
                return Err(AfsError::NotOnServer(fname));
            },
            Some(k) => self.contents[k].1,
        };
        if self.getcnt == i32::MAX {
            return Err(AfsError::CounterOverflow);
        }
        self.getcnt = self.getcnt + 1;
        assert(self.cache@[client as int]@ == old(self)@.cache[client as int]);
        if !contains_char(&self.cache[client], fname) {
            let ghost c0 = self.cache@;
            let mut list: Vec<char> = Vec::new();
            self.cache.set_and_swap(client, &mut list);
            list.push(fname);
            self.cache.set(client, list);
            assert(lists_view(self.cache@) =~= lists_view(c0).update(client as int, old(self)@.cache[client as int].push(fname)));
        }
        Ok(v)
    }

    /// Why a put of `fname` by `client` cannot be made, if it cannot (see
    /// `server_put_spec`): the file is not on the server, the put counter is
    /// full, or a callback cannot be made (see `callback_fault`).
    pub fn put_refusal(&self, client: usize, fname: char) -> (r: Option<AfsError>)
        ensures
            r == (match server_put_spec(self@, client as int, fname, 0) {
                Err(e) => Some(e),
                Ok(_) => None::<AfsError>,
            }),
            forall|v: i32| (#[trigger] server_put_spec(self@, client as int, fname, v) is Ok) == (r is None),
    {
        if find_entry(&self.contents, fname).is_none() {
            return Some(AfsError::NotOnServer(fname));
        }
        if self.putcnt == i32::MAX {
            return Some(AfsError::CounterOverflow);
        }
        let mut c: usize = 0;
        while c < self.cache.len()
            invariant
                c <= self@.cache.len(),
                assoc_get(self@.contents, fname) is Some,
                self.putcnt < i32::MAX,
                callback_fault(self@.cache, self@.peers, client as int, fname, 0) == callback_fault(self@.cache, self@.peers, client as int, fname, c as int),
            decreases self@.cache.len() - c,
        {
            assert(self.cache@[c as int]@ == self@.cache[c as int]);
            if contains_char(&self.cache[c], fname) && c != client {
                if c >= self.peers.len() {
                    return Some(AfsError::StaleCallback(c));
                }
                assert(peer_view(self.peers@[c as int]) == self@.peers[c as int]);
                if find_entry(&self.peers[c].entries, fname).is_none() {
                    return Some(AfsError::StaleCallback(c));
                }
                if self.peers[c].invalidcnt == i32::MAX {
                    return Some(AfsError::CounterOverflow);
                }
            }
            c = c + 1;
        }
        None
    }

    /// The first position of `f` in `l` (its length where it is not there).
    fn find_in_list(l: &Vec<char>, f: char) -> (r: usize)
        ensures
            r == list_pos(l@, f, 0),
    {
        let mut i: usize = 0;
        while i < l.len()
            invariant
                i <= l@.len(),
                list_pos(l@, f, 0) == list_pos(l@, f, i as int),
            decreases l@.len() - i,
        {
            if l[i] == f {
                return i;
            }
            i = i + 1;
        }
        i
    }

    /// Stores `value` into `fname` for `client`, where the put can be made
    /// (see `put_refusal`): the put is counted, the value stored, and every
    /// other client that holds the file called back (see `callbacks`).
    pub fn put(&mut self, client: usize, fname: char, value: i32)
        requires
            server_put_spec(old(self)@, client as int, fname, value) is Ok,
        ensures
            server_put_spec(old(self)@, client as int, fname, value) == Ok::<ServerState, AfsError>(final(self)@),
            final(self)@.cache.len() == old(self)@.cache.len(),
            final(self)@.peers.len() == old(self)@.peers.len(),
            final(self).files.value == old(self).files.value,
            final(self).files.filelist@ == old(self).files.filelist@,
    {
        let k = match find_entry(&self.contents, fname) {
            None => {
                return;
            },
            Some(k) => k,
        };
        self.putcnt = self.putcnt + 1;
        self.contents.set(k, (fname, value));
        let ghost target = callbacks(old(self)@.cache, old(self)@.peers, client as int, fname, 0);
        let mut c: usize = 0;
        while c < self.cache.len()
            invariant
                c <= self@.cache.len(),
                self@.cache.len() == old(self)@.cache.len(),
                self@.peers.len() == old(self)@.peers.len(),
                self@.contents == assoc_put(old(self)@.contents, fname, value),
                self@.putcnt == old(self)@.putcnt + 1,
                self@.getcnt == old(self)@.getcnt,
                self.files.value == old(self).files.value,
                self.files.filelist@ == old(self).files.filelist@,
                callbacks(self@.cache, self@.peers, client as int, fname, c as int) == target,
                callback_fault(self@.cache, self@.peers, client as int, fname, c as int) is None,
            decreases self@.cache.len() - c,
        {
            assert(self.cache@[c as int]@ == self@.cache[c as int]);
            if contains_char(&self.cache[c], fname) && c != client && c < self.peers.len() {
                let ghost cache0 = self@.cache;
                let ghost peers0 = self@.peers;
                assert(peer_view(self.peers@[c as int]) == self@.peers[c as int]);
                let pos = Self::find_in_list(&self.cache[c], fname);
                proof {
                    lemma_list_pos(self@.cache[c as int], fname, 0);
                }
                let mut list: Vec<char> = Vec::new();
                self.cache.set_and_swap(c, &mut list);
                list.remove(pos);
                self.cache.set(c, list);
                let mut pc = Cache::new(String::new(), 0, false, 0);
                self.peers.set_and_swap(c, &mut pc);
                pc.invalidate(fname);
                self.peers.set(c, pc);
                proof {
                    assert(self@.cache =~= cache0.update(c as int, cache0[c as int].remove(list_pos(cache0[c as int], fname, 0))));
                    assert(self@.peers =~= peers0.update(c as int, invalidated(peers0[c as int], fname)));
                    lemma_fault_frame(cache0, peers0, self@.cache, self@.peers, client as int, fname, c + 1);
                }
            }
            c = c + 1;
        }
        proof {
            assert(callbacks(self@.cache, self@.peers, client as int, fname, c as int) == (self@.cache, self@.peers));
        }
    }
}

/// One action of a client: open a file on a descriptor, read, write or
/// close the file a descriptor names.
#[derive(Clone, Copy, PartialEq, Eq, Structural, Debug)]
pub enum AfsAction {
    Open(char, i32),
    Read(i32),
    Write(i32),
    Close(i32),
}

pub open spec fn is_ascii_char(c: char) -> bool {
    c <= '\x7f'
}

pub open spec fn is_digit_char(c: char) -> bool {
    '0' <= c && c <= '9'
}

pub open spec fn digit_of(c: char) -> i32 {
    digit_val(c) as i32
}

/// The action that one piece of an action list (such as `oa1`, `r1`, `w1`,
/// `c1`) describes; `Ok(None)` for an unknown command, which is skipped;
/// `Err(())` for a malformed piece.
pub open spec fn piece_action(p: Seq<char>) -> Result<Option<AfsAction>, ()> {
    if p.len() == 0 || !is_ascii_char(p[0]) {
        Err(())
    } else if p[0] == 'o' {
        if p.len() == 3 && is_ascii_char(p[1]) && is_digit_char(p[2]) {
            Ok(Some(AfsAction::Open(p[1], digit_of(p[2]))))
        } else {
            Err(())
        }
    } else if p[0] == 'r' || p[0] == 'w' || p[0] == 'c' {
        if p.len() == 2 && is_digit_char(p[1]) {
            let fd = digit_of(p[1]);
            Ok(Some(if p[0] == 'r' { AfsAction::Read(fd) } else if p[0] == 'w' { AfsAction::Write(fd) } else { AfsAction::Close(fd) }))
        } else {
            Err(())
        }
    } else {
        Ok(None)
    }
}

/// The actions of the pieces `ps`, skipping unknown commands, and the
/// places of the skipped pieces; `Err(i)` for the first malformed piece.
pub open spec fn pieces_actions(ps: Seq<Seq<char>>) -> Result<(Seq<AfsAction>, Seq<usize>), usize>
    decreases ps.len(),
{
    if ps.len() == 0 {
        Ok((Seq::empty(), Seq::empty()))
    } else {
        match pieces_actions(ps.drop_last()) {
            Err(i) => Err(i),
            Ok((acts, skipped)) => match piece_action(ps.last()) {
                Err(()) => Err((ps.len() - 1) as usize),
                Ok(Some(a)) => Ok((acts.push(a), skipped)),
                Ok(None) => Ok((acts, skipped.push((ps.len() - 1) as usize))),
            },
        }
    }
}

/// A client: its name and number, its copy of the server, its copy of the
/// file counter, its cache and descriptor table, its read and write
/// counts, and its list of actions with the place of the next one.
pub struct Client {
    pub name: String,
    pub cid: usize,
    pub server: Server,
    pub files: Files,
    pub solve: bool,
    pub detail: i32,
    pub cache: Cache,
    pub fd: FileDesc,
    pub readcnt: i32,
    pub writecnt: i32,
    pub done: bool,
    pub acnt: usize,
    pub actions: Vec<AfsAction>,
}

pub struct ClientState {
    pub cid: int,
    pub server: ServerState,
    pub value: int,
    pub entries: Seq<(char, CacheContent)>,
    pub hitcnt: int,
    pub misscnt: int,
    pub invalidcnt: int,
    pub fd: Seq<Option<char>>,
    pub readcnt: int,
    pub writecnt: int,
    pub done: bool,
    pub acnt: int,
    pub actions: Seq<AfsAction>,
}

impl View for Client {
    type V = ClientState;

    open spec fn view(&self) -> ClientState {
        ClientState {
            cid: self.cid as int,
            server: self.server@,
            value: self.files.value as int,
            entries: self.cache.entries@,
            hitcnt: self.cache.hitcnt as int,
            misscnt: self.cache.misscnt as int,
            invalidcnt: self.cache.invalidcnt as int,
            fd: self.fd.fd@,
            readcnt: self.readcnt as int,
            writecnt: self.writecnt as int,
            done: self.done,
            acnt: self.acnt as int,
            actions: self.actions@,
        }
    }
}

/// What a step did, for the trace.
#[derive(Clone, Copy, PartialEq, Eq, Structural, Debug)]
pub enum AfsEvent {
    /// Opened `fname` on `fd`; `fetched` is the value got from the server
    /// where the cache had no valid copy.
    Open { fname: char, fd: i32, fetched: Option<i32> },
    Read { fd: i32, data: i32 },
    Write { fd: i32, old: i32, new: i32 },
    /// Closed `fd`; `stored` is the value put back to the server where the
    /// cached copy was dirty.
    Close { fd: i32, stored: Option<i32> },
}

/// What a step returns: -1 once the client is done, 0 at the step that
/// finds its actions used up, 1 (with the event) otherwise.
#[derive(Clone, Copy, PartialEq, Eq, Structural, Debug)]
pub struct AfsStep {
    pub code: i32,
    pub event: Option<AfsEvent>,
}

/// Opening `fname`: a valid cached copy is used (its dirty flag set as
/// given), else the file is fetched from the server and cached; either way
/// one more open refers to it.
pub open spec fn getfile_spec(c: ClientState, fname: char, dirty: bool) -> Result<(ClientState, Option<i32>), AfsError> {
    let hit = assoc_get(c.entries, fname) is Some;
    if (hit && c.hitcnt >= i32::MAX) || (!hit && c.misscnt >= i32::MAX) {
        Err(AfsError::CounterOverflow)
    } else {
        let c1 = if hit { ClientState { hitcnt: c.hitcnt + 1, ..c } } else { ClientState { misscnt: c.misscnt + 1, ..c } };
        let r = if hit && assoc_get(c.entries, fname)->0.valid {
            let cc = assoc_get(c.entries, fname)->0;
            Ok((ClientState { entries: assoc_put(c1.entries, fname, CacheContent { dirty, ..cc }), ..c1 }, None::<i32>))
        } else {
            match server_get_spec(c1.server, c1.cid, fname) {
                Err(e) => Err(e),
                Ok((sv, data)) => Ok((ClientState {
                    server: sv,
                    entries: assoc_put(c1.entries, fname, CacheContent { data, dirty, refcnt: 0, valid: true }),
                    ..c1
                }, Some(data))),
            }
        };
        match r {
            Err(e) => Err(e),
            Ok((c2, fetched)) => {
                let cc = assoc_get(c2.entries, fname)->0;
                if cc.refcnt >= i32::MAX {
                    Err(AfsError::CounterOverflow)
                } else {
                    Ok((ClientState { entries: assoc_put(c2.entries, fname, CacheContent { refcnt: (cc.refcnt + 1) as i32, ..cc }), ..c2 }, fetched))
                }
            },
        }
    }
}

/// The file that descriptor `fd` names, which must be cached.
pub open spec fn fd_file(c: ClientState, fd: i32) -> Result<char, AfsError> {
    if 0 <= fd < c.fd.len() {
        match c.fd[fd as int] {
            Some(n) => if assoc_get(c.entries, n) is Some { Ok(n) } else { Err(AfsError::NotCached(n)) },
            None => Err(AfsError::Fd(FdError::NotInUse)),
        }
    } else {
        Err(AfsError::Fd(FdError::NoSuchDescriptor))
    }
}

/// One step of a client (see `AfsStep`): the next action runs against the
/// client's cache and its copy of the server.
pub open spec fn client_step_spec(c: ClientState) -> Result<(ClientState, AfsStep), AfsError> {
    if c.done {
        Ok((c, AfsStep { code: -1i32, event: None }))
    } else if c.acnt >= c.actions.len() {
        Ok((ClientState { done: true, ..c }, AfsStep { code: 0, event: None }))
    } else {
        let next = ClientState { acnt: c.acnt + 1, ..c };
        match c.actions[c.acnt] {
            AfsAction::Open(fname, fd) => match getfile_spec(next, fname, false) {
                Err(e) => Err(e),
                Ok((c2, fetched)) => Ok((c2, AfsStep { code: 1, event: Some(AfsEvent::Open { fname, fd, fetched }) })),
            },
            AfsAction::Read(fd) => match fd_file(c, fd) {
                Err(e) => Err(e),
                Ok(n) => if c.readcnt >= i32::MAX {
                    Err(AfsError::CounterOverflow)
                } else {
                    Ok((ClientState { readcnt: c.readcnt + 1, ..next }, AfsStep {
                        code: 1,
                        event: Some(AfsEvent::Read { fd, data: assoc_get(c.entries, n)->0.data }),
                    }))
                },
            },
            AfsAction::Write(fd) => match fd_file(c, fd) {
                Err(e) => Err(e),
                Ok(n) => if c.writecnt >= i32::MAX || c.value >= i32::MAX {
                    Err(AfsError::CounterOverflow)
                } else {
                    let cc = assoc_get(c.entries, n)->0;
                    Ok((ClientState {
                        writecnt: c.writecnt + 1,
                        value: c.value + 1,
                        entries: assoc_put(c.entries, n, CacheContent { data: c.value as i32, dirty: true, ..cc }),
                        ..next
                    }, AfsStep { code: 1, event: Some(AfsEvent::Write { fd, old: cc.data, new: c.value as i32 }) }))
                },
            },
            AfsAction::Close(fd) => match fd_file(c, fd) {
                Err(e) => Err(e),
                Ok(n) => {
                    let cc = assoc_get(c.entries, n)->0;
                    let put = if cc.dirty {
                        match server_put_spec(c.server, c.cid, n, cc.data) {
                            Err(e) => Err(e),
                            Ok(sv) => Ok((sv, assoc_put(c.entries, n, CacheContent { dirty: false, valid: true, ..cc }), Some(cc.data))),
                        }
                    } else {
                        Ok((c.server, c.entries, None::<i32>))
                    };
                    match put {
                        Err(e) => Err(e),
                        Ok((sv, entries, stored)) => {
                            let cc2 = assoc_get(entries, n)->0;
                            if cc2.refcnt <= i32::MIN {
                                Err(AfsError::CounterOverflow)
                            } else {
                                Ok((ClientState {
                                    server: sv,
                                    entries: assoc_put(entries, n, CacheContent { refcnt: (cc2.refcnt - 1) as i32, ..cc2 }),
                                    ..next
                                }, AfsStep { code: 1, event: Some(AfsEvent::Close { fd, stored }) }))
                            }
                        },
                    }
                },
            },
        }
    }
}

/// A client's server copy knows the client, and its file counter has not
/// run out.
pub open spec fn client_wf(c: ClientState) -> bool {
    &&& 0 <= c.cid < c.server.cache.len()
}

impl Client {
    /// A client with an empty cache, an empty descriptor table of up to
    /// 1024 descriptors, and no actions.
    pub fn new(name: String, cid: usize, server: Server, files: Files, solve: bool, detail: i32) -> (c: Client)
        ensures
            c@.cid == cid,
            c@.server == server@,
            c@.value == files.value,
            c@.entries.len() == 0,
            c@.hitcnt == 0 && c@.misscnt == 0 && c@.invalidcnt == 0,
            c@.fd.len() == 0,
            c.fd.max == 1024,
            c@.readcnt == 0 && c@.writecnt == 0,
            !c@.done,
            c@.acnt == 0,
            c@.actions.len() == 0,
            c.name@ == name@,
            c.cache.name@ == name@,
            c.solve == solve,
            c.detail == detail,
    {
        let cname = name.clone();
        let n32: i32 = if cid <= 2147483647 { cid as i32 } else { 2147483647 };
        Client {
            name,
            cid,
            server,
            files,
            solve,
            detail,
            cache: Cache::new(cname, n32, solve, detail),
            fd: FileDesc::new(),
            readcnt: 0,
            writecnt: 0,
            done: false,
            acnt: 0,
            actions: Vec::new(),
        }
    }

    /// Puts descriptors `0..max` into the table, free.
    pub fn init_fds(&mut self)
        ensures
            final(self)@ == (ClientState { fd: fd_init_spec(old(self)@.fd, old(self).fd.max as int), ..old(self)@ }),
            final(self).fd.max == old(self).fd.max,
    {
        self.fd.init();
    }

    /// Adds a randomly chosen step: open `fname` on the first free
    /// descriptor, read it (or write it), close it.
    pub fn add_random_step(&mut self, fname: char, read: bool) -> (r: Result<i32, AfsError>)
        ensures
            final(self).fd.max == old(self).fd.max,
            match first_free(old(self)@.fd, old(self).fd.max as int, 0) {
                Ok(Some(i)) => r == Ok::<i32, AfsError>(i as i32) && final(self)@ == (ClientState {
                    fd: old(self)@.fd.update(i, Some(fname)),
                    actions: old(self)@.actions + seq![
                        AfsAction::Open(fname, i as i32),
                        if read { AfsAction::Read(i as i32) } else { AfsAction::Write(i as i32) },
                        AfsAction::Close(i as i32)
                    ],
                    ..old(self)@
                }),
                Ok(None) => r == Err::<i32, AfsError>(AfsError::OutOfDescriptors),
                Err(()) => r == Err::<i32, AfsError>(AfsError::Fd(FdError::NoSuchDescriptor)),
            },
    {
        proof {
            lemma_first_free_range(self@.fd, self.fd.max as int, 0);
        }
        let fd = match self.fd.allocate(fname, -1) {
            Ok(d) => d,
            Err(e) => {
                return Err(AfsError::Fd(e));
            },
        };
        if fd < 0 {
            return Err(AfsError::OutOfDescriptors);
        }
        let ghost a0 = self.actions@;
        self.actions.push(AfsAction::Open(fname, fd));
        if read {
            self.actions.push(AfsAction::Read(fd));
        } else {
            self.actions.push(AfsAction::Write(fd));
        }
        self.actions.push(AfsAction::Close(fd));
        assert(self.actions@ =~= a0 + seq![
            AfsAction::Open(fname, fd),
            if read { AfsAction::Read(fd) } else { AfsAction::Write(fd) },
            AfsAction::Close(fd)
        ]);
        Ok(fd)
    }

    /// Reads the action list of this client (pieces separated by `:`) and
    /// adds its actions; gives back the places of the pieces skipped as
    /// unknown commands.
    pub fn parse_actions(&mut self, actions: &str) -> (r: Result<Vec<usize>, AfsError>)
        ensures
            match pieces_actions(split_spec(actions@, ':')) {
                Ok((acts, skipped)) => r matches Ok(v) && v@ == skipped && final(self)@ == (ClientState {
                    actions: old(self)@.actions + acts,
                    ..old(self)@
                }),
                Err(i) => r == Err::<Vec<usize>, AfsError>(AfsError::BadAction(i)),
            },
    {
        let cs = chars_of(actions);
        let pieces = split_chars(&cs, ':');
        let ghost ps = split_spec(actions@, ':');
        let ghost a0 = self.actions@;
        let mut skipped: Vec<usize> = Vec::new();
        let mut i: usize = 0;
        while i < pieces.len()
            invariant
                views_of(pieces@) == ps,
                ps == split_spec(actions@, ':'),
                a0 == old(self)@.actions,
                i <= ps.len(),
                pieces_actions(ps.take(i as int)) is Ok,
                self@.actions == a0 + pieces_actions(ps.take(i as int))->Ok_0.0,
                skipped@ == pieces_actions(ps.take(i as int))->Ok_0.1,
                self@ == (ClientState { actions: self@.actions, ..old(self)@ }),
            decreases ps.len() - i,
        {
            let p = &pieces[i];
            assert(p@ == ps[i as int]);
            proof {
                let t = ps.take(i + 1);
                assert(t.drop_last() =~= ps.take(i as int));
                assert(t.last() == ps[i as int]);
            }
            let ghost prev = self.actions@;
            if p.len() == 0 || !(p[0] <= '\x7f') {
                proof {
                    lemma_pieces_err(ps, i as int);
                }
                return Err(AfsError::BadAction(i));
            }
            let c = p[0];
            if c == 'o' {
                if p.len() == 3 && p[1] <= '\x7f' && p[2] >= '0' && p[2] <= '9' {
                    let fd = digit_value_of(p[2]) as i32;
                    self.actions.push(AfsAction::Open(p[1], fd));
                    assert(self.actions@ =~= prev.push(AfsAction::Open(p[1], fd)));
                } else {
                    proof {
                        lemma_pieces_err(ps, i as int);
                    }
                    return Err(AfsError::BadAction(i));
                }
            } else if c == 'r' || c == 'w' || c == 'c' {
                if p.len() == 2 && p[1] >= '0' && p[1] <= '9' {
                    let fd = digit_value_of(p[1]) as i32;
                    let a = if c == 'r' {
                        AfsAction::Read(fd)
                    } else if c == 'w' {
                        AfsAction::Write(fd)
                    } else {
                        AfsAction::Close(fd)
                    };
                    self.actions.push(a);
                    assert(self.actions@ =~= prev.push(a));
                } else {
                    proof {
                        lemma_pieces_err(ps, i as int);
                    }
                    return Err(AfsError::BadAction(i));
                }
            } else {
                skipped.push(i);
            }
            i = i + 1;
        }
        assert(ps.take(i as int) =~= ps);
        Ok(skipped)
    }

    fn getfile(&mut self, fname: char, dirty: bool) -> (r: Result<Option<i32>, AfsError>)
        requires
            client_wf(old(self)@),
        ensures
            match r {
                Ok(f) => getfile_spec(old(self)@, fname, dirty) == Ok::<(ClientState, Option<i32>), AfsError>((final(self)@, f)),
                Err(e) => getfile_spec(old(self)@, fname, dirty) == Err::<(ClientState, Option<i32>), AfsError>(e),
            },
            client_wf(final(self)@),
            final(self).fd.max == old(self).fd.max,
    {
        let hit = find_entry(&self.cache.entries, fname).is_some();
        if (hit && self.cache.hitcnt == i32::MAX) || (!hit && self.cache.misscnt == i32::MAX) {
            return Err(AfsError::CounterOverflow);
        }
        let (incache, item) = self.cache.checkget(fname);
        let mut fetched: Option<i32> = None;
        if incache && item.valid {
            self.cache.setdirty(fname, dirty);
        } else {
            let data = match self.server.get(self.cid, fname) {
                Ok(d) => d,
                Err(e) => {
                    return Err(e);
                },
            };
            self.cache.put(fname, data, dirty, 0);
            fetched = Some(data);
        }
        proof {
            law_assoc_get_put(self.cache.entries@, fname, CacheContent { data: 0, dirty: false, refcnt: 0, valid: false }, fname);
        }
        let ghost e1 = self.cache.entries@;
        proof {
            if incache && item.valid {
                law_assoc_get_put(old(self).cache.entries@, fname, CacheContent { dirty, ..item }, fname);
            } else {
                law_assoc_get_put(old(self).cache.entries@, fname, CacheContent { data: fetched->0, dirty, refcnt: 0, valid: true }, fname);
            }
        }
        let cc = self.cache.fetch(fname);
        if cc.refcnt == i32::MAX {
            return Err(AfsError::CounterOverflow);
        }
        self.cache.incref(fname);
        Ok(fetched)
    }

    fn fd_file_x(&self, fd: i32) -> (r: Result<char, AfsError>)
        ensures
            r == fd_file(self@, fd),
    {
        match self.fd.lookup(fd) {
            Err(e) => Err(AfsError::Fd(e)),
            Ok(n) => if find_entry(&self.cache.entries, n).is_some() {
                Ok(n)
            } else {
                Err(AfsError::NotCached(n))
            },
        }
    }

    /// One step (see `client_step_spec`).
    pub fn step(&mut self) -> (r: Result<AfsStep, AfsError>)
        requires
            client_wf(old(self)@),
        ensures
            match r {
                Ok(st) => client_step_spec(old(self)@) == Ok::<(ClientState, AfsStep), AfsError>((final(self)@, st)),
                Err(e) => client_step_spec(old(self)@) == Err::<(ClientState, AfsStep), AfsError>(e),
            },
            client_wf(final(self)@),
            final(self).fd.max == old(self).fd.max,
    {
        if self.done {
            return Ok(AfsStep { code: -1, event: None });
        }
        if self.acnt >= self.actions.len() {
            self.done = true;
            return Ok(AfsStep { code: 0, event: None });
        }
        let action = self.actions[self.acnt];
        match action {
            AfsAction::Open(fname, fd) => {
                self.acnt = self.acnt + 1;
                match self.getfile(fname, false) {
                    Err(e) => Err(e),
                    Ok(fetched) => Ok(AfsStep { code: 1, event: Some(AfsEvent::Open { fname, fd, fetched }) }),
                }
            },
            AfsAction::Read(fd) => {
                let n = match self.fd_file_x(fd) {
                    Err(e) => {
                        return Err(e);
                    },
                    Ok(n) => n,
                };
                if self.readcnt == i32::MAX {
                    return Err(AfsError::CounterOverflow);
                }
                self.readcnt = self.readcnt + 1;
                let (_, contents) = self.cache.get(n);
                self.acnt = self.acnt + 1;
                Ok(AfsStep { code: 1, event: Some(AfsEvent::Read { fd, data: contents.data }) })
            },
            AfsAction::Write(fd) => {
                let n = match self.fd_file_x(fd) {
                    Err(e) => {
                        return Err(e);
                    },
                    Ok(n) => n,
                };
                if self.writecnt == i32::MAX || self.files.value == i32::MAX {
                    return Err(AfsError::CounterOverflow);
                }
                self.writecnt = self.writecnt + 1;
                let (_, contents) = self.cache.get(n);
                let v = self.files.getvalue();
                self.cache.update(n, v);
                self.acnt = self.acnt + 1;
                Ok(AfsStep { code: 1, event: Some(AfsEvent::Write { fd, old: contents.data, new: v }) })
            },
            AfsAction::Close(fd) => {
                let n = match self.fd_file_x(fd) {
                    Err(e) => {
                        return Err(e);
                    },
                    Ok(n) => n,
                };
                let (_, contents) = self.cache.get(n);
                let mut stored: Option<i32> = None;
                if self.cache.isdirty(n) {
                    match self.server.put_refusal(self.cid, n) {
                        Some(e) => {
                            return Err(e);
                        },
                        None => {},
                    }
                    self.server.put(self.cid, n, contents.data);
                    self.cache.setclean(n);
                    proof {
                        law_assoc_get_put(old(self).cache.entries@, n, CacheContent { dirty: false, ..contents }, n);
                    }
                    self.cache.setvalid(n);
                    proof {
                        let e1 = assoc_put(old(self).cache.entries@, n, CacheContent { dirty: false, ..contents });
                        law_assoc_get_put(e1, n, CacheContent { dirty: false, valid: true, ..contents }, n);
                        lemma_assoc_put_twice(old(self).cache.entries@, n, CacheContent { dirty: false, ..contents }, CacheContent { dirty: false, valid: true, ..contents });
                    }
                    stored = Some(contents.data);
                }
                let cc2 = self.cache.fetch(n);
                if cc2.refcnt == i32::MIN {
                    return Err(AfsError::CounterOverflow);
                }
                self.cache.decref(n);
                self.acnt = self.acnt + 1;
                Ok(AfsStep { code: 1, event: Some(AfsEvent::Close { fd, stored }) })
            },
        }
    }
}

proof fn lemma_pieces_err_grows(ps: Seq<Seq<char>>, k: int, i: usize)
    requires
        0 <= k <= ps.len(),
        pieces_actions(ps.take(k)) == Err::<(Seq<AfsAction>, Seq<usize>), usize>(i),
    ensures
        pieces_actions(ps) == Err::<(Seq<AfsAction>, Seq<usize>), usize>(i),
    decreases ps.len() - k,
{
    if k == ps.len() {
        assert(ps.take(k) =~= ps);
    } else {
        assert(ps.take(k + 1).drop_last() =~= ps.take(k));
        lemma_pieces_err_grows(ps, k + 1, i);
    }
}

proof fn lemma_pieces_err(ps: Seq<Seq<char>>, k: int)
    requires
        0 <= k < ps.len(),
        k <= usize::MAX,
        pieces_actions(ps.take(k)) is Ok,
        piece_action(ps[k]) is Err,
    ensures
        pieces_actions(ps) == Err::<(Seq<AfsAction>, Seq<usize>), usize>(k as usize),
{
    let t = ps.take(k + 1);
    assert(t.drop_last() =~= ps.take(k));
    assert(t.last() == ps[k]);
    lemma_pieces_err_grows(ps, k + 1, k as usize);
}

proof fn lemma_assoc_put_twice<V>(s: Seq<(char, V)>, k: char, v1: V, v2: V)
    ensures
        assoc_put(assoc_put(s, k, v1), k, v2) == assoc_put(s, k, v2),
{
    lemma_first_key_range(s, k, 0);
    match first_key(s, k, 0) {
        Some(i) => {
            lemma_first_key_update(s, i, (k, v1), k, 0);
            assert(s.update(i, (k, v1)).update(i, (k, v2)) =~= s.update(i, (k, v2)));
        },
        None => {
            lemma_first_key_push(s, (k, v1), k, 0);
            assert(s.push((k, v1)).update(s.len() as int, (k, v2)) =~= s.push((k, v2)));
        },
    }
}

/// Only the client itself is noted in its copy of the server as holding
/// files (the copy was taken before any client ran).
pub open spec fn own_holdings_only(c: ClientState) -> bool {
    forall|j: int| 0 <= j < c.server.cache.len() && j != c.cid ==> (#[trigger] c.server.cache[j]).len() == 0
}

proof fn lemma_no_holder(cache: Seq<Seq<char>>, peers: Seq<PeerState>, client: int, fname: char, i: int)
    requires
        0 <= i,
        forall|j: int| 0 <= j < cache.len() && j != client ==> (#[trigger] cache[j]).len() == 0,
    ensures
        callback_fault(cache, peers, client, fname, i) is None,
        callbacks(cache, peers, client, fname, i) == (cache, peers),
    decreases cache.len() - i,
{
    if i < cache.len() {
        if i != client {
            assert(cache[i].len() == 0);
            assert(!cache[i].contains(fname));
        }
        lemma_no_holder(cache, peers, client, fname, i + 1);
    }
}

/// A step's code tells where the client is in its list of actions: `1`
/// for each action run (the action counter goes up by one), then `0` once
/// when the list is used up (the client is then done), then `-1` for every
/// later step, which changes nothing. The list of actions never changes.
pub proof fn law_step_codes(c: ClientState)
    requires
        client_step_spec(c) is Ok,
    ensures
        ({
            let (c2, st) = client_step_spec(c)->Ok_0;
            &&& c2.actions == c.actions
            &&& c.done ==> st.code == -1 && c2 == c
            &&& !c.done && c.acnt >= c.actions.len() ==> st.code == 0 && c2.done && c2.acnt == c.acnt
            &&& !c.done && c.acnt < c.actions.len() ==> st.code == 1 && !c2.done && c2.acnt == c.acnt + 1
        }),
{
}

/// `k` steps of a client, one after the other: the client after them and
/// the code of each step.
pub open spec fn client_run(c: ClientState, k: nat) -> Result<(ClientState, Seq<i32>), AfsError>
    decreases k,
{
    if k == 0 {
        Ok((c, Seq::empty()))
    } else {
        match client_run(c, (k - 1) as nat) {
            Err(e) => Err(e),
            Ok((c1, codes)) => match client_step_spec(c1) {
                Err(e) => Err(e),
                Ok((c2, st)) => Ok((c2, codes.push(st.code))),
            },
        }
    }
}

/// A client that starts at the head of its `m` actions answers its steps
/// with `1` exactly `m` times, then `0` once, then `-1` on every later
/// step; its action counter never passes `m`.
pub proof fn law_run_codes(c: ClientState, k: nat)
    requires
        !c.done,
        c.acnt == 0,
        client_run(c, k) is Ok,
    ensures
        ({
            let (c2, codes) = client_run(c, k)->Ok_0;
            let m = c.actions.len();
            &&& codes.len() == k
            &&& forall|i: int| 0 <= i < k ==> #[trigger] codes[i] == (if i < m { 1i32 } else if i == m { 0i32 } else { -1i32 })
            &&& c2.acnt == (if k <= m { k as int } else { m as int })
            &&& c2.done == (k > m)
            &&& c2.actions == c.actions
        }),
    decreases k,
{
    if k > 0 {
        law_run_codes(c, (k - 1) as nat);
        let (c1, codes1) = client_run(c, (k - 1) as nat)->Ok_0;
        law_step_codes(c1);
        let (c2, codes) = client_run(c, k)->Ok_0;
        assert forall|i: int| 0 <= i < k implies #[trigger] codes[i] == (if i < c.actions.len() { 1i32 } else if i == c.actions.len() { 0i32 } else { -1i32 }) by {
            if i < k - 1 {
                assert(codes[i] == codes1[i]);
            }
        }
    }
}

/// A client never meets a callback in its own copy of the server: where
/// only the client itself holds files there, no step stops on a stale
/// callback, and every step keeps it so.
pub proof fn law_no_stale_callback(c: ClientState)
    requires
        client_wf(c),
        own_holdings_only(c),
    ensures
        !(client_step_spec(c) matches Err(AfsError::StaleCallback(_))),
        client_step_spec(c) matches Ok((c1, _)) ==> own_holdings_only(c1) && client_wf(c1),
{
    assert forall|f: char| #[trigger] callback_fault(c.server.cache, c.server.peers, c.cid, f, 0) is None
        && callbacks(c.server.cache, c.server.peers, c.cid, f, 0) == (c.server.cache, c.server.peers) by {
        lemma_no_holder(c.server.cache, c.server.peers, c.cid, f, 0);
    }
    if let Ok((c1, _)) = client_step_spec(c) {
        assert forall|j: int| 0 <= j < c1.server.cache.len() && j != c1.cid implies (#[trigger] c1.server.cache[j]).len() == 0 by {
            assert(c1.server.cache.len() == c.server.cache.len());
            assert(c1.server.cache[j] == c.server.cache[j]);
        }
    }
}

/// A read after a write through the same descriptor gives back the value
/// written: the write goes to the cached copy that the read then sees.
pub proof fn law_read_after_write(c: ClientState, fd: i32, v: i32, old: i32)
    requires
        client_step_spec(c) matches Ok((c1, st)) && st.event == Some(AfsEvent::Write { fd, old, new: v })
            && c1.acnt < c1.actions.len() && c1.actions[c1.acnt] == AfsAction::Read(fd) && c1.readcnt < i32::MAX && !c1.done,
    ensures
        client_step_spec(client_step_spec(c)->Ok_0.0) matches Ok((_, st2)) && st2.event == Some(AfsEvent::Read { fd, data: v }),
{
    let c1 = client_step_spec(c)->Ok_0.0;
    let n = fd_file(c, fd)->Ok_0;
    let cc = assoc_get(c.entries, n)->0;
    law_assoc_get_put(c.entries, n, CacheContent { data: c.value as i32, dirty: true, ..cc }, n);
}

/// Closing a file whose cached copy was written stores that copy on the
/// server: afterwards the server (the client's copy of it) holds the value
/// stored for the file the descriptor names.
pub proof fn law_close_writes_back(c: ClientState, fd: i32, v: i32)
    requires
        client_step_spec(c) matches Ok((c1, st)) && st.event == Some(AfsEvent::Close { fd, stored: Some(v) }),
    ensures
        fd_file(c, fd) matches Ok(n) && assoc_get(client_step_spec(c)->Ok_0.0.server.contents, n) == Some(v),
{
    let n = fd_file(c, fd)->Ok_0;
    law_assoc_get_put(c.server.contents, n, v, n);
}

} // verus!
