//! A very simple file system: an inode bitmap and inodes, a data bitmap and
//! data blocks, directories holding (name, inode) entries, and the
//! operations that create, link, write and delete files.

use vstd::prelude::*;
use crate::text::{chars_of, split_chars, split_spec, views_of, push_int, int_decimal, vec_chars_eq, lemma_split_nonempty};

verus! {

/// Why an operation of the file system stops the simulation.
#[derive(Clone, Copy, PartialEq, Eq, Structural, Debug)]
pub enum VsfsError {
    /// An index lies outside a bitmap or table.
    OutOfRange,
    /// A bitmap entry to be freed is not allocated.
    NotAllocated,
    /// A bitmap entry to be marked allocated is allocated already.
    AlreadyAllocated,
    /// A block or inode is not of the type the operation needs.
    WrongType,
    /// A name is not known to the file system.
    NoSuchName,
    /// A count would leave the `i32` range.
    Overflow,
}

/// The type of an inode or a block.
#[derive(Clone, Copy, PartialEq, Eq, Structural, Debug)]
pub enum FileType {
    Free,
    Dir,
    File,
}

pub open spec fn spec_file_type(s: Seq<char>) -> Option<FileType> {
    if s == "d"@ {
        Some(FileType::Dir)
    } else if s == "f"@ {
        Some(FileType::File)
    } else if s == "free"@ {
        Some(FileType::Free)
    } else {
        None
    }
}

/// Reads a type: `d`, `f` or `free`.
pub fn file_type_from(s: &str) -> (r: Option<FileType>)
    ensures
        r == spec_file_type(s@),
{
    if crate::text::text_eq(s, "d") {
        Some(FileType::Dir)
    } else if crate::text::text_eq(s, "f") {
        Some(FileType::File)
    } else if crate::text::text_eq(s, "free") {
        Some(FileType::Free)
    } else {
        None
    }
}

/// The first free entry (0) of a bitmap, from `i` on.
pub open spec fn first_zero(s: Seq<i32>, i: int) -> Option<int>
    decreases s.len() - i,
{
    if i < 0 || i >= s.len() {
        None
    } else if s[i] == 0 {
        Some(i)
    } else {
        first_zero(s, i + 1)
    }
}

proof fn lemma_first_zero_range(s: Seq<i32>, i: int)
    requires
        0 <= i,
    ensures
        first_zero(s, i) matches Some(j) ==> i <= j < s.len() && s[j] == 0,
    decreases s.len() - i,
{
    if i < s.len() && s[i] != 0 {
        lemma_first_zero_range(s, i + 1);
    }
}

/// A bitmap: 1 for an allocated entry, 0 for a free one.
pub struct Bitmap {
    pub size: usize,
    pub bmap: Vec<i32>,
}

/// The text of a bitmap: its entries one after the other.
pub open spec fn bitmap_text(s: Seq<i32>) -> Seq<char>
    decreases s.len(),
{
    if s.len() == 0 {
        Seq::empty()
    } else {
        bitmap_text(s.drop_last()) + int_decimal(s.last() as int)
    }
}

impl Bitmap {
    /// A bitmap of `size` free entries.
    pub fn new(size: usize) -> (b: Bitmap)
        ensures
            b.size == size,
            b.bmap@ == Seq::new(size as nat, |i: int| 0i32),
    {
        let mut bmap: Vec<i32> = Vec::new();
        let mut i: usize = 0;
        while i < size
            invariant
                i <= size,
                bmap@ == Seq::new(i as nat, |k: int| 0i32),
            decreases size - i,
        {
            bmap.push(0);
            i = i + 1;
            assert(bmap@ =~= Seq::new(i as nat, |k: int| 0i32));
        }
        Bitmap { size, bmap }
    }

    /// Allocates the first free entry; -1 where none is free.
    pub fn allocate(&mut self) -> (r: i32)
        requires
            old(self).bmap@.len() <= i32::MAX,
        ensures
            final(self).size == old(self).size,
            match first_zero(old(self).bmap@, 0) {
                Some(i) => r == i && final(self).bmap@ == old(self).bmap@.update(i, 1),
                None => r == -1 && final(self).bmap@ == old(self).bmap@,
            },
            -1 <= r < old(self).bmap@.len(),
            r == -1 <==> first_zero(old(self).bmap@, 0) is None,
    {
        proof {
            lemma_first_zero_range(self.bmap@, 0);
        }
        let mut num: usize = 0;
        while num < self.bmap.len()
            invariant
                num <= self.bmap@.len(),
                self.bmap@ == old(self).bmap@,
                self.size == old(self).size,
                self.bmap@.len() <= i32::MAX,
                first_zero(self.bmap@, 0) == first_zero(self.bmap@, num as int),
            decreases self.bmap@.len() - num,
        {
            if self.bmap[num] == 0 {
                self.bmap.set(num, 1);
                return num as i32;
            }
            num = num + 1;
        }
        -1
    }

    /// Frees entry `num`, which must be allocated.
    pub fn free(&mut self, num: usize) -> (r: Result<(), VsfsError>)
        ensures
            final(self).size == old(self).size,
            r == (if num >= old(self).bmap@.len() {
                Err(VsfsError::OutOfRange)
            } else if old(self).bmap@[num as int] != 1 {
                Err(VsfsError::NotAllocated)
            } else {
                Ok(())
            }),
            r is Ok ==> final(self).bmap@ == old(self).bmap@.update(num as int, 0),
            r is Err ==> final(self).bmap@ == old(self).bmap@,
    {
        if num >= self.bmap.len() {
            return Err(VsfsError::OutOfRange);
        }
        if self.bmap[num] != 1 {
            return Err(VsfsError::NotAllocated);
        }
        self.bmap.set(num, 0);
        Ok(())
    }

    /// Marks entry `num`, which must be free, allocated.
    pub fn mark_allocated(&mut self, num: usize) -> (r: Result<(), VsfsError>)
        ensures
            final(self).size == old(self).size,
            r == (if num >= old(self).bmap@.len() {
                Err(VsfsError::OutOfRange)
            } else if old(self).bmap@[num as int] != 0 {
                Err(VsfsError::AlreadyAllocated)
            } else {
                Ok(())
            }),
            r is Ok ==> final(self).bmap@ == old(self).bmap@.update(num as int, 1),
            r is Err ==> final(self).bmap@ == old(self).bmap@,
    {
        if num >= self.bmap.len() {
            return Err(VsfsError::OutOfRange);
        }
        if self.bmap[num] != 0 {
            return Err(VsfsError::AlreadyAllocated);
        }
        self.bmap.set(num, 1);
        Ok(())
    }

    /// The entries as text, such as `10000000`.
    pub fn dump(&self) -> (s: String)
        ensures
            s@ == bitmap_text(self.bmap@),
    {
        let mut s = String::new();
        let mut i: usize = 0;
        while i < self.bmap.len()
            invariant
                i <= self.bmap@.len(),
                s@ == bitmap_text(self.bmap@.take(i as int)),
            decreases self.bmap@.len() - i,
        {
            assert(self.bmap@.take(i + 1).drop_last() =~= self.bmap@.take(i as int));
            push_int(&mut s, self.bmap[i] as i64);
            i = i + 1;
        }
        assert(self.bmap@.take(i as int) =~= self.bmap@);
        s
    }
}

/// A data block: free, a directory of (name, inode) entries, or a file's
/// data.
pub struct Block {
    pub ftype: FileType,
    pub dir_used: i32,
    pub max_used: i32,
    pub dir_list: Vec<(String, i32)>,
    pub data: String,
}

pub struct BlockV {
    pub ftype: FileType,
    pub dir_used: i32,
    pub max_used: i32,
    pub dir_list: Seq<(Seq<char>, i32)>,
    pub data: Seq<char>,
}

pub open spec fn entries_view(v: Seq<(String, i32)>) -> Seq<(Seq<char>, i32)> {
    Seq::new(v.len(), |i: int| (v[i].0@, v[i].1))
}

impl View for Block {
    type V = BlockV;

    open spec fn view(&self) -> BlockV {
        BlockV {
            ftype: self.ftype,
            dir_used: self.dir_used,
            max_used: self.max_used,
            dir_list: entries_view(self.dir_list@),
            data: self.data@,
        }
    }
}

/// The last `/`-separated component of a name.
pub open spec fn last_component(name: Seq<char>) -> Seq<char> {
    split_spec(name, '/').last()
}

/// The first entry of a directory named `n`, from `i` on.
pub open spec fn entry_index(l: Seq<(Seq<char>, i32)>, n: Seq<char>, i: int) -> Option<int>
    decreases l.len() - i,
{
    if i < 0 || i >= l.len() {
        None
    } else if l[i].0 == n {
        Some(i)
    } else {
        entry_index(l, n, i + 1)
    }
}

/// The text of directory entries: `(name,inum)` separated by spaces.
pub open spec fn entries_text(l: Seq<(Seq<char>, i32)>) -> Seq<char>
    decreases l.len(),
{
    if l.len() == 0 {
        Seq::empty()
    } else {
        let e = seq!['('] + l.last().0 + seq![','] + int_decimal(l.last().1 as int) + seq![')'];
        if l.len() == 1 {
            e
        } else {
            entries_text(l.drop_last()) + seq![' '] + e
        }
    }
}

/// The text of a block: `[]` when free, its entries or its data in
/// brackets otherwise.
pub open spec fn block_text(b: BlockV) -> Seq<char> {
    match b.ftype {
        FileType::Free => seq!['[', ']'],
        FileType::Dir => seq!['['] + entries_text(b.dir_list) + seq![']'],
        FileType::File => seq!['['] + b.data + seq![']'],
    }
}

fn push_chars(s: &mut String, cs: &Vec<char>)
    ensures
        final(s)@ == old(s)@ + cs@,
{
    let mut i: usize = 0;
    while i < cs.len()
        invariant
            i <= cs@.len(),
            s@ == old(s)@ + cs@.take(i as int),
        decreases cs@.len() - i,
    {
        s.push(cs[i]);
        i = i + 1;
        assert(s@ =~= old(s)@ + cs@.take(i as int));
    }
    assert(cs@.take(i as int) =~= cs@);
}

fn push_string(s: &mut String, t: &String)
    ensures
        final(s)@ == old(s)@ + t@,
{
    let cs = chars_of(t.as_str());
    push_chars(s, &cs);
}

impl Block {
    /// An empty block of type `ftype`, room for 32 directory entries.
    pub fn new(ftype: FileType) -> (b: Block)
        ensures
            b@ == (BlockV { ftype, dir_used: 0, max_used: 32, dir_list: Seq::empty(), data: Seq::empty() }),
    {
        let b = Block { ftype, dir_used: 0, max_used: 32, dir_list: Vec::new(), data: String::new() };
        assert(b@.dir_list =~= Seq::<(Seq<char>, i32)>::empty());
        b
    }

    /// The block as text (see `block_text`).
    pub fn dump(&self) -> (s: String)
        ensures
            s@ == block_text(self@),
    {
        let mut s = String::new();
        s.push('[');
        match self.ftype {
            FileType::Free => {},
            FileType::Dir => {
                let mut i: usize = 0;
                let ghost l = self@.dir_list;
                while i < self.dir_list.len()
                    invariant
                        l == self@.dir_list,
                        i <= l.len(),
                        s@ == seq!['['] + entries_text(l.take(i as int)),
                    decreases l.len() - i,
                {
                    let ghost before = s@;
                    assert(l.take(i + 1).drop_last() =~= l.take(i as int));
                    assert(l.take(i + 1).last() == l[i as int]);
                    if i > 0 {
                        s.push(' ');
                    }
                    s.push('(');
                    push_string(&mut s, &self.dir_list[i].0);
                    s.push(',');
                    push_int(&mut s, self.dir_list[i].1 as i64);
                    s.push(')');
                    proof {
                        let e = seq!['('] + l[i as int].0 + seq![','] + int_decimal(l[i as int].1 as int) + seq![')'];
                        if i > 0 {
                            assert(s@ =~= before + seq![' '] + e);
                        } else {
                            assert(l.take(0) =~= Seq::<(Seq<char>, i32)>::empty());
                            assert(s@ =~= before + e);
                        }
                        assert(s@ =~= seq!['['] + entries_text(l.take(i + 1)));
                    }
                    i = i + 1;
                }
                assert(l.take(i as int) =~= l);
            },
            FileType::File => {
                push_string(&mut s, &self.data);
            },
        }
        s.push(']');
        proof {
            if self.ftype == FileType::Free {
                assert(s@ =~= seq!['[', ']']);
            } else if self.ftype == FileType::File {
                assert(s@ =~= seq!['['] + self@.data + seq![']']);
            } else {
                assert(s@ =~= seq!['['] + entries_text(self@.dir_list) + seq![']']);
            }
        }
        s
    }

    /// Gives a free block the type `ftype`.
    pub fn set_type(&mut self, ftype: FileType) -> (r: Result<(), VsfsError>)
        ensures
            r == (if old(self)@.ftype == FileType::Free { Ok(()) } else { Err(VsfsError::WrongType) }),
            r is Ok ==> final(self)@ == (BlockV { ftype, ..old(self)@ }),
            r is Err ==> final(self)@ == old(self)@,
    {
        if self.ftype != FileType::Free {
            return Err(VsfsError::WrongType);
        }
        self.ftype = ftype;
        Ok(())
    }

    /// Stores `data` in a file block.
    pub fn add_data(&mut self, data: String) -> (r: Result<(), VsfsError>)
        ensures
            r == (if old(self)@.ftype == FileType::File { Ok(()) } else { Err(VsfsError::WrongType) }),
            r is Ok ==> final(self)@ == (BlockV { data: data@, ..old(self)@ }),
            r is Err ==> final(self)@ == old(self)@,
    {
        if self.ftype != FileType::File {
            return Err(VsfsError::WrongType);
        }
        self.data = data;
        Ok(())
    }

    /// The number of entries of a directory block.
    pub fn get_num_entries(&self) -> (r: Result<i32, VsfsError>)
        ensures
            r == (if self@.ftype == FileType::Dir { Ok(self@.dir_used) } else { Err(VsfsError::WrongType) }),
    {
        if self.ftype != FileType::Dir {
            return Err(VsfsError::WrongType);
        }
        Ok(self.dir_used)
    }

    /// The number of entries a directory block still has room for.
    pub fn get_free_entries(&self) -> (r: Result<i32, VsfsError>)
        ensures
            r == (if self@.ftype != FileType::Dir {
                Err(VsfsError::WrongType)
            } else if !(i32::MIN <= self@.max_used - self@.dir_used <= i32::MAX) {
                Err(VsfsError::Overflow)
            } else {
                Ok((self@.max_used - self@.dir_used) as i32)
            }),
    {
        if self.ftype != FileType::Dir {
            return Err(VsfsError::WrongType);
        }
        let d = self.max_used as i64 - self.dir_used as i64;
        if d < -2147483648 || d > 2147483647 {
            return Err(VsfsError::Overflow);
        }
        Ok(d as i32)
    }

    /// Entry `num` of a directory block; the flag tells whether `num` is at
    /// or past the count of used entries (the block is read anyway).
    pub fn get_entry(&self, num: usize) -> (r: Result<(bool, String, i32), VsfsError>)
        ensures
            match r {
                Ok((past, n, i)) => self@.ftype == FileType::Dir && num < self@.dir_list.len() && past == (num >= self@.dir_used)
                    && n@ == self@.dir_list[num as int].0 && i == self@.dir_list[num as int].1,
                Err(e) => e == (if self@.ftype != FileType::Dir { VsfsError::WrongType } else { VsfsError::OutOfRange })
                    && (self@.ftype != FileType::Dir || num >= self@.dir_list.len()),
            },
    {
        if self.ftype != FileType::Dir {
            return Err(VsfsError::WrongType);
        }
        let past = self.dir_used < 0 || num >= self.dir_used as usize;
        if num >= self.dir_list.len() {
            return Err(VsfsError::OutOfRange);
        }
        Ok((past, self.dir_list[num].0.clone(), self.dir_list[num].1))
    }

    /// Adds the entry (`name`, `inum`) to a directory block.
    pub fn add_dir_entry(&mut self, name: String, inum: i32) -> (r: Result<(), VsfsError>)
        ensures
            r == (if old(self)@.ftype != FileType::Dir {
                Err(VsfsError::WrongType)
            } else if old(self)@.dir_used == i32::MAX {
                Err(VsfsError::Overflow)
            } else {
                Ok(())
            }),
            r is Ok ==> final(self)@ == (BlockV {
                dir_list: old(self)@.dir_list.push((name@, inum)),
                dir_used: (old(self)@.dir_used + 1) as i32,
                ..old(self)@
            }),
            r is Err ==> final(self)@ == old(self)@,
    {
        if self.ftype != FileType::Dir {
            return Err(VsfsError::WrongType);
        }
        if self.dir_used == i32::MAX {
            return Err(VsfsError::Overflow);
        }
        let ghost l0 = self@.dir_list;
        self.dir_list.push((name, inum));
        assert(self@.dir_list =~= l0.push((name@, inum)));
        self.dir_used = self.dir_used + 1;
        Ok(())
    }

    /// Removes the first entry named as the last component of `name`.
    pub fn del_dir_entry(&mut self, name: &String) -> (r: Result<(), VsfsError>)
        ensures
            r == (if old(self)@.ftype != FileType::Dir {
                Err(VsfsError::WrongType)
            } else if entry_index(old(self)@.dir_list, last_component(name@), 0) is Some && old(self)@.dir_used == i32::MIN {
                Err(VsfsError::Overflow)
            } else {
                Ok(())
            }),
            r is Ok ==> final(self)@ == match entry_index(old(self)@.dir_list, last_component(name@), 0) {
                Some(i) => BlockV {
                    dir_list: old(self)@.dir_list.remove(i),
                    dir_used: (old(self)@.dir_used - 1) as i32,
                    ..old(self)@
                },
                None => old(self)@,
            },
    {
        if self.ftype != FileType::Dir {
            return Err(VsfsError::WrongType);
        }
        let cs = chars_of(name.as_str());
        let parts = split_chars(&cs, '/');
        proof {
            crate::text::lemma_split_nonempty(name@, '/');
        }
        let dname = &parts[parts.len() - 1];
        assert(dname@ == last_component(name@));
        let ghost l = self@.dir_list;
        let mut i: usize = 0;
        while i < self.dir_list.len()
            invariant
                l == self@.dir_list,
                self@ == old(self)@,
                i <= l.len(),
                dname@ == last_component(name@),
                entry_index(l, dname@, 0) == entry_index(l, dname@, i as int),
                self@.ftype == FileType::Dir,
            decreases l.len() - i,
        {
            let e = chars_of(self.dir_list[i].0.as_str());
            if vec_chars_eq(&e, dname) {
                if self.dir_used == i32::MIN {
                    return Err(VsfsError::Overflow);
                }
                let ghost l0 = self@.dir_list;
                self.dir_list.remove(i);
                assert(self@.dir_list =~= l0.remove(i as int));
                self.dir_used = self.dir_used - 1;
                return Ok(());
            }
            i = i + 1;
        }
        Ok(())
    }

    /// Whether a directory block has an entry named `name`.
    pub fn dir_entry_exists(&self, name: &String) -> (r: Result<bool, VsfsError>)
        ensures
            r == (if self@.ftype != FileType::Dir {
                Err(VsfsError::WrongType)
            } else {
                Ok(entry_index(self@.dir_list, name@, 0) is Some)
            }),
    {
        if self.ftype != FileType::Dir {
            return Err(VsfsError::WrongType);
        }
        let ghost l = self@.dir_list;
        let n = chars_of(name.as_str());
        let mut i: usize = 0;
        while i < self.dir_list.len()
            invariant
                l == self@.dir_list,
                n@ == name@,
                self@.ftype == FileType::Dir,
                i <= l.len(),
                entry_index(l, name@, 0) == entry_index(l, name@, i as int),
            decreases l.len() - i,
        {
            assert(l[i as int].0 == self.dir_list@[i as int].0@);
            let e = chars_of(self.dir_list[i].0.as_str());
            if vec_chars_eq(&e, &n) {
                return Ok(true);
            }
            i = i + 1;
        }
        Ok(false)
    }

    /// Frees a block that is not a directory.
    pub fn free(&mut self) -> (r: Result<(), VsfsError>)
        ensures
            r == (if old(self)@.ftype == FileType::Dir { Err(VsfsError::WrongType) } else { Ok(()) }),
            r is Ok ==> final(self)@ == (BlockV { data: Seq::empty(), ftype: FileType::Free, ..old(self)@ }),
            r is Err ==> final(self)@ == old(self)@,
    {
        if self.ftype == FileType::Dir {
            return Err(VsfsError::WrongType);
        }
        self.data = String::new();
        self.ftype = FileType::Free;
        Ok(())
    }
}


/// An inode: its type, the block that holds its contents (-1 for none)
/// and its reference count.
#[derive(Clone, Copy, PartialEq, Eq, Structural, Debug)]
pub struct Inode {
    pub ftype: FileType,
    pub addr: i32,
    pub ref_cnt: i32,
}

/// The letter of a type in use.
pub open spec fn type_letter(t: FileType) -> Seq<char> {
    match t {
        FileType::Dir => seq!['d'],
        FileType::File => seq!['f'],
        FileType::Free => seq!['f', 'r', 'e', 'e'],
    }
}

/// The text of an inode: `[]` when free, else `[{type} a:{addr} r:{refs}]`.
pub open spec fn inode_text(i: Inode) -> Seq<char> {
    if i.ftype == FileType::Free {
        seq!['[', ']']
    } else {
        seq!['['] + type_letter(i.ftype) + seq![' ', 'a', ':'] + int_decimal(i.addr as int) + seq![' ', 'r', ':'] + int_decimal(
            i.ref_cnt as int,
        ) + seq![']']
    }
}

impl Inode {
    /// A free inode with no block and one reference.
    pub fn new() -> (i: Inode)
        ensures
            i == (Inode { ftype: FileType::Free, addr: -1i32, ref_cnt: 1i32 }),
    {
        Inode { ftype: FileType::Free, addr: -1, ref_cnt: 1 }
    }

    pub fn new_a(ftype: FileType, addr: i32, ref_cnt: i32) -> (i: Inode)
        ensures
            i == (Inode { ftype, addr, ref_cnt }),
    {
        Inode { ftype, addr, ref_cnt }
    }

    pub fn set_all(&mut self, ftype: FileType, addr: i32, ref_cnt: i32)
        ensures
            *final(self) == (Inode { ftype, addr, ref_cnt }),
    {
        self.ftype = ftype;
        self.addr = addr;
        self.ref_cnt = ref_cnt;
    }

    pub fn inc_ref_cnt(&mut self)
        requires
            old(self).ref_cnt < i32::MAX,
        ensures
            *final(self) == (Inode { ref_cnt: (old(self).ref_cnt + 1) as i32, ..*old(self) }),
    {
        self.ref_cnt = self.ref_cnt + 1;
    }

    pub fn dec_ref_cnt(&mut self)
        requires
            old(self).ref_cnt > i32::MIN,
        ensures
            *final(self) == (Inode { ref_cnt: (old(self).ref_cnt - 1) as i32, ..*old(self) }),
    {
        self.ref_cnt = self.ref_cnt - 1;
    }

    pub fn get_ref_cnt(&self) -> (r: i32)
        ensures
            r == self.ref_cnt,
    {
        self.ref_cnt
    }

    pub fn set_type(&mut self, ftype: FileType)
        ensures
            *final(self) == (Inode { ftype, ..*old(self) }),
    {
        self.ftype = ftype;
    }

    pub fn set_addr(&mut self, block: i32)
        ensures
            *final(self) == (Inode { addr: block, ..*old(self) }),
    {
        self.addr = block;
    }

    /// The number of blocks the inode holds: 0 or 1.
    pub fn get_size(&self) -> (r: i32)
        ensures
            r == (if self.addr == -1 { 0i32 } else { 1i32 }),
    {
        if self.addr == -1 {
            0
        } else {
            1
        }
    }

    pub fn get_addr(&self) -> (r: i32)
        ensures
            r == self.addr,
    {
        self.addr
    }

    pub fn get_type(&self) -> (r: FileType)
        ensures
            r == self.ftype,
    {
        self.ftype
    }

    /// The inode as text: `[]` when free, else its type, block and
    /// reference count, such as `[d a:0 r:2]`.
    pub fn dump(&self) -> (s: String)
        ensures
            s@ == inode_text(*self),
    {
        let mut s = String::new();
        s.push('[');
        match self.ftype {
            FileType::Free => {},
            FileType::Dir => {
                s.push('d');
            },
            FileType::File => {
                s.push('f');
            },
        }
        if self.ftype != FileType::Free {
            s.push(' ');
            s.push('a');
            s.push(':');
            push_int(&mut s, self.addr as i64);
            s.push(' ');
            s.push('r');
            s.push(':');
            push_int(&mut s, self.ref_cnt as i64);
        }
        s.push(']');
        proof {
            if self.ftype == FileType::Free {
                assert(s@ =~= seq!['[', ']']);
            } else {
                assert(s@ =~= seq!['['] + type_letter(self.ftype) + seq![' ', 'a', ':'] + int_decimal(self.addr as int) + seq![' ', 'r', ':']
                    + int_decimal(self.ref_cnt as int) + seq![']']);
            }
        }
        s
    }

    /// Frees the inode: free type, no block (the reference count stays).
    pub fn free(&mut self)
        ensures
            *final(self) == (Inode { ftype: FileType::Free, addr: -1i32, ..*old(self) }),
    {
        self.ftype = FileType::Free;
        self.addr = -1;
    }
}

/// The options of a file system run, as given on the command line.
pub struct VsfsOption {
    pub seed: u64,
    pub num_inodes: i32,
    pub num_data: i32,
    pub num_requests: i32,
    pub reverse: bool,
    pub print_final: bool,
    pub solve: bool,
}

impl VsfsOption {
    /// The defaults: seed 0, 8 inodes, 8 data blocks, 10 requests.
    pub fn new() -> (o: VsfsOption)
        ensures
            o == (VsfsOption { seed: 0, num_inodes: 8, num_data: 8, num_requests: 10, reverse: false, print_final: false, solve: false }),
    {
        VsfsOption { seed: 0, num_inodes: 8, num_data: 8, num_requests: 10, reverse: false, print_final: false, solve: false }
    }
}

/// The place of the first entry for name `k`, from `i` on.
pub open spec fn name_index(m: Seq<(Seq<char>, i32)>, k: Seq<char>, i: int) -> Option<int>
    decreases m.len() - i,
{
    if i < 0 || i >= m.len() {
        None
    } else if m[i].0 == k {
        Some(i)
    } else {
        name_index(m, k, i + 1)
    }
}

/// The inode number recorded for `k`.
pub open spec fn lookup_name(m: Seq<(Seq<char>, i32)>, k: Seq<char>) -> Option<i32> {
    match name_index(m, k, 0) {
        Some(i) => Some(m[i].1),
        None => None,
    }
}

/// `m` with inode `v` recorded for `k`.
pub open spec fn record_name(m: Seq<(Seq<char>, i32)>, k: Seq<char>, v: i32) -> Seq<(Seq<char>, i32)> {
    match name_index(m, k, 0) {
        Some(i) => m.update(i, (k, v)),
        None => m.push((k, v)),
    }
}

/// The name of the parent directory of `name`, built as the file system
/// builds it: `/` for a name with one separator, and otherwise each inner
/// component appended as ` {so far} / {component} `.
pub open spec fn parent_spec(name: Seq<char>) -> Seq<char> {
    let parts = split_spec(name, '/');
    if parts.len() == 2 {
        seq!['/']
    } else {
        parent_build(parts, parts.len() - 1)
    }
}

pub open spec fn parent_build(parts: Seq<Seq<char>>, k: int) -> Seq<char>
    decreases k,
{
    if k <= 1 {
        Seq::empty()
    } else {
        seq![' '] + parent_build(parts, k - 1) + seq![' ', '/', ' '] + parts[k - 1] + seq![' ']
    }
}

/// The parent of `name` (see `parent_spec`).
pub fn get_parent(name: &String) -> (p: String)
    ensures
        p@ == parent_spec(name@),
{
    let cs = chars_of(name.as_str());
    let parts = split_chars(&cs, '/');
    let ghost ps = split_spec(name@, '/');
    proof {
        crate::text::lemma_split_nonempty(name@, '/');
    }
    if parts.len() == 2 {
        let mut p = String::new();
        p.push('/');
        assert(p@ =~= seq!['/']);
        return p;
    }
    let mut p = String::new();
    let mut k: usize = 1;
    assert(p@ =~= parent_build(ps, 1));
    while k < parts.len() - 1
        invariant
            views_of(parts@) == ps,
            ps.len() >= 1,
            1 <= k <= ps.len() - 1 || (k == 1 && ps.len() == 1),
            p@ == parent_build(ps, k as int),
        decreases ps.len() - k,
    {
        let ghost before = p@;
        let mut q = String::new();
        q.push(' ');
        push_string(&mut q, &p);
        q.push(' ');
        q.push('/');
        q.push(' ');
        assert(parts@[k as int]@ == ps[k as int]);
        push_chars(&mut q, &parts[k]);
        q.push(' ');
        assert(q@ =~= seq![' '] + before + seq![' ', '/', ' '] + ps[k as int] + seq![' ']);
        p = q;
        k = k + 1;
    }
    p
}

/// The state of the file system.
pub struct FsV {
    pub num_inodes: i32,
    pub num_data: i32,
    pub ibmap: Seq<i32>,
    pub inodes: Seq<Inode>,
    pub dbmap: Seq<i32>,
    pub data: Seq<BlockV>,
    pub files: Seq<Seq<char>>,
    pub dirs: Seq<Seq<char>>,
    pub names: Seq<(Seq<char>, i32)>,
}

/// The file system: bitmaps, inodes, data blocks, the names of the files
/// and directories made so far, and the inode of each name.
pub struct Fs {
    pub num_inodes: i32,
    pub num_data: i32,
    pub ibitmap: Bitmap,
    pub inodes: Vec<Inode>,
    pub dbitmap: Bitmap,
    pub data: Vec<Block>,
    pub root: usize,
    pub files: Vec<String>,
    pub dirs: Vec<String>,
    pub name_to_inum: Vec<(String, i32)>,
}

pub open spec fn blocks_view(v: Seq<Block>) -> Seq<BlockV> {
    Seq::new(v.len(), |i: int| v[i]@)
}

pub open spec fn strings_view(v: Seq<String>) -> Seq<Seq<char>> {
    Seq::new(v.len(), |i: int| v[i]@)
}

impl View for Fs {
    type V = FsV;

    open spec fn view(&self) -> FsV {
        FsV {
            num_inodes: self.num_inodes,
            num_data: self.num_data,
            ibmap: self.ibitmap.bmap@,
            inodes: self.inodes@,
            dbmap: self.dbitmap.bmap@,
            data: blocks_view(self.data@),
            files: strings_view(self.files@),
            dirs: strings_view(self.dirs@),
            names: entries_view(self.name_to_inum@),
        }
    }
}

/// A block freed: data cleared, type free.
pub open spec fn blk_freed(b: BlockV) -> BlockV {
    BlockV { data: Seq::empty(), ftype: FileType::Free, ..b }
}

/// A block with the directory entry (`name`, `inum`) added.
pub open spec fn blk_added(b: BlockV, name: Seq<char>, inum: i32) -> Result<BlockV, VsfsError> {
    if b.ftype != FileType::Dir {
        Err(VsfsError::WrongType)
    } else if b.dir_used == i32::MAX {
        Err(VsfsError::Overflow)
    } else {
        Ok(BlockV { dir_list: b.dir_list.push((name, inum)), dir_used: (b.dir_used + 1) as i32, ..b })
    }
}

/// Data block `bnum` freed, in the bitmap and in the block.
pub open spec fn data_free_spec(fs: FsV, bnum: int) -> Result<FsV, VsfsError> {
    if bnum >= fs.dbmap.len() {
        Err(VsfsError::OutOfRange)
    } else if fs.dbmap[bnum] != 1 {
        Err(VsfsError::NotAllocated)
    } else if bnum >= fs.data.len() {
        Err(VsfsError::OutOfRange)
    } else if fs.data[bnum].ftype == FileType::Dir {
        Err(VsfsError::WrongType)
    } else {
        Ok(FsV { dbmap: fs.dbmap.update(bnum, 0), data: fs.data.update(bnum, blk_freed(fs.data[bnum])), ..fs })
    }
}

/// Inode `inum` freed, in the bitmap and in the inode.
pub open spec fn inode_free_spec(fs: FsV, inum: int) -> Result<FsV, VsfsError> {
    if inum >= fs.ibmap.len() {
        Err(VsfsError::OutOfRange)
    } else if fs.ibmap[inum] != 1 {
        Err(VsfsError::NotAllocated)
    } else if inum >= fs.inodes.len() {
        Err(VsfsError::OutOfRange)
    } else {
        Ok(FsV {
            ibmap: fs.ibmap.update(inum, 0),
            inodes: fs.inodes.update(inum, Inode { ftype: FileType::Free, addr: -1i32, ..fs.inodes[inum] }),
            ..fs
        })
    }
}

/// The inode recorded for `name`, as an index into the inodes.
pub open spec fn inode_of(fs: FsV, name: Seq<char>) -> Result<int, VsfsError> {
    match lookup_name(fs.names, name) {
        None => Err(VsfsError::NoSuchName),
        Some(i) => if 0 <= i < fs.inodes.len() { Ok(i as int) } else { Err(VsfsError::OutOfRange) },
    }
}

/// The directory block of the directory inode `pi`, as an index into the
/// blocks.
pub open spec fn dir_block_of(fs: FsV, pi: int) -> Result<int, VsfsError> {
    let b = fs.inodes[pi].addr;
    if 0 <= b < fs.data.len() { Ok(b as int) } else { Err(VsfsError::OutOfRange) }
}

/// Whether the directory block `b` refuses a new entry `name`: it is full,
/// or has an entry of that name already.
pub open spec fn dir_refuses(b: BlockV, name: Seq<char>) -> Result<bool, VsfsError> {
    if b.ftype != FileType::Dir {
        Err(VsfsError::WrongType)
    } else if !(i32::MIN <= b.max_used - b.dir_used <= i32::MAX) {
        Err(VsfsError::Overflow)
    } else {
        Ok(b.max_used - b.dir_used <= 0 || entry_index(b.dir_list, name, 0) is Some)
    }
}

/// `files` without the first occurrence of `name`.
pub open spec fn remove_first(files: Seq<Seq<char>>, name: Seq<char>) -> Seq<Seq<char>> {
    match files.index_of_first(name) {
        Some(i) => files.remove(i),
        None => files,
    }
}

/// Dropping a reference to inode `inum`: the last one frees the inode and
/// its data block, another only lowers the count.
pub open spec fn release_spec(fs: FsV, inum: int) -> Result<FsV, VsfsError> {
    let ino = fs.inodes[inum];
    if ino.ref_cnt == 1 {
        if ino.addr < 0 {
            Err(VsfsError::OutOfRange)
        } else {
            match data_free_spec(fs, ino.addr as int) {
                Err(e) => Err(e),
                Ok(f1) => inode_free_spec(f1, inum),
            }
        }
    } else if ino.ref_cnt == i32::MIN {
        Err(VsfsError::Overflow)
    } else {
        Ok(FsV { inodes: fs.inodes.update(inum, Inode { ref_cnt: (ino.ref_cnt - 1) as i32, ..ino }), ..fs })
    }
}

/// The directory block `b` without the first entry named as the last
/// component of `name`.
pub open spec fn blk_removed(b: BlockV, name: Seq<char>) -> Result<BlockV, VsfsError> {
    if b.ftype != FileType::Dir {
        Err(VsfsError::WrongType)
    } else {
        match entry_index(b.dir_list, last_component(name), 0) {
            Some(i) => if b.dir_used == i32::MIN {
                Err(VsfsError::Overflow)
            } else {
                Ok(BlockV { dir_list: b.dir_list.remove(i), dir_used: (b.dir_used - 1) as i32, ..b })
            },
            None => Ok(b),
        }
    }
}

/// The parent directory of `tfile` loses a reference and the entry.
pub open spec fn unlink_parent_spec(f1: FsV, tfile: Seq<char>) -> Result<FsV, VsfsError> {
    match inode_of(f1, parent_spec(tfile)) {
        Err(e) => Err(e),
        Ok(pi) => {
            let pino = f1.inodes[pi];
            if pino.ref_cnt == i32::MIN {
                Err(VsfsError::Overflow)
            } else {
                let f2 = FsV { inodes: f1.inodes.update(pi, Inode { ref_cnt: (pino.ref_cnt - 1) as i32, ..pino }), ..f1 };
                match dir_block_of(f2, pi) {
                    Err(e) => Err(e),
                    Ok(pb) => match blk_removed(f2.data[pb], tfile) {
                        Err(e) => Err(e),
                        Ok(nb) => Ok(FsV { data: f2.data.update(pb, nb), ..f2 }),
                    },
                }
            }
        },
    }
}

/// Unlinking `tfile`: its inode is released (see `release_spec`), its
/// parent unlinks it (see `unlink_parent_spec`), and the name leaves the
/// list of files.
pub open spec fn delete_spec(fs: FsV, tfile: Seq<char>) -> Result<(FsV, i32), VsfsError> {
    match inode_of(fs, tfile) {
        Err(e) => Err(e),
        Ok(inum) => match release_spec(fs, inum) {
            Err(e) => Err(e),
            Ok(f1) => match unlink_parent_spec(f1, tfile) {
                Err(e) => Err(e),
                Ok(f2) => Ok((FsV { files: remove_first(f2.files, tfile), ..f2 }, 0i32)),
            },
        },
    }
}

/// Linking `newfile` in directory `parent` to the inode of `target`:
/// -1 where the directory is full or has that name; otherwise both inodes
/// gain a reference and the directory the entry, and the target's inode
/// number comes back.
pub open spec fn create_link_spec(fs: FsV, target: Seq<char>, newfile: Seq<char>, parent: Seq<char>) -> Result<(FsV, i32), VsfsError> {
    match inode_of(fs, parent) {
        Err(e) => Err(e),
        Ok(pi) => match dir_block_of(fs, pi) {
            Err(e) => Err(e),
            Ok(pb) => match dir_refuses(fs.data[pb], newfile) {
                Err(e) => Err(e),
                Ok(true) => Ok((fs, -1i32)),
                Ok(false) => match inode_of(fs, target) {
                    Err(e) => Err(e),
                    Ok(ti) => if fs.inodes[ti].ref_cnt == i32::MAX {
                        Err(VsfsError::Overflow)
                    } else {
                        let in1 = fs.inodes.update(ti, Inode { ref_cnt: (fs.inodes[ti].ref_cnt + 1) as i32, ..fs.inodes[ti] });
                        if in1[pi].ref_cnt == i32::MAX {
                            Err(VsfsError::Overflow)
                        } else {
                            let in2 = in1.update(pi, Inode { ref_cnt: (in1[pi].ref_cnt + 1) as i32, ..in1[pi] });
                            match blk_added(fs.data[pb], last_component(newfile), ti as i32) {
                                Err(e) => Err(e),
                                Ok(nb) => Ok((FsV { inodes: in2, data: fs.data.update(pb, nb), ..fs }, ti as i32)),
                            }
                        }
                    },
                },
            },
        },
    }
}

/// Creating `newfile` of type `ftype` in directory `parent`: -1 where the
/// directory is full or has that name, where no inode is free, or (for a
/// directory) where no data block is free, the inode then given back;
/// otherwise the new inode is set up (a directory gets a block with `.`
/// and `..`), the parent gains a reference and the entry, and the new
/// inode number comes back.
pub open spec fn create_file_spec(fs: FsV, parent: Seq<char>, newfile: Seq<char>, ftype: FileType) -> Result<(FsV, i32), VsfsError> {
    match inode_of(fs, parent) {
        Err(e) => Err(e),
        Ok(pi) => match dir_block_of(fs, pi) {
            Err(e) => Err(e),
            Ok(pb) => match dir_refuses(fs.data[pb], newfile) {
                Err(e) => Err(e),
                Ok(true) => Ok((fs, -1i32)),
                Ok(false) => match first_zero(fs.ibmap, 0) {
                    None => Ok((fs, -1i32)),
                    Some(inum) => {
                        let f1 = FsV { ibmap: fs.ibmap.update(inum, 1), ..fs };
                        let made = if ftype == FileType::Dir {
                            match first_zero(f1.dbmap, 0) {
                                None => match inode_free_spec(f1, inum) {
                                    Err(e) => Err(e),
                                    Ok(f2) => Ok((f2, None::<int>)),
                                },
                                Some(fb) => if fb >= f1.data.len() {
                                    Err(VsfsError::OutOfRange)
                                } else if f1.data[fb].ftype != FileType::Free {
                                    Err(VsfsError::WrongType)
                                } else {
                                    let b0 = BlockV { ftype: FileType::Dir, ..f1.data[fb] };
                                    match blk_added(b0, seq!['.'], inum as i32) {
                                        Err(e) => Err(e),
                                        Ok(b1) => match blk_added(b1, seq!['.', '.'], pi as i32) {
                                            Err(e) => Err(e),
                                            Ok(b2) => Ok((FsV { dbmap: f1.dbmap.update(fb, 1), data: f1.data.update(fb, b2), ..f1 }, Some(fb))),
                                        },
                                    }
                                },
                            }
                        } else {
                            Ok((f1, Some(-1int)))
                        };
                        match made {
                            Err(e) => Err(e),
                            Ok((f2, None)) => Ok((f2, -1i32)),
                            Ok((f2, Some(fb))) => if inum >= f2.inodes.len() {
                                Err(VsfsError::OutOfRange)
                            } else {
                                let rc: i32 = if ftype == FileType::Dir { 2i32 } else { -1i32 };
                                let in1 = f2.inodes.update(inum, Inode { ftype, addr: fb as i32, ref_cnt: rc });
                                if in1[pi].ref_cnt == i32::MAX {
                                    Err(VsfsError::Overflow)
                                } else {
                                    let in2 = in1.update(pi, Inode { ref_cnt: (in1[pi].ref_cnt + 1) as i32, ..in1[pi] });
                                    match blk_added(f2.data[pb], newfile, inum as i32) {
                                        Err(e) => Err(e),
                                        Ok(nb) => Ok((FsV { inodes: in2, data: f2.data.update(pb, nb), ..f2 }, inum as i32)),
                                    }
                                }
                            },
                        }
                    },
                },
            },
        },
    }
}

/// Writing `data` to `tfile`: -1 where the file has its block already or
/// no data block is free; otherwise a new file block holds the data and
/// the inode points to it.
pub open spec fn write_file_spec(fs: FsV, tfile: Seq<char>, data: Seq<char>) -> Result<(FsV, i32), VsfsError> {
    match inode_of(fs, tfile) {
        Err(e) => Err(e),
        Ok(inum) => if fs.inodes[inum].addr != -1 {
            Ok((fs, -1i32))
        } else {
            match first_zero(fs.dbmap, 0) {
                None => Ok((fs, -1i32)),
                Some(fb) => if fb >= fs.data.len() {
                    Err(VsfsError::OutOfRange)
                } else if fs.data[fb].ftype != FileType::Free {
                    Err(VsfsError::WrongType)
                } else {
                    Ok((FsV {
                        dbmap: fs.dbmap.update(fb, 1),
                        data: fs.data.update(fb, BlockV { ftype: FileType::File, data, ..fs.data[fb] }),
                        inodes: fs.inodes.update(inum, Inode { addr: fb as i32, ..fs.inodes[inum] }),
                        ..fs
                    }, 0i32))
                },
            }
        },
    }
}

/// The bitmaps have as many entries as there are inodes and blocks, and
/// no more than `i32::MAX`.
pub open spec fn fs_wf(fs: FsV) -> bool {
    &&& fs.ibmap.len() <= i32::MAX
    &&& fs.dbmap.len() <= i32::MAX
}

pub open spec fn free_block() -> BlockV {
    BlockV { ftype: FileType::Free, dir_used: 0, max_used: 32, dir_list: Seq::empty(), data: Seq::empty() }
}

pub open spec fn new_inode() -> Inode {
    Inode { ftype: FileType::Free, addr: -1i32, ref_cnt: 1i32 }
}

/// The file system as made by `Fs::new`: empty bitmaps of the given
/// sizes, no inodes or blocks yet, no files, the directory `/`.
pub open spec fn fresh_fs(num_inodes: i32, num_data: i32) -> FsV {
    FsV {
        num_inodes,
        num_data,
        ibmap: Seq::new(num_inodes as nat, |i: int| 0i32),
        inodes: Seq::empty(),
        dbmap: Seq::new(num_data as nat, |i: int| 0i32),
        data: Seq::empty(),
        files: Seq::empty(),
        dirs: seq![seq!['/']],
        names: Seq::empty(),
    }
}

/// The file system with its root directory: inode 0 is a directory in
/// block 0, which holds `.` and `..`, both inode 0, and `/` names inode 0.
pub open spec fn root_fs(num_inodes: i32, num_data: i32) -> FsV {
    FsV {
        num_inodes,
        num_data,
        ibmap: Seq::new(num_inodes as nat, |i: int| 0i32).update(0, 1),
        inodes: Seq::new(num_inodes as nat, |i: int| new_inode()).update(0, Inode { ftype: FileType::Dir, addr: 0, ref_cnt: 2 }),
        dbmap: Seq::new(num_data as nat, |i: int| 0i32).update(0, 1),
        data: Seq::new(num_data as nat, |i: int| free_block()).update(0, BlockV {
            ftype: FileType::Dir,
            dir_used: 2,
            max_used: 32,
            dir_list: seq![(seq!['.'], 0i32), (seq!['.', '.'], 0i32)],
            data: Seq::empty(),
        }),
        files: Seq::empty(),
        dirs: seq![seq!['/']],
        names: seq![(seq!['/'], 0i32)],
    }
}

impl Fs {
    /// A file system of `num_inodes` inodes and `num_data` blocks, before
    /// its root directory is made.
    pub fn new(num_inodes: i32, num_data: i32) -> (f: Fs)
        requires
            num_inodes >= 0,
            num_data >= 0,
        ensures
            f@ == fresh_fs(num_inodes, num_data),
            f.root == 0,
    {
        proof {
            reveal_strlit("/");
            assert("/"@ =~= seq!['/']);
        }
        let mut dirs: Vec<String> = Vec::new();
        dirs.push("/".to_owned());
        let f = Fs {
            num_inodes,
            num_data,
            ibitmap: Bitmap::new(num_inodes as usize),
            inodes: Vec::new(),
            dbitmap: Bitmap::new(num_data as usize),
            data: Vec::new(),
            root: 0,
            files: Vec::new(),
            dirs,
            name_to_inum: Vec::new(),
        };
        assert(f@.dirs =~= seq![seq!['/']]);
        assert(f@.files =~= Seq::<Seq<char>>::empty());
        assert(f@.names =~= Seq::<(Seq<char>, i32)>::empty());
        assert(f@.data =~= Seq::<BlockV>::empty());
        f
    }

    fn swap_block(&mut self, b: usize, blk: &mut Block)
        requires
            b < old(self)@.data.len(),
        ensures
            final(self)@ == (FsV { data: old(self)@.data.update(b as int, old(blk)@), ..old(self)@ }),
            final(blk)@ == old(self)@.data[b as int],
            final(self).root == old(self).root,
    {
        let ghost d0 = self@.data;
        self.data.set_and_swap(b, blk);
        assert(blocks_view(self.data@) =~= d0.update(b as int, old(blk)@));
    }

    /// Makes the root directory (see `root_fs`); fails where there is no
    /// inode or no data block.
    pub fn create_root_directory(&mut self) -> (r: Result<(), VsfsError>)
        requires
            old(self).num_inodes >= 0,
            old(self).num_data >= 0,
            old(self)@ == fresh_fs(old(self).num_inodes, old(self).num_data),
            old(self).root == 0,
        ensures
            r is Ok <==> old(self).num_inodes > 0 && old(self).num_data > 0,
            r is Ok ==> final(self)@ == root_fs(old(self).num_inodes, old(self).num_data),
    {
        let mut i: i32 = 0;
        assert(self@.inodes =~= Seq::new(0nat, |k: int| new_inode()));
        while i < self.num_inodes
            invariant
                0 <= i <= self.num_inodes,
                self.num_data >= 0,
                self.num_inodes == old(self).num_inodes,
                self.num_data == old(self).num_data,
                self@ == (FsV { inodes: Seq::new(i as nat, |k: int| new_inode()), ..fresh_fs(self.num_inodes, self.num_data) }),
                self.root == 0,
            decreases self.num_inodes - i,
        {
            self.inodes.push(Inode::new());
            i = i + 1;
            assert(self@.inodes =~= Seq::new(i as nat, |k: int| new_inode()));
        }
        let mut j: i32 = 0;
        assert(self@.data =~= Seq::new(0nat, |k: int| free_block()));
        while j < self.num_data
            invariant
                0 <= j <= self.num_data,
                self.num_inodes >= 0,
                self.num_inodes == old(self).num_inodes,
                self.num_data == old(self).num_data,
                self@ == (FsV {
                    inodes: Seq::new(self.num_inodes as nat, |k: int| new_inode()),
                    data: Seq::new(j as nat, |k: int| free_block()),
                    ..fresh_fs(self.num_inodes, self.num_data)
                }),
                self.root == 0,
            decreases self.num_data - j,
        {
            let ghost d0 = self@.data;
            self.data.push(Block::new(FileType::Free));
            assert(blocks_view(self.data@) =~= d0.push(free_block()));
            j = j + 1;
            assert(self@.data =~= Seq::new(j as nat, |k: int| free_block()));
        }
        if self.num_inodes == 0 || self.num_data == 0 {
            return Err(VsfsError::OutOfRange);
        }
        proof {
            reveal_strlit("/");
            reveal_strlit(".");
            reveal_strlit("..");
            assert("/"@ =~= seq!['/']);
            assert("."@ =~= seq!['.']);
            assert(".."@ =~= seq!['.', '.']);
        }
        let _ = self.ibitmap.mark_allocated(0);
        self.inodes.set(0, Inode { ftype: FileType::Dir, addr: 0, ref_cnt: 2 });
        let _ = self.dbitmap.mark_allocated(0);
        let mut blk = Block::new(FileType::Free);
        self.swap_block(0, &mut blk);
        let _ = blk.set_type(FileType::Dir);
        let _ = blk.add_dir_entry(".".to_owned(), 0);
        let _ = blk.add_dir_entry("..".to_owned(), 0);
        self.swap_block(0, &mut blk);
        let ghost m0 = self@.names;
        self.name_to_inum.push(("/".to_owned(), 0));
        proof {
            assert(self@.names =~= m0.push((seq!['/'], 0i32)));
            assert(self@.names =~= seq![(seq!['/'], 0i32)]);
            assert(self@.data[0].dir_list =~= seq![(seq!['.'], 0i32), (seq!['.', '.'], 0i32)]);
            let rf = root_fs(self.num_inodes, self.num_data);
            assert(self@.ibmap =~= rf.ibmap);
            assert(self@.inodes =~= rf.inodes);
            assert(self@.dbmap =~= rf.dbmap);
            assert(self@.data[0] == rf.data[0]);
            assert(self@.data =~= rf.data);
            assert(self@.files =~= rf.files);
            assert(self@.dirs =~= rf.dirs);
            assert(self@ == rf);
        }
        Ok(())
    }

    /// Allocates an inode: the first free one, or -1.
    pub fn inode_alloc(&mut self) -> (r: i32)
        requires
            fs_wf(old(self)@),
        ensures
            match first_zero(old(self)@.ibmap, 0) {
                Some(i) => r == i && final(self)@ == (FsV { ibmap: old(self)@.ibmap.update(i, 1), ..old(self)@ }),
                None => r == -1 && final(self)@ == old(self)@,
            },
            -1 <= r < old(self)@.ibmap.len(),
            r == -1 <==> first_zero(old(self)@.ibmap, 0) is None,
            final(self).root == old(self).root,
    {
        self.ibitmap.allocate()
    }

    /// Allocates a data block: the first free one, or -1.
    pub fn data_alloc(&mut self) -> (r: i32)
        requires
            fs_wf(old(self)@),
        ensures
            match first_zero(old(self)@.dbmap, 0) {
                Some(i) => r == i && final(self)@ == (FsV { dbmap: old(self)@.dbmap.update(i, 1), ..old(self)@ }),
                None => r == -1 && final(self)@ == old(self)@,
            },
            -1 <= r < old(self)@.dbmap.len(),
            r == -1 <==> first_zero(old(self)@.dbmap, 0) is None,
            final(self).root == old(self).root,
    {
        self.dbitmap.allocate()
    }

    /// Frees inode `inum` (see `inode_free_spec`).
    pub fn inode_free(&mut self, inum: usize) -> (r: Result<(), VsfsError>)
        ensures
            match inode_free_spec(old(self)@, inum as int) {
                Ok(f) => r is Ok && final(self)@ == f,
                Err(e) => r == Err::<(), VsfsError>(e),
            },
            final(self).root == old(self).root,
    {
        match self.ibitmap.free(inum) {
            Err(e) => {
                return Err(e);
            },
            Ok(()) => {},
        }
        if inum >= self.inodes.len() {
            return Err(VsfsError::OutOfRange);
        }
        let mut ino = self.inodes[inum];
        ino.free();
        self.inodes.set(inum, ino);
        Ok(())
    }

    /// Frees data block `bnum` (see `data_free_spec`).
    pub fn data_free(&mut self, bnum: usize) -> (r: Result<(), VsfsError>)
        ensures
            match data_free_spec(old(self)@, bnum as int) {
                Ok(f) => r is Ok && final(self)@ == f,
                Err(e) => r == Err::<(), VsfsError>(e),
            },
            final(self).root == old(self).root,
    {
        match self.dbitmap.free(bnum) {
            Err(e) => {
                return Err(e);
            },
            Ok(()) => {},
        }
        if bnum >= self.data.len() {
            return Err(VsfsError::OutOfRange);
        }
        let ghost f1 = self@;
        let mut blk = Block::new(FileType::Free);
        self.swap_block(bnum, &mut blk);
        match blk.free() {
            Err(e) => {
                return Err(e);
            },
            Ok(()) => {},
        }
        self.swap_block(bnum, &mut blk);
        assert(self@.data =~= f1.data.update(bnum as int, blk_freed(f1.data[bnum as int])));
        Ok(())
    }

    /// The parent directory of `name` (see `parent_spec`).
    pub fn get_parent(&self, name: &String) -> (p: String)
        ensures
            p@ == parent_spec(name@),
    {
        get_parent(name)
    }

    fn find_name(&self, name: &String) -> (r: Option<usize>)
        ensures
            match r {
                Some(i) => name_index(self@.names, name@, 0) == Some(i as int) && i < self@.names.len(),
                None => name_index(self@.names, name@, 0) is None,
            },
    {
        let n = chars_of(name.as_str());
        let mut i: usize = 0;
        while i < self.name_to_inum.len()
            invariant
                n@ == name@,
                i <= self@.names.len(),
                name_index(self@.names, name@, 0) == name_index(self@.names, name@, i as int),
            decreases self@.names.len() - i,
        {
            let e = chars_of(self.name_to_inum[i].0.as_str());
            assert(self@.names[i as int].0 == self.name_to_inum@[i as int].0@);
            if vec_chars_eq(&e, &n) {
                return Some(i);
            }
            i = i + 1;
        }
        None
    }

    fn inode_of_x(&self, name: &String) -> (r: Result<usize, VsfsError>)
        ensures
            match r {
                Ok(i) => inode_of(self@, name@) == Ok::<int, VsfsError>(i as int),
                Err(e) => inode_of(self@, name@) == Err::<int, VsfsError>(e),
            },
    {
        match self.find_name(name) {
            None => Err(VsfsError::NoSuchName),
            Some(k) => {
                let v = self.name_to_inum[k].1;
                if v >= 0 && (v as usize) < self.inodes.len() {
                    Ok(v as usize)
                } else {
                    Err(VsfsError::OutOfRange)
                }
            },
        }
    }

    fn record(&mut self, name: String, inum: i32)
        ensures
            final(self)@ == (FsV { names: record_name(old(self)@.names, name@, inum), ..old(self)@ }),
            final(self).root == old(self).root,
    {
        let ghost m0 = self@.names;
        match self.find_name(&name) {
            Some(k) => {
                self.name_to_inum.set(k, (name, inum));
                assert(self@.names =~= m0.update(k as int, (name@, inum)));
            },
            None => {
                self.name_to_inum.push((name, inum));
                assert(self@.names =~= m0.push((name@, inum)));
            },
        }
    }

    fn dir_refuses_x(&self, pb: usize, name: &String) -> (r: Result<bool, VsfsError>)
        requires
            pb < self@.data.len(),
        ensures
            r == dir_refuses(self@.data[pb as int], name@),
    {
        assert(self.data@[pb as int]@ == self@.data[pb as int]);
        let free = match self.data[pb].get_free_entries() {
            Err(e) => {
                return Err(e);
            },
            Ok(f) => f,
        };
        if free <= 0 {
            return Ok(true);
        }
        self.data[pb].dir_entry_exists(name)
    }

    fn dir_block_x(&self, pi: usize) -> (r: Result<usize, VsfsError>)
        requires
            pi < self@.inodes.len(),
        ensures
            match r {
                Ok(b) => dir_block_of(self@, pi as int) == Ok::<int, VsfsError>(b as int),
                Err(e) => dir_block_of(self@, pi as int) == Err::<int, VsfsError>(e),
            },
    {
        let b = self.inodes[pi].addr;
        if b >= 0 && (b as usize) < self.data.len() {
            Ok(b as usize)
        } else {
            Err(VsfsError::OutOfRange)
        }
    }

    fn add_entry_x(&mut self, pb: usize, name: String, inum: i32) -> (r: Result<(), VsfsError>)
        requires
            pb < old(self)@.data.len(),
        ensures
            match blk_added(old(self)@.data[pb as int], name@, inum) {
                Ok(nb) => r is Ok && final(self)@ == (FsV { data: old(self)@.data.update(pb as int, nb), ..old(self)@ }),
                Err(e) => r == Err::<(), VsfsError>(e),
            },
            final(self).root == old(self).root,
    {
        let ghost f0 = self@;
        let mut blk = Block::new(FileType::Free);
        self.swap_block(pb, &mut blk);
        match blk.add_dir_entry(name, inum) {
            Err(e) => {
                return Err(e);
            },
            Ok(()) => {},
        }
        let ghost nb = blk@;
        self.swap_block(pb, &mut blk);
        assert(self@.data =~= f0.data.update(pb as int, nb));
        Ok(())
    }

    fn release_x(&mut self, inum: usize) -> (r: Result<(), VsfsError>)
        requires
            inum < old(self)@.inodes.len(),
        ensures
            match release_spec(old(self)@, inum as int) {
                Ok(f) => r is Ok && final(self)@ == f,
                Err(e) => r == Err::<(), VsfsError>(e),
            },
            final(self).root == old(self).root,
    {
        let ino = self.inodes[inum];
        if ino.ref_cnt == 1 {
            if ino.addr < 0 {
                return Err(VsfsError::OutOfRange);
            }
            match self.data_free(ino.addr as usize) {
                Err(e) => {
                    return Err(e);
                },
                Ok(()) => {},
            }
            self.inode_free(inum)
        } else {
            if ino.ref_cnt == i32::MIN {
                return Err(VsfsError::Overflow);
            }
            let mut i2 = ino;
            i2.dec_ref_cnt();
            self.inodes.set(inum, i2);
            Ok(())
        }
    }

    fn unlink_parent_x(&mut self, tfile: &String) -> (r: Result<(), VsfsError>)
        ensures
            match unlink_parent_spec(old(self)@, tfile@) {
                Ok(f) => r is Ok && final(self)@ == f,
                Err(e) => r == Err::<(), VsfsError>(e),
            },
            final(self).root == old(self).root,
    {
        let parent = get_parent(tfile);
        let pinum = match self.inode_of_x(&parent) {
            Err(e) => {
                return Err(e);
            },
            Ok(i) => i,
        };
        let pino = self.inodes[pinum];
        if pino.ref_cnt == i32::MIN {
            return Err(VsfsError::Overflow);
        }
        let mut p2 = pino;
        p2.dec_ref_cnt();
        self.inodes.set(pinum, p2);
        let pb = match self.dir_block_x(pinum) {
            Err(e) => {
                return Err(e);
            },
            Ok(b) => b,
        };
        let ghost f2 = self@;
        let mut blk = Block::new(FileType::Free);
        self.swap_block(pb, &mut blk);
        match blk.del_dir_entry(tfile) {
            Err(e) => {
                return Err(e);
            },
            Ok(()) => {},
        }
        let ghost nb = blk@;
        self.swap_block(pb, &mut blk);
        assert(self@.data =~= f2.data.update(pb as int, nb));
        Ok(())
    }

    fn remove_file_name(&mut self, tfile: &String)
        ensures
            final(self)@ == (FsV { files: remove_first(old(self)@.files, tfile@), ..old(self)@ }),
            final(self).root == old(self).root,
    {
        let ghost fl = self@.files;
        let b = chars_of(tfile.as_str());
        let mut k: usize = 0;
        while k < self.files.len()
            invariant
                k <= fl.len(),
                b@ == tfile@,
                self@ == old(self)@,
                self.root == old(self).root,
                fl == old(self)@.files,
                forall|m: int| 0 <= m < k ==> fl[m] != tfile@,
            decreases fl.len() - k,
        {
            let a = chars_of(self.files[k].as_str());
            assert(fl[k as int] == self.files@[k as int]@);
            if vec_chars_eq(&a, &b) {
                proof {
                    fl.index_of_first_ensures(tfile@);
                    assert(fl.contains(tfile@));
                    let j = fl.index_of_first(tfile@)->0;
                    assert(j == k);
                }
                self.files.remove(k);
                assert(self@.files =~= fl.remove(k as int));
                return;
            }
            k = k + 1;
        }
        proof {
            fl.index_of_first_ensures(tfile@);
            if fl.contains(tfile@) {
                let j = fl.index_of_first(tfile@)->0;
                assert(fl[j] != tfile@);
            }
        }
    }

    /// Unlinks `tfile` (see `delete_spec`).
    pub fn delete_flie(&mut self, tfile: &String) -> (r: Result<i32, VsfsError>)
        ensures
            match delete_spec(old(self)@, tfile@) {
                Ok((f, v)) => r == Ok::<i32, VsfsError>(v) && final(self)@ == f,
                Err(e) => r == Err::<i32, VsfsError>(e),
            },
            final(self).root == old(self).root,
    {
        let inum = match self.inode_of_x(tfile) {
            Err(e) => {
                return Err(e);
            },
            Ok(i) => i,
        };
        match self.release_x(inum) {
            Err(e) => {
                return Err(e);
            },
            Ok(()) => {},
        }
        match self.unlink_parent_x(tfile) {
            Err(e) => {
                return Err(e);
            },
            Ok(()) => {},
        }
        self.remove_file_name(tfile);
        Ok(0)
    }

    fn inc_inode(&mut self, i: usize) -> (r: Result<(), VsfsError>)
        requires
            i < old(self)@.inodes.len(),
        ensures
            r is Ok <==> old(self)@.inodes[i as int].ref_cnt < i32::MAX,
            r is Err ==> r == Err::<(), VsfsError>(VsfsError::Overflow),
            r is Ok ==> final(self)@ == (FsV {
                inodes: old(self)@.inodes.update(i as int, Inode { ref_cnt: (old(self)@.inodes[i as int].ref_cnt + 1) as i32, ..old(self)@.inodes[i as int] }),
                ..old(self)@
            }),
            final(self).root == old(self).root,
    {
        let mut ino = self.inodes[i];
        if ino.ref_cnt == i32::MAX {
            return Err(VsfsError::Overflow);
        }
        ino.inc_ref_cnt();
        self.inodes.set(i, ino);
        Ok(())
    }

    /// Links `newfile` in directory `parent` to the inode of `target` (see
    /// `create_link_spec`).
    pub fn create_link(&mut self, target: &String, newfile: &String, parent: &String) -> (r: Result<i32, VsfsError>)
        ensures
            match create_link_spec(old(self)@, target@, newfile@, parent@) {
                Ok((f, v)) => r == Ok::<i32, VsfsError>(v) && final(self)@ == f,
                Err(e) => r == Err::<i32, VsfsError>(e),
            },
            final(self).root == old(self).root,
    {
        let pi = match self.inode_of_x(parent) {
            Err(e) => {
                return Err(e);
            },
            Ok(i) => i,
        };
        let pb = match self.dir_block_x(pi) {
            Err(e) => {
                return Err(e);
            },
            Ok(b) => b,
        };
        match self.dir_refuses_x(pb, newfile) {
            Err(e) => {
                return Err(e);
            },
            Ok(true) => {
                return Ok(-1);
            },
            Ok(false) => {},
        }
        let ti = match self.inode_of_x(target) {
            Err(e) => {
                return Err(e);
            },
            Ok(i) => i,
        };
        match self.inc_inode(ti) {
            Err(e) => {
                return Err(e);
            },
            Ok(()) => {},
        }
        match self.inc_inode(pi) {
            Err(e) => {
                return Err(e);
            },
            Ok(()) => {},
        }
        let cs = chars_of(newfile.as_str());
        let parts = split_chars(&cs, '/');
        proof {
            crate::text::lemma_split_nonempty(newfile@, '/');
        }
        let last = &parts[parts.len() - 1];
        assert(last@ == last_component(newfile@));
        let mut ename = String::new();
        push_chars(&mut ename, last);
        assert(ename@ =~= last_component(newfile@));
        match self.add_entry_x(pb, ename, ti as i32) {
            Err(e) => {
                return Err(e);
            },
            Ok(()) => {},
        }
        Ok(ti as i32)
    }

    fn make_dir_block(&mut self, fb: usize, inum: i32, pi: i32) -> (r: Result<(), VsfsError>)
        requires
            fb < old(self)@.data.len(),
        ensures
            ({
                let b = old(self)@.data[fb as int];
                let res = if b.ftype != FileType::Free {
                    Err(VsfsError::WrongType)
                } else {
                    match blk_added(BlockV { ftype: FileType::Dir, ..b }, seq!['.'], inum) {
                        Err(e) => Err(e),
                        Ok(b1) => blk_added(b1, seq!['.', '.'], pi),
                    }
                };
                match res {
                    Ok(nb) => r is Ok && final(self)@ == (FsV { data: old(self)@.data.update(fb as int, nb), ..old(self)@ }),
                    Err(e) => r == Err::<(), VsfsError>(e),
                }
            }),
            final(self).root == old(self).root,
    {
        proof {
            reveal_strlit(".");
            reveal_strlit("..");
            assert("."@ =~= seq!['.']);
            assert(".."@ =~= seq!['.', '.']);
        }
        let ghost f0 = self@;
        let mut blk = Block::new(FileType::Free);
        self.swap_block(fb, &mut blk);
        match blk.set_type(FileType::Dir) {
            Err(e) => {
                return Err(e);
            },
            Ok(()) => {},
        }
        match blk.add_dir_entry(".".to_owned(), inum) {
            Err(e) => {
                return Err(e);
            },
            Ok(()) => {},
        }
        match blk.add_dir_entry("..".to_owned(), pi) {
            Err(e) => {
                return Err(e);
            },
            Ok(()) => {},
        }
        let ghost nb = blk@;
        self.swap_block(fb, &mut blk);
        assert(self@.data =~= f0.data.update(fb as int, nb));
        Ok(())
    }

    /// Creates `newfile` of type `ftype` in directory `parent` (see
    /// `create_file_spec`).
    pub fn create_file(&mut self, parent: &String, newfile: &String, ftype: FileType) -> (r: Result<i32, VsfsError>)
        requires
            fs_wf(old(self)@),
        ensures
            match create_file_spec(old(self)@, parent@, newfile@, ftype) {
                Ok((f, v)) => r == Ok::<i32, VsfsError>(v) && final(self)@ == f,
                Err(e) => r == Err::<i32, VsfsError>(e),
            },
            final(self).root == old(self).root,
    {
        let pi = match self.inode_of_x(parent) {
            Err(e) => {
                return Err(e);
            },
            Ok(i) => i,
        };
        let pb = match self.dir_block_x(pi) {
            Err(e) => {
                return Err(e);
            },
            Ok(b) => b,
        };
        match self.dir_refuses_x(pb, newfile) {
            Err(e) => {
                return Err(e);
            },
            Ok(true) => {
                return Ok(-1);
            },
            Ok(false) => {},
        }
        let inum = self.inode_alloc();
        if inum == -1 {
            return Ok(-1);
        }
        let mut fblock: i32 = -1;
        let rc: i32;
        if ftype == FileType::Dir {
            rc = 2;
            fblock = self.data_alloc();
            if fblock == -1 {
                match self.inode_free(inum as usize) {
                    Err(e) => {
                        return Err(e);
                    },
                    Ok(()) => {},
                }
                return Ok(-1);
            }
            if fblock as usize >= self.data.len() {
                return Err(VsfsError::OutOfRange);
            }
            match self.make_dir_block(fblock as usize, inum, pi as i32) {
                Err(e) => {
                    return Err(e);
                },
                Ok(()) => {},
            }
        } else {
            rc = -1;
        }
        if inum as usize >= self.inodes.len() {
            return Err(VsfsError::OutOfRange);
        }
        self.inodes.set(inum as usize, Inode { ftype, addr: fblock, ref_cnt: rc });
        match self.inc_inode(pi) {
            Err(e) => {
                return Err(e);
            },
            Ok(()) => {},
        }
        let nf = newfile.clone();
        match self.add_entry_x(pb, nf, inum) {
            Err(e) => {
                return Err(e);
            },
            Ok(()) => {},
        }
        Ok(inum)
    }

    /// Writes `data` to `tfile` (see `write_file_spec`).
    pub fn write_file(&mut self, tfile: &String, data: String) -> (r: Result<i32, VsfsError>)
        requires
            fs_wf(old(self)@),
        ensures
            match write_file_spec(old(self)@, tfile@, data@) {
                Ok((f, v)) => r == Ok::<i32, VsfsError>(v) && final(self)@ == f,
                Err(e) => r == Err::<i32, VsfsError>(e),
            },
            final(self).root == old(self).root,
    {
        let inum = match self.inode_of_x(tfile) {
            Err(e) => {
                return Err(e);
            },
            Ok(i) => i,
        };
        if self.inodes[inum].get_size() == 1 {
            return Ok(-1);
        }
        let fblock = self.data_alloc();
        if fblock == -1 {
            return Ok(-1);
        }
        if fblock as usize >= self.data.len() {
            return Err(VsfsError::OutOfRange);
        }
        let ghost f0 = self@;
        let mut blk = Block::new(FileType::Free);
        self.swap_block(fblock as usize, &mut blk);
        match blk.set_type(FileType::File) {
            Err(e) => {
                return Err(e);
            },
            Ok(()) => {},
        }
        let _ = blk.add_data(data);
        let ghost nb = blk@;
        self.swap_block(fblock as usize, &mut blk);
        assert(self@.data =~= f0.data.update(fblock as int, nb));
        let mut ino = self.inodes[inum];
        ino.set_addr(fblock);
        self.inodes.set(inum, ino);
        Ok(0)
    }

    fn full_name(parent: &String, nfile: &String) -> (f: String)
        ensures
            f@ == full_name_spec(parent@, nfile@),
    {
        let p = chars_of(parent.as_str());
        let mut f = String::new();
        if p.len() == 1 && p[0] == '/' {
            f.push('/');
            push_string(&mut f, nfile);
            assert(p@ =~= seq!['/']);
            assert(f@ =~= seq!['/'] + nfile@);
        } else {
            push_string(&mut f, parent);
            f.push('/');
            push_string(&mut f, nfile);
            assert(f@ =~= parent@ + seq!['/'] + nfile@);
            assert(parent@ != seq!['/']);
        }
        f
    }

    /// Deletes the file at place `idx` of the list of files; -1 where there
    /// are no files.
    pub fn do_delete(&mut self, idx: usize) -> (r: Result<i32, VsfsError>)
        ensures
            r == (if old(self)@.files.len() == 0 {
                Ok(-1i32)
            } else if idx >= old(self)@.files.len() {
                Err(VsfsError::OutOfRange)
            } else {
                match delete_spec(old(self)@, old(self)@.files[idx as int]) {
                    Ok((_, v)) => Ok(v),
                    Err(e) => Err(e),
                }
            }),
            r is Ok && old(self)@.files.len() > 0 ==> final(self)@ == delete_spec(old(self)@, old(self)@.files[idx as int])->Ok_0.0,
            r == Ok::<i32, VsfsError>(-1i32) && old(self)@.files.len() == 0 ==> final(self)@ == old(self)@,
    {
        if self.files.len() == 0 {
            return Ok(-1);
        }
        if idx >= self.files.len() {
            return Err(VsfsError::OutOfRange);
        }
        let dfile = self.files[idx].clone();
        assert(dfile@ == old(self)@.files[idx as int]);
        self.delete_flie(&dfile)
    }

    /// Links a new name `nfile` in the directory at place `pidx` of the
    /// list of directories to the file at place `tidx` of the list of
    /// files (see `link_spec`).
    pub fn do_link(&mut self, pidx: usize, nfile: &String, tidx: usize) -> (r: Result<i32, VsfsError>)
        ensures
            match link_spec(old(self)@, pidx as int, nfile@, tidx as int) {
                Ok((f, v)) => r == Ok::<i32, VsfsError>(v) && final(self)@ == f,
                Err(e) => r == Err::<i32, VsfsError>(e),
            },
    {
        if self.files.len() == 0 {
            return Ok(-1);
        }
        if pidx >= self.dirs.len() || tidx >= self.files.len() {
            return Err(VsfsError::OutOfRange);
        }
        let parent = self.dirs[pidx].clone();
        let target = self.files[tidx].clone();
        let fullname = Self::full_name(&parent, nfile);
        let inum = match self.create_link(&target, nfile, &parent) {
            Err(e) => {
                return Err(e);
            },
            Ok(i) => i,
        };
        if inum >= 0 {
            let ghost f0 = self@;
            self.files.push(fullname.clone());
            assert(self@.files =~= f0.files.push(fullname@));
            self.record(fullname, inum);
            Ok(0)
        } else {
            Ok(-1)
        }
    }

    /// Creates `nfile` of type `ftype` in the directory at place `pidx` of
    /// the list of directories (see `make_spec`).
    pub fn do_create(&mut self, pidx: usize, nfile: &String, ftype: FileType) -> (r: Result<i32, VsfsError>)
        requires
            fs_wf(old(self)@),
        ensures
            match make_spec(old(self)@, pidx as int, nfile@, ftype) {
                Ok((f, v)) => r == Ok::<i32, VsfsError>(v) && final(self)@ == f,
                Err(e) => r == Err::<i32, VsfsError>(e),
            },
    {
        if pidx >= self.dirs.len() {
            return Err(VsfsError::OutOfRange);
        }
        let parent = self.dirs[pidx].clone();
        let fullname = Self::full_name(&parent, nfile);
        let inum = match self.create_file(&parent, nfile, ftype) {
            Err(e) => {
                return Err(e);
            },
            Ok(i) => i,
        };
        if inum >= 0 {
            let ghost f0 = self@;
            if ftype == FileType::Dir {
                self.dirs.push(fullname.clone());
                assert(self@.dirs =~= f0.dirs.push(fullname@));
            } else {
                self.files.push(fullname.clone());
                assert(self@.files =~= f0.files.push(fullname@));
            }
            self.record(fullname, inum);
            Ok(0)
        } else {
            Ok(-1)
        }
    }

    /// Writes the one-letter `data` to the file at place `fidx` of the list
    /// of files; -1 where there are no files.
    pub fn do_append(&mut self, fidx: usize, data: char) -> (r: Result<i32, VsfsError>)
        requires
            fs_wf(old(self)@),
        ensures
            r == (if old(self)@.files.len() == 0 {
                Ok(-1i32)
            } else if fidx >= old(self)@.files.len() {
                Err(VsfsError::OutOfRange)
            } else {
                match write_file_spec(old(self)@, old(self)@.files[fidx as int], seq![data]) {
                    Ok((_, v)) => Ok(v),
                    Err(e) => Err(e),
                }
            }),
            r is Ok && old(self)@.files.len() > 0 ==> final(self)@ == write_file_spec(old(self)@, old(self)@.files[fidx as int], seq![data])->Ok_0.0,
            r == Ok::<i32, VsfsError>(-1i32) && old(self)@.files.len() == 0 ==> final(self)@ == old(self)@,
    {
        if self.files.len() == 0 {
            return Ok(-1);
        }
        if fidx >= self.files.len() {
            return Err(VsfsError::OutOfRange);
        }
        let afile = self.files[fidx].clone();
        assert(afile@ == old(self)@.files[fidx as int]);
        let mut d = String::new();
        d.push(data);
        assert(d@ =~= seq![data]);
        self.write_file(&afile, d)
    }
}

/// The full name of `nfile` in directory `parent`.
pub open spec fn full_name_spec(parent: Seq<char>, nfile: Seq<char>) -> Seq<char> {
    if parent == seq!['/'] {
        seq!['/'] + nfile
    } else {
        parent + seq!['/'] + nfile
    }
}

/// Linking: -1 where there are no files; otherwise `create_link_spec`
/// with the chosen directory and file, and on success the full name joins
/// the files and names that inode.
pub open spec fn link_spec(fs: FsV, pidx: int, nfile: Seq<char>, tidx: int) -> Result<(FsV, i32), VsfsError> {
    if fs.files.len() == 0 {
        Ok((fs, -1i32))
    } else if pidx >= fs.dirs.len() || tidx >= fs.files.len() {
        Err(VsfsError::OutOfRange)
    } else {
        let parent = fs.dirs[pidx];
        match create_link_spec(fs, fs.files[tidx], nfile, parent) {
            Err(e) => Err(e),
            Ok((f1, inum)) => if inum >= 0 {
                let full = full_name_spec(parent, nfile);
                Ok((FsV { files: f1.files.push(full), names: record_name(f1.names, full, inum), ..f1 }, 0i32))
            } else {
                Ok((f1, -1i32))
            },
        }
    }
}

/// Creating: `create_file_spec` in the chosen directory, and on success
/// the full name joins the directories or the files and names the new
/// inode.
pub open spec fn make_spec(fs: FsV, pidx: int, nfile: Seq<char>, ftype: FileType) -> Result<(FsV, i32), VsfsError> {
    if pidx >= fs.dirs.len() {
        Err(VsfsError::OutOfRange)
    } else {
        let parent = fs.dirs[pidx];
        match create_file_spec(fs, parent, nfile, ftype) {
            Err(e) => Err(e),
            Ok((f1, inum)) => if inum >= 0 {
                let full = full_name_spec(parent, nfile);
                let f2 = if ftype == FileType::Dir { FsV { dirs: f1.dirs.push(full), ..f1 } } else { FsV { files: f1.files.push(full), ..f1 } };
                Ok((FsV { names: record_name(f2.names, full, inum), ..f2 }, 0i32))
            } else {
                Ok((f1, -1i32))
            },
        }
    }
}

/// The bitmaps agree with the inodes and the blocks: an entry is 1
/// exactly where its inode or block is in use, and 0 elsewhere.
pub open spec fn bitmaps_agree(fs: FsV) -> bool {
    &&& fs.ibmap.len() == fs.inodes.len()
    &&& fs.dbmap.len() == fs.data.len()
    &&& forall|i: int| 0 <= i < fs.inodes.len() ==> (#[trigger] fs.ibmap[i] == 1 <==> fs.inodes[i].ftype != FileType::Free) && (
        fs.ibmap[i] == 0 || fs.ibmap[i] == 1)
    &&& forall|b: int| 0 <= b < fs.data.len() ==> (#[trigger] fs.dbmap[b] == 1 <==> fs.data[b].ftype != FileType::Free) && (
        fs.dbmap[b] == 0 || fs.dbmap[b] == 1)
}

/// A new root directory starts with the bitmaps agreeing with the inodes
/// and blocks.
pub proof fn law_root_agrees(num_inodes: i32, num_data: i32)
    requires
        num_inodes > 0,
        num_data > 0,
    ensures
        bitmaps_agree(root_fs(num_inodes, num_data)),
{
}

proof fn lemma_first_zero_free(fs: FsV, bit: bool)
    requires
        bitmaps_agree(fs),
    ensures
        bit ==> (first_zero(fs.ibmap, 0) matches Some(i) ==> 0 <= i < fs.inodes.len() && fs.inodes[i].ftype == FileType::Free && fs.ibmap[i] == 0),
        !bit ==> (first_zero(fs.dbmap, 0) matches Some(b) ==> 0 <= b < fs.data.len() && fs.data[b].ftype == FileType::Free && fs.dbmap[b] == 0),
{
    lemma_first_zero_range(fs.ibmap, 0);
    lemma_first_zero_range(fs.dbmap, 0);
}

/// Creating a file or a directory keeps the bitmaps agreeing with the
/// inodes and blocks.
pub proof fn law_create_keeps_bitmaps(fs: FsV, parent: Seq<char>, newfile: Seq<char>, ftype: FileType)
    requires
        bitmaps_agree(fs),
        ftype != FileType::Free,
        create_file_spec(fs, parent, newfile, ftype) is Ok,
    ensures
        bitmaps_agree(create_file_spec(fs, parent, newfile, ftype)->Ok_0.0),
{
    lemma_first_zero_free(fs, true);
    lemma_first_zero_free(fs, false);
}

/// Writing to a file keeps the bitmaps agreeing with the inodes and blocks.
pub proof fn law_write_keeps_bitmaps(fs: FsV, tfile: Seq<char>, data: Seq<char>)
    requires
        bitmaps_agree(fs),
        write_file_spec(fs, tfile, data) is Ok,
    ensures
        bitmaps_agree(write_file_spec(fs, tfile, data)->Ok_0.0),
{
    lemma_first_zero_free(fs, false);
}

/// Linking keeps the bitmaps agreeing with the inodes and blocks.
pub proof fn law_link_keeps_bitmaps(fs: FsV, target: Seq<char>, newfile: Seq<char>, parent: Seq<char>)
    requires
        bitmaps_agree(fs),
        create_link_spec(fs, target, newfile, parent) is Ok,
    ensures
        bitmaps_agree(create_link_spec(fs, target, newfile, parent)->Ok_0.0),
{
}

/// Unlinking keeps the bitmaps agreeing with the inodes and blocks: the
/// last reference frees the inode and its block in the bitmaps too.
pub proof fn law_delete_keeps_bitmaps(fs: FsV, tfile: Seq<char>)
    requires
        bitmaps_agree(fs),
        delete_spec(fs, tfile) is Ok,
    ensures
        bitmaps_agree(delete_spec(fs, tfile)->Ok_0.0),
{
}


proof fn lemma_split_tail(q: Seq<char>, n: Seq<char>, sep: char)
    requires
        forall|i: int| 0 <= i < n.len() ==> n[i] != sep,
    ensures
        split_spec(q + n, sep).last() == split_spec(q, sep).last() + n,
    decreases n.len(),
{
    if n.len() == 0 {
        assert(q + n =~= q);
        assert(split_spec(q, sep).last() + n =~= split_spec(q, sep).last());
    } else {
        lemma_split_tail(q, n.drop_last(), sep);
        assert((q + n).drop_last() =~= q + n.drop_last());
        lemma_split_nonempty(q + n.drop_last(), sep);
        assert((split_spec(q, sep).last() + n.drop_last()).push(n.last()) =~= split_spec(q, sep).last() + n);
    }
}

proof fn lemma_entry_index_push(l: Seq<(Seq<char>, i32)>, x: (Seq<char>, i32), i: int)
    requires
        0 <= i <= l.len(),
        entry_index(l, x.0, i) is None,
    ensures
        entry_index(l.push(x), x.0, i) == Some(l.len() as int),
    decreases l.len() - i,
{
    if i < l.len() {
        lemma_entry_index_push(l, x, i + 1);
    }
}

/// Adding a directory entry and then deleting it by name gives the block
/// back as it was, where the name holds no `/` and was not in the
/// directory: the new entry is the one found, and a path that ends in the
/// name finds it too.
pub proof fn law_dir_entry_round_trip(b: BlockV, name: Seq<char>, inum: i32, path: Seq<char>)
    requires
        b.ftype == FileType::Dir,
        b.dir_used < i32::MAX,
        forall|i: int| 0 <= i < name.len() ==> name[i] != '/',
        entry_index(b.dir_list, name, 0) is None,
    ensures
        ({
            let b1 = BlockV { dir_list: b.dir_list.push((name, inum)), dir_used: (b.dir_used + 1) as i32, ..b };
            &&& blk_added(b, name, inum) == Ok::<BlockV, VsfsError>(b1)
            &&& last_component(name) == name
            &&& last_component(path + seq!['/'] + name) == name
            &&& entry_index(b1.dir_list, name, 0) == Some(b.dir_list.len() as int)
            &&& (BlockV { dir_list: b1.dir_list.remove(b.dir_list.len() as int), dir_used: (b1.dir_used - 1) as i32, ..b1 }) == b
        }),
{
    let b1 = BlockV { dir_list: b.dir_list.push((name, inum)), dir_used: (b.dir_used + 1) as i32, ..b };
    lemma_split_tail(Seq::<char>::empty(), name, '/');
    assert(Seq::<char>::empty() + name =~= name);
    assert(split_spec(Seq::<char>::empty(), '/').last() + name =~= name);
    let q = path + seq!['/'];
    lemma_split_tail(q, name, '/');
    assert(path + seq!['/'] + name =~= q + name);
    assert(q.drop_last() =~= path);
    lemma_split_nonempty(path, '/');
    assert(split_spec(q, '/').last() =~= Seq::<char>::empty());
    assert(Seq::<char>::empty() + name =~= name);
    lemma_entry_index_push(b.dir_list, (name, inum), 0);
    assert(b1.dir_list.remove(b.dir_list.len() as int) =~= b.dir_list);
}

} // verus!
