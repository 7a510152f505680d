//! A free-list heap allocator: best, worst and first fit, five ways of
//! returning a freed block to the free list, and optional coalescing.

use vstd::prelude::*;
use crate::text::text_eq;

verus! {

/// How `malloc` picks a free block.
#[derive(Clone, Copy, PartialEq, Eq, Structural, Debug)]
pub enum FitPolicy {
    Best,
    Worst,
    First,
    Unknown,
}

/// Where `free` puts a freed block in the free list.
#[derive(Clone, Copy, PartialEq, Eq, Structural, Debug)]
pub enum ReturnOrder {
    InsertBack,
    InsertFront,
    AddrSort,
    SizeSortAsc,
    SizeSortDesc,
    Unknown,
}

/// The key by which a sorting return order keeps the free list.
#[derive(Clone, Copy, PartialEq, Eq, Structural, Debug)]
pub enum SortKey {
    Addr,
    SizeAsc,
    SizeDesc,
}

pub open spec fn spec_fit_policy(cs: Seq<char>) -> FitPolicy {
    if cs == "BEST"@ {
        FitPolicy::Best
    } else if cs == "WORST"@ {
        FitPolicy::Worst
    } else if cs == "FIRST"@ {
        FitPolicy::First
    } else {
        FitPolicy::Unknown
    }
}

pub open spec fn spec_return_order(cs: Seq<char>) -> ReturnOrder {
    if cs == "INSERT-BACK"@ {
        ReturnOrder::InsertBack
    } else if cs == "INSERT-FRONT"@ {
        ReturnOrder::InsertFront
    } else if cs == "ADDRSORT"@ {
        ReturnOrder::AddrSort
    } else if cs == "SIZESORT+"@ {
        ReturnOrder::SizeSortAsc
    } else if cs == "SIZESORT-"@ {
        ReturnOrder::SizeSortDesc
    } else {
        ReturnOrder::Unknown
    }
}

/// Reads a fit policy by its name (`BEST`, `WORST`, `FIRST`).
pub fn fit_policy_from(s: &str) -> (p: FitPolicy)
    ensures
        p == spec_fit_policy(s@),
{
    if text_eq(s, "BEST") {
        FitPolicy::Best
    } else if text_eq(s, "WORST") {
        FitPolicy::Worst
    } else if text_eq(s, "FIRST") {
        FitPolicy::First
    } else {
        FitPolicy::Unknown
    }
}

/// Reads a return order by its name (`INSERT-BACK`, `INSERT-FRONT`,
/// `ADDRSORT`, `SIZESORT+`, `SIZESORT-`).
pub fn return_order_from(s: &str) -> (o: ReturnOrder)
    ensures
        o == spec_return_order(s@),
{
    if text_eq(s, "INSERT-BACK") {
        ReturnOrder::InsertBack
    } else if text_eq(s, "INSERT-FRONT") {
        ReturnOrder::InsertFront
    } else if text_eq(s, "ADDRSORT") {
        ReturnOrder::AddrSort
    } else if text_eq(s, "SIZESORT+") {
        ReturnOrder::SizeSortAsc
    } else if text_eq(s, "SIZESORT-") {
        ReturnOrder::SizeSortDesc
    } else {
        ReturnOrder::Unknown
    }
}

/// The allocator as a mathematical value.
pub struct MallocState {
    pub size: i32,
    pub header_size: i32,
    pub freelist: Seq<(i32, i32)>,
    pub sizemap: Seq<(i32, i32)>,
    pub policy: FitPolicy,
    pub order: ReturnOrder,
    pub coalesce: bool,
    pub align: i32,
}

/// A heap of `size` bytes. `freelist` holds the free blocks as (address,
/// size); `sizemap` holds the allocated blocks as (address, size), in the
/// order in which they were handed out.
pub struct Malloc {
    pub size: i32,
    pub header_size: i32,
    pub freelist: Vec<(i32, i32)>,
    pub sizemap: Vec<(i32, i32)>,
    pub policy: FitPolicy,
    pub order: ReturnOrder,
    pub coalesce: bool,
    pub align: i32,
}

impl View for Malloc {
    type V = MallocState;

    open spec fn view(&self) -> MallocState {
        MallocState {
            size: self.size,
            header_size: self.header_size,
            freelist: self.freelist@,
            sizemap: self.sizemap@,
            policy: self.policy,
            order: self.order,
            coalesce: self.coalesce,
            align: self.align,
        }
    }
}

pub open spec fn in_i32(x: int) -> bool {
    i32::MIN <= x <= i32::MAX
}

pub open spec fn abs(x: int) -> int {
    if x < 0 {
        -x
    } else {
        x
    }
}

/// Rust's `a % b` (the sign follows `a`), for `b != 0`.
pub open spec fn rem_trunc(a: int, b: int) -> int {
    if a >= 0 {
        a % abs(b)
    } else {
        -((-a) % abs(b))
    }
}

/// The alignment padding that `malloc` adds to a request.
pub open spec fn align_pad(align: int, size: int) -> int {
    if align != -1 {
        let left = rem_trunc(size, align);
        if left != 0 {
            align - left
        } else {
            0
        }
    } else {
        0
    }
}

/// The number of bytes that a request of `size` bytes takes from the heap:
/// rounded up to the alignment, plus the header.
pub open spec fn padded_request(m: MallocState, size: int) -> int {
    size + align_pad(m.align as int, size) + m.header_size
}

/// The request can be computed: no division by zero, no overflow.
pub open spec fn request_ok(m: MallocState, size: int) -> bool {
    &&& (m.align != -1 ==> m.align != 0)
    &&& (m.align != -1 && rem_trunc(size, m.align as int) != 0 ==> in_i32(
        m.align - rem_trunc(size, m.align as int),
    ))
    &&& in_i32(size + align_pad(m.align as int, size))
    &&& in_i32(padded_request(m, size))
}

/// Whether the scan takes block `e` over the best one seen so far.
pub open spec fn takes(p: FitPolicy, e: (i32, i32), req: int, best: int, found: bool) -> bool {
    e.1 >= req && match p {
        FitPolicy::Best => e.1 < best,
        FitPolicy::Worst => e.1 > best,
        FitPolicy::First => !found,
        FitPolicy::Unknown => false,
    }
}

/// The scan of the free list for a block of `req` bytes: the index of the
/// block it settles on, and the size that it compares against next.
pub open spec fn scan(fl: Seq<(i32, i32)>, req: int, p: FitPolicy, init: int) -> (Option<int>, int)
    decreases fl.len(),
{
    if fl.len() == 0 {
        (None, init)
    } else {
        let prev = scan(fl.drop_last(), req, p, init);
        let e = fl.last();
        if takes(p, e, req, prev.1, prev.0 is Some) {
            (Some(fl.len() - 1), e.1 as int)
        } else {
            prev
        }
    }
}

pub open spec fn initial_best(p: FitPolicy, heap: int) -> int {
    match p {
        FitPolicy::Best => heap + 1,
        FitPolicy::Worst => -1,
        FitPolicy::First => -1,
        FitPolicy::Unknown => 0,
    }
}

/// The block that `malloc` picks for `req` bytes.
pub open spec fn chosen(m: MallocState, req: int) -> Option<int> {
    scan(m.freelist, req, m.policy, initial_best(m.policy, m.size as int)).0
}

/// How many free-list entries `malloc` looks at.
pub open spec fn searched(m: MallocState, req: int) -> int {
    match chosen(m, req) {
        Some(i) => if m.policy == FitPolicy::First {
            i + 1
        } else {
            m.freelist.len() as int
        },
        None => m.freelist.len() as int,
    }
}

pub open spec fn is_allocated(sm: Seq<(i32, i32)>, addr: i32) -> bool {
    exists|i: int| 0 <= i < sm.len() && (#[trigger] sm[i]).0 == addr
}

/// The inputs on which `malloc(size)` runs without a panic: the request can
/// be computed, the block it picks is not handed out already, and no sum
/// overflows.
pub open spec fn malloc_ok(m: MallocState, size: i32) -> bool {
    let req = padded_request(m, size as int);
    &&& request_ok(m, size as int)
    &&& (m.policy == FitPolicy::Best ==> m.size < i32::MAX)
    &&& m.freelist.len() < i32::MAX
    &&& match chosen(m, req) {
        Some(i) => {
            let e = m.freelist[i];
            &&& !is_allocated(m.sizemap, e.0)
            &&& (e.1 > req ==> in_i32(e.0 + req) && in_i32(e.1 - req))
        },
        None => true,
    }
}

/// What `malloc(size)` does: the new allocator, the address handed out (or
/// -1), and how many free-list entries were searched.
pub open spec fn malloc_spec(m: MallocState, size: i32) -> (MallocState, i32, i32) {
    let req = padded_request(m, size as int);
    let count = searched(m, req) as i32;
    match chosen(m, req) {
        Some(i) => {
            let e = m.freelist[i];
            let fl = if e.1 > req {
                m.freelist.update(i, ((e.0 + req) as i32, (e.1 - req) as i32))
            } else {
                m.freelist.remove(i)
            };
            (MallocState { freelist: fl, sizemap: m.sizemap.push((e.0, req as i32)), ..m }, e.0, count)
        },
        None => (m, -1i32, count),
    }
}

pub open spec fn sort_key(e: (i32, i32), k: SortKey) -> int {
    match k {
        SortKey::Addr => e.0 as int,
        SortKey::SizeAsc => e.1 as int,
        SortKey::SizeDesc => -(e.1 as int),
    }
}

/// `x` put into the list `t` behind every entry whose key is not larger.
pub open spec fn insert_sorted(t: Seq<(i32, i32)>, x: (i32, i32), k: SortKey) -> Seq<(i32, i32)>
    decreases t.len(),
{
    if t.len() == 0 {
        seq![x]
    } else if sort_key(t.last(), k) <= sort_key(x, k) {
        t.push(x)
    } else {
        insert_sorted(t.drop_last(), x, k).push(t.last())
    }
}

/// The stable sort of `s` by key `k` (the order of `sort_by` on the key).
pub open spec fn sort_spec(s: Seq<(i32, i32)>, k: SortKey) -> Seq<(i32, i32)>
    decreases s.len(),
{
    if s.len() == 0 {
        s
    } else {
        insert_sorted(sort_spec(s.drop_last(), k), s.last(), k)
    }
}

/// The free list after a block is returned to it.
pub open spec fn insert_free(fl: Seq<(i32, i32)>, x: (i32, i32), o: ReturnOrder) -> Seq<(i32, i32)> {
    match o {
        ReturnOrder::InsertBack => fl.push(x),
        ReturnOrder::InsertFront => fl.insert(0, x),
        ReturnOrder::AddrSort => sort_spec(fl.push(x), SortKey::Addr),
        ReturnOrder::SizeSortAsc => sort_spec(fl.push(x), SortKey::SizeAsc),
        ReturnOrder::SizeSortDesc => sort_spec(fl.push(x), SortKey::SizeDesc),
        ReturnOrder::Unknown => fl,
    }
}

/// The free list with each run of blocks that follow one another in memory,
/// and in the list, merged into one block.
pub open spec fn coalesce_spec(fl: Seq<(i32, i32)>) -> Seq<(i32, i32)>
    decreases fl.len(),
{
    if fl.len() <= 1 {
        fl
    } else {
        let c = coalesce_spec(fl.drop_last());
        let cur = c.last();
        let e = fl.last();
        if e.0 == cur.0 + cur.1 {
            c.update(c.len() - 1, (cur.0, (cur.1 + e.1) as i32))
        } else {
            c.push(e)
        }
    }
}

/// Coalescing runs without overflow.
pub open spec fn coalesce_ok(fl: Seq<(i32, i32)>) -> bool
    decreases fl.len(),
{
    if fl.len() <= 1 {
        true
    } else {
        let c = coalesce_spec(fl.drop_last());
        let cur = c.last();
        let e = fl.last();
        &&& coalesce_ok(fl.drop_last())
        &&& in_i32(cur.0 + cur.1)
        &&& (e.0 == cur.0 + cur.1 ==> in_i32(cur.1 + e.1))
    }
}

/// The index at which `addr` was handed out.
pub open spec fn alloc_index(sm: Seq<(i32, i32)>, addr: i32) -> int {
    choose|i: int| 0 <= i < sm.len() && (#[trigger] sm[i]).0 == addr
}

/// Allocated addresses are distinct.
pub open spec fn malloc_wf(m: MallocState) -> bool {
    forall|i: int, j: int|
        0 <= i < j < m.sizemap.len() ==> (#[trigger] m.sizemap[i]).0 != (#[trigger] m.sizemap[j]).0
}

/// The free list after `addr` (of `sz` bytes) is freed, before the map of
/// allocated blocks forgets it.
pub open spec fn freed_list(m: MallocState, addr: i32, sz: i32) -> Seq<(i32, i32)> {
    let fl = insert_free(m.freelist, (addr, sz), m.order);
    if m.coalesce {
        coalesce_spec(fl)
    } else {
        fl
    }
}

/// The inputs on which `free(addr)` runs without a panic.
pub open spec fn free_ok(m: MallocState, addr: i32) -> bool {
    is_allocated(m.sizemap, addr) ==> {
        let sz = m.sizemap[alloc_index(m.sizemap, addr)].1;
        let fl = insert_free(m.freelist, (addr, sz), m.order);
        m.coalesce ==> fl.len() > 0 && coalesce_ok(fl)
    }
}

/// What `free(addr)` does: the new allocator and 0, or nothing changed and
/// -1 where `addr` was not handed out.
pub open spec fn free_spec(m: MallocState, addr: i32) -> (MallocState, i32) {
    if is_allocated(m.sizemap, addr) {
        let k = alloc_index(m.sizemap, addr);
        let sz = m.sizemap[k].1;
        (MallocState { freelist: freed_list(m, addr, sz), sizemap: m.sizemap.remove(k), ..m }, 0i32)
    } else {
        (m, -1i32)
    }
}

pub open spec fn total(s: Seq<(i32, i32)>) -> int
    decreases s.len(),
{
    if s.len() == 0 {
        0
    } else {
        total(s.drop_last()) + s.last().1
    }
}

/// The bytes that the heap accounts for: free plus handed out.
pub open spec fn accounted(m: MallocState) -> int {
    total(m.freelist) + total(m.sizemap)
}

pub open spec fn sorted_by(s: Seq<(i32, i32)>, k: SortKey) -> bool {
    forall|i: int, j: int| 0 <= i < j < s.len() ==> sort_key(#[trigger] s[i], k) <= sort_key(#[trigger] s[j], k)
}

impl Malloc {
    /// A heap of `size` bytes at `start`, all of it free.
    pub fn new(
        size: i32,
        start: i32,
        header_size: i32,
        policy: &str,
        order: &str,
        coalesce: bool,
        align: i32,
    ) -> (m: Malloc)
        ensures
            m@.size == size,
            m@.header_size == header_size,
            m@.freelist == seq![(start, size)],
            m@.sizemap == Seq::<(i32, i32)>::empty(),
            m@.policy == spec_fit_policy(policy@),
            m@.order == spec_return_order(order@),
            m@.coalesce == coalesce,
            m@.align == align,
            malloc_wf(m@),
    {
        let mut freelist: Vec<(i32, i32)> = Vec::new();
        freelist.push((start, size));
        let m = Malloc {
            size,
            header_size,
            freelist,
            sizemap: Vec::new(),
            policy: fit_policy_from(policy),
            order: return_order_from(order),
            coalesce,
            align,
        };
        assert(m@.freelist =~= seq![(start, size)]);
        m
    }

    /// The number of bytes that a request of `size` bytes takes, or `None`
    /// where computing it would divide by zero or overflow.
    pub fn request_size(&self, size: i32) -> (r: Option<i32>)
        ensures
            match r {
                Some(n) => request_ok(self@, size as int) && n == padded_request(self@, size as int),
                None => !request_ok(self@, size as int),
            },
    {
        let mut pad: i64 = 0;
        if self.align != -1 {
            if self.align == 0 {
                return None;
            }
            let b: u64 = if self.align < 0 {
                (-(self.align as i64)) as u64
            } else {
                self.align as u64
            };
            let left: i64 = if size >= 0 {
                ((size as u64) % b) as i64
            } else {
                -((((-(size as i64)) as u64) % b) as i64)
            };
            if left != 0 {
                let d = self.align as i64 - left;
                if d < -2147483648 || d > 2147483647 {
                    return None;
                }
                pad = d;
            }
        }
        let s1 = size as i64 + pad;
        if s1 < -2147483648 || s1 > 2147483647 {
            return None;
        }
        let s2 = s1 + self.header_size as i64;
        if s2 < -2147483648 || s2 > 2147483647 {
            return None;
        }
        Some(s2 as i32)
    }

    /// The scan of the free list for `req` bytes: the index picked, and how
    /// many entries were looked at.
    fn choose_block(&self, req: i32) -> (r: (Option<usize>, usize))
        requires
            self.policy == FitPolicy::Best ==> self.size < i32::MAX,
        ensures
            match r.0 {
                Some(i) => chosen(self@, req as int) == Some(i as int) && i < self@.freelist.len(),
                None => chosen(self@, req as int) is None,
            },
            r.1 == searched(self@, req as int),
            r.1 <= self@.freelist.len(),
    {
        let ghost init = initial_best(self.policy, self.size as int);
        let mut best_size: i64 = match self.policy {
            FitPolicy::Best => self.size as i64 + 1,
            FitPolicy::Worst => -1,
            FitPolicy::First => -1,
            FitPolicy::Unknown => 0,
        };
        let mut best_idx: Option<usize> = None;
        let mut i: usize = 0;
        let n = self.freelist.len();
        while i < n
            invariant
                n == self.freelist@.len(),
                i <= n,
                init == initial_best(self.policy, self.size as int),
                ({
                    let s = scan(self.freelist@.subrange(0, i as int), req as int, self.policy, init);
                    &&& s.1 == best_size
                    &&& match best_idx {
                        Some(b) => s.0 == Some(b as int) && b < i,
                        None => s.0 is None,
                    }
                }),
            decreases n - i,
        {
            let e = self.freelist[i];
            let ghost pre = self.freelist@.subrange(0, i as int);
            let ghost nxt = self.freelist@.subrange(0, i + 1);
            assert(nxt.drop_last() =~= pre);
            assert(nxt.last() == e);
            let fits = e.1 as i64 >= req as i64;
            let better = match self.policy {
                FitPolicy::Best => (e.1 as i64) < best_size,
                FitPolicy::Worst => (e.1 as i64) > best_size,
                FitPolicy::First => best_idx.is_none(),
                FitPolicy::Unknown => false,
            };
            if fits && better {
                best_idx = Some(i);
                best_size = e.1 as i64;
            }
            i = i + 1;
        }
        assert(self.freelist@.subrange(0, n as int) =~= self.freelist@);
        let count = match best_idx {
            Some(b) => if self.policy == FitPolicy::First {
                b + 1
            } else {
                n
            },
            None => n,
        };
        (best_idx, count)
    }

    /// Whether `malloc(size)` would panic (see `malloc_ok`).
    pub fn malloc_fails(&self, size: i32) -> (r: bool)
        ensures
            r == !malloc_ok(self@, size),
    {
        let req = match self.request_size(size) {
            Some(r) => r,
            None => {
                return true;
            },
        };
        if self.policy == FitPolicy::Best && self.size == i32::MAX {
            return true;
        }
        if self.freelist.len() >= 2147483647 {
            return true;
        }
        let (idx, _count) = self.choose_block(req);
        match idx {
            Some(i) => {
                let e = self.freelist[i];
                if self.find_alloc(e.0).is_some() {
                    return true;
                }
                if e.1 > req {
                    let a = e.0 as i64 + req as i64;
                    let b = e.1 as i64 - req as i64;
                    if a < -2147483648 || a > 2147483647 || b < -2147483648 || b > 2147483647 {
                        return true;
                    }
                }
                false
            },
            None => false,
        }
    }

    /// The index in `sizemap` of the block handed out at `addr`.
    fn find_alloc(&self, addr: i32) -> (r: Option<usize>)
        ensures
            match r {
                Some(k) => k < self.sizemap@.len() && self.sizemap@[k as int].0 == addr,
                None => !is_allocated(self.sizemap@, addr),
            },
    {
        let mut k: usize = 0;
        while k < self.sizemap.len()
            invariant
                k <= self.sizemap@.len(),
                forall|j: int| 0 <= j < k ==> (#[trigger] self.sizemap@[j]).0 != addr,
            decreases self.sizemap@.len() - k,
        {
            if self.sizemap[k].0 == addr {
                return Some(k);
            }
            k = k + 1;
        }
        None
    }

    /// Hands out a block for `size` bytes: its address and how many free-list
    /// entries were searched; the address is -1 where no block is picked.
    pub fn malloc(&mut self, size: i32) -> (r: (i32, i32))
        requires
            malloc_ok(old(self)@, size),
        ensures
            (final(self)@, r.0, r.1) == malloc_spec(old(self)@, size),
    {
        let req = match self.request_size(size) {
            Some(r) => r,
            None => {
                return (-1, 0);
            },
        };
        let (idx, count) = self.choose_block(req);
        let c = count as i32;
        match idx {
            Some(i) => {
                let e = self.freelist[i];
                if e.1 > req {
                    self.freelist.set(i, (e.0 + req, e.1 - req));
                } else {
                    self.freelist.remove(i);
                }
                self.sizemap.push((e.0, req));
                (e.0, c)
            },
            None => (-1, c),
        }
    }

    /// Returns the block at `addr` to the free list: 0, or -1 where `addr`
    /// was not handed out.
    pub fn free(&mut self, addr: i32) -> (r: i32)
        requires
            malloc_wf(old(self)@),
            free_ok(old(self)@, addr),
        ensures
            (final(self)@, r) == free_spec(old(self)@, addr),
    {
        let k = match self.find_alloc(addr) {
            Some(k) => k,
            None => {
                return -1;
            },
        };
        proof {
            lemma_alloc_index_unique(self@.sizemap, addr, k as int);
        }
        let sz = self.sizemap[k].1;
        let mut fl = copy_blocks(&self.freelist);
        match self.order {
            ReturnOrder::InsertBack => {
                fl.push((addr, sz));
            },
            ReturnOrder::InsertFront => {
                fl.insert(0, (addr, sz));
            },
            ReturnOrder::AddrSort => {
                fl.push((addr, sz));
                fl = sort_blocks(&fl, SortKey::Addr);
            },
            ReturnOrder::SizeSortAsc => {
                fl.push((addr, sz));
                fl = sort_blocks(&fl, SortKey::SizeAsc);
            },
            ReturnOrder::SizeSortDesc => {
                fl.push((addr, sz));
                fl = sort_blocks(&fl, SortKey::SizeDesc);
            },
            ReturnOrder::Unknown => {},
        }
        if self.coalesce {
            fl = coalesce_blocks(&fl);
        }
        self.freelist = fl;
        self.sizemap.remove(k);
        0
    }

    /// Whether `free(addr)` would panic (see `free_ok`).
    pub fn free_fails(&self, addr: i32) -> (r: bool)
        requires
            malloc_wf(self@),
        ensures
            r == !free_ok(self@, addr),
    {
        let k = match self.find_alloc(addr) {
            Some(k) => k,
            None => {
                return false;
            },
        };
        proof {
            lemma_alloc_index_unique(self@.sizemap, addr, k as int);
        }
        if !self.coalesce {
            return false;
        }
        let sz = self.sizemap[k].1;
        let mut fl = copy_blocks(&self.freelist);
        match self.order {
            ReturnOrder::InsertBack => {
                fl.push((addr, sz));
            },
            ReturnOrder::InsertFront => {
                fl.insert(0, (addr, sz));
            },
            ReturnOrder::AddrSort => {
                fl.push((addr, sz));
                fl = sort_blocks(&fl, SortKey::Addr);
            },
            ReturnOrder::SizeSortAsc => {
                fl.push((addr, sz));
                fl = sort_blocks(&fl, SortKey::SizeAsc);
            },
            ReturnOrder::SizeSortDesc => {
                fl.push((addr, sz));
                fl = sort_blocks(&fl, SortKey::SizeDesc);
            },
            ReturnOrder::Unknown => {},
        }
        if fl.len() == 0 {
            return true;
        }
        !coalesce_fits(&fl)
    }
}

/// A copy of a list of blocks.
fn copy_blocks(v: &Vec<(i32, i32)>) -> (r: Vec<(i32, i32)>)
    ensures
        r@ == v@,
{
    let mut r: Vec<(i32, i32)> = Vec::new();
    let mut i: usize = 0;
    while i < v.len()
        invariant
            i <= v@.len(),
            r@ == v@.subrange(0, i as int),
        decreases v@.len() - i,
    {
        r.push(v[i]);
        i = i + 1;
        assert(r@ =~= v@.subrange(0, i as int));
    }
    assert(v@.subrange(0, i as int) =~= v@);
    r
}

proof fn lemma_alloc_index_unique(sm: Seq<(i32, i32)>, addr: i32, k: int)
    requires
        0 <= k < sm.len(),
        sm[k].0 == addr,
        forall|i: int, j: int| 0 <= i < j < sm.len() ==> (#[trigger] sm[i]).0 != (#[trigger] sm[j]).0,
    ensures
        is_allocated(sm, addr),
        alloc_index(sm, addr) == k,
{
    assert(is_allocated(sm, addr));
    let c = alloc_index(sm, addr);
    if c != k {
        if c < k {
            assert(sm[c].0 != sm[k].0);
        } else {
            assert(sm[k].0 != sm[c].0);
        }
    }
}

proof fn lemma_insert_sorted_at(t: Seq<(i32, i32)>, x: (i32, i32), k: SortKey, p: int)
    requires
        0 <= p <= t.len(),
        forall|j: int| p <= j < t.len() ==> sort_key(#[trigger] t[j], k) > sort_key(x, k),
        p > 0 ==> sort_key(t[p - 1], k) <= sort_key(x, k),
    ensures
        insert_sorted(t, x, k) == t.insert(p, x),
    decreases t.len(),
{
    if t.len() == 0 {
        assert(t.insert(p, x) =~= seq![x]);
    } else if p == t.len() {
        assert(t.insert(p, x) =~= t.push(x));
    } else {
        let d = t.drop_last();
        assert(sort_key(t[t.len() - 1], k) > sort_key(x, k));
        assert forall|j: int| p <= j < d.len() implies sort_key(#[trigger] d[j], k) > sort_key(x, k) by {
            assert(d[j] == t[j]);
        }
        if p > 0 {
            assert(d[p - 1] == t[p - 1]);
        }
        lemma_insert_sorted_at(d, x, k, p);
        assert(d.insert(p, x).push(t.last()) =~= t.insert(p, x));
    }
}

fn key_greater(a: (i32, i32), b: (i32, i32), k: SortKey) -> (r: bool)
    ensures
        r == (sort_key(a, k) > sort_key(b, k)),
{
    match k {
        SortKey::Addr => a.0 > b.0,
        SortKey::SizeAsc => a.1 > b.1,
        SortKey::SizeDesc => a.1 < b.1,
    }
}

/// The stable sort of a list of blocks by key `k`.
pub fn sort_blocks(v: &Vec<(i32, i32)>, k: SortKey) -> (r: Vec<(i32, i32)>)
    ensures
        r@ == sort_spec(v@, k),
{
    let mut out: Vec<(i32, i32)> = Vec::new();
    let mut i: usize = 0;
    while i < v.len()
        invariant
            i <= v@.len(),
            out@ == sort_spec(v@.subrange(0, i as int), k),
        decreases v@.len() - i,
    {
        let x = v[i];
        let mut p = out.len();
        while p > 0 && key_greater(out[p - 1], x, k)
            invariant
                p <= out@.len(),
                forall|j: int| p <= j < out@.len() ==> sort_key(#[trigger] out@[j], k) > sort_key(x, k),
            decreases p,
        {
            p = p - 1;
        }
        proof {
            lemma_insert_sorted_at(out@, x, k, p as int);
            let nxt = v@.subrange(0, i + 1);
            assert(nxt.drop_last() =~= v@.subrange(0, i as int));
            assert(nxt.last() == x);
        }
        out.insert(p, x);
        i = i + 1;
    }
    assert(v@.subrange(0, i as int) =~= v@);
    out
}

/// Whether coalescing `fl` runs without overflow.
fn coalesce_fits(fl: &Vec<(i32, i32)>) -> (r: bool)
    requires
        fl@.len() > 0,
    ensures
        r == coalesce_ok(fl@),
{
    let mut newlist: Vec<(i32, i32)> = Vec::new();
    let mut curr = fl[0];
    let mut i: usize = 1;
    proof {
        assert(fl@.subrange(0, 1) =~= seq![fl@[0]]);
        assert(newlist@.push(curr) =~= fl@.subrange(0, 1));
    }
    while i < fl.len()
        invariant
            1 <= i <= fl@.len(),
            newlist@.push(curr) == coalesce_spec(fl@.subrange(0, i as int)),
            coalesce_ok(fl@.subrange(0, i as int)),
        decreases fl@.len() - i,
    {
        let e = fl[i];
        let ghost pre = fl@.subrange(0, i as int);
        let ghost nxt = fl@.subrange(0, i + 1);
        assert(nxt.drop_last() =~= pre);
        assert(nxt.last() == e);
        let end = curr.0 as i64 + curr.1 as i64;
        if end < -2147483648 || end > 2147483647 {
            proof {
                if coalesce_ok(fl@) {
                    lemma_coalesce_ok_prefix(fl@, i + 1);
                }
            }
            return false;
        }
        if e.0 as i64 == end {
            let s = curr.1 as i64 + e.1 as i64;
            if s < -2147483648 || s > 2147483647 {
                proof {
                    if coalesce_ok(fl@) {
                        lemma_coalesce_ok_prefix(fl@, i + 1);
                    }
                }
                return false;
            }
            curr = (curr.0, s as i32);
            assert(newlist@.push(curr) =~= coalesce_spec(nxt));
        } else {
            newlist.push(curr);
            curr = e;
            assert(newlist@.push(curr) =~= coalesce_spec(nxt));
        }
        i = i + 1;
    }
    assert(fl@.subrange(0, i as int) =~= fl@);
    true
}

/// `fl` with adjacent runs merged (see `coalesce_spec`).
pub fn coalesce_blocks(fl: &Vec<(i32, i32)>) -> (r: Vec<(i32, i32)>)
    requires
        fl@.len() > 0,
        coalesce_ok(fl@),
    ensures
        r@ == coalesce_spec(fl@),
{
    let mut newlist: Vec<(i32, i32)> = Vec::new();
    let mut curr = fl[0];
    let mut i: usize = 1;
    proof {
        assert(fl@.subrange(0, 1) =~= seq![fl@[0]]);
        assert(newlist@.push(curr) =~= fl@.subrange(0, 1));
    }
    while i < fl.len()
        invariant
            1 <= i <= fl@.len(),
            newlist@.push(curr) == coalesce_spec(fl@.subrange(0, i as int)),
            coalesce_ok(fl@),
        decreases fl@.len() - i,
    {
        let e = fl[i];
        let ghost pre = fl@.subrange(0, i as int);
        let ghost nxt = fl@.subrange(0, i + 1);
        assert(nxt.drop_last() =~= pre);
        assert(nxt.last() == e);
        proof {
            lemma_coalesce_ok_prefix(fl@, i + 1);
        }
        if e.0 == curr.0 + curr.1 {
            curr = (curr.0, curr.1 + e.1);
            assert(newlist@.push(curr) =~= coalesce_spec(nxt));
        } else {
            newlist.push(curr);
            curr = e;
            assert(newlist@.push(curr) =~= coalesce_spec(nxt));
        }
        i = i + 1;
    }
    assert(fl@.subrange(0, i as int) =~= fl@);
    newlist.push(curr);
    newlist
}

proof fn lemma_coalesce_ok_prefix(fl: Seq<(i32, i32)>, n: int)
    requires
        0 <= n <= fl.len(),
        coalesce_ok(fl),
    ensures
        coalesce_ok(fl.subrange(0, n)),
    decreases fl.len() - n,
{
    if n == fl.len() {
        assert(fl.subrange(0, n) =~= fl);
    } else {
        if fl.len() > 1 {
            lemma_coalesce_ok_prefix(fl.drop_last(), n);
            assert(fl.drop_last().subrange(0, n) =~= fl.subrange(0, n));
        } else {
            assert(fl.subrange(0, n).len() <= 1);
        }
    }
}

proof fn lemma_total_push(s: Seq<(i32, i32)>, x: (i32, i32))
    ensures
        total(s.push(x)) == total(s) + x.1,
{
    assert(s.push(x).drop_last() =~= s);
}

proof fn lemma_total_single(x: (i32, i32))
    ensures
        total(seq![x]) == x.1,
{
    assert(seq![x].drop_last() =~= Seq::<(i32, i32)>::empty());
    assert(total(Seq::<(i32, i32)>::empty()) == 0);
}

proof fn lemma_total_concat(a: Seq<(i32, i32)>, b: Seq<(i32, i32)>)
    ensures
        total(a + b) == total(a) + total(b),
    decreases b.len(),
{
    if b.len() > 0 {
        lemma_total_concat(a, b.drop_last());
        assert((a + b).drop_last() =~= a + b.drop_last());
    } else {
        assert(a + b =~= a);
    }
}

proof fn lemma_total_insert(s: Seq<(i32, i32)>, i: int, x: (i32, i32))
    requires
        0 <= i <= s.len(),
    ensures
        total(s.insert(i, x)) == total(s) + x.1,
{
    let a = s.subrange(0, i);
    let b = s.subrange(i, s.len() as int);
    assert(s =~= a + b);
    assert(s.insert(i, x) =~= (a + seq![x]) + b);
    lemma_total_concat(a, b);
    lemma_total_concat(a + seq![x], b);
    lemma_total_concat(a, seq![x]);
    lemma_total_single(x);
}

proof fn lemma_total_remove(s: Seq<(i32, i32)>, i: int)
    requires
        0 <= i < s.len(),
    ensures
        total(s.remove(i)) == total(s) - s[i].1,
{
    lemma_total_insert(s.remove(i), i, s[i]);
    assert(s.remove(i).insert(i, s[i]) =~= s);
}

proof fn lemma_total_update(s: Seq<(i32, i32)>, i: int, x: (i32, i32))
    requires
        0 <= i < s.len(),
    ensures
        total(s.update(i, x)) == total(s) - s[i].1 + x.1,
{
    lemma_total_remove(s, i);
    lemma_total_insert(s.remove(i), i, x);
    assert(s.remove(i).insert(i, x) =~= s.update(i, x));
}

proof fn lemma_total_insert_sorted(t: Seq<(i32, i32)>, x: (i32, i32), k: SortKey)
    ensures
        total(insert_sorted(t, x, k)) == total(t) + x.1,
    decreases t.len(),
{
    if t.len() == 0 {
        lemma_total_single(x);
        assert(total(t) == 0);
    } else if sort_key(t.last(), k) <= sort_key(x, k) {
        lemma_total_push(t, x);
    } else {
        lemma_total_insert_sorted(t.drop_last(), x, k);
        lemma_total_push(insert_sorted(t.drop_last(), x, k), t.last());
    }
}

proof fn lemma_total_sort(s: Seq<(i32, i32)>, k: SortKey)
    ensures
        total(sort_spec(s, k)) == total(s),
    decreases s.len(),
{
    if s.len() > 0 {
        lemma_total_sort(s.drop_last(), k);
        lemma_total_insert_sorted(sort_spec(s.drop_last(), k), s.last(), k);
    }
}

proof fn lemma_coalesce_nonempty(fl: Seq<(i32, i32)>)
    requires
        fl.len() > 0,
    ensures
        coalesce_spec(fl).len() > 0,
    decreases fl.len(),
{
    if fl.len() > 1 {
        lemma_coalesce_nonempty(fl.drop_last());
    }
}

proof fn lemma_total_coalesce(fl: Seq<(i32, i32)>)
    requires
        coalesce_ok(fl),
    ensures
        total(coalesce_spec(fl)) == total(fl),
    decreases fl.len(),
{
    if fl.len() > 1 {
        let d = fl.drop_last();
        lemma_total_coalesce(d);
        lemma_coalesce_nonempty(d);
        let c = coalesce_spec(d);
        let cur = c.last();
        let e = fl.last();
        if e.0 == cur.0 + cur.1 {
            lemma_total_update(c, c.len() - 1, (cur.0, (cur.1 + e.1) as i32));
        } else {
            lemma_total_push(c, e);
        }
    }
}

proof fn lemma_sizemap_push_wf(m: MallocState, x: (i32, i32))
    requires
        malloc_wf(m),
        !is_allocated(m.sizemap, x.0),
    ensures
        forall|i: int, j: int|
            0 <= i < j < m.sizemap.push(x).len() ==> (#[trigger] m.sizemap.push(x)[i]).0 != (
            #[trigger] m.sizemap.push(x)[j]).0,
{
    let s = m.sizemap.push(x);
    assert forall|i: int, j: int| 0 <= i < j < s.len() implies (#[trigger] s[i]).0 != (
    #[trigger] s[j]).0 by {
        if j == s.len() - 1 {
            assert(s[i] == m.sizemap[i]);
        } else {
            assert(s[i] == m.sizemap[i] && s[j] == m.sizemap[j]);
        }
    }
}

/// Conservation: `malloc` neither creates nor loses bytes. The bytes on the
/// free list plus the bytes handed out stay the same, and handed-out
/// addresses stay distinct.
pub proof fn law_malloc_conserves(m: MallocState, size: i32)
    requires
        malloc_wf(m),
        malloc_ok(m, size),
    ensures
        accounted(malloc_spec(m, size).0) == accounted(m),
        malloc_wf(malloc_spec(m, size).0),
{
    let req = padded_request(m, size as int);
    match chosen(m, req) {
        Some(i) => {
            lemma_scan_index(m.freelist, req, m.policy, initial_best(m.policy, m.size as int));
            let e = m.freelist[i];
            if e.1 > req {
                lemma_total_update(m.freelist, i, ((e.0 + req) as i32, (e.1 - req) as i32));
            } else {
                lemma_scan_fits(m.freelist, req, m.policy, initial_best(m.policy, m.size as int));
                lemma_total_remove(m.freelist, i);
            }
            lemma_sizemap_push_wf(m, (e.0, req as i32));
            lemma_total_push(m.sizemap, (e.0, req as i32));
        },
        None => {},
    }
}

/// A request takes the size asked for rounded up to the next multiple of
/// the alignment (where there is one), plus the header.
pub proof fn law_padded_request(m: MallocState, size: i32)
    requires
        size >= 0,
    ensures
        m.align > 0 ==> {
            let body = padded_request(m, size as int) - m.header_size;
            &&& body % (m.align as int) == 0
            &&& size <= body < size + m.align
        },
        m.align == -1 ==> padded_request(m, size as int) == size + m.header_size,
{
    if m.align > 0 {
        let a = m.align as int;
        vstd::arithmetic::div_mod::lemma_fundamental_div_mod(size as int, a);
        vstd::arithmetic::div_mod::lemma_mod_pos_bound(size as int, a);
        let r = (size as int) % a;
        let q = (size as int) / a;
        assert(rem_trunc(size as int, a) == r);
        if r != 0 {
            assert(size + (a - r) == (q + 1) * a) by (nonlinear_arith)
                requires
                    size == a * q + r,
            ;
            vstd::arithmetic::div_mod::lemma_mod_multiples_basic(q + 1, a);
        } else {
            assert(size == q * a) by (nonlinear_arith)
                requires
                    size == a * q + r,
                    r == 0,
            ;
            vstd::arithmetic::div_mod::lemma_mod_multiples_basic(q, a);
        }
    }
}

/// `malloc` hands out the front of the block it picks: it returns the
/// block's address, records the block's first `req` bytes (the padded
/// request) as handed out, and leaves the rest of the block free in its
/// place (or takes the block off the list where nothing is left); where it
/// picks no block it returns -1 and changes nothing.
pub proof fn law_malloc_takes_front(m: MallocState, size: i32)
    ensures
        ({
            let req = padded_request(m, size as int);
            let (m2, addr, _) = malloc_spec(m, size);
            match chosen(m, req) {
                Some(i) => {
                    let e = m.freelist[i];
                    &&& addr == e.0
                    &&& m2.sizemap == m.sizemap.push((e.0, req as i32))
                    &&& e.1 > req ==> m2.freelist.len() == m.freelist.len() && m2.freelist[i] == ((e.0 + req) as i32, (e.1 - req) as i32)
                        && (forall|j: int| 0 <= j < m.freelist.len() && j != i ==> m2.freelist[j] == m.freelist[j])
                    &&& e.1 <= req ==> m2.freelist == m.freelist.remove(i)
                },
                None => addr == -1 && m2 == m,
            }
        }),
{
    lemma_scan_index(m.freelist, padded_request(m, size as int), m.policy, initial_best(m.policy, m.size as int));
}

/// Where to a free list without coalescing the block at `addr` (handed out
/// with `sz` bytes) goes back: at the end under INSERT-BACK, at the front
/// under INSERT-FRONT; either way the block leaves the map of handed-out
/// blocks, the free succeeds, and the other free blocks keep their order.
pub proof fn law_free_returns_block(m: MallocState, k: int)
    requires
        malloc_wf(m),
        0 <= k < m.sizemap.len(),
        !m.coalesce,
        m.order == ReturnOrder::InsertBack || m.order == ReturnOrder::InsertFront,
    ensures
        ({
            let addr = m.sizemap[k].0;
            let sz = m.sizemap[k].1;
            let (m2, r) = free_spec(m, addr);
            &&& r == 0
            &&& m2.sizemap == m.sizemap.remove(k)
            &&& m.order == ReturnOrder::InsertBack ==> m2.freelist == m.freelist.push((addr, sz))
            &&& m.order == ReturnOrder::InsertFront ==> m2.freelist == seq![(addr, sz)] + m.freelist
        }),
{
    lemma_alloc_index_unique(m.sizemap, m.sizemap[k].0, k);
    assert(m.freelist.insert(0, (m.sizemap[k].0, m.sizemap[k].1)) =~= seq![(m.sizemap[k].0, m.sizemap[k].1)] + m.freelist);
}

/// Conservation: `free` neither creates nor loses bytes where the return
/// order is one of the five known ones, and handed-out addresses stay
/// distinct.
pub proof fn law_free_conserves(m: MallocState, addr: i32)
    requires
        malloc_wf(m),
        free_ok(m, addr),
        m.order != ReturnOrder::Unknown,
    ensures
        accounted(free_spec(m, addr).0) == accounted(m),
        malloc_wf(free_spec(m, addr).0),
{
    if is_allocated(m.sizemap, addr) {
        let k = alloc_index(m.sizemap, addr);
        let sz = m.sizemap[k].1;
        let x = (addr, sz);
        let fl = insert_free(m.freelist, x, m.order);
        match m.order {
            ReturnOrder::InsertBack => {
                lemma_total_push(m.freelist, x);
            },
            ReturnOrder::InsertFront => {
                lemma_total_insert(m.freelist, 0, x);
            },
            ReturnOrder::AddrSort => {
                lemma_total_sort(m.freelist.push(x), SortKey::Addr);
                lemma_total_push(m.freelist, x);
            },
            ReturnOrder::SizeSortAsc => {
                lemma_total_sort(m.freelist.push(x), SortKey::SizeAsc);
                lemma_total_push(m.freelist, x);
            },
            ReturnOrder::SizeSortDesc => {
                lemma_total_sort(m.freelist.push(x), SortKey::SizeDesc);
                lemma_total_push(m.freelist, x);
            },
            ReturnOrder::Unknown => {},
        }
        if m.coalesce {
            lemma_total_coalesce(fl);
        }
        lemma_total_remove(m.sizemap, k);
        let r = m.sizemap.remove(k);
        assert forall|i: int, j: int| 0 <= i < j < r.len() implies (#[trigger] r[i]).0 != (
        #[trigger] r[j]).0 by {
            let i2 = if i < k { i } else { i + 1 };
            let j2 = if j < k { j } else { j + 1 };
            assert(r[i] == m.sizemap[i2] && r[j] == m.sizemap[j2]);
            assert(m.sizemap[i2].0 != m.sizemap[j2].0);
        }
    }
}

proof fn lemma_scan_index(fl: Seq<(i32, i32)>, req: int, p: FitPolicy, init: int)
    ensures
        scan(fl, req, p, init).0 matches Some(i) ==> 0 <= i < fl.len(),
    decreases fl.len(),
{
    if fl.len() > 0 {
        lemma_scan_index(fl.drop_last(), req, p, init);
    }
}

proof fn lemma_scan_fits(fl: Seq<(i32, i32)>, req: int, p: FitPolicy, init: int)
    ensures
        scan(fl, req, p, init).0 matches Some(i) ==> 0 <= i < fl.len() && fl[i].1 >= req && scan(
            fl,
            req,
            p,
            init,
        ).1 == fl[i].1,
    decreases fl.len(),
{
    if fl.len() > 0 {
        lemma_scan_fits(fl.drop_last(), req, p, init);
        let s = scan(fl.drop_last(), req, p, init);
        if let Some(i) = s.0 {
            assert(fl.drop_last()[i] == fl[i]);
        }
    }
}

proof fn lemma_scan_best(fl: Seq<(i32, i32)>, req: int, init: int)
    ensures
        match scan(fl, req, FitPolicy::Best, init).0 {
            Some(i) => {
                &&& 0 <= i < fl.len()
                &&& fl[i].1 >= req
                &&& fl[i].1 < init
                &&& scan(fl, req, FitPolicy::Best, init).1 == fl[i].1
                &&& forall|j: int| 0 <= j < fl.len() && (#[trigger] fl[j]).1 >= req && fl[j].1 < init ==> fl[i].1 <= fl[j].1
                &&& forall|j: int| 0 <= j < i && (#[trigger] fl[j]).1 >= req ==> fl[j].1 > fl[i].1
            },
            None => {
                &&& scan(fl, req, FitPolicy::Best, init).1 == init
                &&& forall|j: int| 0 <= j < fl.len() ==> !((#[trigger] fl[j]).1 >= req && fl[j].1 < init)
            },
        },
    decreases fl.len(),
{
    if fl.len() > 0 {
        let d = fl.drop_last();
        lemma_scan_best(d, req, init);
        let prev = scan(d, req, FitPolicy::Best, init);
        let e = fl.last();
        let n = fl.len() - 1;
        assert forall|j: int| 0 <= j < d.len() implies #[trigger] d[j] == fl[j] by {}
        if takes(FitPolicy::Best, e, req, prev.1, prev.0 is Some) {
            assert forall|j: int| 0 <= j < fl.len() && (#[trigger] fl[j]).1 >= req && fl[j].1 < init implies fl[n].1 <= fl[j].1 by {
                if j < n {
                    assert(d[j] == fl[j]);
                }
            }
            assert forall|j: int| 0 <= j < n && (#[trigger] fl[j]).1 >= req implies fl[j].1 > fl[n].1 by {
                assert(d[j] == fl[j]);
            }
        } else {
            match prev.0 {
                Some(i) => {
                    assert forall|j: int| 0 <= j < fl.len() && (#[trigger] fl[j]).1 >= req && fl[j].1 < init implies fl[i].1 <= fl[j].1 by {
                        if j < n {
                            assert(d[j] == fl[j]);
                        }
                    }
                    assert forall|j: int| 0 <= j < i && (#[trigger] fl[j]).1 >= req implies fl[j].1 > fl[i].1 by {
                        assert(d[j] == fl[j]);
                    }
                    assert(fl[i] == d[i]);
                },
                None => {
                    assert forall|j: int| 0 <= j < fl.len() implies !((#[trigger] fl[j]).1 >= req && fl[j].1 < init) by {
                        if j < n {
                            assert(d[j] == fl[j]);
                        }
                    }
                },
            }
        }
    }
}

proof fn lemma_scan_worst(fl: Seq<(i32, i32)>, req: int)
    ensures
        match scan(fl, req, FitPolicy::Worst, -1).0 {
            Some(i) => {
                &&& 0 <= i < fl.len()
                &&& fl[i].1 >= req
                &&& fl[i].1 > -1
                &&& scan(fl, req, FitPolicy::Worst, -1).1 == fl[i].1
                &&& forall|j: int| 0 <= j < fl.len() && (#[trigger] fl[j]).1 >= req ==> fl[j].1 <= fl[i].1
                &&& forall|j: int| 0 <= j < i && (#[trigger] fl[j]).1 >= req ==> fl[j].1 < fl[i].1
            },
            None => {
                &&& scan(fl, req, FitPolicy::Worst, -1).1 == -1
                &&& forall|j: int| 0 <= j < fl.len() ==> !((#[trigger] fl[j]).1 >= req && fl[j].1 > -1)
            },
        },
    decreases fl.len(),
{
    if fl.len() > 0 {
        let d = fl.drop_last();
        lemma_scan_worst(d, req);
        let prev = scan(d, req, FitPolicy::Worst, -1);
        let e = fl.last();
        let n = fl.len() - 1;
        assert forall|j: int| 0 <= j < d.len() implies #[trigger] d[j] == fl[j] by {}
        if takes(FitPolicy::Worst, e, req, prev.1, prev.0 is Some) {
            assert forall|j: int| 0 <= j < fl.len() && (#[trigger] fl[j]).1 >= req implies fl[j].1 <= fl[n].1 by {
                if j < n {
                    assert(d[j] == fl[j]);
                }
            }
            assert forall|j: int| 0 <= j < n && (#[trigger] fl[j]).1 >= req implies fl[j].1 < fl[n].1 by {
                assert(d[j] == fl[j]);
            }
        } else {
            match prev.0 {
                Some(i) => {
                    assert forall|j: int| 0 <= j < fl.len() && (#[trigger] fl[j]).1 >= req implies fl[j].1 <= fl[i].1 by {
                        if j < n {
                            assert(d[j] == fl[j]);
                        }
                    }
                    assert forall|j: int| 0 <= j < i && (#[trigger] fl[j]).1 >= req implies fl[j].1 < fl[i].1 by {
                        assert(d[j] == fl[j]);
                    }
                    assert(fl[i] == d[i]);
                },
                None => {
                    assert forall|j: int| 0 <= j < fl.len() implies !((#[trigger] fl[j]).1 >= req && fl[j].1 > -1) by {
                        if j < n {
                            assert(d[j] == fl[j]);
                        }
                    }
                },
            }
        }
    }
}

proof fn lemma_scan_first(fl: Seq<(i32, i32)>, req: int)
    ensures
        match scan(fl, req, FitPolicy::First, -1).0 {
            Some(i) => {
                &&& 0 <= i < fl.len()
                &&& fl[i].1 >= req
                &&& forall|j: int| 0 <= j < i ==> (#[trigger] fl[j]).1 < req
            },
            None => forall|j: int| 0 <= j < fl.len() ==> (#[trigger] fl[j]).1 < req,
        },
    decreases fl.len(),
{
    if fl.len() > 0 {
        let d = fl.drop_last();
        lemma_scan_first(d, req);
        let prev = scan(d, req, FitPolicy::First, -1);
        let n = fl.len() - 1;
        match prev.0 {
            Some(i) => {
                assert forall|j: int| 0 <= j < i implies (#[trigger] fl[j]).1 < req by {
                    assert(d[j] == fl[j]);
                }
                assert(fl[i] == d[i]);
            },
            None => {
                assert forall|j: int| 0 <= j < fl.len() && j < n implies (#[trigger] fl[j]).1 < req by {
                    assert(d[j] == fl[j]);
                }
            },
        }
    }
}

/// Best fit: the block that `malloc` picks fits the request and no fitting
/// block of at most the heap's size is smaller; among equally small ones it
/// is the first. Where it picks none, no such block fits.
pub proof fn law_best_fit(m: MallocState, size: i32)
    requires
        m.policy == FitPolicy::Best,
    ensures
        ({
            let req = padded_request(m, size as int);
            let fl = m.freelist;
            match chosen(m, req) {
                Some(i) => {
                    &&& 0 <= i < fl.len()
                    &&& fl[i].1 >= req
                    &&& forall|j: int| 0 <= j < fl.len() && (#[trigger] fl[j]).1 >= req && fl[j].1 <= m.size ==> fl[i].1 <= fl[j].1
                    &&& forall|j: int| 0 <= j < i && (#[trigger] fl[j]).1 >= req ==> fl[j].1 > fl[i].1
                },
                None => forall|j: int| 0 <= j < fl.len() ==> !((#[trigger] fl[j]).1 >= req && fl[j].1 <= m.size),
            }
        }),
{
    lemma_scan_best(m.freelist, padded_request(m, size as int), m.size + 1);
}

/// Worst fit: the block that `malloc` picks fits the request and no fitting
/// block is larger; among equally large ones it is the first. Where it
/// picks none, no block of non-negative size fits.
pub proof fn law_worst_fit(m: MallocState, size: i32)
    requires
        m.policy == FitPolicy::Worst,
    ensures
        ({
            let req = padded_request(m, size as int);
            let fl = m.freelist;
            match chosen(m, req) {
                Some(i) => {
                    &&& 0 <= i < fl.len()
                    &&& fl[i].1 >= req
                    &&& forall|j: int| 0 <= j < fl.len() && (#[trigger] fl[j]).1 >= req ==> fl[j].1 <= fl[i].1
                    &&& forall|j: int| 0 <= j < i && (#[trigger] fl[j]).1 >= req ==> fl[j].1 < fl[i].1
                },
                None => forall|j: int| 0 <= j < fl.len() ==> !((#[trigger] fl[j]).1 >= req && fl[j].1 >= 0),
            }
        }),
{
    lemma_scan_worst(m.freelist, padded_request(m, size as int));
}

/// First fit: `malloc` picks the first block that fits, and searches up to
/// it; where no block fits it picks none and searches the whole list.
pub proof fn law_first_fit(m: MallocState, size: i32)
    requires
        m.policy == FitPolicy::First,
    ensures
        ({
            let req = padded_request(m, size as int);
            let fl = m.freelist;
            match chosen(m, req) {
                Some(i) => {
                    &&& 0 <= i < fl.len()
                    &&& fl[i].1 >= req
                    &&& forall|j: int| 0 <= j < i ==> (#[trigger] fl[j]).1 < req
                    &&& searched(m, req) == i + 1
                },
                None => {
                    &&& forall|j: int| 0 <= j < fl.len() ==> (#[trigger] fl[j]).1 < req
                    &&& searched(m, req) == fl.len()
                },
            }
        }),
{
    lemma_scan_first(m.freelist, padded_request(m, size as int));
}

proof fn lemma_insert_sorted_sorted(t: Seq<(i32, i32)>, x: (i32, i32), k: SortKey)
    requires
        sorted_by(t, k),
    ensures
        sorted_by(insert_sorted(t, x, k), k),
        insert_sorted(t, x, k).len() == t.len() + 1,
        forall|j: int| 0 <= j < insert_sorted(t, x, k).len() ==> sort_key(#[trigger] insert_sorted(t, x, k)[j], k) <= sort_key(x, k) || (j < t.len() && insert_sorted(t, x, k)[j] == t[j]) || (j >= 1 && insert_sorted(t, x, k)[j] == t[j - 1]),
    decreases t.len(),
{
    let r = insert_sorted(t, x, k);
    if t.len() == 0 {
    } else if sort_key(t.last(), k) <= sort_key(x, k) {
        assert forall|i: int, j: int| 0 <= i < j < r.len() implies sort_key(#[trigger] r[i], k) <= sort_key(#[trigger] r[j], k) by {
            if j == r.len() - 1 {
                assert(sort_key(t[i], k) <= sort_key(t[t.len() - 1], k) || i == t.len() - 1);
            }
        }
    } else {
        let d = t.drop_last();
        assert(sorted_by(d, k)) by {
            assert forall|i: int, j: int| 0 <= i < j < d.len() implies sort_key(#[trigger] d[i], k) <= sort_key(#[trigger] d[j], k) by {
                assert(d[i] == t[i] && d[j] == t[j]);
            }
        }
        lemma_insert_sorted_sorted(d, x, k);
        let q = insert_sorted(d, x, k);
        assert forall|j: int| 0 <= j < q.len() implies sort_key(#[trigger] q[j], k) <= sort_key(t.last(), k) by {
            if sort_key(q[j], k) <= sort_key(x, k) {
            } else if j < d.len() && q[j] == d[j] {
                assert(d[j] == t[j]);
            } else {
                assert(q[j] == d[j - 1]);
                assert(d[j - 1] == t[j - 1]);
            }
        }
        assert forall|i: int, j: int| 0 <= i < j < r.len() implies sort_key(#[trigger] r[i], k) <= sort_key(#[trigger] r[j], k) by {
            if j == r.len() - 1 {
                assert(r[i] == q[i]);
            } else {
                assert(r[i] == q[i] && r[j] == q[j]);
            }
        }
        assert forall|j: int| 0 <= j < r.len() implies sort_key(#[trigger] r[j], k) <= sort_key(x, k) || (j < t.len() && r[j] == t[j]) || (j >= 1 && r[j] == t[j - 1]) by {
            if j == r.len() - 1 {
                assert(r[j] == t[j - 1]);
            } else {
                assert(r[j] == q[j]);
                if j < d.len() && q[j] == d[j] {
                    assert(d[j] == t[j]);
                } else if j >= 1 && q[j] == d[j - 1] {
                    assert(d[j - 1] == t[j - 1]);
                }
            }
        }
    }
}

proof fn lemma_sort_sorted(s: Seq<(i32, i32)>, k: SortKey)
    ensures
        sorted_by(sort_spec(s, k), k),
        sort_spec(s, k).len() == s.len(),
    decreases s.len(),
{
    if s.len() > 0 {
        lemma_sort_sorted(s.drop_last(), k);
        lemma_insert_sorted_sorted(sort_spec(s.drop_last(), k), s.last(), k);
    }
}

/// After a free under a sorting return order (`ADDRSORT`, `SIZESORT+`,
/// `SIZESORT-`) without coalescing, the free list is sorted by that order's
/// key, whatever order it was in before.
pub proof fn law_free_sorts(m: MallocState, addr: i32, k: SortKey)
    requires
        !m.coalesce,
        is_allocated(m.sizemap, addr),
        m.order == match k {
            SortKey::Addr => ReturnOrder::AddrSort,
            SortKey::SizeAsc => ReturnOrder::SizeSortAsc,
            SortKey::SizeDesc => ReturnOrder::SizeSortDesc,
        },
    ensures
        sorted_by(free_spec(m, addr).0.freelist, k),
{
    let sz = m.sizemap[alloc_index(m.sizemap, addr)].1;
    lemma_sort_sorted(m.freelist.push((addr, sz)), k);
}


// The heap as a tiling: with the free list kept in address order and
// coalesced, the free and the handed-out blocks cover the heap exactly.

pub open spec fn block_end(b: (i32, i32)) -> int {
    b.0 + b.1
}

/// Two blocks that do not overlap.
pub open spec fn apart(a: (i32, i32), b: (i32, i32)) -> bool {
    block_end(a) <= b.0 || block_end(b) <= a.0
}

/// A non-empty block inside the heap `start .. start + size`.
pub open spec fn inside(b: (i32, i32), start: int, size: int) -> bool {
    start <= b.0 && block_end(b) <= start + size && b.1 > 0
}

/// The heap at `start` is tiled: every block, free or handed out, is a
/// non-empty part of the heap; the free blocks come in address order with
/// a gap between any two (they are coalesced); no two blocks overlap; and
/// together they hold the heap's bytes.
pub open spec fn heap_tiled(m: MallocState, start: int) -> bool {
    &&& forall|i: int| 0 <= i < m.freelist.len() ==> inside(#[trigger] m.freelist[i], start, m.size as int)
    &&& forall|i: int| 0 <= i < m.sizemap.len() ==> inside(#[trigger] m.sizemap[i], start, m.size as int)
    &&& forall|i: int, j: int| 0 <= i < j < m.freelist.len() ==> block_end(#[trigger] m.freelist[i]) < (#[trigger] m.freelist[j]).0
    &&& forall|i: int, j: int| 0 <= i < j < m.sizemap.len() ==> apart(#[trigger] m.sizemap[i], #[trigger] m.sizemap[j])
    &&& forall|i: int, j: int| 0 <= i < m.freelist.len() && 0 <= j < m.sizemap.len() ==> apart(#[trigger] m.freelist[i], #[trigger] m.sizemap[j])
    &&& accounted(m) == m.size
}

proof fn lemma_gapped_total(fl: Seq<(i32, i32)>)
    requires
        fl.len() > 0,
        forall|i: int, j: int| 0 <= i < j < fl.len() ==> block_end(#[trigger] fl[i]) < (#[trigger] fl[j]).0,
        forall|i: int| 0 <= i < fl.len() ==> (#[trigger] fl[i]).1 > 0,
    ensures
        total(fl) + fl.len() - 1 <= block_end(fl.last()) - fl[0].0,
    decreases fl.len(),
{
    if fl.len() > 1 {
        let d = fl.drop_last();
        assert forall|i: int, j: int| 0 <= i < j < d.len() implies block_end(#[trigger] d[i]) < (#[trigger] d[j]).0 by {
            assert(d[i] == fl[i] && d[j] == fl[j]);
        }
        assert forall|i: int| 0 <= i < d.len() implies (#[trigger] d[i]).1 > 0 by {
            assert(d[i] == fl[i]);
        }
        lemma_gapped_total(d);
        assert(d.last() == fl[fl.len() - 2]);
        assert(block_end(fl[fl.len() - 2]) < fl[fl.len() - 1].0);
        assert(d[0] == fl[0]);
    } else {
        lemma_total_single(fl[0]);
        assert(fl =~= seq![fl[0]]);
    }
}

/// A new heap of `size > 0` bytes at `start` is tiled by its one free block.
pub proof fn law_new_heap_tiled(m: MallocState, start: i32)
    requires
        m.size > 0,
        m.freelist == seq![(start, m.size)],
        m.sizemap.len() == 0,
    ensures
        heap_tiled(m, start as int),
{
    lemma_total_single((start, m.size));
    assert(total(m.sizemap) == 0);
}

/// Once every block handed out has been given back, a tiled heap is one
/// free block again: the whole heap, from `start`, of its full size.
pub proof fn law_all_freed_is_one_block(m: MallocState, start: i32)
    requires
        heap_tiled(m, start as int),
        m.sizemap.len() == 0,
        m.size > 0,
    ensures
        m.freelist == seq![(start, m.size)],
{
    let fl = m.freelist;
    assert(total(m.sizemap) == 0);
    assert(total(fl) == m.size);
    if fl.len() == 0 {
        assert(total(fl) == 0);
    }
    assert forall|i: int| 0 <= i < fl.len() implies (#[trigger] fl[i]).1 > 0 by {
        assert(inside(fl[i], start as int, m.size as int));
    }
    lemma_gapped_total(fl);
    assert(inside(fl[0], start as int, m.size as int));
    assert(inside(fl[fl.len() - 1], start as int, m.size as int));
    assert(fl.len() == 1);
    assert(fl[0].0 == start);
    assert(fl =~= seq![(start, m.size)]);
}

/// `malloc` keeps a tiled heap tiled, whatever the fit policy, where the
/// request takes at least one byte: the block handed out is the front of
/// the free block picked, and what is left of that block stays free.
pub proof fn law_malloc_keeps_heap_tiled(m: MallocState, size: i32, start: int)
    requires
        heap_tiled(m, start),
        malloc_wf(m),
        malloc_ok(m, size),
        padded_request(m, size as int) > 0,
    ensures
        heap_tiled(malloc_spec(m, size).0, start),
{
    let req = padded_request(m, size as int);
    law_malloc_conserves(m, size);
    let m2 = malloc_spec(m, size).0;
    match chosen(m, req) {
        Some(i) => {
            lemma_scan_fits(m.freelist, req, m.policy, initial_best(m.policy, m.size as int));
            let fl = m.freelist;
            let e = fl[i];
            let a = (e.0, req as i32);
            assert(inside(e, start, m.size as int));
            assert(m2.sizemap == m.sizemap.push(a));
            assert forall|j: int| 0 <= j < m2.sizemap.len() implies inside(#[trigger] m2.sizemap[j], start, m.size as int) by {
                if j < m.sizemap.len() {
                    assert(m2.sizemap[j] == m.sizemap[j]);
                }
            }
            assert forall|x: int, y: int| 0 <= x < y < m2.sizemap.len() implies apart(#[trigger] m2.sizemap[x], #[trigger] m2.sizemap[y]) by {
                assert(m2.sizemap[x] == m.sizemap[x]);
                if y < m.sizemap.len() {
                    assert(m2.sizemap[y] == m.sizemap[y]);
                } else {
                    assert(apart(e, m.sizemap[x]));
                }
            }
            if e.1 > req {
                let rest = ((e.0 + req) as i32, (e.1 - req) as i32);
                assert(m2.freelist == fl.update(i, rest));
                assert forall|j: int| 0 <= j < m2.freelist.len() implies inside(#[trigger] m2.freelist[j], start, m.size as int) by {
                    if j != i {
                        assert(m2.freelist[j] == fl[j]);
                    }
                }
                assert forall|x: int, y: int| 0 <= x < y < m2.freelist.len() implies block_end(#[trigger] m2.freelist[x]) < (#[trigger] m2.freelist[y]).0 by {
                    assert(block_end(fl[x]) < fl[y].0);
                }
                assert forall|x: int, y: int| 0 <= x < m2.freelist.len() && 0 <= y < m2.sizemap.len() implies apart(#[trigger] m2.freelist[x], #[trigger] m2.sizemap[y]) by {
                    if y < m.sizemap.len() {
                        assert(m2.sizemap[y] == m.sizemap[y]);
                        assert(apart(fl[x], m.sizemap[y]));
                        assert(apart(e, m.sizemap[y]));
                    } else {
                        assert(m2.sizemap[y] == a);
                        if x != i {
                            if x < i {
                                assert(block_end(fl[x]) < e.0);
                            } else {
                                assert(block_end(e) < fl[x].0);
                            }
                        }
                    }
                }
            } else {
                assert(m2.freelist == fl.remove(i));
                assert forall|j: int| 0 <= j < m2.freelist.len() implies inside(#[trigger] m2.freelist[j], start, m.size as int) by {
                    if j < i {
                        assert(m2.freelist[j] == fl[j]);
                    } else {
                        assert(m2.freelist[j] == fl[j + 1]);
                    }
                }
                assert forall|x: int, y: int| 0 <= x < y < m2.freelist.len() implies block_end(#[trigger] m2.freelist[x]) < (#[trigger] m2.freelist[y]).0 by {
                    let x1 = if x < i { x } else { x + 1 };
                    let y1 = if y < i { y } else { y + 1 };
                    assert(m2.freelist[x] == fl[x1]);
                    assert(m2.freelist[y] == fl[y1]);
                    assert(block_end(fl[x1]) < fl[y1].0);
                }
                assert forall|x: int, y: int| 0 <= x < m2.freelist.len() && 0 <= y < m2.sizemap.len() implies apart(#[trigger] m2.freelist[x], #[trigger] m2.sizemap[y]) by {
                    let x1 = if x < i { x } else { x + 1 };
                    assert(m2.freelist[x] == fl[x1]);
                    if y < m.sizemap.len() {
                        assert(m2.sizemap[y] == m.sizemap[y]);
                        assert(apart(fl[x1], m.sizemap[y]));
                    } else {
                        assert(m2.sizemap[y] == a);
                        if x1 < i {
                            assert(block_end(fl[x1]) < e.0);
                        } else {
                            assert(block_end(e) < fl[x1].0);
                        }
                    }
                }
            }
        },
        None => {},
    }
}

proof fn lemma_apart_order(a: (i32, i32), b: (i32, i32))
    requires
        a.0 <= b.0,
        apart(a, b),
        a.1 > 0,
        b.1 > 0,
    ensures
        block_end(a) <= b.0,
{
}

proof fn lemma_sort_identity(t: Seq<(i32, i32)>, k: SortKey)
    requires
        sorted_by(t, k),
    ensures
        sort_spec(t, k) == t,
    decreases t.len(),
{
    if t.len() > 0 {
        let d = t.drop_last();
        assert(sorted_by(d, k)) by {
            assert forall|i: int, j: int| 0 <= i < j < d.len() implies sort_key(#[trigger] d[i], k) <= sort_key(#[trigger] d[j], k) by {
                assert(d[i] == t[i] && d[j] == t[j]);
            }
        }
        lemma_sort_identity(d, k);
        if d.len() > 0 {
            assert(d.last() == t[t.len() - 2]);
        }
        assert(d.push(t.last()) =~= t);
    }
}

/// The first entry from `i` on whose address is past `a` (the length where
/// there is none).
pub open spec fn first_after(fl: Seq<(i32, i32)>, a: int, i: int) -> int
    decreases fl.len() - i,
{
    if i < 0 || i >= fl.len() {
        fl.len() as int
    } else if fl[i].0 > a {
        i
    } else {
        first_after(fl, a, i + 1)
    }
}

proof fn lemma_first_after(fl: Seq<(i32, i32)>, a: int, i: int)
    requires
        0 <= i <= fl.len(),
    ensures
        i <= first_after(fl, a, i) <= fl.len(),
        first_after(fl, a, i) < fl.len() ==> fl[first_after(fl, a, i)].0 > a,
        forall|m: int| i <= m < first_after(fl, a, i) ==> fl[m].0 <= a,
    decreases fl.len() - i,
{
    if i < fl.len() && fl[i].0 <= a {
        lemma_first_after(fl, a, i + 1);
    }
}

proof fn lemma_coalesce_tiles(l: Seq<(i32, i32)>, ys: Seq<(i32, i32)>, start: int, size: int)
    requires
        coalesce_ok(l),
        forall|i: int, j: int| 0 <= i < j < l.len() ==> block_end(#[trigger] l[i]) <= (#[trigger] l[j]).0,
        forall|i: int| 0 <= i < l.len() ==> inside(#[trigger] l[i], start, size),
        forall|q: int| 0 <= q < ys.len() ==> (#[trigger] ys[q]).1 > 0,
        forall|i: int, q: int| 0 <= i < l.len() && 0 <= q < ys.len() ==> apart(#[trigger] l[i], #[trigger] ys[q]),
    ensures
        forall|i: int, j: int| 0 <= i < j < coalesce_spec(l).len() ==> block_end(#[trigger] coalesce_spec(l)[i]) < (#[trigger] coalesce_spec(l)[j]).0,
        forall|i: int| 0 <= i < coalesce_spec(l).len() ==> inside(#[trigger] coalesce_spec(l)[i], start, size),
        forall|i: int, q: int| 0 <= i < coalesce_spec(l).len() && 0 <= q < ys.len() ==> apart(#[trigger] coalesce_spec(l)[i], #[trigger] ys[q]),
        l.len() > 0 ==> coalesce_spec(l).len() > 0 && block_end(coalesce_spec(l).last()) == block_end(l.last()),
    decreases l.len(),
{
    if l.len() > 1 {
        let d = l.drop_last();
        assert forall|i: int, j: int| 0 <= i < j < d.len() implies block_end(#[trigger] d[i]) <= (#[trigger] d[j]).0 by {
            assert(d[i] == l[i] && d[j] == l[j]);
        }
        assert forall|i: int| 0 <= i < d.len() implies inside(#[trigger] d[i], start, size) by {
            assert(d[i] == l[i]);
        }
        assert forall|i: int, q: int| 0 <= i < d.len() && 0 <= q < ys.len() implies apart(#[trigger] d[i], #[trigger] ys[q]) by {
            assert(d[i] == l[i]);
        }
        lemma_coalesce_tiles(d, ys, start, size);
        let c1 = coalesce_spec(d);
        let cur = c1.last();
        let e = l.last();
        let n1 = c1.len() - 1;
        assert(d.last() == l[l.len() - 2]);
        assert(block_end(l[l.len() - 2]) <= e.0);
        assert(inside(e, start, size));
        assert(inside(c1[n1], start, size));
        let c = coalesce_spec(l);
        if e.0 == cur.0 + cur.1 {
            let merged = (cur.0, (cur.1 + e.1) as i32);
            assert(c == c1.update(n1, merged));
            assert(block_end(merged) == block_end(e));
            assert forall|i: int, j: int| 0 <= i < j < c.len() implies block_end(#[trigger] c[i]) < (#[trigger] c[j]).0 by {
                assert(c[i] == c1[i]);
                if j < n1 {
                    assert(c[j] == c1[j]);
                }
            }
            assert forall|i: int| 0 <= i < c.len() implies inside(#[trigger] c[i], start, size) by {
                if i < n1 {
                    assert(c[i] == c1[i]);
                }
            }
            assert forall|i: int, q: int| 0 <= i < c.len() && 0 <= q < ys.len() implies apart(#[trigger] c[i], #[trigger] ys[q]) by {
                if i < n1 {
                    assert(c[i] == c1[i]);
                } else {
                    assert(apart(c1[n1], ys[q]));
                    assert(apart(l[l.len() - 1], ys[q]));
                }
            }
        } else {
            assert(c == c1.push(e));
            assert forall|i: int, j: int| 0 <= i < j < c.len() implies block_end(#[trigger] c[i]) < (#[trigger] c[j]).0 by {
                assert(c[i] == c1[i]);
                if j < c1.len() {
                    assert(c[j] == c1[j]);
                } else if i < n1 {
                    assert(block_end(c1[i]) < c1[n1].0);
                }
            }
            assert forall|i: int| 0 <= i < c.len() implies inside(#[trigger] c[i], start, size) by {
                if i < c1.len() {
                    assert(c[i] == c1[i]);
                }
            }
            assert forall|i: int, q: int| 0 <= i < c.len() && 0 <= q < ys.len() implies apart(#[trigger] c[i], #[trigger] ys[q]) by {
                if i < c1.len() {
                    assert(c[i] == c1[i]);
                } else {
                    assert(apart(l[l.len() - 1], ys[q]));
                }
            }
        }
    }
}

proof fn lemma_insert_tiles(fl: Seq<(i32, i32)>, sm: Seq<(i32, i32)>, k: int, p: int, start: int, size: int)
    requires
        0 <= k < sm.len(),
        0 <= p <= fl.len(),
        forall|m: int| 0 <= m < p ==> fl[m].0 <= sm[k].0,
        p < fl.len() ==> fl[p].0 > sm[k].0,
        forall|i: int| 0 <= i < fl.len() ==> inside(#[trigger] fl[i], start, size),
        forall|i: int| 0 <= i < sm.len() ==> inside(#[trigger] sm[i], start, size),
        forall|i: int, j: int| 0 <= i < j < fl.len() ==> block_end(#[trigger] fl[i]) < (#[trigger] fl[j]).0,
        forall|i: int, j: int| 0 <= i < j < sm.len() ==> apart(#[trigger] sm[i], #[trigger] sm[j]),
        forall|i: int, j: int| 0 <= i < fl.len() && 0 <= j < sm.len() ==> apart(#[trigger] fl[i], #[trigger] sm[j]),
    ensures
        ({
            let l = fl.insert(p, sm[k]);
            let ys = sm.remove(k);
            &&& forall|i: int, j: int| 0 <= i < j < l.len() ==> block_end(#[trigger] l[i]) <= (#[trigger] l[j]).0
            &&& forall|i: int| 0 <= i < l.len() ==> inside(#[trigger] l[i], start, size)
            &&& forall|q: int| 0 <= q < ys.len() ==> (#[trigger] ys[q]).1 > 0
            &&& forall|i: int, q: int| 0 <= i < l.len() && 0 <= q < ys.len() ==> apart(#[trigger] l[i], #[trigger] ys[q])
            &&& forall|i: int| 0 <= i < ys.len() ==> inside(#[trigger] ys[i], start, size)
            &&& forall|i: int, j: int| 0 <= i < j < ys.len() ==> apart(#[trigger] ys[i], #[trigger] ys[j])
        }),
{
    let x = sm[k];
    let l = fl.insert(p, x);
    let ys = sm.remove(k);
    assert(inside(x, start, size));
    assert forall|i: int, j: int| 0 <= i < j < l.len() implies block_end(#[trigger] l[i]) <= (#[trigger] l[j]).0 by {
        if j < p {
            assert(l[i] == fl[i] && l[j] == fl[j]);
        } else if j == p {
            assert(l[i] == fl[i] && l[j] == x);
            assert(apart(fl[i], sm[k]));
            assert(inside(fl[i], start, size));
            lemma_apart_order(fl[i], x);
        } else if i == p {
            assert(l[i] == x && l[j] == fl[j - 1]);
            assert(fl[j - 1].0 > x.0) by {
                if j - 1 > p {
                    assert(block_end(fl[p]) < fl[j - 1].0);
                    assert(inside(fl[p], start, size));
                }
            }
            assert(apart(fl[j - 1], sm[k]));
            assert(inside(fl[j - 1], start, size));
            lemma_apart_order(x, fl[j - 1]);
        } else if i < p {
            assert(l[i] == fl[i] && l[j] == fl[j - 1]);
            assert(block_end(fl[i]) < fl[j - 1].0);
        } else {
            assert(l[i] == fl[i - 1] && l[j] == fl[j - 1]);
            assert(block_end(fl[i - 1]) < fl[j - 1].0);
        }
    }
    assert forall|i: int| 0 <= i < l.len() implies inside(#[trigger] l[i], start, size) by {
        if i < p {
            assert(l[i] == fl[i]);
        } else if i > p {
            assert(l[i] == fl[i - 1]);
        }
    }
    assert forall|q: int| 0 <= q < ys.len() implies (#[trigger] ys[q]).1 > 0 && inside(ys[q], start, size) by {
        let q1 = if q < k { q } else { q + 1 };
        assert(ys[q] == sm[q1]);
    }
    assert forall|i: int, q: int| 0 <= i < l.len() && 0 <= q < ys.len() implies apart(#[trigger] l[i], #[trigger] ys[q]) by {
        let q1 = if q < k { q } else { q + 1 };
        assert(ys[q] == sm[q1]);
        if i < p {
            assert(l[i] == fl[i]);
        } else if i > p {
            assert(l[i] == fl[i - 1]);
        } else {
            assert(l[i] == x);
            if q1 < k {
                assert(apart(sm[q1], sm[k]));
            } else {
                assert(apart(sm[k], sm[q1]));
            }
        }
    }
    assert forall|i: int, j: int| 0 <= i < j < ys.len() implies apart(#[trigger] ys[i], #[trigger] ys[j]) by {
        let i1 = if i < k { i } else { i + 1 };
        let j1 = if j < k { j } else { j + 1 };
        assert(ys[i] == sm[i1] && ys[j] == sm[j1]);
    }
}

/// `free` keeps a tiled heap tiled, where the free list is kept in address
/// order and coalesced: the block given back joins the free list in its
/// place, and neighbours that touch are merged.
pub proof fn law_free_keeps_heap_tiled(m: MallocState, addr: i32, start: int)
    requires
        heap_tiled(m, start),
        malloc_wf(m),
        free_ok(m, addr),
        m.order == ReturnOrder::AddrSort,
        m.coalesce,
    ensures
        heap_tiled(free_spec(m, addr).0, start),
{
    law_free_conserves(m, addr);
    if is_allocated(m.sizemap, addr) {
        let sm = m.sizemap;
        let fl = m.freelist;
        let k = alloc_index(sm, addr);
        let x = sm[k];
        assert(sorted_by(fl, SortKey::Addr)) by {
            assert forall|i: int, j: int| 0 <= i < j < fl.len() implies sort_key(#[trigger] fl[i], SortKey::Addr) <= sort_key(#[trigger] fl[j], SortKey::Addr) by {
                assert(block_end(fl[i]) < fl[j].0);
                assert(inside(fl[i], start, m.size as int));
            }
        }
        lemma_sort_identity(fl, SortKey::Addr);
        assert(fl.push(x).drop_last() =~= fl);
        assert(sort_spec(fl.push(x), SortKey::Addr) == insert_sorted(fl, x, SortKey::Addr));
        lemma_first_after(fl, x.0 as int, 0);
        let p = first_after(fl, x.0 as int, 0);
        assert forall|j: int| p <= j < fl.len() implies sort_key(#[trigger] fl[j], SortKey::Addr) > sort_key(x, SortKey::Addr) by {
            if j > p {
                assert(block_end(fl[p]) < fl[j].0);
                assert(inside(fl[p], start, m.size as int));
            }
        }
        lemma_insert_sorted_at(fl, x, SortKey::Addr, p);
        let l = fl.insert(p, x);
        lemma_insert_tiles(fl, sm, k, p, start, m.size as int);
        let ys = sm.remove(k);
        lemma_coalesce_tiles(l, ys, start, m.size as int);
    }
}

} // verus!
