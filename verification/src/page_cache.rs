//! Page replacement in a cache of a fixed number of pages: FIFO, LRU, MRU,
//! the optimal policy (OPT) and its opposite (UNOPT), random replacement and
//! a clock-like policy with per-page reference counters.
//!
//! An access runs as a small state machine: the random policies ask for a
//! random index (`NeedRandom`) until they have settled on a victim.

use vstd::prelude::*;
use crate::text::{text_eq, int_to_string, int_decimal};

verus! {

#[derive(Clone, Copy, PartialEq, Eq, Structural, Debug)]
pub enum ReplacePolicy {
    Fifo,
    Lru,
    Mru,
    Opt,
    Unopt,
    Rand,
    Clock,
}

pub open spec fn spec_replace_policy(cs: Seq<char>) -> Option<ReplacePolicy> {
    if cs == "FIFO"@ {
        Some(ReplacePolicy::Fifo)
    } else if cs == "LRU"@ {
        Some(ReplacePolicy::Lru)
    } else if cs == "MRU"@ {
        Some(ReplacePolicy::Mru)
    } else if cs == "OPT"@ {
        Some(ReplacePolicy::Opt)
    } else if cs == "UNOPT"@ {
        Some(ReplacePolicy::Unopt)
    } else if cs == "RAND"@ {
        Some(ReplacePolicy::Rand)
    } else if cs == "CLOCK"@ {
        Some(ReplacePolicy::Clock)
    } else {
        None
    }
}

/// Reads a policy by its name; `None` for a policy that is not implemented.
pub fn replace_policy_from(s: &str) -> (p: Option<ReplacePolicy>)
    ensures
        p == spec_replace_policy(s@),
{
    if text_eq(s, "FIFO") {
        Some(ReplacePolicy::Fifo)
    } else if text_eq(s, "LRU") {
        Some(ReplacePolicy::Lru)
    } else if text_eq(s, "MRU") {
        Some(ReplacePolicy::Mru)
    } else if text_eq(s, "OPT") {
        Some(ReplacePolicy::Opt)
    } else if text_eq(s, "UNOPT") {
        Some(ReplacePolicy::Unopt)
    } else if text_eq(s, "RAND") {
        Some(ReplacePolicy::Rand)
    } else if text_eq(s, "CLOCK") {
        Some(ReplacePolicy::Clock)
    } else {
        None
    }
}

/// "HIT" for a found page (index not -1), "MISS" otherwise.
pub fn hfunc(index: i32) -> (s: String)
    ensures
        s@ == (if index == -1 {
            "MISS"@
        } else {
            "HIT"@
        }),
{
    if index == -1 {
        String::from_str("MISS")
    } else {
        String::from_str("HIT")
    }
}

/// "-" where there was no victim (-1), the victim's number otherwise.
pub fn vfunc(victim: i32) -> (s: String)
    ensures
        s@ == (if victim == -1 {
            "-"@
        } else {
            int_decimal(victim as int)
        }),
{
    if victim == -1 {
        String::from_str("-")
    } else {
        int_to_string(victim as i64)
    }
}

/// The result of one call of the access state machine.
#[derive(Clone, Copy, PartialEq, Eq, Structural, Debug)]
pub enum AccessStep {
    /// The policy needs a random index into the cache.
    NeedRandom,
    /// The access is over: whether it hit, and the page evicted (-1: none).
    Done { hit: bool, victim: i32 },
}

pub struct CacheState {
    pub policy: ReplacePolicy,
    pub cachesize: i32,
    pub clockbits: i32,
    pub memory: Seq<i32>,
    pub count: i32,
    pub hits: i32,
    pub misses: i32,
    pub refs: Seq<(i32, i32)>,
    pub pending: Option<i32>,
}

/// A page cache: `memory` lists the resident pages (left: first in, or
/// least recently used); `count` is the number of pages that the cache
/// takes as resident; `refs` holds each page's reference counter.
pub struct PageCache {
    pub policy: ReplacePolicy,
    pub cachesize: i32,
    pub clockbits: i32,
    pub memory: Vec<i32>,
    pub count: i32,
    pub hits: i32,
    pub misses: i32,
    pub refs: Vec<(i32, i32)>,
    pub pending: Option<i32>,
}

impl View for PageCache {
    type V = CacheState;

    open spec fn view(&self) -> CacheState {
        CacheState {
            policy: self.policy,
            cachesize: self.cachesize,
            clockbits: self.clockbits,
            memory: self.memory@,
            count: self.count,
            hits: self.hits,
            misses: self.misses,
            refs: self.refs@,
            pending: self.pending,
        }
    }
}

/// The first position of `n` in `s`.
pub open spec fn first_index(s: Seq<i32>, n: i32) -> Option<int>
    decreases s.len(),
{
    if s.len() == 0 {
        None
    } else {
        match first_index(s.drop_last(), n) {
            Some(i) => Some(i),
            None => if s.last() == n {
                Some(s.len() - 1)
            } else {
                None
            },
        }
    }
}

/// The first position of page `n` in the counter list.
pub open spec fn ref_index(r: Seq<(i32, i32)>, n: i32) -> Option<int>
    decreases r.len(),
{
    if r.len() == 0 {
        None
    } else {
        match ref_index(r.drop_last(), n) {
            Some(i) => Some(i),
            None => if r.last().0 == n {
                Some(r.len() - 1)
            } else {
                None
            },
        }
    }
}

pub open spec fn clamp(v: int, bits: i32) -> i32 {
    if v > bits {
        bits
    } else {
        v as i32
    }
}

/// Counting a reference to `n`: its counter goes up by one (a new page
/// starts at one and goes up to two), but not above `clockbits`.
pub open spec fn touch_spec(r: Seq<(i32, i32)>, n: i32, bits: i32) -> Seq<(i32, i32)> {
    match ref_index(r, n) {
        Some(k) => r.update(k, (n, clamp(r[k].1 + 1, bits))),
        None => r.push((n, clamp(2, bits))),
    }
}

/// The first position after `at` where `page` is referenced again, or the
/// length of the list where it is not.
pub open spec fn next_use(addrs: Seq<i32>, at: int, page: i32) -> int {
    match first_index(addrs.subrange(at + 1, addrs.len() as int), page) {
        Some(k) => at + 1 + k,
        None => addrs.len() as int,
    }
}

/// OPT's scan of the first `k` resident pages: the last position whose next
/// use is latest, and that next use.
pub open spec fn opt_pick(mem: Seq<i32>, addrs: Seq<i32>, at: int, k: int) -> (int, int)
    decreases k,
{
    if k <= 0 {
        (-1, 0)
    } else {
        let prev = opt_pick(mem, addrs, at, k - 1);
        let w = next_use(addrs, at, mem[k - 1]);
        if w >= prev.1 {
            (k - 1, w)
        } else {
            prev
        }
    }
}

/// UNOPT's scan of the first `k` resident pages: the first position whose
/// next use is earliest, and that next use.
pub open spec fn unopt_pick(mem: Seq<i32>, addrs: Seq<i32>, at: int, k: int) -> (int, int)
    decreases k,
{
    if k <= 0 {
        (-1, addrs.len() + 1int)
    } else {
        let prev = unopt_pick(mem, addrs, at, k - 1);
        let w = next_use(addrs, at, mem[k - 1]);
        if w < prev.1 {
            (k - 1, w)
        } else {
            prev
        }
    }
}

/// The position of the victim under a policy that needs no random index.
pub open spec fn fixed_victim_index(s: CacheState, addrs: Seq<i32>, at: int) -> int {
    match s.policy {
        ReplacePolicy::Mru => s.count - 1,
        ReplacePolicy::Opt => opt_pick(s.memory, addrs, at, s.count as int).0,
        ReplacePolicy::Unopt => unopt_pick(s.memory, addrs, at, s.count as int).0,
        _ => 0,
    }
}

/// Looking `n` up: a hit counts, and LRU and MRU move the page to the right
/// end; a miss counts.
pub open spec fn lookup_spec(s: CacheState, n: i32) -> (CacheState, bool) {
    match first_index(s.memory, n) {
        Some(i) => (
            CacheState {
                hits: (s.hits + 1) as i32,
                memory: if s.policy == ReplacePolicy::Lru || s.policy == ReplacePolicy::Mru {
                    s.memory.remove(i).push(n)
                } else {
                    s.memory
                },
                ..s
            },
            true,
        ),
        None => (CacheState { misses: (s.misses + 1) as i32, ..s }, false),
    }
}

/// Bringing `n` in (after `memory` lost its victim, if any) and counting the
/// reference.
pub open spec fn admit_spec(s: CacheState, n: i32, grew: bool) -> CacheState {
    CacheState {
        memory: s.memory.push(n),
        count: if grew {
            (s.count + 1) as i32
        } else {
            s.count
        },
        refs: touch_spec(s.refs, n, s.clockbits),
        pending: None,
        ..s
    }
}

pub open spec fn is_random(p: ReplacePolicy) -> bool {
    p == ReplacePolicy::Rand || p == ReplacePolicy::Clock
}

/// An access to page `n`, the `at`-th of the reference list `addrs`.
pub open spec fn start_spec(s: CacheState, n: i32, addrs: Seq<i32>, at: int) -> (CacheState, AccessStep) {
    let (s1, hit) = lookup_spec(s, n);
    if hit {
        (CacheState { refs: touch_spec(s1.refs, n, s1.clockbits), ..s1 }, AccessStep::Done { hit: true, victim: -1i32 })
    } else if s1.count == s1.cachesize {
        if is_random(s1.policy) {
            (CacheState { pending: Some(n), ..s1 }, AccessStep::NeedRandom)
        } else {
            let i = fixed_victim_index(s1, addrs, at);
            let v = s1.memory[i];
            (admit_spec(CacheState { memory: s1.memory.remove(i), ..s1 }, n, false), AccessStep::Done { hit: false, victim: v })
        }
    } else {
        (admit_spec(s1, n, true), AccessStep::Done { hit: false, victim: -1i32 })
    }
}

/// Going on with a random index, for RAND and CLOCK. RAND evicts the page at
/// the index. CLOCK lowers the page's counter where it is positive and asks
/// for another index; otherwise it takes the page as the victim, and the
/// page leaves the cache only where it is the leftmost one.
pub open spec fn feed_spec(s: CacheState, idx: int) -> (CacheState, AccessStep) {
    let n = s.pending->0;
    let page = s.memory[idx];
    if s.policy == ReplacePolicy::Rand {
        (admit_spec(CacheState { memory: s.memory.remove(idx), ..s }, n, false), AccessStep::Done { hit: false, victim: page })
    } else {
        let k = ref_index(s.refs, page)->0;
        if s.refs[k].1 >= 1 {
            (CacheState { refs: s.refs.update(k, (page, (s.refs[k].1 - 1) as i32)), ..s }, AccessStep::NeedRandom)
        } else {
            let mem = if s.memory[0] == page {
                s.memory.remove(0)
            } else {
                s.memory
            };
            (admit_spec(CacheState { memory: mem, ..s }, n, false), AccessStep::Done { hit: false, victim: page })
        }
    }
}

pub open spec fn has_ref(r: Seq<(i32, i32)>, n: i32) -> bool {
    ref_index(r, n) is Some
}

/// The shape the cache keeps between accesses: at least `count` pages are
/// listed (exactly `count` for the policies other than CLOCK), no more than
/// `cachesize` where that is not negative, and every listed page has a
/// counter.
pub open spec fn cache_wf(s: CacheState) -> bool {
    &&& 0 <= s.count <= s.memory.len()
    &&& s.policy != ReplacePolicy::Clock ==> s.memory.len() == s.count
    &&& s.cachesize >= 0 ==> s.count <= s.cachesize
    &&& forall|i: int| 0 <= i < s.memory.len() ==> has_ref(s.refs, #[trigger] s.memory[i])
}

/// The counter of `n` can go up without overflow.
pub open spec fn touch_ok(r: Seq<(i32, i32)>, n: i32) -> bool {
    match ref_index(r, n) {
        Some(k) => r[k].1 < i32::MAX,
        None => true,
    }
}

/// The inputs on which an access runs without a panic.
pub open spec fn start_ok(s: CacheState, n: i32, addrs: Seq<i32>, at: int) -> bool {
    let (s1, hit) = lookup_spec(s, n);
    &&& s.hits < i32::MAX
    &&& s.misses < i32::MAX
    &&& 0 <= at < addrs.len() < i32::MAX
    &&& touch_ok(s.refs, n)
    &&& (!hit && s1.count == s1.cachesize && !is_random(s1.policy) ==> 0 <= fixed_victim_index(
        s1,
        addrs,
        at,
    ) < s1.memory.len())
    &&& (!hit && s1.count != s1.cachesize ==> s1.count < i32::MAX)
}

/// The inputs on which a random index can be fed.
pub open spec fn feed_ok(s: CacheState, idx: int) -> bool {
    &&& s.pending is Some
    &&& is_random(s.policy)
    &&& 0 <= idx < s.memory.len()
    &&& touch_ok(s.refs, s.pending->0)
}

impl PageCache {
    /// An empty cache of `cachesize` pages.
    pub fn new(policy: ReplacePolicy, cachesize: i32, clockbits: i32) -> (c: PageCache)
        ensures
            c@ == (CacheState {
                policy,
                cachesize,
                clockbits,
                memory: Seq::empty(),
                count: 0,
                hits: 0,
                misses: 0,
                refs: Seq::empty(),
                pending: None,
            }),
            cache_wf(c@),
    {
        let c = PageCache {
            policy,
            cachesize,
            clockbits,
            memory: Vec::new(),
            count: 0,
            hits: 0,
            misses: 0,
            refs: Vec::new(),
            pending: None,
        };
        assert(c@.memory =~= Seq::<i32>::empty());
        assert(c@.refs =~= Seq::<(i32, i32)>::empty());
        c
    }
}

fn find_first(s: &Vec<i32>, n: i32) -> (r: Option<usize>)
    ensures
        match r {
            Some(i) => first_index(s@, n) == Some(i as int) && i < s@.len(),
            None => first_index(s@, n) is None,
        },
{
    let mut i: usize = 0;
    while i < s.len()
        invariant
            i <= s@.len(),
            first_index(s@.subrange(0, i as int), n) is None,
        decreases s@.len() - i,
    {
        let ghost pre = s@.subrange(0, i as int);
        let ghost nxt = s@.subrange(0, i + 1);
        assert(nxt.drop_last() =~= pre);
        if s[i] == n {
            proof {
                lemma_first_index_extend(s@, i + 1);
            }
            return Some(i);
        }
        i = i + 1;
    }
    assert(s@.subrange(0, i as int) =~= s@);
    None
}

proof fn lemma_first_index_extend(s: Seq<i32>, m: int)
    requires
        1 <= m <= s.len(),
        first_index(s.subrange(0, m), s[m - 1]) == Some(m - 1),
    ensures
        first_index(s, s[m - 1]) == Some(m - 1),
    decreases s.len() - m,
{
    if m == s.len() {
        assert(s.subrange(0, m) =~= s);
    } else {
        lemma_first_index_grow(s, s[m - 1], m, m - 1);
    }
}

proof fn lemma_first_index_grow(s: Seq<i32>, n: i32, m: int, i: int)
    requires
        1 <= m <= s.len(),
        first_index(s.subrange(0, m), n) == Some(i),
    ensures
        first_index(s, n) == Some(i),
    decreases s.len() - m,
{
    if m == s.len() {
        assert(s.subrange(0, m) =~= s);
    } else {
        let nxt = s.subrange(0, m + 1);
        assert(nxt.drop_last() =~= s.subrange(0, m));
        lemma_first_index_grow(s, n, m + 1, i);
    }
}

proof fn lemma_first_index_bounds(s: Seq<i32>, n: i32)
    ensures
        first_index(s, n) matches Some(i) ==> 0 <= i < s.len() && s[i] == n,
        first_index(s, n) is None ==> !s.contains(n),
    decreases s.len(),
{
    if s.len() > 0 {
        lemma_first_index_bounds(s.drop_last(), n);
        if first_index(s.drop_last(), n) is None && s.last() != n {
            assert forall|k: int| 0 <= k < s.len() implies s[k] != n by {
                if k < s.len() - 1 {
                    assert(s.drop_last()[k] == s[k]);
                    assert(!s.drop_last().contains(n));
                }
            }
        }
        if let Some(i) = first_index(s.drop_last(), n) {
            assert(s.drop_last()[i] == s[i]);
        }
    }
}

fn find_ref(r: &Vec<(i32, i32)>, n: i32) -> (k: Option<usize>)
    ensures
        match k {
            Some(i) => ref_index(r@, n) == Some(i as int) && i < r@.len() && r@[i as int].0 == n,
            None => ref_index(r@, n) is None,
        },
{
    let mut i: usize = 0;
    while i < r.len()
        invariant
            i <= r@.len(),
            ref_index(r@.subrange(0, i as int), n) is None,
        decreases r@.len() - i,
    {
        let ghost pre = r@.subrange(0, i as int);
        let ghost nxt = r@.subrange(0, i + 1);
        assert(nxt.drop_last() =~= pre);
        if r[i].0 == n {
            proof {
                lemma_ref_index_grow(r@, n, i + 1, i as int);
            }
            return Some(i);
        }
        i = i + 1;
    }
    assert(r@.subrange(0, i as int) =~= r@);
    None
}

proof fn lemma_ref_index_grow(r: Seq<(i32, i32)>, n: i32, m: int, i: int)
    requires
        1 <= m <= r.len(),
        ref_index(r.subrange(0, m), n) == Some(i),
    ensures
        ref_index(r, n) == Some(i),
    decreases r.len() - m,
{
    if m == r.len() {
        assert(r.subrange(0, m) =~= r);
    } else {
        let nxt = r.subrange(0, m + 1);
        assert(nxt.drop_last() =~= r.subrange(0, m));
        lemma_ref_index_grow(r, n, m + 1, i);
    }
}

proof fn lemma_ref_index_bounds(r: Seq<(i32, i32)>, n: i32)
    ensures
        ref_index(r, n) matches Some(k) ==> 0 <= k < r.len() && r[k].0 == n,
    decreases r.len(),
{
    if r.len() > 0 {
        lemma_ref_index_bounds(r.drop_last(), n);
        if let Some(k) = ref_index(r.drop_last(), n) {
            assert(r.drop_last()[k] == r[k]);
        }
    }
}

/// `ref_index` depends only on the keys of the list.
proof fn lemma_ref_index_update(r: Seq<(i32, i32)>, k: int, v: i32, n: i32)
    requires
        0 <= k < r.len(),
    ensures
        ref_index(r.update(k, (r[k].0, v)), n) == ref_index(r, n),
    decreases r.len(),
{
    let u = r.update(k, (r[k].0, v));
    if k < r.len() - 1 {
        assert(u.drop_last() =~= r.drop_last().update(k, (r[k].0, v)));
        assert(r.drop_last()[k] == r[k]);
        lemma_ref_index_update(r.drop_last(), k, v, n);
    } else {
        assert(u.drop_last() =~= r.drop_last());
    }
}

proof fn lemma_ref_index_push(r: Seq<(i32, i32)>, x: (i32, i32), n: i32)
    ensures
        ref_index(r, n) is Some ==> ref_index(r.push(x), n) == ref_index(r, n),
        x.0 == n ==> ref_index(r.push(x), n) is Some,
{
    assert(r.push(x).drop_last() =~= r);
}

fn touch(refs: &mut Vec<(i32, i32)>, n: i32, bits: i32)
    requires
        touch_ok(old(refs)@, n),
    ensures
        final(refs)@ == touch_spec(old(refs)@, n, bits),
{
    match find_ref(refs, n) {
        Some(k) => {
            let c = refs[k].1 + 1;
            let v = if c > bits {
                bits
            } else {
                c
            };
            refs.set(k, (n, v));
        },
        None => {
            let v = if 2 > bits {
                bits
            } else {
                2
            };
            refs.push((n, v));
        },
    }
}

proof fn lemma_touch_keeps_refs(r: Seq<(i32, i32)>, n: i32, bits: i32, m: i32)
    requires
        has_ref(r, m) || m == n,
    ensures
        has_ref(touch_spec(r, n, bits), m),
{
    lemma_ref_index_bounds(r, n);
    match ref_index(r, n) {
        Some(k) => {
            lemma_ref_index_update(r, k, clamp(r[k].1 + 1, bits), m);
            if m == n {
            }
        },
        None => {
            lemma_ref_index_push(r, (n, clamp(2, bits)), m);
        },
    }
}

/// The first position after `at` where `page` is used again (see `next_use`).
fn next_use_of(addrs: &Vec<i32>, at: usize, page: i32) -> (w: usize)
    requires
        at < addrs@.len(),
    ensures
        w == next_use(addrs@, at as int, page),
        at < w <= addrs@.len(),
{
    let ghost fut = addrs@.subrange(at + 1, addrs@.len() as int);
    let len = addrs.len();
    let mut k: usize = at + 1;
    while k < addrs.len()
        invariant
            at < k <= addrs@.len(),
            fut == addrs@.subrange(at + 1, addrs@.len() as int),
            first_index(fut.subrange(0, k - at - 1), page) is None,
        decreases addrs@.len() - k,
    {
        let ghost pre = fut.subrange(0, k - at - 1);
        let ghost nxt = fut.subrange(0, k - at);
        assert(nxt.drop_last() =~= pre);
        assert(nxt.last() == addrs@[k as int]);
        if addrs[k] == page {
            proof {
                lemma_first_index_grow(fut, page, k - at, k - at - 1);
            }
            return k;
        }
        k = k + 1;
    }
    assert(fut.subrange(0, k - at - 1) =~= fut);
    addrs.len()
}

fn opt_index(mem: &Vec<i32>, count: usize, addrs: &Vec<i32>, at: usize, worst: bool) -> (r: i64)
    requires
        count <= mem@.len(),
        count <= i32::MAX,
        at < addrs@.len() < i32::MAX,
    ensures
        worst ==> r == opt_pick(mem@, addrs@, at as int, count as int).0,
        !worst ==> r == unopt_pick(mem@, addrs@, at as int, count as int).0,
{
    let mut best_idx: i64 = -1;
    let mut best: usize = if worst {
        0
    } else {
        addrs.len() + 1
    };
    let mut k: usize = 0;
    while k < count
        invariant
            k <= count <= mem@.len(),
            at < addrs@.len(),
            worst ==> (best_idx as int, best as int) == opt_pick(mem@, addrs@, at as int, k as int),
            !worst ==> (best_idx as int, best as int) == unopt_pick(mem@, addrs@, at as int, k as int),
            best <= addrs@.len() + 1,
            -1 <= best_idx < k,
            count <= i32::MAX,
            addrs@.len() < i32::MAX,
        decreases count - k,
    {
        let w = next_use_of(addrs, at, mem[k]);
        let ghost po = opt_pick(mem@, addrs@, at as int, k as int);
        let ghost pu = unopt_pick(mem@, addrs@, at as int, k as int);
        assert(opt_pick(mem@, addrs@, at as int, k + 1) == (if w >= po.1 { (k as int, w as int) } else { po }));
        assert(unopt_pick(mem@, addrs@, at as int, k + 1) == (if w < pu.1 { (k as int, w as int) } else { pu }));
        if worst {
            if w >= best {
                best_idx = k as i64;
                best = w;
            }
        } else {
            if w < best {
                best_idx = k as i64;
                best = w;
            }
        }
        k = k + 1;
    }
    best_idx
}

impl PageCache {
    /// Begins an access to page `n`, the `at`-th reference of `addrs`: the
    /// access is over (`Done`), or the policy needs a random index.
    pub fn start_access(&mut self, n: i32, addrs: &Vec<i32>, at: usize) -> (r: AccessStep)
        requires
            old(self)@.pending is None,
            cache_wf(old(self)@),
            start_ok(old(self)@, n, addrs@, at as int),
        ensures
            (final(self)@, r) == start_spec(old(self)@, n, addrs@, at as int),
    {
        let ghost s0 = self@;
        let found = find_first(&self.memory, n);
        match found {
            Some(i) => {
                self.hits = self.hits + 1;
                if self.policy == ReplacePolicy::Lru || self.policy == ReplacePolicy::Mru {
                    self.memory.remove(i);
                    self.memory.push(n);
                }
                touch(&mut self.refs, n, self.clockbits);
                return AccessStep::Done { hit: true, victim: -1 };
            },
            None => {
                self.misses = self.misses + 1;
            },
        }
        if self.count == self.cachesize {
            if self.policy == ReplacePolicy::Rand || self.policy == ReplacePolicy::Clock {
                self.pending = Some(n);
                return AccessStep::NeedRandom;
            }
            let i: i64 = match self.policy {
                ReplacePolicy::Mru => self.count as i64 - 1,
                ReplacePolicy::Opt => opt_index(&self.memory, self.count as usize, addrs, at, true),
                ReplacePolicy::Unopt => opt_index(&self.memory, self.count as usize, addrs, at, false),
                _ => 0,
            };
            let v = self.memory.remove(i as usize);
            self.memory.push(n);
            touch(&mut self.refs, n, self.clockbits);
            AccessStep::Done { hit: false, victim: v }
        } else {
            self.count = self.count + 1;
            self.memory.push(n);
            touch(&mut self.refs, n, self.clockbits);
            AccessStep::Done { hit: false, victim: -1 }
        }
    }

    /// Goes on with the random index `idx` (the random number scaled to the
    /// number of resident pages).
    pub fn feed_random(&mut self, idx: usize) -> (r: AccessStep)
        requires
            feed_ok(old(self)@, idx as int),
            cache_wf(old(self)@) || old(self)@.policy == ReplacePolicy::Rand,
        ensures
            (final(self)@, r) == feed_spec(old(self)@, idx as int),
    {
        let n = match self.pending {
            Some(p) => p,
            None => {
                return AccessStep::NeedRandom;
            },
        };
        let page = self.memory[idx];
        if self.policy == ReplacePolicy::Rand {
            self.memory.remove(idx);
            self.memory.push(n);
            touch(&mut self.refs, n, self.clockbits);
            self.pending = None;
            return AccessStep::Done { hit: false, victim: page };
        }
        assert(has_ref(self.refs@, self.memory@[idx as int]));
        proof {
            lemma_ref_index_bounds(self.refs@, page);
        }
        let k = match find_ref(&self.refs, page) {
            Some(k) => k,
            None => {
                return AccessStep::NeedRandom;
            },
        };
        let c = self.refs[k].1;
        if c >= 1 {
            self.refs.set(k, (page, c - 1));
            return AccessStep::NeedRandom;
        }
        if self.memory[0] == page {
            self.memory.remove(0);
        }
        self.memory.push(n);
        touch(&mut self.refs, n, self.clockbits);
        self.pending = None;
        AccessStep::Done { hit: false, victim: page }
    }
}

proof fn lemma_admit_wf(s: CacheState, n: i32, grew: bool)
    requires
        0 <= s.count,
        forall|i: int| 0 <= i < s.memory.len() ==> has_ref(s.refs, #[trigger] s.memory[i]),
        grew ==> s.count <= s.memory.len() && (s.policy != ReplacePolicy::Clock ==> s.memory.len() == s.count)
            && s.count < i32::MAX && (s.cachesize >= 0 ==> s.count < s.cachesize),
        !grew ==> s.count <= s.memory.len() + 1 && (s.policy != ReplacePolicy::Clock ==> s.memory.len() + 1 == s.count)
            && (s.cachesize >= 0 ==> s.count <= s.cachesize),
    ensures
        cache_wf(admit_spec(s, n, grew)),
        admit_spec(s, n, grew).memory.contains(n),
{
    let a = admit_spec(s, n, grew);
    assert forall|i: int| 0 <= i < a.memory.len() implies has_ref(a.refs, #[trigger] a.memory[i]) by {
        if i < s.memory.len() {
            assert(a.memory[i] == s.memory[i]);
            lemma_touch_keeps_refs(s.refs, n, s.clockbits, s.memory[i]);
        } else {
            lemma_touch_keeps_refs(s.refs, n, s.clockbits, n);
        }
    }
    assert(a.memory[a.memory.len() - 1] == n);
}

proof fn lemma_remove_refs(m: Seq<i32>, r: Seq<(i32, i32)>, i: int)
    requires
        0 <= i < m.len(),
        forall|k: int| 0 <= k < m.len() ==> has_ref(r, #[trigger] m[k]),
    ensures
        forall|k: int| 0 <= k < m.remove(i).len() ==> has_ref(r, #[trigger] m.remove(i)[k]),
{
    assert forall|k: int| 0 <= k < m.remove(i).len() implies has_ref(r, #[trigger] m.remove(i)[k]) by {
        if k < i {
            assert(m.remove(i)[k] == m[k]);
        } else {
            assert(m.remove(i)[k] == m[k + 1]);
        }
    }
}

/// An access keeps the cache's shape (see `cache_wf`); in particular the
/// policies other than CLOCK never hold more than `cachesize` pages. Where
/// the access is over, the page accessed is resident, and exactly one of
/// the hit and miss counters went up by one.
pub proof fn law_access_keeps_shape(s: CacheState, n: i32, addrs: Seq<i32>, at: int)
    requires
        cache_wf(s),
        s.pending is None,
        start_ok(s, n, addrs, at),
    ensures
        cache_wf(start_spec(s, n, addrs, at).0),
        start_spec(s, n, addrs, at).1 matches AccessStep::Done { .. } ==> start_spec(s, n, addrs, at).0.memory.contains(n),
        start_spec(s, n, addrs, at).0.hits + start_spec(s, n, addrs, at).0.misses == s.hits + s.misses + 1,
{
    let (s1, hit) = lookup_spec(s, n);
    lemma_first_index_bounds(s.memory, n);
    match first_index(s.memory, n) {
        Some(i) => {
            if s.policy == ReplacePolicy::Lru || s.policy == ReplacePolicy::Mru {
                lemma_remove_refs(s.memory, s.refs, i);
                let m = s.memory.remove(i).push(n);
                assert(m[m.len() - 1] == n);
                assert forall|k: int| 0 <= k < m.len() implies has_ref(s1.refs, #[trigger] m[k]) by {
                    if k < m.len() - 1 {
                        assert(m[k] == s.memory.remove(i)[k]);
                    } else {
                        assert(has_ref(s.refs, s.memory[i]));
                    }
                }
            } else {
                assert(s1.memory[i] == n);
            }
            let t = start_spec(s, n, addrs, at).0;
            assert forall|k: int| 0 <= k < t.memory.len() implies has_ref(t.refs, #[trigger] t.memory[k]) by {
                lemma_touch_keeps_refs(s1.refs, n, s1.clockbits, t.memory[k]);
            }
        },
        None => {
            if s1.count == s1.cachesize {
                if !is_random(s1.policy) {
                    let i = fixed_victim_index(s1, addrs, at);
                    lemma_remove_refs(s1.memory, s1.refs, i);
                    lemma_admit_wf(CacheState { memory: s1.memory.remove(i), ..s1 }, n, false);
                }
            } else {
                lemma_admit_wf(s1, n, true);
            }
        },
    }
}

proof fn lemma_remove_no_dup(m: Seq<i32>, i: int)
    requires
        0 <= i < m.len(),
        m.no_duplicates(),
    ensures
        m.remove(i).no_duplicates(),
        !m.remove(i).contains(m[i]),
        m.remove(i).to_set() == m.to_set().remove(m[i]),
{
    let r = m.remove(i);
    assert forall|a: int, b: int| 0 <= a < r.len() && 0 <= b < r.len() && a != b implies r[a] != r[b] by {
        let a1 = if a < i { a } else { a + 1 };
        let b1 = if b < i { b } else { b + 1 };
        assert(r[a] == m[a1]);
        assert(r[b] == m[b1]);
    }
    assert forall|k: int| 0 <= k < r.len() implies r[k] != m[i] by {
        let k1 = if k < i { k } else { k + 1 };
        assert(r[k] == m[k1]);
    }
    assert forall|x: i32| r.to_set().contains(x) == m.to_set().remove(m[i]).contains(x) by {
        if r.contains(x) {
            let k = choose|k: int| 0 <= k < r.len() && r[k] == x;
            let k1 = if k < i { k } else { k + 1 };
            assert(m[k1] == x);
        }
        if m.contains(x) && x != m[i] {
            let k = choose|k: int| 0 <= k < m.len() && m[k] == x;
            assert(k != i);
            if k < i {
                assert(r[k] == x);
            } else {
                assert(r[k - 1] == x);
            }
        }
    }
    assert(r.to_set() =~= m.to_set().remove(m[i]));
}

proof fn lemma_push_set(m: Seq<i32>, n: i32)
    requires
        m.no_duplicates(),
        !m.contains(n),
    ensures
        m.push(n).no_duplicates(),
        m.push(n).to_set() == m.to_set().insert(n),
{
    let p = m.push(n);
    assert forall|a: int, b: int| 0 <= a < p.len() && 0 <= b < p.len() && a != b implies p[a] != p[b] by {
        if a < m.len() && b < m.len() {
            assert(p[a] == m[a] && p[b] == m[b]);
        } else if a < m.len() {
            assert(p[a] == m[a]);
        } else {
            assert(p[b] == m[b]);
        }
    }
    assert forall|x: i32| p.to_set().contains(x) == m.to_set().insert(n).contains(x) by {
        if p.contains(x) {
            let k = choose|k: int| 0 <= k < p.len() && p[k] == x;
            if k < m.len() {
                assert(m[k] == x);
            }
        }
        if m.contains(x) {
            let k = choose|k: int| 0 <= k < m.len() && m[k] == x;
            assert(p[k] == x);
        }
        if x == n {
            assert(p[m.len() as int] == n);
        }
    }
    assert(p.to_set() =~= m.to_set().insert(n));
}

/// What one access does to the set of resident pages, where no page is
/// resident twice (so it stays): a hit leaves the set as it was; a miss
/// with room adds the page; a miss with a full cache under FIFO, LRU, MRU,
/// OPT or UNOPT evicts exactly one resident page, other than the one
/// accessed, which is then no longer resident, and adds the page.
pub proof fn law_hit_keeps_miss_evicts_one(s: CacheState, n: i32, addrs: Seq<i32>, at: int)
    requires
        cache_wf(s),
        s.pending is None,
        start_ok(s, n, addrs, at),
        s.memory.no_duplicates(),
    ensures
        ({
            let (t, st) = start_spec(s, n, addrs, at);
            &&& s.memory.contains(n) ==> st == (AccessStep::Done { hit: true, victim: -1i32 }) && t.memory.to_set() == s.memory.to_set()
                && t.memory.no_duplicates()
            &&& !s.memory.contains(n) && s.count != s.cachesize ==> st == (AccessStep::Done { hit: false, victim: -1i32 })
                && t.memory.to_set() == s.memory.to_set().insert(n) && t.memory.no_duplicates()
            &&& !s.memory.contains(n) && s.count == s.cachesize && !is_random(s.policy) ==> (st matches AccessStep::Done { hit: false, victim: v }
                && v != n && s.memory.contains(v) && !t.memory.contains(v) && t.memory.to_set() == s.memory.to_set().remove(v).insert(n)
                && t.memory.no_duplicates())
        }),
{
    lemma_first_index_bounds(s.memory, n);
    let (t, st) = start_spec(s, n, addrs, at);
    match first_index(s.memory, n) {
        Some(i) => {
            assert(s.memory.contains(n));
            if s.policy == ReplacePolicy::Lru || s.policy == ReplacePolicy::Mru {
                lemma_remove_no_dup(s.memory, i);
                lemma_push_set(s.memory.remove(i), n);
                assert(s.memory.to_set().remove(n).insert(n) =~= s.memory.to_set());
            }
        },
        None => {
            if s.count == s.cachesize {
                if !is_random(s.policy) {
                    let (s1, hit) = lookup_spec(s, n);
                    let i = fixed_victim_index(s1, addrs, at);
                    let v = s.memory[i];
                    lemma_remove_no_dup(s.memory, i);
                    assert(!s.memory.remove(i).contains(n)) by {
                        if s.memory.remove(i).contains(n) {
                            let k = choose|k: int| 0 <= k < s.memory.remove(i).len() && s.memory.remove(i)[k] == n;
                            let k1 = if k < i { k } else { k + 1 };
                            assert(s.memory[k1] == n);
                        }
                    }
                    lemma_push_set(s.memory.remove(i), n);
                    assert(s.memory.contains(v));
                    assert(t.memory == s.memory.remove(i).push(n));
                    assert(!t.memory.contains(v)) by {
                        if t.memory.contains(v) {
                            let k = choose|k: int| 0 <= k < t.memory.len() && t.memory[k] == v;
                            if k < s.memory.remove(i).len() {
                                assert(s.memory.remove(i)[k] == v);
                            }
                        }
                    }
                }
            } else {
                lemma_push_set(s.memory, n);
            }
        },
    }
}

/// The victim of a miss with a full cache under the fixed policies: FIFO
/// evicts the page that came in first and LRU the least recently used one
/// (both at the front of memory), MRU the most recently used one (at the
/// back of memory, `memory[count - 1]`). The page evicted leaves memory,
/// the page accessed joins it at the back, and the miss is counted.
pub proof fn law_fixed_victims(s: CacheState, n: i32, addrs: Seq<i32>, at: int)
    requires
        cache_wf(s),
        s.pending is None,
        start_ok(s, n, addrs, at),
        !s.memory.contains(n),
        s.count == s.cachesize,
        s.policy == ReplacePolicy::Fifo || s.policy == ReplacePolicy::Lru || s.policy == ReplacePolicy::Mru,
    ensures
        ({
            let (t, st) = start_spec(s, n, addrs, at);
            let i = if s.policy == ReplacePolicy::Mru { s.count - 1 } else { 0 };
            &&& 0 <= i < s.memory.len()
            &&& st == (AccessStep::Done { hit: false, victim: s.memory[i] })
            &&& t.memory == s.memory.remove(i).push(n)
            &&& t.misses == s.misses + 1
            &&& t.hits == s.hits
        }),
{
    lemma_first_index_bounds(s.memory, n);
}

/// Under LRU and MRU the back of memory is the page used last: after any
/// access the page accessed is the last one in memory; a hit moves it there
/// from its place and keeps the other pages in their order.
pub proof fn law_recent_at_back(s: CacheState, n: i32, addrs: Seq<i32>, at: int)
    requires
        cache_wf(s),
        s.pending is None,
        start_ok(s, n, addrs, at),
        s.policy == ReplacePolicy::Lru || s.policy == ReplacePolicy::Mru,
    ensures
        ({
            let (t, st) = start_spec(s, n, addrs, at);
            &&& t.memory.len() > 0 && t.memory.last() == n
            &&& (forall|i: int| 0 <= i < s.memory.len() && s.memory[i] == n && (forall|k: int| 0 <= k < i ==> s.memory[k] != n)
                ==> t.memory == s.memory.remove(i).push(n) && st == (AccessStep::Done { hit: true, victim: -1i32 }))
        }),
{
    lemma_first_index_bounds(s.memory, n);
    lemma_first_index_is_first(s.memory, n);
}

proof fn lemma_first_index_is_first(m: Seq<i32>, n: i32)
    ensures
        forall|i: int| 0 <= i < m.len() && m[i] == n && (forall|k: int| 0 <= k < i ==> m[k] != n) ==> first_index(m, n) == Some(i),
    decreases m.len(),
{
    if m.len() > 0 {
        lemma_first_index_is_first(m.drop_last(), n);
        lemma_first_index_bounds(m.drop_last(), n);
        assert forall|i: int| 0 <= i < m.len() && m[i] == n && (forall|k: int| 0 <= k < i ==> m[k] != n) implies first_index(m, n) == Some(i) by {
            if i < m.len() - 1 {
                assert(m.drop_last()[i] == n);
                assert forall|k: int| 0 <= k < i implies m.drop_last()[k] != n by {
                    assert(m.drop_last()[k] == m[k]);
                }
            } else {
                assert forall|k: int| 0 <= k < m.drop_last().len() implies m.drop_last()[k] != n by {
                    assert(m.drop_last()[k] == m[k]);
                }
                assert(!m.drop_last().contains(n));
            }
        }
    }
}

/// The rest of one access: a miss with room adds the page at the back of
/// memory and counts one more page; a hit is counted and (but under LRU
/// and MRU) leaves memory as it was; a miss with a full cache under RAND or
/// CLOCK asks for a random index and changes only the miss count.
pub proof fn law_access_cases(s: CacheState, n: i32, addrs: Seq<i32>, at: int)
    requires
        cache_wf(s),
        s.pending is None,
        start_ok(s, n, addrs, at),
    ensures
        ({
            let (t, st) = start_spec(s, n, addrs, at);
            &&& !s.memory.contains(n) && s.count != s.cachesize ==> st == (AccessStep::Done { hit: false, victim: -1i32 })
                && t.memory == s.memory.push(n) && t.count == s.count + 1 && t.misses == s.misses + 1
            &&& s.memory.contains(n) ==> st == (AccessStep::Done { hit: true, victim: -1i32 }) && t.hits == s.hits + 1
                && t.misses == s.misses && t.count == s.count
            &&& s.memory.contains(n) && s.policy != ReplacePolicy::Lru && s.policy != ReplacePolicy::Mru ==> t.memory == s.memory
            &&& !s.memory.contains(n) && s.count == s.cachesize && is_random(s.policy) ==> st == AccessStep::NeedRandom
                && t.memory == s.memory && t.pending == Some(n) && t.misses == s.misses + 1
        }),
{
    lemma_first_index_bounds(s.memory, n);
}

/// RAND evicts the page at the index drawn and brings the page in at the
/// back; CLOCK lowers the counter of the page at the index drawn where it is
/// positive (asking for another index, memory unchanged), and otherwise
/// evicts that page (dropping it from memory where it is the front one)
/// and brings the page in at the back.
pub proof fn law_random_victims(s: CacheState, idx: int)
    requires
        feed_ok(s, idx),
        cache_wf(s),
    ensures
        ({
            let (t, st) = feed_spec(s, idx);
            let n = s.pending->0;
            let page = s.memory[idx];
            &&& s.policy == ReplacePolicy::Rand ==> st == (AccessStep::Done { hit: false, victim: page })
                && t.memory == s.memory.remove(idx).push(n) && t.pending is None
            &&& s.policy == ReplacePolicy::Clock && s.refs[ref_index(s.refs, page)->0].1 >= 1 ==> st == AccessStep::NeedRandom
                && t.memory == s.memory && t.refs[ref_index(s.refs, page)->0].1 == s.refs[ref_index(s.refs, page)->0].1 - 1
            &&& s.policy == ReplacePolicy::Clock && s.refs[ref_index(s.refs, page)->0].1 < 1 ==> st == (AccessStep::Done { hit: false, victim: page })
                && t.memory == (if s.memory[0] == page { s.memory.remove(0) } else { s.memory }).push(n) && t.pending is None
        }),
{
    let page = s.memory[idx];
    assert(has_ref(s.refs, page));
    lemma_ref_index_bounds(s.refs, page);
}

/// The cache after the first `k` accesses of the reference list `addrs`,
/// for a policy that never asks for a random index.
pub open spec fn run_fixed(s: CacheState, addrs: Seq<i32>, k: nat) -> CacheState
    decreases k,
{
    if k == 0 {
        s
    } else {
        let t = run_fixed(s, addrs, (k - 1) as nat);
        start_spec(t, addrs[k - 1], addrs, k - 1).0
    }
}

/// Each of the first `k` accesses runs without a panic.
pub open spec fn run_fixed_ok(s: CacheState, addrs: Seq<i32>, k: nat) -> bool
    decreases k,
{
    k == 0 || (run_fixed_ok(s, addrs, (k - 1) as nat) && start_ok(run_fixed(s, addrs, (k - 1) as nat), addrs[k - 1], addrs, k - 1))
}

/// Over a run of `k` accesses under FIFO, LRU, MRU, OPT or UNOPT, every
/// access is counted exactly once, as a hit or as a miss, the cache keeps
/// its shape (no page resident twice, where none was at the start), and
/// the page accessed last is resident.
pub proof fn law_run_counts(s: CacheState, addrs: Seq<i32>, k: nat)
    requires
        cache_wf(s),
        s.pending is None,
        !is_random(s.policy),
        k <= addrs.len(),
        run_fixed_ok(s, addrs, k),
    ensures
        s.memory.no_duplicates() ==> run_fixed(s, addrs, k).memory.no_duplicates(),
        cache_wf(run_fixed(s, addrs, k)),
        run_fixed(s, addrs, k).pending is None,
        run_fixed(s, addrs, k).policy == s.policy,
        run_fixed(s, addrs, k).hits + run_fixed(s, addrs, k).misses == s.hits + s.misses + k,
        k > 0 ==> run_fixed(s, addrs, k).memory.contains(addrs[k - 1]),
    decreases k,
{
    if k > 0 {
        law_run_counts(s, addrs, (k - 1) as nat);
        let t = run_fixed(s, addrs, (k - 1) as nat);
        law_access_keeps_shape(t, addrs[k - 1], addrs, k - 1);
        if s.memory.no_duplicates() {
            law_hit_keeps_miss_evicts_one(t, addrs[k - 1], addrs, k - 1);
        }
    }
}

/// Feeding a random index keeps the cache's shape; where the access is
/// over, the page accessed is resident.
pub proof fn law_feed_keeps_shape(s: CacheState, idx: int)
    requires
        cache_wf(s),
        feed_ok(s, idx),
        s.policy == ReplacePolicy::Rand ==> s.count == s.memory.len(),
    ensures
        cache_wf(feed_spec(s, idx).0),
        feed_spec(s, idx).1 matches AccessStep::Done { .. } ==> feed_spec(s, idx).0.memory.contains(s.pending->0),
{
    let n = s.pending->0;
    let page = s.memory[idx];
    if s.policy == ReplacePolicy::Rand {
        lemma_remove_refs(s.memory, s.refs, idx);
        lemma_admit_wf(CacheState { memory: s.memory.remove(idx), ..s }, n, false);
    } else {
        lemma_ref_index_bounds(s.refs, page);
        let k = ref_index(s.refs, page)->0;
        if s.refs[k].1 >= 1 {
            let t = feed_spec(s, idx).0;
            assert forall|i: int| 0 <= i < t.memory.len() implies has_ref(t.refs, #[trigger] t.memory[i]) by {
                lemma_ref_index_update(s.refs, k, (s.refs[k].1 - 1) as i32, t.memory[i]);
            }
        } else {
            if s.memory[0] == page {
                lemma_remove_refs(s.memory, s.refs, 0);
                lemma_admit_wf(CacheState { memory: s.memory.remove(0), ..s }, n, false);
            } else {
                lemma_admit_wf(s, n, false);
            }
        }
    }
}

proof fn lemma_opt_pick(mem: Seq<i32>, addrs: Seq<i32>, at: int, k: int)
    requires
        0 <= k <= mem.len(),
        0 <= at < addrs.len(),
    ensures
        k > 0 ==> 0 <= opt_pick(mem, addrs, at, k).0 < k,
        k > 0 ==> opt_pick(mem, addrs, at, k).1 == next_use(addrs, at, mem[opt_pick(mem, addrs, at, k).0]),
        forall|j: int| 0 <= j < k ==> next_use(addrs, at, #[trigger] mem[j]) <= opt_pick(mem, addrs, at, k).1,
        k > 0 ==> 0 < opt_pick(mem, addrs, at, k).1,
    decreases k,
{
    if k > 0 {
        lemma_opt_pick(mem, addrs, at, k - 1);
        lemma_next_use_after(addrs, at, mem[k - 1]);
        if k == 1 {
            assert(opt_pick(mem, addrs, at, 0) == (-1int, 0int));
        }
    }
}

proof fn lemma_unopt_pick(mem: Seq<i32>, addrs: Seq<i32>, at: int, k: int)
    requires
        0 <= k <= mem.len(),
        0 <= at < addrs.len(),
    ensures
        k > 0 ==> 0 <= unopt_pick(mem, addrs, at, k).0 < k,
        k > 0 ==> unopt_pick(mem, addrs, at, k).1 == next_use(addrs, at, mem[unopt_pick(mem, addrs, at, k).0]),
        forall|j: int| 0 <= j < k ==> unopt_pick(mem, addrs, at, k).1 <= next_use(addrs, at, #[trigger] mem[j]),
        k == 0 ==> unopt_pick(mem, addrs, at, k).1 == addrs.len() + 1,
    decreases k,
{
    if k > 0 {
        lemma_unopt_pick(mem, addrs, at, k - 1);
        lemma_next_use_after(addrs, at, mem[k - 1]);
        if k == 1 {
            assert(unopt_pick(mem, addrs, at, 0) == (-1int, addrs.len() + 1int));
        }
    }
}

proof fn lemma_next_use_after(addrs: Seq<i32>, at: int, page: i32)
    requires
        0 <= at < addrs.len(),
    ensures
        at < next_use(addrs, at, page) <= addrs.len(),
{
    lemma_first_index_bounds(addrs.subrange(at + 1, addrs.len() as int), page);
}

/// OPT evicts a resident page whose next use comes no earlier than that of
/// any other resident page; UNOPT one whose next use comes no later.
pub proof fn law_opt_victims(s: CacheState, addrs: Seq<i32>, at: int)
    requires
        0 < s.count <= s.memory.len(),
        0 <= at < addrs.len(),
    ensures
        s.policy == ReplacePolicy::Opt ==> ({
            let i = fixed_victim_index(s, addrs, at);
            &&& 0 <= i < s.count
            &&& forall|j: int| 0 <= j < s.count ==> next_use(addrs, at, #[trigger] s.memory[j]) <= next_use(addrs, at, s.memory[i])
        }),
        s.policy == ReplacePolicy::Unopt ==> ({
            let i = fixed_victim_index(s, addrs, at);
            &&& 0 <= i < s.count
            &&& forall|j: int| 0 <= j < s.count ==> next_use(addrs, at, s.memory[i]) <= next_use(addrs, at, #[trigger] s.memory[j])
        }),
{
    lemma_opt_pick(s.memory, addrs, at, s.count as int);
    lemma_unopt_pick(s.memory, addrs, at, s.count as int);
}

impl PageCache {
    /// Whether an access to `n` (the `at`-th of `addrs`) would panic (see
    /// `start_ok`).
    pub fn start_fails(&self, n: i32, addrs: &Vec<i32>, at: usize) -> (r: bool)
        requires
            cache_wf(self@),
        ensures
            r == !start_ok(self@, n, addrs@, at as int),
    {
        if self.hits == i32::MAX || self.misses == i32::MAX {
            return true;
        }
        if at >= addrs.len() || addrs.len() >= 2147483647 {
            return true;
        }
        match find_ref(&self.refs, n) {
            Some(k) => {
                if self.refs[k].1 == i32::MAX {
                    return true;
                }
            },
            None => {},
        }
        let found = find_first(&self.memory, n);
        if found.is_some() {
            return false;
        }
        if self.count == self.cachesize {
            if self.policy == ReplacePolicy::Rand || self.policy == ReplacePolicy::Clock {
                return false;
            }
            let i: i64 = match self.policy {
                ReplacePolicy::Mru => self.count as i64 - 1,
                ReplacePolicy::Opt => opt_index(&self.memory, self.count as usize, addrs, at, true),
                ReplacePolicy::Unopt => opt_index(&self.memory, self.count as usize, addrs, at, false),
                _ => 0,
            };
            !(0 <= i && i < self.memory.len() as i64)
        } else {
            self.count == i32::MAX
        }
    }

    /// Whether feeding the random index `idx` would panic (see `feed_ok`).
    pub fn feed_fails(&self, idx: usize) -> (r: bool)
        ensures
            r == !feed_ok(self@, idx as int),
    {
        let n = match self.pending {
            Some(p) => p,
            None => {
                return true;
            },
        };
        if !(self.policy == ReplacePolicy::Rand || self.policy == ReplacePolicy::Clock) {
            return true;
        }
        if idx >= self.memory.len() {
            return true;
        }
        match find_ref(&self.refs, n) {
            Some(k) => self.refs[k].1 == i32::MAX,
            None => false,
        }
    }
}

} // verus!
