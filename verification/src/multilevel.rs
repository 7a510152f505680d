//! Two-level page tables on a tiny machine: 32-byte pages, 128 physical
//! pages and a 15-bit virtual address split into a 5-bit page-directory
//! index, a 5-bit page-table index and a 5-bit offset. An entry holds a
//! valid bit (0x80) and a 7-bit page frame number.

use vstd::prelude::*;
use std::collections::HashMap;

verus! {

broadcast use vstd::std_specs::hash::group_hash_axioms;

pub const PAGE_SIZE: i32 = 32;
pub const PAGE_BITS: i32 = 5;
pub const PHYS_PAGES: i32 = 128;
pub const PHYS_MEM: i32 = 4096;
pub const VA_PAGES: i32 = 1024;
pub const PDE_MASK: u32 = 0x7c00;
pub const PDE_SHIFT: u32 = 10;
pub const PTE_MASK: u32 = 0x03e0;
pub const PTE_SHIFT: u32 = 5;
pub const OFFSET_MASK: u32 = 0x1f;
/// What every entry of a fresh page directory or page table holds.
pub const BLANK_ENTRY: i32 = 0x7f;

pub open spec fn pde_index(va: u32) -> u32 {
    (va & PDE_MASK) >> PDE_SHIFT
}

pub open spec fn pte_index(va: u32) -> u32 {
    (va & PTE_MASK) >> PTE_SHIFT
}

pub open spec fn page_offset(va: u32) -> u32 {
    va & OFFSET_MASK
}

/// The valid bit of an entry, 0 or 1.
pub open spec fn entry_valid(e: i32) -> i32 {
    (e & 0x80) >> 7
}

/// The page frame number of an entry.
pub open spec fn entry_frame(e: i32) -> i32 {
    e & 0x7f
}

/// The address of entry `index` of the table in page `page`.
pub open spec fn entry_addr(page: i32, index: u32) -> int {
    page * 32 + index
}

/// What a process whose page directory is page `dir` reaches at `va`: the
/// physical address, -1 where the directory entry is not valid, -2 where
/// the page-table entry is not valid.
pub open spec fn translate_spec(mem: Seq<i32>, dir: i32, va: u32) -> int {
    let pde = mem[entry_addr(dir, pde_index(va))];
    if entry_valid(pde) != 1 {
        -1
    } else {
        let pte = mem[entry_addr(entry_frame(pde), pte_index(va))];
        if entry_valid(pte) != 1 {
            -2
        } else {
            entry_frame(pte) * 32 + page_offset(va)
        }
    }
}

pub proof fn lemma_entry_bits(e: i32)
    ensures
        entry_valid(e) == 0 || entry_valid(e) == 1,
        0 <= entry_frame(e) < 128,
{
    assert(((e & 0x80) >> 7) == 0 || ((e & 0x80) >> 7) == 1) by (bit_vector);
    assert(0 <= (e & 0x7f) < 128) by (bit_vector);
}

pub proof fn lemma_make_entry(p: i32)
    requires
        0 <= p < 128,
    ensures
        entry_valid(0x80 | p) == 1,
        entry_frame(0x80 | p) == p,
{
    assert(((((0x80 | p) & 0x80) >> 7) == 1) && ((0x80 | p) & 0x7f) == p) by (bit_vector)
        requires
            0 <= p < 128,
    ;
}

pub proof fn lemma_blank_entry()
    ensures
        entry_valid(BLANK_ENTRY) == 0,
        entry_frame(BLANK_ENTRY) == 127,
{
    assert((((0x7fi32 & 0x80) >> 7) == 0) && (0x7fi32 & 0x7f) == 127) by (bit_vector);
}

pub proof fn lemma_index_bits(va: u32)
    ensures
        pde_index(va) < 32,
        pte_index(va) < 32,
        page_offset(va) < 32,
{
    assert(((va & 0x7c00u32) >> 10u32) < 32 && ((va & 0x3e0u32) >> 5u32) < 32 && (va & 0x1fu32) < 32) by (bit_vector);
}

pub proof fn lemma_page_addr(p: i32, x: i32)
    requires
        0 <= p < 128,
        0 <= x < 32,
    ensures
        (p << 5) | x == p * 32 + x,
{
    assert((p << 5) | x == p * 32 + x) by (bit_vector)
        requires
            0 <= p < 128,
            0 <= x < 32,
    ;
}

/// The address of offset `off` in virtual page `vp`, split back into its
/// parts: the directory index is `vp / 32`, the table index `vp % 32`.
pub proof fn lemma_split_address(vp: u32, off: u32)
    requires
        vp < 1024,
        off < 32,
    ensures
        pde_index((vp << 5) | off) == vp / 32,
        pte_index((vp << 5) | off) == vp % 32,
        page_offset((vp << 5) | off) == off,
{
    assert(((((vp << 5u32) | off) & 0x7c00u32) >> 10u32) == vp / 32 && ((((vp << 5u32) | off) & 0x3e0u32) >> 5u32)
        == vp % 32 && (((vp << 5u32) | off) & 0x1fu32) == off) by (bit_vector)
        requires
            vp < 1024,
            off < 32,
    ;
}

/// The machine's memory, which pages are in use, and each process's page
/// directory.
pub struct OS {
    pub memory: Vec<i32>,
    pub used_pages: Vec<i32>,
    pub used_pages_count: i32,
    pub pdbr: HashMap<i32, i32>,
}

pub struct OsState {
    pub memory: Seq<i32>,
    pub used: Seq<i32>,
    pub count: int,
    pub pdbr: Map<i32, i32>,
}

impl View for OS {
    type V = OsState;

    open spec fn view(&self) -> OsState {
        OsState { memory: self.memory@, used: self.used_pages@, count: self.used_pages_count as int, pdbr: self.pdbr@ }
    }
}

pub open spec fn os_wf(s: OsState) -> bool {
    &&& s.memory.len() == 4096
    &&& s.used.len() == 128
    &&& s.count == ones(s.used)
    &&& forall|p: i32| #[trigger] s.pdbr.contains_key(p) ==> 0 <= s.pdbr[p] < 128
}

/// How many entries of `s` are 1.
pub open spec fn ones(s: Seq<i32>) -> int
    decreases s.len(),
{
    if s.len() == 0 {
        0
    } else {
        ones(s.drop_last()) + if s.last() == 1 {
            1int
        } else {
            0int
        }
    }
}

pub proof fn lemma_ones_bound(s: Seq<i32>)
    ensures
        0 <= ones(s) <= s.len(),
    decreases s.len(),
{
    if s.len() > 0 {
        lemma_ones_bound(s.drop_last());
    }
}

pub proof fn lemma_ones_update(s: Seq<i32>, i: int, v: i32)
    requires
        0 <= i < s.len(),
    ensures
        ones(s.update(i, v)) == ones(s) - (if s[i] == 1 { 1int } else { 0int }) + (if v == 1 { 1int } else { 0int }),
    decreases s.len(),
{
    let t = s.update(i, v);
    if i == s.len() - 1 {
        assert(t.drop_last() =~= s.drop_last());
    } else {
        assert(t.drop_last() =~= s.drop_last().update(i, v));
        lemma_ones_update(s.drop_last(), i, v);
    }
}

pub proof fn lemma_ones_zero(s: Seq<i32>)
    requires
        forall|i: int| 0 <= i < s.len() ==> s[i] == 0,
    ensures
        ones(s) == 0,
    decreases s.len(),
{
    if s.len() > 0 {
        lemma_ones_zero(s.drop_last());
    }
}

/// `mem` with the 32 entries of page `page` blank.
pub open spec fn blank_page(mem: Seq<i32>, page: i32) -> Seq<i32> {
    Seq::new(mem.len(), |i: int| if page * 32 <= i < page * 32 + 32 { BLANK_ENTRY } else { mem[i] })
}

/// Whether `alloc_virtual_page` goes through: a missing page table is
/// given `table_page`, and the page-table entry must still be blank.
pub open spec fn alloc_ok(s: OsState, pid: i32, vp: u32, table_page: i32) -> bool {
    let va = vp << 5;
    let dir = s.pdbr[pid];
    let pde = s.memory[entry_addr(dir, pde_index(va))];
    let pt = if entry_valid(pde) == 0 { table_page } else { entry_frame(pde) };
    let mem1 = if entry_valid(pde) == 0 { blank_page(s.memory.update(entry_addr(dir, pde_index(va)), 0x80 | table_page), table_page) } else { s.memory };
    &&& s.pdbr.contains_key(pid)
    &&& entry_valid(pde) == 0 ==> entry_frame(pde) == 127 && 0 <= table_page < 128
    &&& entry_valid(mem1[entry_addr(pt, pte_index(va))]) == 0
    &&& entry_frame(mem1[entry_addr(pt, pte_index(va))]) == 127
}

/// The memory after `alloc_virtual_page`: a blank page table in
/// `table_page` entered in the directory where there was none, then the
/// page-table entry pointing at `pp`.
pub open spec fn alloc_spec(s: OsState, pid: i32, vp: u32, pp: i32, table_page: i32) -> Seq<i32> {
    let va = vp << 5;
    let dir = s.pdbr[pid];
    let pde = s.memory[entry_addr(dir, pde_index(va))];
    let pt = if entry_valid(pde) == 0 { table_page } else { entry_frame(pde) };
    let mem1 = if entry_valid(pde) == 0 { blank_page(s.memory.update(entry_addr(dir, pde_index(va)), 0x80 | table_page), table_page) } else { s.memory };
    mem1.update(entry_addr(pt, pte_index(va)), 0x80 | pp)
}

impl OS {
    pub open spec fn wf(&self) -> bool {
        os_wf(self@)
    }

    /// A machine with all memory zero, no page in use and no process.
    pub fn new() -> (os: OS)
        ensures
            os.wf(),
            forall|i: int| 0 <= i < 4096 ==> os@.memory[i] == 0,
            forall|i: int| 0 <= i < 128 ==> os@.used[i] == 0,
            os@.count == 0,
            os@.pdbr == Map::<i32, i32>::empty(),
    {
        let os = OS { memory: vec![0; 4096], used_pages: vec![0; 128], used_pages_count: 0, pdbr: HashMap::new() };
        proof {
            lemma_ones_zero(os.used_pages@);
        }
        os
    }

    /// Takes page `look` if it is free: `true` and the page marked used, or
    /// `false` and nothing changed.
    pub fn claim_page(&mut self, look: usize) -> (r: bool)
        requires
            old(self).wf(),
            look < 128,
        ensures
            final(self).wf(),
            r == (old(self)@.used[look as int] != 1),
            r ==> final(self)@ == (OsState { used: old(self)@.used.update(look as int, 1), count: old(self)@.count + 1, ..old(self)@ }),
            !r ==> final(self)@ == old(self)@,
    {
        if self.used_pages[look] == 1 {
            return false;
        }
        proof {
            lemma_ones_bound(self.used_pages@);
            lemma_ones_update(self.used_pages@, look as int, 1);
        }
        self.used_pages_count = self.used_pages_count + 1;
        self.used_pages.set(look, 1);
        true
    }
}

impl OS {
    /// Makes page `which_page` a blank page directory or page table.
    pub fn init_page_dir(&mut self, which_page: i32)
        requires
            old(self).wf(),
            0 <= which_page < 128,
        ensures
            final(self).wf(),
            final(self)@ == (OsState { memory: blank_page(old(self)@.memory, which_page), ..old(self)@ }),
    {
        let start: usize = (which_page as usize) * 32;
        let mut i: usize = start;
        while i < start + 32
            invariant
                start == which_page * 32,
                0 <= which_page < 128,
                start <= i <= start + 32,
                self.memory@.len() == 4096,
                self.used_pages@ == old(self).used_pages@,
                self.used_pages_count == old(self).used_pages_count,
                self.pdbr@ == old(self).pdbr@,
                forall|k: int| 0 <= k < 4096 ==> self.memory@[k] == (if start <= k < i { BLANK_ENTRY } else { old(self).memory@[k] }),
            decreases start + 32 - i,
        {
            self.memory.set(i, BLANK_ENTRY);
            i = i + 1;
        }
        assert(self.memory@ =~= blank_page(old(self)@.memory, which_page));
    }

    pub fn init_page_table_page(&mut self, which_page: i32)
        requires
            old(self).wf(),
            0 <= which_page < 128,
        ensures
            final(self).wf(),
            final(self)@ == (OsState { memory: blank_page(old(self)@.memory, which_page), ..old(self)@ }),
    {
        self.init_page_dir(which_page);
    }

    /// Gives process `pid` page `page_dir` as its page directory, blank.
    pub fn install_page_dir(&mut self, pid: i32, page_dir: i32)
        requires
            old(self).wf(),
            0 <= page_dir < 128,
        ensures
            final(self).wf(),
            final(self)@ == (OsState {
                memory: blank_page(old(self)@.memory, page_dir),
                pdbr: old(self)@.pdbr.insert(pid, page_dir),
                ..old(self)@
            }),
    {
        self.pdbr.insert(pid, page_dir);
        self.init_page_dir(page_dir);
    }

    /// The page directory of `pid`.
    pub fn get_pdbr(&self, pid: i32) -> (d: i32)
        requires
            self@.pdbr.contains_key(pid),
        ensures
            d == self@.pdbr[pid],
    {
        *self.pdbr.get(&pid).unwrap()
    }

    pub fn get_value(&self, addr: usize) -> (v: i32)
        requires
            self.wf(),
            addr < 4096,
        ensures
            v == self@.memory[addr as int],
    {
        self.memory[addr]
    }

    /// The page-table entry for `virtual_addr` in the table in page
    /// `pte_page`: its valid bit, its frame and its address.
    pub fn get_page_table_entry(&self, virtual_addr: u32, pte_page: i32) -> (r: (i32, i32, usize))
        requires
            self.wf(),
            0 <= pte_page < 128,
        ensures
            r.2 == entry_addr(pte_page, pte_index(virtual_addr)),
            r.2 < 4096,
            r.0 == entry_valid(self@.memory[r.2 as int]),
            r.1 == entry_frame(self@.memory[r.2 as int]),
    {
        let pte_bits = (virtual_addr & PTE_MASK) >> PTE_SHIFT;
        proof {
            lemma_index_bits(virtual_addr);
            lemma_page_addr(pte_page, pte_bits as i32);
        }
        let pte_addr = ((pte_page << 5) | pte_bits as i32) as usize;
        let pte = self.memory[pte_addr];
        ((pte & 0x80) >> 7, pte & 0x7f, pte_addr)
    }

    /// The page-directory entry for `virtual_addr` of process `pid`: its
    /// valid bit, the page of its page table and its address.
    pub fn get_page_dir_entry(&self, pid: i32, virtual_addr: u32) -> (r: (i32, i32, usize))
        requires
            self.wf(),
            self@.pdbr.contains_key(pid),
        ensures
            r.2 == entry_addr(self@.pdbr[pid], pde_index(virtual_addr)),
            r.2 < 4096,
            r.0 == entry_valid(self@.memory[r.2 as int]),
            r.1 == entry_frame(self@.memory[r.2 as int]),
    {
        let page_dir = self.get_pdbr(pid);
        let pde_bits = (virtual_addr & PDE_MASK) >> PDE_SHIFT;
        proof {
            lemma_index_bits(virtual_addr);
            lemma_page_addr(page_dir, pde_bits as i32);
        }
        let pde_addr = ((page_dir << 5) | pde_bits as i32) as usize;
        let pde = self.memory[pde_addr];
        ((pde & 0x80) >> 7, pde & 0x7f, pde_addr)
    }

    pub fn set_page_table_entry(&mut self, pte_addr: usize, physical_page: i32)
        requires
            old(self).wf(),
            pte_addr < 4096,
        ensures
            final(self).wf(),
            final(self)@ == (OsState { memory: old(self)@.memory.update(pte_addr as int, 0x80 | physical_page), ..old(self)@ }),
    {
        self.memory.set(pte_addr, 0x80 | physical_page);
    }

    pub fn set_page_dir_entry(&mut self, pde_addr: usize, physical_page: i32)
        requires
            old(self).wf(),
            pde_addr < 4096,
        ensures
            final(self).wf(),
            final(self)@ == (OsState { memory: old(self)@.memory.update(pde_addr as int, 0x80 | physical_page), ..old(self)@ }),
    {
        self.memory.set(pde_addr, 0x80 | physical_page);
    }

    /// Maps virtual page `vp` of `pid` to physical page `pp`; where the
    /// directory has no page table for it yet, `table_page` becomes one.
    pub fn alloc_virtual_page(&mut self, pid: i32, virtual_page: u32, physical_page: i32, table_page: i32)
        requires
            old(self).wf(),
            alloc_ok(old(self)@, pid, virtual_page, table_page),
        ensures
            final(self).wf(),
            final(self)@ == (OsState { memory: alloc_spec(old(self)@, pid, virtual_page, physical_page, table_page), ..old(self)@ }),
    {
        let virtual_addr = virtual_page << 5;
        let (valid, pt_ptr, pde_addr) = self.get_page_dir_entry(pid, virtual_addr);
        proof {
            lemma_entry_bits(self@.memory[pde_addr as int]);
        }
        let pte_page = if valid == 0 {
            self.set_page_dir_entry(pde_addr, table_page);
            self.init_page_table_page(table_page);
            table_page
        } else {
            pt_ptr
        };
        let (_v, _pfn, pte_addr) = self.get_page_table_entry(virtual_addr, pte_page);
        self.set_page_table_entry(pte_addr, physical_page);
    }

    /// The physical address that `virtual_addr` of `pid` reaches, -1 where
    /// its directory entry is not valid, -2 where its page-table entry is
    /// not valid.
    pub fn translate(&self, pid: i32, virtual_addr: u32) -> (r: i32)
        requires
            self.wf(),
            self@.pdbr.contains_key(pid),
        ensures
            r == translate_spec(self@.memory, self@.pdbr[pid], virtual_addr),
    {
        let (valid, pt_ptr, _pde_addr) = self.get_page_dir_entry(pid, virtual_addr);
        if valid == 1 {
            proof {
                lemma_entry_bits(self@.memory[_pde_addr as int]);
            }
            let (valid2, pfn, _pte_addr) = self.get_page_table_entry(virtual_addr, pt_ptr);
            if valid2 == 1 {
                proof {
                    lemma_entry_bits(self@.memory[_pte_addr as int]);
                    lemma_index_bits(virtual_addr);
                    lemma_page_addr(pfn, (virtual_addr & OFFSET_MASK) as i32);
                }
                let offset = (virtual_addr & OFFSET_MASK) as i32;
                return (pfn << 5) | offset;
            } else {
                return -2;
            }
        }
        -1
    }

    /// Writes `values` into the 32 bytes of page `which_page`.
    pub fn fill_page(&mut self, which_page: usize, values: &Vec<i32>)
        requires
            old(self).wf(),
            which_page < 128,
            values@.len() == 32,
        ensures
            final(self).wf(),
            final(self)@ == (OsState {
                memory: Seq::new(4096, |i: int| if which_page * 32 <= i < which_page * 32 + 32 { values@[i - which_page * 32] } else { old(self)@.memory[i] }),
                ..old(self)@
            }),
    {
        let start = which_page * 32;
        let mut j: usize = 0;
        while j < 32
            invariant
                start == which_page * 32,
                which_page < 128,
                j <= 32,
                values@.len() == 32,
                self.memory@.len() == 4096,
                self.used_pages@ == old(self).used_pages@,
                self.used_pages_count == old(self).used_pages_count,
                self.pdbr@ == old(self).pdbr@,
                forall|k: int| 0 <= k < 4096 ==> self.memory@[k] == (if start <= k < start + j { values@[k - start] } else { old(self).memory@[k] }),
            decreases 32 - j,
        {
            self.memory.set(start + j, values[j]);
            j = j + 1;
        }
        assert(self.memory@ =~= Seq::new(4096, |i: int| if which_page * 32 <= i < which_page * 32 + 32 { values@[i - which_page * 32] } else { old(self)@.memory[i] }));
    }
}

/// After virtual page `vp` of a process is mapped to physical page `pp`,
/// every address in that virtual page translates to the same offset in `pp`
/// (where a new page table was needed, it is a page other than the
/// directory, as a free page is).
pub proof fn law_alloc_translate(s: OsState, pid: i32, vp: u32, pp: i32, table_page: i32, off: u32)
    requires
        os_wf(s),
        alloc_ok(s, pid, vp, table_page),
        vp < 1024,
        off < 32,
        0 <= pp < 128,
        entry_valid(s.memory[entry_addr(s.pdbr[pid], pde_index(vp << 5))]) == 0 ==> table_page != s.pdbr[pid],
    ensures
        translate_spec(alloc_spec(s, pid, vp, pp, table_page), s.pdbr[pid], (vp << 5) | off) == pp * 32 + off,
{
    let va = vp << 5;
    let va2 = (vp << 5) | off;
    let dir = s.pdbr[pid];
    lemma_split_address(vp, off);
    lemma_split_address(vp, 0);
    assert((vp << 5u32) | 0u32 == vp << 5u32) by (bit_vector);
    lemma_index_bits(va);
    let pde_a = entry_addr(dir, pde_index(va));
    let pde = s.memory[pde_a];
    lemma_entry_bits(pde);
    lemma_make_entry(pp);
    let m = alloc_spec(s, pid, vp, pp, table_page);
    if entry_valid(pde) == 0 {
        lemma_make_entry(table_page);
        let mem1 = blank_page(s.memory.update(pde_a, 0x80 | table_page), table_page);
        let pte_a = entry_addr(table_page, pte_index(va));
        assert(mem1[pde_a] == 0x80 | table_page);
        assert(pte_a != pde_a);
        assert(m[pde_a] == 0x80 | table_page);
        assert(m[pte_a] == 0x80 | pp);
    } else {
        let pt = entry_frame(pde);
        let pte_a = entry_addr(pt, pte_index(va));
        assert(pte_a != pde_a);
        assert(m[pde_a] == pde);
        assert(m[pte_a] == 0x80 | pp);
    }
}

impl OS {
    /// Whether `alloc_virtual_page(pid, virtual_page, _, table_page)` goes
    /// through.
    pub fn alloc_allowed(&self, pid: i32, virtual_page: u32, table_page: i32) -> (b: bool)
        requires
            self.wf(),
        ensures
            b == alloc_ok(self@, pid, virtual_page, table_page),
    {
        if !self.pdbr.contains_key(&pid) {
            return false;
        }
        let virtual_addr = virtual_page << 5;
        let (valid, pt_ptr, pde_addr) = self.get_page_dir_entry(pid, virtual_addr);
        proof {
            lemma_entry_bits(self@.memory[pde_addr as int]);
            lemma_blank_entry();
            lemma_index_bits(virtual_addr);
        }
        if valid == 0 {
            pt_ptr == 127 && 0 <= table_page && table_page < 128
        } else {
            let (v2, pfn, _a) = self.get_page_table_entry(virtual_addr, pt_ptr);
            v2 == 0 && pfn == 127
        }
    }
}

/// The options of the simulator.
pub struct PMTOption {
    pub seed: u64,
    pub allocated: i32,
    pub num: i32,
    pub solve: bool,
}

impl PMTOption {
    /// The defaults: seed 0, 64 pages allocated, 10 addresses, no solution.
    pub fn new() -> (o: PMTOption)
        ensures
            o.seed == 0,
            o.allocated == 64,
            o.num == 10,
            !o.solve,
    {
        PMTOption { seed: 0, allocated: 64, num: 10, solve: false }
    }
}

} // verus!
