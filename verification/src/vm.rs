//! Address translation: base and bounds, two segments growing in opposite
//! directions, and a linear page table.

use vstd::prelude::*;

verus! {

/// The options of a base-and-bounds run, as given on the command line.
pub struct RelocationOption {
    pub seed: u64,
    pub asize: String,
    pub psize: String,
    pub num: i32,
    pub base: String,
    pub limit: String,
    pub solve: bool,
}

impl RelocationOption {
    /// The defaults: seed 1, a 1k address space in 16k of physical memory,
    /// five addresses, base and limit chosen at random, no solution.
    pub fn new() -> (o: RelocationOption)
        ensures
            o.seed == 1,
            o.asize@ == "1k"@,
            o.psize@ == "16k"@,
            o.num == 5,
            o.base@ == "-1"@,
            o.limit@ == "-1"@,
            !o.solve,
    {
        RelocationOption {
            seed: 1,
            asize: "1k".to_owned(),
            psize: "16k".to_owned(),
            num: 5,
            base: "-1".to_owned(),
            limit: "-1".to_owned(),
            solve: false,
        }
    }
}

/// The options of a segmentation run, as given on the command line.
pub struct SegmentationOption {
    pub seed: u64,
    pub addresses: String,
    pub asize: String,
    pub psize: String,
    pub num: i32,
    pub base0: String,
    pub len0: String,
    pub base1: String,
    pub len1: String,
    pub solve: bool,
}

impl SegmentationOption {
    /// The defaults: seed 0, five random addresses in a 1k address space,
    /// 16k of physical memory, both segments chosen at random, no solution.
    pub fn new() -> (o: SegmentationOption)
        ensures
            o.seed == 0,
            o.addresses@ == "-1"@,
            o.asize@ == "1k"@,
            o.psize@ == "16k"@,
            o.num == 5,
            o.base0@ == "-1"@,
            o.len0@ == "-1"@,
            o.base1@ == "-1"@,
            o.len1@ == "-1"@,
            !o.solve,
    {
        SegmentationOption {
            seed: 0,
            addresses: "-1".to_owned(),
            asize: "1k".to_owned(),
            psize: "16k".to_owned(),
            num: 5,
            base0: "-1".to_owned(),
            len0: "-1".to_owned(),
            base1: "-1".to_owned(),
            len1: "-1".to_owned(),
            solve: false,
        }
    }
}

/// Why the sizes of an address space and of physical memory are refused.
#[derive(Clone, Copy, PartialEq, Eq, Structural, Debug)]
pub enum SizeError {
    /// Physical memory is at most one byte.
    NoPhysicalMemory,
    /// The address space is empty.
    NoAddressSpace,
    /// Physical memory is not larger than the address space.
    PhysicalNotLarger,
    /// A size is 1g or more (linear page tables only).
    TooLarge,
}

/// Checks the sizes for base and bounds or segmentation.
pub fn check_sizes(asize: i32, psize: i32) -> (r: Result<(), SizeError>)
    ensures
        r == (if psize <= 1 {
            Err(SizeError::NoPhysicalMemory)
        } else if asize == 0 {
            Err(SizeError::NoAddressSpace)
        } else if psize <= asize {
            Err(SizeError::PhysicalNotLarger)
        } else {
            Ok(())
        }),
{
    if psize <= 1 {
        Err(SizeError::NoPhysicalMemory)
    } else if asize == 0 {
        Err(SizeError::NoAddressSpace)
    } else if psize <= asize {
        Err(SizeError::PhysicalNotLarger)
    } else {
        Ok(())
    }
}

/// Checks the sizes for a linear page table: as `check_sizes`, with a
/// negative address space refused too, and both sizes below 1g.
pub fn check_paging_sizes(asize: i32, psize: i32) -> (r: Result<(), SizeError>)
    ensures
        r == (if psize <= 1 {
            Err(SizeError::NoPhysicalMemory)
        } else if asize < 1 {
            Err(SizeError::NoAddressSpace)
        } else if psize <= asize {
            Err(SizeError::PhysicalNotLarger)
        } else if psize >= 0x4000_0000 || asize >= 0x4000_0000 {
            Err(SizeError::TooLarge)
        } else {
            Ok(())
        }),
{
    if psize <= 1 {
        Err(SizeError::NoPhysicalMemory)
    } else if asize < 1 {
        Err(SizeError::NoAddressSpace)
    } else if psize <= asize {
        Err(SizeError::PhysicalNotLarger)
    } else if psize >= 0x4000_0000 || asize >= 0x4000_0000 {
        Err(SizeError::TooLarge)
    } else {
        Ok(())
    }
}

pub open spec fn fits_i32(x: int) -> bool {
    i32::MIN <= x <= i32::MAX
}

/// Whether a randomly drawn base is kept: the segment ends below the top
/// of physical memory.
pub fn base_accepted(base: i32, limit: i32, psize: i32) -> (b: bool)
    requires
        fits_i32(base + limit),
    ensures
        b == (base + limit < psize),
{
    base + limit < psize
}

/// Whether the address space fits into physical memory at `base`.
pub fn bounds_fit(base: i32, limit: i32, psize: i32) -> (b: bool)
    requires
        fits_i32(base + limit),
    ensures
        b == (base + limit <= psize),
{
    !(base + limit > psize)
}

/// Base-and-bounds translation: an address at or above the limit is a
/// segmentation violation (`None`), any other is moved up by the base.
pub fn relocate(vaddr: i32, base: i32, limit: i32) -> (r: Option<i32>)
    requires
        vaddr < limit ==> fits_i32(vaddr + base),
    ensures
        r == (if vaddr >= limit {
            None
        } else {
            Some((vaddr + base) as i32)
        }),
{
    if vaddr >= limit {
        None
    } else {
        Some(vaddr + base)
    }
}

/// A valid base-and-bounds translation stays inside the segment, and so
/// inside physical memory where the segment fits there.
pub proof fn law_relocation_in_bounds(vaddr: i32, base: i32, limit: i32, psize: i32)
    requires
        0 <= vaddr,
        0 <= base,
        base + limit <= psize,
        fits_i32(base + limit),
    ensures
        ({
            let r = if vaddr >= limit { None } else { Some((vaddr + base) as i32) };
            r matches Some(p) ==> base <= p < base + limit && p < psize
        }),
{
}

/// The two segment registers: segment 0 starts at `base0` and grows up for
/// `len0` bytes; segment 1 occupies `base1 .. base1 + len1` and grows down
/// from its top.
#[derive(Clone, Copy, PartialEq, Eq, Structural, Debug)]
pub struct Segments {
    pub base0: i32,
    pub len0: i32,
    pub base1: i32,
    pub len1: i32,
}

/// Why a segment setup is refused.
#[derive(Clone, Copy, PartialEq, Eq, Structural, Debug)]
pub enum SegmentError {
    /// A segment is longer than half the address space.
    TooLong,
    /// The segments overlap in physical memory.
    Overlap,
}

/// Whether a randomly drawn base for segment 0 is kept.
pub fn seg0_base_accepted(base0: i32, len0: i32, psize: i32) -> (b: bool)
    requires
        fits_i32(base0 + len0),
    ensures
        b == (base0 + len0 < psize),
{
    base0 + len0 < psize
}

/// Whether a randomly drawn base for segment 1 is kept: it ends below the
/// top of physical memory and lies wholly above or below segment 0.
pub fn seg1_base_accepted(base1: i32, len1: i32, base0: i32, len0: i32, psize: i32) -> (b: bool)
    requires
        fits_i32(base1 + len1),
        fits_i32(base0 + len0),
    ensures
        b == (base1 + len1 < psize && (base1 > base0 + len0 || base1 + len1 < base0)),
{
    base1 + len1 < psize && (base1 > base0 + len0 || base1 + len1 < base0)
}

/// Half of `a`, rounded toward zero (as integer division in Rust does).
pub open spec fn half_toward_zero(a: int) -> int {
    if a >= 0 {
        a / 2
    } else {
        -((-a) / 2)
    }
}

/// Checks the segment registers: neither segment longer than half the
/// address space, and no overlap.
pub fn check_segments(s: Segments, asize: i32) -> (r: Result<(), SegmentError>)
    requires
        fits_i32(s.len0 + s.base0),
    ensures
        r == (if s.len0 > half_toward_zero(asize as int) || s.len1 > half_toward_zero(asize as int) {
            Err(SegmentError::TooLong)
        } else if s.len0 + s.base0 > s.base1 && s.base1 > s.base0 {
            Err(SegmentError::Overlap)
        } else {
            Ok(())
        }),
{
    let half = asize / 2;
    if s.len0 > half || s.len1 > half {
        Err(SegmentError::TooLong)
    } else if s.len0 + s.base0 > s.base1 && s.base1 > s.base0 {
        Err(SegmentError::Overlap)
    } else {
        Ok(())
    }
}

/// The base of segment 1 as the simulator keeps it, from the top of the
/// segment as given on the command line: the top less the segment's
/// length; `None` where that leaves the `i32` range.
pub fn seg1_base_from_top(top: i32, len1: i32) -> (r: Option<i32>)
    ensures
        r == (if fits_i32(top - len1) { Some((top - len1) as i32) } else { None::<i32> }),
{
    let d = top as i64 - len1 as i64;
    if d < i32::MIN as i64 || d > i32::MAX as i64 {
        None
    } else {
        Some(d as i32)
    }
}

/// What a virtual address translates to under segmentation.
#[derive(Clone, Copy, PartialEq, Eq, Structural, Debug)]
pub enum SegTranslation {
    Seg0(i32),
    Seg0Violation,
    Seg1(i32),
    Seg1Violation,
}

/// The translation of `vaddr`: the upper half of the address space is
/// segment 1, counted down from the top of its segment; the lower half is
/// segment 0, counted up from its base.
pub open spec fn seg_translate_spec(vaddr: int, asize: int, s: Segments) -> SegTranslation {
    if vaddr >= asize / 2 {
        let p = s.base1 + s.len1 + (vaddr - asize);
        if p < s.base1 {
            SegTranslation::Seg1Violation
        } else {
            SegTranslation::Seg1(p as i32)
        }
    } else if vaddr >= s.len0 {
        SegTranslation::Seg0Violation
    } else {
        SegTranslation::Seg0((vaddr + s.base0) as i32)
    }
}

/// Translates `vaddr`, which lies inside the address space (see
/// `seg_translate_spec`).
pub fn seg_translate(vaddr: i32, asize: i32, s: Segments) -> (r: SegTranslation)
    requires
        0 <= vaddr < asize,
        fits_i32(s.base1 + s.len1),
        vaddr >= asize / 2 ==> fits_i32(s.base1 + s.len1 + (vaddr - asize)),
        vaddr < asize / 2 && vaddr < s.len0 ==> fits_i32(vaddr + s.base0),
    ensures
        r == seg_translate_spec(vaddr as int, asize as int, s),
{
    if vaddr >= asize / 2 {
        let nbase1 = s.base1 + s.len1;
        let p = nbase1 + (vaddr - asize);
        if p < s.base1 {
            SegTranslation::Seg1Violation
        } else {
            SegTranslation::Seg1(p)
        }
    } else if vaddr >= s.len0 {
        SegTranslation::Seg0Violation
    } else {
        SegTranslation::Seg0(vaddr + s.base0)
    }
}

/// A valid translation lies inside the segment it names: segment 0 at
/// `base0 .. base0 + len0`, segment 1 at `base1 .. base1 + len1`.
pub proof fn law_segment_in_bounds(vaddr: int, asize: int, s: Segments)
    requires
        0 <= vaddr < asize,
        vaddr >= asize / 2 ==> fits_i32(s.base1 + s.len1 + (vaddr - asize)),
        vaddr < asize / 2 && vaddr < s.len0 ==> fits_i32(vaddr + s.base0),
    ensures
        seg_translate_spec(vaddr, asize, s) matches SegTranslation::Seg0(p) ==> s.base0 <= p < s.base0 + s.len0,
        seg_translate_spec(vaddr, asize, s) matches SegTranslation::Seg1(p) ==> s.base1 <= p < s.base1 + s.len1,
{
}

/// The mask of the offset within a page of `2^pagebits` bytes.
pub open spec fn page_mask(pagebits: u32) -> u32 {
    ((1u32 << pagebits) - 1) as u32
}

/// What a virtual address translates to under a linear page table.
#[derive(Clone, Copy, PartialEq, Eq, Structural, Debug)]
pub enum PageTranslation {
    Valid { vpn: u32, paddr: u32 },
    Invalid { vpn: u32 },
}

/// Translation by a linear page table `pt` (a frame number, or a negative
/// entry for an invalid page): the page number is the address without its
/// offset bits, and a valid page puts the offset into its frame.
pub open spec fn page_translate_spec(pt: Seq<i32>, pagebits: u32, vaddr: u32) -> PageTranslation {
    let vpn = (vaddr & !page_mask(pagebits)) >> pagebits;
    if pt[vpn as int] < 0 {
        PageTranslation::Invalid { vpn }
    } else {
        PageTranslation::Valid {
            vpn,
            paddr: (((pt[vpn as int] as u32) << pagebits) | (vaddr & page_mask(pagebits))) as u32,
        }
    }
}

/// The page number of `vaddr` with pages of `2^pagebits` bytes.
pub fn page_number(vaddr: u32, pagebits: u32) -> (vpn: u32)
    requires
        pagebits < 32,
    ensures
        vpn == (vaddr & !page_mask(pagebits)) >> pagebits,
{
    assert(1u32 << pagebits >= 1) by (bit_vector)
        requires
            pagebits < 32,
    ;
    let pagemask: u32 = (1u32 << pagebits) - 1;
    let vpnmask: u32 = 0xFFFF_FFFFu32 & !pagemask;
    assert(0xFFFF_FFFFu32 & !pagemask == !pagemask) by (bit_vector);
    (vaddr & vpnmask) >> pagebits
}

/// Translates `vaddr` through the linear page table `pt` (see
/// `page_translate_spec`).
pub fn page_translate(pt: &Vec<i32>, pagebits: u32, vaddr: u32) -> (r: PageTranslation)
    requires
        pagebits < 32,
        ((vaddr & !page_mask(pagebits)) >> pagebits) < pt@.len(),
    ensures
        r == page_translate_spec(pt@, pagebits, vaddr),
{
    let vpn = page_number(vaddr, pagebits);
    let pfn = pt[vpn as usize];
    if pfn < 0 {
        PageTranslation::Invalid { vpn }
    } else {
        assert(1u32 << pagebits >= 1) by (bit_vector)
            requires
                pagebits < 32,
        ;
        let pagemask: u32 = (1u32 << pagebits) - 1;
        PageTranslation::Valid { vpn, paddr: ((pfn as u32) << pagebits) | (vaddr & pagemask) }
    }
}

/// A linear page table keeps the offset within the page, and a valid
/// translation lands in the page's frame: the page number is the address
/// shifted right by the offset bits, the offset bits of the physical
/// address are those of the virtual one, and, where the frame number fits
/// in the bits left, the physical address shifted right is the frame.
pub proof fn law_page_offset_kept(pt: Seq<i32>, pagebits: u32, vaddr: u32)
    requires
        pagebits < 32,
        ((vaddr & !page_mask(pagebits)) >> pagebits) < pt.len(),
    ensures
        ({
            let vpn = (vaddr & !page_mask(pagebits)) >> pagebits;
            &&& vpn == vaddr >> pagebits
            &&& page_translate_spec(pt, pagebits, vaddr) matches PageTranslation::Valid { paddr, .. } ==> {
                &&& paddr & page_mask(pagebits) == vaddr & page_mask(pagebits)
                &&& ((pt[vpn as int] as u32) >> (32 - pagebits) as u32) == 0 ==> paddr >> pagebits == pt[vpn as int] as u32
            }
        }),
{
    let m = page_mask(pagebits);
    assert(m == ((1u32 << pagebits) - 1) as u32);
    assert(((vaddr & !(((1u32 << pagebits) - 1) as u32)) >> pagebits) == vaddr >> pagebits) by (bit_vector)
        requires
            pagebits < 32,
    ;
    let vpn = (vaddr & !m) >> pagebits;
    if pt[vpn as int] >= 0 {
        let f = pt[vpn as int] as u32;
        assert((((f << pagebits) | (vaddr & (((1u32 << pagebits) - 1) as u32))) & (((1u32 << pagebits) - 1) as u32))
            == vaddr & (((1u32 << pagebits) - 1) as u32)) by (bit_vector)
            requires
                pagebits < 32,
        ;
        assert((f >> (32 - pagebits) as u32) == 0 ==> (((f << pagebits) | (vaddr & (((1u32 << pagebits) - 1) as u32))) >> pagebits) == f) by (bit_vector)
            requires
                pagebits < 32,
        ;
    }
}

} // verus!
