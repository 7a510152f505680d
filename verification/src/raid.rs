//! RAID levels 0, 1, 4 and 5 over simple disks: where each logical block
//! lives, which physical reads and writes a logical request becomes, and
//! how each disk classifies the requests it gets.

use vstd::prelude::*;
use crate::text::text_eq;

verus! {

/// Why a request stops the simulation.
#[derive(Clone, Copy, PartialEq, Eq, Structural, Debug)]
pub enum RaidError {
    /// A division or remainder by zero.
    DivideByZero,
    /// A computed number leaves the `i32` range.
    Overflow,
    /// A RAID-5 data block maps onto its stripe's parity disk.
    ParityClash,
    /// A physical request names a disk that does not exist.
    NoSuchDisk(i32),
    /// A physical request lies beyond the end of its disk.
    BeyondDisk(i32),
}

pub open spec fn in_i32(x: int) -> bool {
    i32::MIN <= x <= i32::MAX
}

/// `a / b` as integer division in Rust: rounded toward zero.
pub open spec fn tdiv(a: int, b: int) -> int {
    if (a >= 0) == (b > 0) {
        if a >= 0 { a / b } else { (-a) / (-b) }
    } else {
        if a >= 0 { -(a / (-b)) } else { -((-a) / b) }
    }
}

/// `a % b` as in Rust: the remainder of the division rounded toward zero.
pub open spec fn tmod(a: int, b: int) -> int {
    a - b * tdiv(a, b)
}

pub open spec fn sdiv(a: int, b: int) -> Result<int, RaidError> {
    if b == 0 {
        Err(RaidError::DivideByZero)
    } else if a == i32::MIN && b == -1 {
        Err(RaidError::Overflow)
    } else {
        Ok(tdiv(a, b))
    }
}

pub open spec fn srem(a: int, b: int) -> Result<int, RaidError> {
    if b == 0 {
        Err(RaidError::DivideByZero)
    } else if a == i32::MIN && b == -1 {
        Err(RaidError::Overflow)
    } else {
        Ok(tmod(a, b))
    }
}

pub open spec fn fit(x: int) -> Result<int, RaidError> {
    if in_i32(x) {
        Ok(x)
    } else {
        Err(RaidError::Overflow)
    }
}

proof fn lemma_tmod_bound(a: int, b: int)
    requires
        b != 0,
    ensures
        b > 0 ==> -b < tmod(a, b) < b,
        b < 0 ==> b < tmod(a, b) < -b,
        a >= 0 ==> 0 <= tmod(a, b) <= a,
        a < 0 ==> a <= tmod(a, b) <= 0,
{
    let x = if a >= 0 { a } else { -a };
    let d = if b > 0 { b } else { -b };
    vstd::arithmetic::div_mod::lemma_fundamental_div_mod(x, d);
    vstd::arithmetic::div_mod::lemma_mod_pos_bound(x, d);
    let q = x / d;
    let m = x % d;
    assert(x == d * q + m);
    if a >= 0 && b > 0 {
        assert(tdiv(a, b) == q);
        assert(tmod(a, b) == m);
    } else if a < 0 && b > 0 {
        assert(tdiv(a, b) == -q);
        assert(b * (-q) == -(d * q)) by (nonlinear_arith)
            requires
                b == d,
        ;
        assert(tmod(a, b) == -m);
    } else if a >= 0 && b < 0 {
        assert(tdiv(a, b) == -q);
        assert(b * (-q) == d * q) by (nonlinear_arith)
            requires
                b == -d,
        ;
        assert(tmod(a, b) == m);
    } else {
        assert(tdiv(a, b) == q);
        assert(b * q == -(d * q)) by (nonlinear_arith)
            requires
                b == -d,
        ;
        assert(tmod(a, b) == -m);
    }
}

fn tdiv_x(a: i64, b: i64) -> (q: i64)
    requires
        b != 0,
        i32::MIN <= a <= i32::MAX,
        i32::MIN <= b <= i32::MAX,
    ensures
        q == tdiv(a as int, b as int),
        -0x8000_0000 <= q <= 0x8000_0000,
        !(a == i32::MIN && b == -1) ==> in_i32(q as int),
{
    if b > 0 {
        if a >= 0 {
            assert(a / b <= a) by (nonlinear_arith)
                requires
                    a >= 0,
                    b > 0,
            ;
            a / b
        } else {
            let na = -a;
            assert(na / b <= na) by (nonlinear_arith)
                requires
                    na >= 0,
                    b > 0,
            ;
            -(na / b)
        }
    } else {
        let nb = -b;
        if a >= 0 {
            assert(a / nb <= a) by (nonlinear_arith)
                requires
                    a >= 0,
                    nb > 0,
            ;
            -(a / nb)
        } else {
            let na = -a;
            assert(na / nb <= na) by (nonlinear_arith)
                requires
                    na >= 0,
                    nb > 0,
            ;
            assert(nb >= 2 ==> na / nb <= 0x4000_0000) by (nonlinear_arith)
                requires
                    0 <= na <= 0x8000_0000,
                    nb > 0,
            ;
            na / nb
        }
    }
}

fn div_x(a: i32, b: i32) -> (r: Result<i32, RaidError>)
    ensures
        match r {
            Ok(q) => sdiv(a as int, b as int) == Ok::<int, RaidError>(q as int),
            Err(e) => sdiv(a as int, b as int) == Err::<int, RaidError>(e),
        },
{
    if b == 0 {
        return Err(RaidError::DivideByZero);
    }
    if a == i32::MIN && b == -1 {
        return Err(RaidError::Overflow);
    }
    let q = tdiv_x(a as i64, b as i64);
    Ok(q as i32)
}

fn rem_x(a: i32, b: i32) -> (r: Result<i32, RaidError>)
    ensures
        match r {
            Ok(m) => srem(a as int, b as int) == Ok::<int, RaidError>(m as int),
            Err(e) => srem(a as int, b as int) == Err::<int, RaidError>(e),
        },
{
    if b == 0 {
        return Err(RaidError::DivideByZero);
    }
    if a == i32::MIN && b == -1 {
        return Err(RaidError::Overflow);
    }
    let q = tdiv_x(a as i64, b as i64);
    proof {
        lemma_tmod_bound(a as int, b as int);
    }
    let bq = b as i128 * q as i128;
    let m = a as i128 - bq;
    assert(m == tmod(a as int, b as int));
    Ok(m as i32)
}

fn fit_x(x: i64) -> (r: Result<i32, RaidError>)
    ensures
        match r {
            Ok(v) => fit(x as int) == Ok::<int, RaidError>(v as int),
            Err(e) => fit(x as int) == Err::<int, RaidError>(e),
        },
{
    if x < -2147483648 || x > 2147483647 {
        Err(RaidError::Overflow)
    } else {
        Ok(x as i32)
    }
}

/// How a disk classifies a request: near the previous one (on the same
/// track or less than a track ahead; sequential when exactly the next
/// block), with the distance moved, or random (a seek).
#[derive(Clone, Copy, PartialEq, Eq, Structural, Debug)]
pub enum IoKind {
    Near(i32),
    Random,
}

/// A disk: its seek time and queue length, its head position, its
/// geometry, and its counts of requests (all, sequential, near, random).
#[derive(Clone, Copy, PartialEq, Eq, Structural, Debug)]
pub struct Disk {
    pub seek_time: i32,
    pub queue_len: i32,
    pub curr_addr: i32,
    pub num_tracks: i32,
    pub blocks_per_track: i32,
    pub blocks_per_disk: i32,
    pub count_io: i32,
    pub count_seq: i32,
    pub count_nseq: i32,
    pub count_rand: i32,
}

/// A request of `addr` at disk `d`.
pub open spec fn disk_enqueue_spec(d: Disk, addr: int) -> Result<(Disk, IoKind), RaidError> {
    if addr >= d.blocks_per_disk {
        Err(RaidError::BeyondDisk(addr as i32))
    } else if d.count_io == i32::MAX {
        Err(RaidError::Overflow)
    } else {
        match sdiv(d.curr_addr as int, d.num_tracks as int) {
            Err(e) => Err(e),
            Ok(ct) => match sdiv(addr, d.num_tracks as int) {
                Err(e) => Err(e),
                Ok(nt) => match fit(addr - d.curr_addr) {
                    Err(e) => Err(e),
                    Ok(diff) => {
                        let d1 = Disk { count_io: (d.count_io + 1) as i32, curr_addr: addr as i32, ..d };
                        if ct == nt || diff < d.blocks_per_track {
                            if diff == 1 {
                                if d.count_seq == i32::MAX {
                                    Err(RaidError::Overflow)
                                } else {
                                    Ok((Disk { count_seq: (d.count_seq + 1) as i32, ..d1 }, IoKind::Near(diff as i32)))
                                }
                            } else if d.count_nseq == i32::MAX {
                                Err(RaidError::Overflow)
                            } else {
                                Ok((Disk { count_nseq: (d.count_nseq + 1) as i32, ..d1 }, IoKind::Near(diff as i32)))
                            }
                        } else if d.count_rand == i32::MAX {
                            Err(RaidError::Overflow)
                        } else {
                            Ok((Disk { count_rand: (d.count_rand + 1) as i32, ..d1 }, IoKind::Random))
                        }
                    },
                },
            },
        }
    }
}

impl Disk {
    /// A disk with seek time 10, queue length 8, 100 tracks of 100 blocks,
    /// its head far before block 0, and no requests yet.
    pub fn new() -> (d: Disk)
        ensures
            d == (Disk {
                seek_time: 10,
                queue_len: 8,
                curr_addr: -10000i32,
                num_tracks: 100,
                blocks_per_track: 100,
                blocks_per_disk: 10000,
                count_io: 0,
                count_seq: 0,
                count_nseq: 0,
                count_rand: 0,
            }),
    {
        Disk::new_a(10, 8)
    }

    /// As `new`, with the given seek time and queue length.
    pub fn new_a(seek_time: i32, queue_len: i32) -> (d: Disk)
        ensures
            d == (Disk {
                seek_time,
                queue_len,
                curr_addr: -10000i32,
                num_tracks: 100,
                blocks_per_track: 100,
                blocks_per_disk: 10000,
                count_io: 0,
                count_seq: 0,
                count_nseq: 0,
                count_rand: 0,
            }),
    {
        Disk {
            seek_time,
            queue_len,
            curr_addr: -10000,
            num_tracks: 100,
            blocks_per_track: 100,
            blocks_per_disk: 10000,
            count_io: 0,
            count_seq: 0,
            count_nseq: 0,
            count_rand: 0,
        }
    }

    /// The counts: all requests, sequential, near, random.
    pub fn stats(&self) -> (r: (i32, i32, i32, i32))
        ensures
            r == (self.count_io, self.count_seq, self.count_nseq, self.count_rand),
    {
        (self.count_io, self.count_seq, self.count_nseq, self.count_rand)
    }

    /// Takes a request of block `addr`, which lies on the disk (see
    /// `disk_enqueue_spec`).
    pub fn enqueue(&mut self, addr: i32) -> (r: Result<IoKind, RaidError>)
        requires
            addr < old(self).blocks_per_disk,
        ensures
            match disk_enqueue_spec(*old(self), addr as int) {
                Ok((d, k)) => r == Ok::<IoKind, RaidError>(k) && *final(self) == d,
                Err(e) => r == Err::<IoKind, RaidError>(e) && *final(self) == *old(self),
            },
    {
        if self.count_io == i32::MAX {
            return Err(RaidError::Overflow);
        }
        let ct = match div_x(self.curr_addr, self.num_tracks) {
            Err(e) => {
                return Err(e);
            },
            Ok(v) => v,
        };
        let nt = match div_x(addr, self.num_tracks) {
            Err(e) => {
                return Err(e);
            },
            Ok(v) => v,
        };
        let diff = match fit_x(addr as i64 - self.curr_addr as i64) {
            Err(e) => {
                return Err(e);
            },
            Ok(v) => v,
        };
        let kind;
        if ct == nt || diff < self.blocks_per_track {
            if diff == 1 {
                if self.count_seq == i32::MAX {
                    return Err(RaidError::Overflow);
                }
                self.count_seq = self.count_seq + 1;
            } else {
                if self.count_nseq == i32::MAX {
                    return Err(RaidError::Overflow);
                }
                self.count_nseq = self.count_nseq + 1;
            }
            kind = IoKind::Near(diff);
        } else {
            if self.count_rand == i32::MAX {
                return Err(RaidError::Overflow);
            }
            self.count_rand = self.count_rand + 1;
            kind = IoKind::Random;
        }
        self.count_io = self.count_io + 1;
        self.curr_addr = addr;
        Ok(kind)
    }
}

/// The RAID-5 layout: left-asymmetric, left-symmetric, or a name that is
/// neither (then data blocks are not moved around the parity).
#[derive(Clone, Copy, PartialEq, Eq, Structural, Debug)]
pub enum Raid5Layout {
    LeftAsymmetric,
    LeftSymmetric,
    Unknown,
}

/// The layout named `LA` or `LS`.
pub fn raid5_layout_from(s: &str) -> (r: Raid5Layout)
    ensures
        r == (if s@ == "LA"@ {
            Raid5Layout::LeftAsymmetric
        } else if s@ == "LS"@ {
            Raid5Layout::LeftSymmetric
        } else {
            Raid5Layout::Unknown
        }),
{
    if text_eq(s, "LA") {
        Raid5Layout::LeftAsymmetric
    } else if text_eq(s, "LS") {
        Raid5Layout::LeftSymmetric
    } else {
        Raid5Layout::Unknown
    }
}

/// The geometry of an array: chunk size (in blocks), number of disks,
/// level, RAID-5 layout, data blocks per stripe and parity disk.
#[derive(Clone, Copy, PartialEq, Eq, Structural, Debug)]
pub struct RaidCfg {
    pub chunk_size: i32,
    pub num_disks: i32,
    pub level: i32,
    pub layout: Raid5Layout,
    pub blocks_in_stripe: i32,
    pub pdisk: i32,
}

/// RAID 0: chunks striped over the disks; block `b` goes to disk
/// `chunk % disks` at offset `(chunk / disks) * chunk_size + b % chunk_size`.
pub open spec fn map0(c: RaidCfg, b: int) -> Result<(int, int), RaidError> {
    match sdiv(b, c.chunk_size as int) {
        Err(e) => Err(e),
        Ok(cnum) => match srem(b, c.chunk_size as int) {
            Err(e) => Err(e),
            Ok(coff) => match srem(cnum, c.num_disks as int) {
                Err(e) => Err(e),
                Ok(disk) => match sdiv(cnum, c.num_disks as int) {
                    Err(e) => Err(e),
                    Ok(q) => match fit(q * c.chunk_size) {
                        Err(e) => Err(e),
                        Ok(t) => match fit(t + coff) {
                            Err(e) => Err(e),
                            Ok(off) => Ok((disk, off)),
                        },
                    },
                },
            },
        },
    }
}

/// RAID 1: chunks striped over mirrored pairs; block `b` goes to disks
/// `2 * (chunk % pairs)` and the one after it.
pub open spec fn map1(c: RaidCfg, b: int) -> Result<(int, int, int), RaidError> {
    let half = tdiv(c.num_disks as int, 2);
    match sdiv(b, c.chunk_size as int) {
        Err(e) => Err(e),
        Ok(cnum) => match srem(b, c.chunk_size as int) {
            Err(e) => Err(e),
            Ok(coff) => match srem(cnum, half) {
                Err(e) => Err(e),
                Ok(m) => {
                    let disk = 2 * m;
                    match sdiv(cnum, half) {
                        Err(e) => Err(e),
                        Ok(q) => match fit(q * c.chunk_size) {
                            Err(e) => Err(e),
                            Ok(t) => match fit(t + coff) {
                                Err(e) => Err(e),
                                Ok(off) => Ok((disk, disk + 1, off)),
                            },
                        },
                    }
                },
            },
        },
    }
}

/// RAID 4: chunks striped over all disks but the last.
pub open spec fn map4(c: RaidCfg, b: int) -> Result<(int, int), RaidError> {
    match fit(c.num_disks - 1) {
        Err(e) => Err(e),
        Ok(nd1) => match sdiv(b, c.chunk_size as int) {
            Err(e) => Err(e),
            Ok(cnum) => match srem(b, c.chunk_size as int) {
                Err(e) => Err(e),
                Ok(coff) => match srem(cnum, nd1) {
                    Err(e) => Err(e),
                    Ok(disk) => match sdiv(cnum, nd1) {
                        Err(e) => Err(e),
                        Ok(q) => match fit(q * c.chunk_size) {
                            Err(e) => Err(e),
                            Ok(t) => match fit(t + coff) {
                                Err(e) => Err(e),
                                Ok(off) => Ok((disk, off)),
                            },
                        },
                    },
                },
            },
        },
    }
}

/// RAID 5: the parity of each row of chunks sits on a different disk,
/// counting down from the last; the data disk is shifted past the parity
/// (left-asymmetric) or rotated with it (left-symmetric). Gives the data
/// disk, the parity disk and the offset.
pub open spec fn map5(c: RaidCfg, b: int) -> Result<(int, int, int), RaidError> {
    match fit(c.num_disks - 1) {
        Err(e) => Err(e),
        Ok(nd1) => match sdiv(b, c.chunk_size as int) {
            Err(e) => Err(e),
            Ok(cnum) => match srem(b, c.chunk_size as int) {
                Err(e) => Err(e),
                Ok(coff) => match sdiv(cnum, nd1) {
                    Err(e) => Err(e),
                    Ok(ddsk) => match fit(ddsk * c.chunk_size) {
                        Err(e) => Err(e),
                        Ok(t) => match fit(t + coff) {
                            Err(e) => Err(e),
                            Ok(doff) => match srem(cnum, nd1) {
                                Err(e) => Err(e),
                                Ok(disk0) => match srem(ddsk, c.num_disks as int) {
                                    Err(e) => Err(e),
                                    Ok(col) => match fit(nd1 - col) {
                                      Err(e) => Err(e),
                                      Ok(pdsk) => {
                                        let disk = match c.layout {
                                            Raid5Layout::LeftAsymmetric => if disk0 >= pdsk { fit(disk0 + 1) } else { Ok(disk0) },
                                            Raid5Layout::LeftSymmetric => match fit(disk0 - col) {
                                                Err(e) => Err(e),
                                                Ok(x) => srem(x, c.num_disks as int),
                                            },
                                            Raid5Layout::Unknown => Ok(disk0),
                                        };
                                        match disk {
                                            Err(e) => Err(e),
                                            Ok(d) => if d == pdsk {
                                                Err(RaidError::ParityClash)
                                            } else {
                                                Ok((d, pdsk, doff))
                                            },
                                        }
                                      },
                                    },
                                },
                            },
                        },
                    },
                },
            },
        },
    }
}

/// A physical request: read or write, disk, offset, and whether a blank
/// line follows it in the trace.
#[derive(Clone, Copy, PartialEq, Eq, Structural, Debug)]
pub struct Req {
    pub write: bool,
    pub disk: i32,
    pub off: i32,
    pub newline: bool,
}

pub open spec fn req(w: bool, d: int, o: int, nl: bool) -> Req {
    Req { write: w, disk: d as i32, off: o as i32, newline: nl }
}

/// The data disk and offset of block `b` at level 4 or 5.
pub open spec fn map45(c: RaidCfg, b: int) -> Result<(int, int), RaidError> {
    if c.level == 4 {
        map4(c, b)
    } else {
        match map5(c, b) {
            Err(e) => Err(e),
            Ok((d, _p, o)) => Ok((d, o)),
        }
    }
}

/// The requests for blocks `b..hi`, one block at a time: level 0 reads or
/// writes the block's disk; level 1 writes both mirrors or reads the first
/// (even offset) or the second; levels 4 and 5 read the data disk. The
/// second part is the fault that stopped the generation, if any.
pub open spec fn gen_blocks(c: RaidCfg, b: int, hi: int, is_write: bool) -> (Seq<Req>, Option<RaidError>)
    decreases hi - b,
{
    if b >= hi {
        (Seq::empty(), None)
    } else {
        match gen_here(c, b, is_write) {
            Err(e) => (Seq::empty(), Some(e)),
            Ok(rs) => {
                let rest = gen_blocks(c, b + 1, hi, is_write);
                (rs + rest.0, rest.1)
            },
        }
    }
}

/// The requests for block `b` alone (see `gen_blocks`).
pub open spec fn gen_here(c: RaidCfg, b: int, is_write: bool) -> Result<Seq<Req>, RaidError> {
    if c.level == 0 {
        match map0(c, b) {
            Err(e) => Err(e),
            Ok((d, o)) => Ok(seq![req(is_write, d, o, true)]),
        }
    } else if c.level == 1 {
        match map1(c, b) {
            Err(e) => Err(e),
            Ok((d1, d2, o)) => if is_write {
                Ok(seq![req(true, d1, o, false), req(true, d2, o, true)])
            } else {
                match srem(o, 2) {
                    Err(e) => Err(e),
                    Ok(m) => Ok(if m == 0 {
                        seq![req(false, d1, o, true)]
                    } else {
                        seq![req(false, d2, o, true)]
                    }),
                }
            },
        }
    } else {
        match map45(c, b) {
            Err(e) => Err(e),
            Ok((d, o)) => Ok(seq![req(false, d, o, false)]),
        }
    }
}

/// `offl` with `o` added at the end unless it is there.
pub open spec fn add_off(offl: Seq<int>, o: int) -> Seq<int> {
    if offl.contains(o) {
        offl
    } else {
        offl.push(o)
    }
}

/// One request of disk `p` for each offset of `offl`, the last followed by
/// a blank line.
pub open spec fn parity_reqs(w: bool, p: int, offl: Seq<int>) -> Seq<Req> {
    Seq::new(offl.len(), |i: int| req(w, p, offl[i], i == offl.len() - 1))
}

/// Read-modify-write reads for blocks `v..end`: each data block is read,
/// then the parity of every offset seen so far.
pub open spec fn rmw_reads(c: RaidCfg, v: int, end: int, offl: Seq<int>, p: int) -> (Seq<Req>, Option<RaidError>)
    decreases end - v,
{
    if v >= end {
        (Seq::empty(), None)
    } else {
        match map45(c, v) {
            Err(e) => (Seq::empty(), Some(e)),
            Ok((d, o)) => {
                let offl2 = add_off(offl, o);
                let rest = rmw_reads(c, v + 1, end, offl2, p);
                (seq![req(false, d, o, false)] + parity_reqs(false, p, offl2) + rest.0, rest.1)
            },
        }
    }
}

/// Reads of the data blocks `v..hi` for a full-stripe parity, a blank line
/// after the block `nl_at` (when `nl_ok`).
pub open spec fn range_reads(c: RaidCfg, v: int, hi: int, nl_at: int, nl_ok: bool) -> (Seq<Req>, Option<RaidError>)
    decreases hi - v,
{
    if v >= hi {
        (Seq::empty(), None)
    } else {
        match map45(c, v) {
            Err(e) => (Seq::empty(), Some(e)),
            Ok((d, o)) => {
                let rest = range_reads(c, v + 1, hi, nl_at, nl_ok);
                (seq![req(false, d, o, v == nl_at && nl_ok)] + rest.0, rest.1)
            },
        }
    }
}

/// Writes of the data blocks `v..end`, and the offsets they touch.
pub open spec fn data_writes(c: RaidCfg, v: int, end: int, offl: Seq<int>) -> (Seq<Req>, Seq<int>, Option<RaidError>)
    decreases end - v,
{
    if v >= end {
        (Seq::empty(), offl, None)
    } else {
        match map45(c, v) {
            Err(e) => (Seq::empty(), offl, Some(e)),
            Ok((d, o)) => {
                let rest = data_writes(c, v + 1, end, add_off(offl, o));
                (seq![req(true, d, o, false)] + rest.0, rest.1, rest.2)
            },
        }
    }
}

/// The parity disk of a stripe: the array's parity disk (at level 5 after
/// mapping the stripe's first block, which may fail).
pub open spec fn pmap_spec(c: RaidCfg, stripe: int) -> Result<int, RaidError> {
    if c.level == 4 {
        Ok(c.pdisk as int)
    } else {
        match fit(stripe * c.blocks_in_stripe) {
            Err(e) => Err(e),
            Ok(b) => match map5(c, b) {
                Err(e) => Err(e),
                Ok(_) => Ok(c.pdisk as int),
            },
        }
    }
}

/// A write of blocks `begin..end` of a stripe: if fewer than half the
/// stripe's blocks are written, the old data and parity are read
/// (subtractive parity), else the rest of the stripe is read (additive
/// parity); then the data and the parity are written.
pub open spec fn partial_write(c: RaidCfg, stripe: int, begin: int, end: int) -> (Seq<Req>, Option<RaidError>) {
    match fit(end - begin) {
        Err(e) => (Seq::empty(), Some(e)),
        Ok(num) => match pmap_spec(c, stripe) {
            Err(e) => (Seq::empty(), Some(e)),
            Ok(p) => match fit(num + 1) {
                Err(e) => (Seq::empty(), Some(e)),
                Ok(n1) => match fit(c.blocks_in_stripe - num) {
                    Err(e) => (Seq::empty(), Some(e)),
                    Ok(rest_blocks) => {
                        let reads: (Seq<Req>, Option<RaidError>) = if n1 <= rest_blocks {
                            rmw_reads(c, begin, end, Seq::empty(), p)
                        } else {
                            match fit(stripe * c.blocks_in_stripe) {
                                Err(e) => (Seq::empty(), Some(e)),
                                Ok(sb) => match fit(sb + c.blocks_in_stripe) {
                                    Err(e) => (Seq::empty(), Some(e)),
                                    Ok(se) => {
                                        let r1 = range_reads(c, sb, begin, begin - 1, end == se);
                                        if r1.1 is Some {
                                            r1
                                        } else {
                                            let r2 = range_reads(c, end, se, se - 1, true);
                                            (r1.0 + r2.0, r2.1)
                                        }
                                    },
                                },
                            }
                        };
                        if reads.1 is Some {
                            reads
                        } else {
                            let w = data_writes(c, begin, end, Seq::empty());
                            if w.2 is Some {
                                (reads.0 + w.0, w.2)
                            } else {
                                (reads.0 + w.0 + parity_reqs(true, p, w.1), None)
                            }
                        }
                    },
                },
            },
        },
    }
}

/// The writes of stripes `stripe..fin`, with `left` blocks left to write
/// from `begin` on.
pub open spec fn write45(c: RaidCfg, stripe: int, fin: int, left: int, begin: int) -> (Seq<Req>, Option<RaidError>)
    decreases fin - stripe,
{
    if stripe >= fin {
        (Seq::empty(), None)
    } else {
        match fit(stripe * c.blocks_in_stripe) {
            Err(e) => (Seq::empty(), Some(e)),
            Ok(sb) => match fit(sb + c.blocks_in_stripe) {
                Err(e) => (Seq::empty(), Some(e)),
                Ok(eos) => {
                    let end0 = if left >= c.blocks_in_stripe { fit(begin + c.blocks_in_stripe) } else { fit(begin + left) };
                    match end0 {
                        Err(e) => (Seq::empty(), Some(e)),
                        Ok(e0) => {
                            let end = if e0 >= eos { eos } else { e0 };
                            let pw = partial_write(c, stripe, begin, end);
                            if pw.1 is Some {
                                pw
                            } else {
                                match fit(left - (end - begin)) {
                                    Err(e) => (pw.0, Some(e)),
                                    Ok(left2) => {
                                        let rest = write45(c, stripe + 1, fin, left2, end);
                                        (pw.0 + rest.0, rest.1)
                                    },
                                }
                            }
                        },
                    }
                },
            },
        }
    }
}

/// The physical requests that a logical request of `size` blocks at `addr`
/// becomes, and the fault that stops it, if any. At levels 4 and 5 a write
/// covers the stripes from the first up to, but not including, the
/// stripe of its last block.
pub open spec fn enqueue_spec(c: RaidCfg, addr: int, size: int, is_write: bool) -> (Seq<Req>, Option<RaidError>) {
    if c.level == 0 || c.level == 1 || ((c.level == 4 || c.level == 5) && !is_write) {
        match fit(addr + size) {
            Err(e) => (Seq::empty(), Some(e)),
            Ok(hi) => gen_blocks(c, addr, hi, is_write),
        }
    } else if c.level == 4 || c.level == 5 {
        match sdiv(addr, c.blocks_in_stripe as int) {
            Err(e) => (Seq::empty(), Some(e)),
            Ok(init) => match fit(addr + size) {
                Err(e) => (Seq::empty(), Some(e)),
                Ok(t) => match fit(t - 1) {
                    Err(e) => (Seq::empty(), Some(e)),
                    Ok(last) => match sdiv(last, c.blocks_in_stripe as int) {
                        Err(e) => (Seq::empty(), Some(e)),
                        Ok(fin) => write45(c, init, fin, size, addr),
                    },
                },
            },
        }
    } else {
        (Seq::empty(), None)
    }
}

/// The requests handed to the disks in turn: the disks after them (where a
/// fault stopped them, after those handed before it), how each was
/// classified, and the fault, if any.
pub open spec fn apply_reqs(disks: Seq<Disk>, reqs: Seq<Req>) -> (Seq<Disk>, Seq<IoKind>, Option<RaidError>)
    decreases reqs.len(),
{
    if reqs.len() == 0 {
        (disks, Seq::empty(), None)
    } else {
        let r = reqs[0];
        if r.disk < 0 || r.disk >= disks.len() {
            (disks, Seq::empty(), Some(RaidError::NoSuchDisk(r.disk)))
        } else {
            match disk_enqueue_spec(disks[r.disk as int], r.off as int) {
                Err(e) => (disks, Seq::empty(), Some(e)),
                Ok((d, k)) => {
                    let rest = apply_reqs(disks.update(r.disk as int, d), reqs.drop_first());
                    (rest.0, seq![k] + rest.1, rest.2)
                },
            }
        }
    }
}

fn mul_x(a: i32, b: i32) -> (r: Result<i32, RaidError>)
    ensures
        match r {
            Ok(v) => fit(a * b) == Ok::<int, RaidError>(v as int),
            Err(e) => fit(a * b) == Err::<int, RaidError>(e),
        },
{
    assert(-0x4000_0000_0000_0000 <= (a as int) * (b as int) <= 0x4000_0000_0000_0000) by (nonlinear_arith)
        requires
            i32::MIN <= a <= i32::MAX,
            i32::MIN <= b <= i32::MAX,
    ;
    fit_x(a as i64 * b as i64)
}

fn map0_x(c: RaidCfg, b: i32) -> (r: Result<(i32, i32), RaidError>)
    ensures
        match r {
            Ok((d, o)) => map0(c, b as int) == Ok::<(int, int), RaidError>((d as int, o as int)),
            Err(e) => map0(c, b as int) == Err::<(int, int), RaidError>(e),
        },
{
    let cnum = match div_x(b, c.chunk_size) { Err(e) => { return Err(e); }, Ok(v) => v };
    let coff = match rem_x(b, c.chunk_size) { Err(e) => { return Err(e); }, Ok(v) => v };
    let disk = match rem_x(cnum, c.num_disks) { Err(e) => { return Err(e); }, Ok(v) => v };
    let q = match div_x(cnum, c.num_disks) { Err(e) => { return Err(e); }, Ok(v) => v };
    let t = match mul_x(q, c.chunk_size) { Err(e) => { return Err(e); }, Ok(v) => v };
    let off = match fit_x(t as i64 + coff as i64) { Err(e) => { return Err(e); }, Ok(v) => v };
    Ok((disk, off))
}

fn map1_x(c: RaidCfg, b: i32) -> (r: Result<(i32, i32, i32), RaidError>)
    ensures
        match r {
            Ok((d1, d2, o)) => map1(c, b as int) == Ok::<(int, int, int), RaidError>((d1 as int, d2 as int, o as int)),
            Err(e) => map1(c, b as int) == Err::<(int, int, int), RaidError>(e),
        },
{
    let half = tdiv_x(c.num_disks as i64, 2) as i32;
    let cnum = match div_x(b, c.chunk_size) { Err(e) => { return Err(e); }, Ok(v) => v };
    let coff = match rem_x(b, c.chunk_size) { Err(e) => { return Err(e); }, Ok(v) => v };
    let m = match rem_x(cnum, half) { Err(e) => { return Err(e); }, Ok(v) => v };
    proof {
        lemma_tmod_bound(cnum as int, half as int);
    }
    let disk = 2 * m;
    let q = match div_x(cnum, half) { Err(e) => { return Err(e); }, Ok(v) => v };
    let t = match mul_x(q, c.chunk_size) { Err(e) => { return Err(e); }, Ok(v) => v };
    let off = match fit_x(t as i64 + coff as i64) { Err(e) => { return Err(e); }, Ok(v) => v };
    Ok((disk, disk + 1, off))
}

fn map4_x(c: RaidCfg, b: i32) -> (r: Result<(i32, i32), RaidError>)
    ensures
        match r {
            Ok((d, o)) => map4(c, b as int) == Ok::<(int, int), RaidError>((d as int, o as int)),
            Err(e) => map4(c, b as int) == Err::<(int, int), RaidError>(e),
        },
{
    let nd1 = match fit_x(c.num_disks as i64 - 1) { Err(e) => { return Err(e); }, Ok(v) => v };
    let cnum = match div_x(b, c.chunk_size) { Err(e) => { return Err(e); }, Ok(v) => v };
    let coff = match rem_x(b, c.chunk_size) { Err(e) => { return Err(e); }, Ok(v) => v };
    let disk = match rem_x(cnum, nd1) { Err(e) => { return Err(e); }, Ok(v) => v };
    let q = match div_x(cnum, nd1) { Err(e) => { return Err(e); }, Ok(v) => v };
    let t = match mul_x(q, c.chunk_size) { Err(e) => { return Err(e); }, Ok(v) => v };
    let off = match fit_x(t as i64 + coff as i64) { Err(e) => { return Err(e); }, Ok(v) => v };
    Ok((disk, off))
}

fn map5_x(c: RaidCfg, b: i32) -> (r: Result<(i32, i32, i32), RaidError>)
    ensures
        match r {
            Ok((d, p, o)) => map5(c, b as int) == Ok::<(int, int, int), RaidError>((d as int, p as int, o as int)),
            Err(e) => map5(c, b as int) == Err::<(int, int, int), RaidError>(e),
        },
{
    let nd1 = match fit_x(c.num_disks as i64 - 1) { Err(e) => { return Err(e); }, Ok(v) => v };
    let cnum = match div_x(b, c.chunk_size) { Err(e) => { return Err(e); }, Ok(v) => v };
    let coff = match rem_x(b, c.chunk_size) { Err(e) => { return Err(e); }, Ok(v) => v };
    let ddsk = match div_x(cnum, nd1) { Err(e) => { return Err(e); }, Ok(v) => v };
    let t = match mul_x(ddsk, c.chunk_size) { Err(e) => { return Err(e); }, Ok(v) => v };
    let doff = match fit_x(t as i64 + coff as i64) { Err(e) => { return Err(e); }, Ok(v) => v };
    let disk0 = match rem_x(cnum, nd1) { Err(e) => { return Err(e); }, Ok(v) => v };
    let col = match rem_x(ddsk, c.num_disks) { Err(e) => { return Err(e); }, Ok(v) => v };
    proof {
        lemma_tmod_bound(ddsk as int, c.num_disks as int);
        lemma_tmod_bound(cnum as int, nd1 as int);
    }
    let pdsk = match fit_x(nd1 as i64 - col as i64) { Err(e) => { return Err(e); }, Ok(v) => v };
    let disk: i32 = match c.layout {
        Raid5Layout::LeftAsymmetric => if disk0 >= pdsk {
            match fit_x(disk0 as i64 + 1) { Err(e) => { return Err(e); }, Ok(v) => v }
        } else {
            disk0
        },
        Raid5Layout::LeftSymmetric => {
            let x = match fit_x(disk0 as i64 - col as i64) { Err(e) => { return Err(e); }, Ok(v) => v };
            match rem_x(x, c.num_disks) { Err(e) => { return Err(e); }, Ok(v) => v }
        },
        Raid5Layout::Unknown => disk0,
    };
    if disk == pdsk {
        return Err(RaidError::ParityClash);
    }
    Ok((disk, pdsk, doff))
}

fn map45_x(c: RaidCfg, b: i32) -> (r: Result<(i32, i32), RaidError>)
    ensures
        match r {
            Ok((d, o)) => map45(c, b as int) == Ok::<(int, int), RaidError>((d as int, o as int)),
            Err(e) => map45(c, b as int) == Err::<(int, int), RaidError>(e),
        },
{
    if c.level == 4 {
        map4_x(c, b)
    } else {
        match map5_x(c, b) {
            Err(e) => Err(e),
            Ok((d, _p, o)) => Ok((d, o)),
        }
    }
}

fn mk_req(w: bool, d: i32, o: i32, nl: bool) -> (r: Req)
    ensures
        r == req(w, d as int, o as int, nl),
{
    Req { write: w, disk: d, off: o, newline: nl }
}

fn gen_here_x(c: RaidCfg, b: i32, is_write: bool, out: &mut Vec<Req>) -> (f: Option<RaidError>)
    ensures
        match gen_here(c, b as int, is_write) {
            Ok(rs) => final(out)@ == old(out)@ + rs && f is None,
            Err(e) => final(out)@ == old(out)@ && f == Some(e),
        },
{
    let ghost before = out@;
    if c.level == 0 {
        match map0_x(c, b) {
            Err(e) => Some(e),
            Ok((d, o)) => {
                out.push(mk_req(is_write, d, o, true));
                assert(out@ =~= before + seq![req(is_write, d as int, o as int, true)]);
                None
            },
        }
    } else if c.level == 1 {
        match map1_x(c, b) {
            Err(e) => Some(e),
            Ok((d1, d2, o)) => {
                if is_write {
                    out.push(mk_req(true, d1, o, false));
                    out.push(mk_req(true, d2, o, true));
                    assert(out@ =~= before + seq![req(true, d1 as int, o as int, false), req(true, d2 as int, o as int, true)]);
                    None
                } else {
                    let m = match rem_x(o, 2) {
                        Err(e) => {
                            return Some(e);
                        },
                        Ok(v) => v,
                    };
                    if m == 0 {
                        out.push(mk_req(false, d1, o, true));
                        assert(out@ =~= before + seq![req(false, d1 as int, o as int, true)]);
                    } else {
                        out.push(mk_req(false, d2, o, true));
                        assert(out@ =~= before + seq![req(false, d2 as int, o as int, true)]);
                    }
                    None
                }
            },
        }
    } else {
        match map45_x(c, b) {
            Err(e) => Some(e),
            Ok((d, o)) => {
                out.push(mk_req(false, d, o, false));
                assert(out@ =~= before + seq![req(false, d as int, o as int, false)]);
                None
            },
        }
    }
}

fn gen_blocks_x(c: RaidCfg, b0: i32, hi: i32, is_write: bool, out: &mut Vec<Req>) -> (f: Option<RaidError>)
    ensures
        final(out)@ == old(out)@ + gen_blocks(c, b0 as int, hi as int, is_write).0,
        f == gen_blocks(c, b0 as int, hi as int, is_write).1,
{
    let ghost base = out@;
    let mut b = b0;
    while b < hi
        invariant
            b0 <= b,
            b0 < hi ==> b <= hi,
            base == old(out)@,
            base + gen_blocks(c, b0 as int, hi as int, is_write).0 == out@ + gen_blocks(c, b as int, hi as int, is_write).0,
            gen_blocks(c, b0 as int, hi as int, is_write).1 == gen_blocks(c, b as int, hi as int, is_write).1,
        decreases hi - b,
    {
        let ghost before = out@;
        let ghost rest = gen_blocks(c, b + 1, hi as int, is_write);
        match gen_here_x(c, b, is_write, out) {
            Some(e) => {
                assert(out@ + Seq::<Req>::empty() =~= out@);
                return Some(e);
            },
            None => {},
        }
        proof {
            let rs = gen_here(c, b as int, is_write)->Ok_0;
            assert(before + (rs + rest.0) =~= out@ + rest.0);
        }
        b = b + 1;
    }
    assert(out@ + Seq::<Req>::empty() =~= out@);
    None
}

pub open spec fn offs_view(v: Seq<i32>) -> Seq<int> {
    Seq::new(v.len(), |i: int| v[i] as int)
}

fn add_off_x(offl: &mut Vec<i32>, o: i32)
    ensures
        offs_view(final(offl)@) == add_off(offs_view(old(offl)@), o as int),
{
    let ghost v0 = offs_view(offl@);
    let mut i: usize = 0;
    while i < offl.len()
        invariant
            i <= offl@.len(),
            v0 == offs_view(offl@),
            forall|k: int| 0 <= k < i ==> offl@[k] != o,
        decreases offl@.len() - i,
    {
        if offl[i] == o {
            assert(v0[i as int] == o as int);
            assert(v0.contains(o as int));
            return;
        }
        i = i + 1;
    }
    assert(!v0.contains(o as int)) by {
        if v0.contains(o as int) {
            let k = choose|k: int| 0 <= k < v0.len() && v0[k] == o as int;
            assert(offl@[k] != o);
        }
    }
    offl.push(o);
    assert(offs_view(offl@) =~= v0.push(o as int));
}

fn parity_reqs_x(w: bool, p: i32, offl: &Vec<i32>, out: &mut Vec<Req>)
    ensures
        final(out)@ == old(out)@ + parity_reqs(w, p as int, offs_view(offl@)),
{
    let ghost base = out@;
    let n = offl.len();
    let mut i: usize = 0;
    while i < n
        invariant
            n == offl@.len(),
            i <= n,
            out@ == base + parity_reqs(w, p as int, offs_view(offl@)).take(i as int),
        decreases n - i,
    {
        out.push(mk_req(w, p, offl[i], i == n - 1));
        i = i + 1;
        assert(out@ =~= base + parity_reqs(w, p as int, offs_view(offl@)).take(i as int));
    }
    assert(parity_reqs(w, p as int, offs_view(offl@)).take(i as int) =~= parity_reqs(w, p as int, offs_view(offl@)));
}

fn rmw_reads_x(c: RaidCfg, v0: i32, end: i32, p: i32, out: &mut Vec<Req>) -> (f: Option<RaidError>)
    ensures
        final(out)@ == old(out)@ + rmw_reads(c, v0 as int, end as int, Seq::empty(), p as int).0,
        f == rmw_reads(c, v0 as int, end as int, Seq::empty(), p as int).1,
{
    let ghost base = out@;
    let mut offl: Vec<i32> = Vec::new();
    let mut v = v0;
    assert(offs_view(offl@) =~= Seq::<int>::empty());
    while v < end
        invariant
            v0 <= v,
            v0 < end ==> v <= end,
            base == old(out)@,
            base + rmw_reads(c, v0 as int, end as int, Seq::empty(), p as int).0 == out@ + rmw_reads(c, v as int, end as int, offs_view(offl@), p as int).0,
            rmw_reads(c, v0 as int, end as int, Seq::empty(), p as int).1 == rmw_reads(c, v as int, end as int, offs_view(offl@), p as int).1,
        decreases end - v,
    {
        let ghost before = out@;
        match map45_x(c, v) {
            Err(e) => {
                assert(out@ + Seq::<Req>::empty() =~= out@);
                return Some(e);
            },
            Ok((d, o)) => {
                add_off_x(&mut offl, o);
                let ghost rest = rmw_reads(c, v + 1, end as int, offs_view(offl@), p as int);
                out.push(mk_req(false, d, o, false));
                parity_reqs_x(false, p, &offl, out);
                proof {
                    let rs = seq![req(false, d as int, o as int, false)] + parity_reqs(false, p as int, offs_view(offl@));
                    assert(out@ =~= before + rs);
                    assert(before + (rs + rest.0) =~= out@ + rest.0);
                }
            },
        }
        v = v + 1;
    }
    assert(out@ + Seq::<Req>::empty() =~= out@);
    None
}

fn range_reads_x(c: RaidCfg, v0: i32, hi: i32, nl_at: i64, nl_ok: bool, out: &mut Vec<Req>) -> (f: Option<RaidError>)
    ensures
        final(out)@ == old(out)@ + range_reads(c, v0 as int, hi as int, nl_at as int, nl_ok).0,
        f == range_reads(c, v0 as int, hi as int, nl_at as int, nl_ok).1,
{
    let ghost base = out@;
    let mut v = v0;
    while v < hi
        invariant
            v0 <= v,
            v0 < hi ==> v <= hi,
            base == old(out)@,
            base + range_reads(c, v0 as int, hi as int, nl_at as int, nl_ok).0 == out@ + range_reads(c, v as int, hi as int, nl_at as int, nl_ok).0,
            range_reads(c, v0 as int, hi as int, nl_at as int, nl_ok).1 == range_reads(c, v as int, hi as int, nl_at as int, nl_ok).1,
        decreases hi - v,
    {
        let ghost before = out@;
        let ghost rest = range_reads(c, v + 1, hi as int, nl_at as int, nl_ok);
        match map45_x(c, v) {
            Err(e) => {
                assert(out@ + Seq::<Req>::empty() =~= out@);
                return Some(e);
            },
            Ok((d, o)) => {
                out.push(mk_req(false, d, o, v as i64 == nl_at && nl_ok));
                proof {
                    assert(before + (seq![req(false, d as int, o as int, v == nl_at && nl_ok)] + rest.0) =~= out@ + rest.0);
                }
            },
        }
        v = v + 1;
    }
    assert(out@ + Seq::<Req>::empty() =~= out@);
    None
}

fn data_writes_x(c: RaidCfg, v0: i32, end: i32, offl: &mut Vec<i32>, out: &mut Vec<Req>) -> (f: Option<RaidError>)
    ensures
        ({
            let w = data_writes(c, v0 as int, end as int, offs_view(old(offl)@));
            &&& final(out)@ == old(out)@ + w.0
            &&& offs_view(final(offl)@) == w.1
            &&& f == w.2
        }),
{
    let ghost base = out@;
    let ghost o0 = offs_view(offl@);
    let mut v = v0;
    while v < end
        invariant
            v0 <= v,
            v0 < end ==> v <= end,
            base == old(out)@,
            o0 == offs_view(old(offl)@),
            base + data_writes(c, v0 as int, end as int, o0).0 == out@ + data_writes(c, v as int, end as int, offs_view(offl@)).0,
            data_writes(c, v0 as int, end as int, o0).1 == data_writes(c, v as int, end as int, offs_view(offl@)).1,
            data_writes(c, v0 as int, end as int, o0).2 == data_writes(c, v as int, end as int, offs_view(offl@)).2,
        decreases end - v,
    {
        let ghost before = out@;
        match map45_x(c, v) {
            Err(e) => {
                assert(out@ + Seq::<Req>::empty() =~= out@);
                return Some(e);
            },
            Ok((d, o)) => {
                add_off_x(offl, o);
                let ghost rest = data_writes(c, v + 1, end as int, offs_view(offl@));
                out.push(mk_req(true, d, o, false));
                proof {
                    assert(before + (seq![req(true, d as int, o as int, false)] + rest.0) =~= out@ + rest.0);
                }
            },
        }
        v = v + 1;
    }
    assert(out@ + Seq::<Req>::empty() =~= out@);
    None
}

fn pmap_x(c: RaidCfg, stripe: i32) -> (r: Result<i32, RaidError>)
    ensures
        match r {
            Ok(p) => pmap_spec(c, stripe as int) == Ok::<int, RaidError>(p as int),
            Err(e) => pmap_spec(c, stripe as int) == Err::<int, RaidError>(e),
        },
{
    if c.level == 4 {
        Ok(c.pdisk)
    } else {
        let b = match mul_x(stripe, c.blocks_in_stripe) {
            Err(e) => {
                return Err(e);
            },
            Ok(v) => v,
        };
        match map5_x(c, b) {
            Err(e) => Err(e),
            Ok(_) => Ok(c.pdisk),
        }
    }
}

fn partial_write_x(c: RaidCfg, stripe: i32, begin: i32, end: i32, out: &mut Vec<Req>) -> (f: Option<RaidError>)
    ensures
        final(out)@ == old(out)@ + partial_write(c, stripe as int, begin as int, end as int).0,
        f == partial_write(c, stripe as int, begin as int, end as int).1,
{
    let ghost base = out@;
    let num = match fit_x(end as i64 - begin as i64) {
        Err(e) => {
            assert(out@ + Seq::<Req>::empty() =~= out@);
            return Some(e);
        },
        Ok(v) => v,
    };
    let p = match pmap_x(c, stripe) {
        Err(e) => {
            assert(out@ + Seq::<Req>::empty() =~= out@);
            return Some(e);
        },
        Ok(v) => v,
    };
    let n1 = match fit_x(num as i64 + 1) {
        Err(e) => {
            assert(out@ + Seq::<Req>::empty() =~= out@);
            return Some(e);
        },
        Ok(v) => v,
    };
    let rest_blocks = match fit_x(c.blocks_in_stripe as i64 - num as i64) {
        Err(e) => {
            assert(out@ + Seq::<Req>::empty() =~= out@);
            return Some(e);
        },
        Ok(v) => v,
    };
    if n1 <= rest_blocks {
        match rmw_reads_x(c, begin, end, p, out) {
            Some(e) => {
                return Some(e);
            },
            None => {},
        }
    } else {
        let sb = match mul_x(stripe, c.blocks_in_stripe) {
            Err(e) => {
                assert(out@ + Seq::<Req>::empty() =~= out@);
                return Some(e);
            },
            Ok(v) => v,
        };
        let se = match fit_x(sb as i64 + c.blocks_in_stripe as i64) {
            Err(e) => {
                assert(out@ + Seq::<Req>::empty() =~= out@);
                return Some(e);
            },
            Ok(v) => v,
        };
        match range_reads_x(c, sb, begin, begin as i64 - 1, end == se, out) {
            Some(e) => {
                return Some(e);
            },
            None => {},
        }
        let ghost mid = out@;
        match range_reads_x(c, end, se, se as i64 - 1, true, out) {
            Some(e) => {
                proof {
                    let r1 = range_reads(c, sb as int, begin as int, begin - 1, end == se);
                    let r2 = range_reads(c, end as int, se as int, se - 1, true);
                    assert(out@ =~= base + (r1.0 + r2.0));
                }
                return Some(e);
            },
            None => {},
        }
        proof {
            let r1 = range_reads(c, sb as int, begin as int, begin - 1, end == se);
            let r2 = range_reads(c, end as int, se as int, se - 1, true);
            assert(out@ =~= base + (r1.0 + r2.0));
        }
    }
    let ghost after_reads = out@;
    let mut offl: Vec<i32> = Vec::new();
    assert(offs_view(offl@) =~= Seq::<int>::empty());
    match data_writes_x(c, begin, end, &mut offl, out) {
        Some(e) => {
            proof {
                let w = data_writes(c, begin as int, end as int, Seq::empty());
                assert(out@ =~= base + (after_reads.subrange(base.len() as int, after_reads.len() as int) + w.0));
            }
            return Some(e);
        },
        None => {},
    }
    let ghost after_w = out@;
    parity_reqs_x(true, p, &offl, out);
    proof {
        let w = data_writes(c, begin as int, end as int, Seq::empty());
        let reads = after_reads.subrange(base.len() as int, after_reads.len() as int);
        assert(after_reads =~= base + reads);
        assert(out@ =~= base + (reads + w.0 + parity_reqs(true, p as int, w.1)));
    }
    None
}

fn write45_x(c: RaidCfg, s0: i32, fin: i32, left0: i32, begin0: i32, out: &mut Vec<Req>) -> (f: Option<RaidError>)
    ensures
        final(out)@ == old(out)@ + write45(c, s0 as int, fin as int, left0 as int, begin0 as int).0,
        f == write45(c, s0 as int, fin as int, left0 as int, begin0 as int).1,
{
    let ghost base = out@;
    let mut stripe = s0;
    let mut left = left0;
    let mut begin = begin0;
    while stripe < fin
        invariant
            s0 <= stripe,
            s0 < fin ==> stripe <= fin,
            base == old(out)@,
            base + write45(c, s0 as int, fin as int, left0 as int, begin0 as int).0 == out@ + write45(c, stripe as int, fin as int, left as int, begin as int).0,
            write45(c, s0 as int, fin as int, left0 as int, begin0 as int).1 == write45(c, stripe as int, fin as int, left as int, begin as int).1,
        decreases fin - stripe,
    {
        let ghost before = out@;
        let sb = match mul_x(stripe, c.blocks_in_stripe) {
            Err(e) => {
                assert(out@ + Seq::<Req>::empty() =~= out@);
                return Some(e);
            },
            Ok(v) => v,
        };
        let eos = match fit_x(sb as i64 + c.blocks_in_stripe as i64) {
            Err(e) => {
                assert(out@ + Seq::<Req>::empty() =~= out@);
                return Some(e);
            },
            Ok(v) => v,
        };
        let e0 = if left >= c.blocks_in_stripe {
            match fit_x(begin as i64 + c.blocks_in_stripe as i64) {
                Err(e) => {
                    assert(out@ + Seq::<Req>::empty() =~= out@);
                    return Some(e);
                },
                Ok(v) => v,
            }
        } else {
            match fit_x(begin as i64 + left as i64) {
                Err(e) => {
                    assert(out@ + Seq::<Req>::empty() =~= out@);
                    return Some(e);
                },
                Ok(v) => v,
            }
        };
        let end = if e0 >= eos { eos } else { e0 };
        match partial_write_x(c, stripe, begin, end, out) {
            Some(e) => {
                return Some(e);
            },
            None => {},
        }
        let ghost pw = out@;
        let left2 = match fit_x(left as i64 - (end as i64 - begin as i64)) {
            Err(e) => {
                return Some(e);
            },
            Ok(v) => v,
        };
        proof {
            let rest = write45(c, stripe + 1, fin as int, left2 as int, end as int);
            let pwr = partial_write(c, stripe as int, begin as int, end as int);
            assert(before + (pwr.0 + rest.0) =~= out@ + rest.0);
        }
        left = left2;
        begin = end;
        stripe = stripe + 1;
    }
    assert(out@ + Seq::<Req>::empty() =~= out@);
    None
}

/// The physical requests of a logical request (see `enqueue_spec`).
pub fn enqueue_reqs(c: RaidCfg, addr: i32, size: i32, is_write: bool) -> (r: (Vec<Req>, Option<RaidError>))
    ensures
        r.0@ == enqueue_spec(c, addr as int, size as int, is_write).0,
        r.1 == enqueue_spec(c, addr as int, size as int, is_write).1,
{
    let mut out: Vec<Req> = Vec::new();
    if c.level == 0 || c.level == 1 || ((c.level == 4 || c.level == 5) && !is_write) {
        let hi = match fit_x(addr as i64 + size as i64) {
            Err(e) => {
                return (out, Some(e));
            },
            Ok(v) => v,
        };
        let f = gen_blocks_x(c, addr, hi, is_write, &mut out);
        assert(out@ =~= gen_blocks(c, addr as int, hi as int, is_write).0);
        (out, f)
    } else if c.level == 4 || c.level == 5 {
        let init = match div_x(addr, c.blocks_in_stripe) {
            Err(e) => {
                return (out, Some(e));
            },
            Ok(v) => v,
        };
        let t = match fit_x(addr as i64 + size as i64) {
            Err(e) => {
                return (out, Some(e));
            },
            Ok(v) => v,
        };
        let last = match fit_x(t as i64 - 1) {
            Err(e) => {
                return (out, Some(e));
            },
            Ok(v) => v,
        };
        let fin = match div_x(last, c.blocks_in_stripe) {
            Err(e) => {
                return (out, Some(e));
            },
            Ok(v) => v,
        };
        let f = write45_x(c, init, fin, size, addr, &mut out);
        assert(out@ =~= write45(c, init as int, fin as int, size as int, addr as int).0);
        (out, f)
    } else {
        (out, None)
    }
}

/// The options of a RAID run, as given on the command line.
pub struct RaidOption {
    pub seed: u64,
    pub num_disks: i32,
    pub chunk_size: String,
    pub num_requests: i32,
    pub size: String,
    pub workload: String,
    pub write_frac: i32,
    pub range: i32,
    pub level: i32,
    pub raid5type: String,
    pub reverse: bool,
    pub timing: bool,
    pub solve: bool,
}

impl RaidOption {
    /// The defaults: seed 0, four disks, 4k chunks and requests, ten
    /// random reads over 10000 blocks, RAID 0, left-symmetric RAID 5.
    pub fn new() -> (o: RaidOption)
        ensures
            o.seed == 0 && o.num_disks == 4 && o.chunk_size@ == "4k"@ && o.num_requests == 10 && o.size@ == "4k"@,
            o.workload@ == "rand"@ && o.write_frac == 0 && o.range == 10000 && o.level == 0 && o.raid5type@ == "LS"@,
            !o.reverse && !o.timing && !o.solve,
    {
        RaidOption {
            seed: 0,
            num_disks: 4,
            chunk_size: "4k".to_owned(),
            num_requests: 10,
            size: "4k".to_owned(),
            workload: "rand".to_owned(),
            write_frac: 0,
            range: 10000,
            level: 0,
            raid5type: "LS".to_owned(),
            reverse: false,
            timing: false,
            solve: false,
        }
    }
}

/// The size of a block in bytes.
pub const BLOCKSIZE: i32 = 4096;

/// A request size in bytes as a number of blocks (rounded toward zero),
/// and whether it is a whole number of blocks.
pub fn request_blocks(bytes: i32) -> (r: (i32, bool))
    ensures
        r.0 == tdiv(bytes as int, 4096),
        r.1 == (tmod(bytes as int, 4096) == 0),
{
    let q = match div_x(bytes, BLOCKSIZE) {
        Ok(v) => v,
        Err(_) => 0,
    };
    let m = match rem_x(bytes, BLOCKSIZE) {
        Ok(v) => v,
        Err(_) => 0,
    };
    (q, m == 0)
}

/// Whether a workload name means sequential (`s`, `seq`, `sequential`) or
/// random (`r`, `rand`, `random`); `None` for any other name.
pub fn workload_sequential(w: &str) -> (r: Option<bool>)
    ensures
        r == (if w@ == "s"@ || w@ == "seq"@ || w@ == "sequential"@ {
            Some(true)
        } else if w@ == "r"@ || w@ == "rand"@ || w@ == "random"@ {
            Some(false)
        } else {
            None
        }),
{
    if text_eq(w, "seq") || text_eq(w, "s") || text_eq(w, "sequential") {
        Some(true)
    } else if text_eq(w, "rand") || text_eq(w, "r") || text_eq(w, "random") {
        Some(false)
    } else {
        None
    }
}

/// A RAID array: its geometry and its disks.
pub struct Raid {
    pub chunk_size: i32,
    pub num_disks: i32,
    pub raid_level: i32,
    pub layout: Raid5Layout,
    pub disks: Vec<Disk>,
    pub blocks_in_stripe: i32,
    pub pdisk: i32,
}

/// What a logical request did: the physical requests made, in order, how
/// the disks classified those that they took, and what stopped it, if
/// anything: a disk refusing a request (the request after the classified
/// ones), or the mapping (after all the requests made).
pub struct RaidRun {
    pub reqs: Vec<Req>,
    pub kinds: Vec<IoKind>,
    pub disk_fault: Option<RaidError>,
    pub map_fault: Option<RaidError>,
}

impl Raid {
    pub open spec fn cfg(&self) -> RaidCfg {
        RaidCfg {
            chunk_size: self.chunk_size,
            num_disks: self.num_disks,
            level: self.raid_level,
            layout: self.layout,
            blocks_in_stripe: self.blocks_in_stripe,
            pdisk: self.pdisk,
        }
    }

    /// An array of the given geometry, before `init`.
    pub fn new(chunk_size: i32, num_disks: i32, level: i32, layout: Raid5Layout) -> (r: Raid)
        ensures
            r.cfg() == (RaidCfg { chunk_size, num_disks, level, layout, blocks_in_stripe: 0, pdisk: 0 }),
            r.disks@.len() == 0,
    {
        Raid { chunk_size, num_disks, raid_level: level, layout, disks: Vec::new(), blocks_in_stripe: 0, pdisk: 0 }
    }

    /// Sets the stripe and parity disk of levels 4 (the last disk) and 5
    /// (rotating, -1 here), and makes the disks.
    pub fn init(&mut self) -> (r: Result<(), RaidError>)
        requires
            old(self).disks@.len() == 0,
        ensures
            ({
                let c = old(self).cfg();
                let bis = if c.level == 4 || c.level == 5 {
                    match fit(c.num_disks - 1) {
                        Err(e) => Err(e),
                        Ok(n1) => fit(n1 * c.chunk_size),
                    }
                } else {
                    Ok(c.blocks_in_stripe as int)
                };
                match bis {
                    Err(e) => r == Err::<(), RaidError>(e),
                    Ok(b) => r is Ok && final(self).cfg() == (RaidCfg {
                        blocks_in_stripe: b as i32,
                        pdisk: if c.level == 4 { (c.num_disks - 1) as i32 } else if c.level == 5 { -1i32 } else { c.pdisk },
                        ..c
                    }) && final(self).disks@ == Seq::new(if c.num_disks > 0 { c.num_disks as nat } else { 0 }, |i: int| Disk::new_spec()),
                }
            }),
    {
        if self.raid_level == 4 || self.raid_level == 5 {
            let n1 = match fit_x(self.num_disks as i64 - 1) {
                Err(e) => {
                    return Err(e);
                },
                Ok(v) => v,
            };
            let b = match mul_x(n1, self.chunk_size) {
                Err(e) => {
                    return Err(e);
                },
                Ok(v) => v,
            };
            self.blocks_in_stripe = b;
            if self.raid_level == 4 {
                self.pdisk = n1;
            } else {
                self.pdisk = -1;
            }
        }
        let mut i: i32 = 0;
        let ghost c1 = self.cfg();
        while i < self.num_disks
            invariant
                0 <= i,
                self.cfg() == c1,
                self.num_disks == old(self).num_disks,
                self.num_disks >= 0 ==> i <= self.num_disks,
                self.num_disks < 0 ==> i == 0,
                self.disks@ == Seq::new(i as nat, |k: int| Disk::new_spec()),
            decreases self.num_disks - i,
        {
            self.disks.push(Disk::new());
            i = i + 1;
            assert(self.disks@ =~= Seq::new(i as nat, |k: int| Disk::new_spec()));
        }
        assert(self.disks@ =~= Seq::new(if self.num_disks > 0 { self.num_disks as nat } else { 0 }, |k: int| Disk::new_spec()));
        Ok(())
    }

    /// Hands `reqs` to the disks in turn (see `apply_reqs`).
    pub fn apply(&mut self, reqs: &Vec<Req>) -> (r: (Vec<IoKind>, Option<RaidError>))
        ensures
            ({
                let a = apply_reqs(old(self).disks@, reqs@);
                &&& r.0@ == a.1
                &&& r.1 == a.2
                &&& final(self).disks@ == a.0
            }),
            final(self).cfg() == old(self).cfg(),
    {
        let mut kinds: Vec<IoKind> = Vec::new();
        let mut i: usize = 0;
        let ghost d0 = self.disks@;
        assert(reqs@.skip(0) =~= reqs@);
        assert(kinds@ + apply_reqs(d0, reqs@).1 =~= apply_reqs(d0, reqs@).1);
        while i < reqs.len()
            invariant
                i <= reqs@.len(),
                self.cfg() == old(self).cfg(),
                d0 == old(self).disks@,
                ({
                    let whole = apply_reqs(d0, reqs@);
                    let rest = apply_reqs(self.disks@, reqs@.skip(i as int));
                    &&& whole.1 == kinds@ + rest.1
                    &&& whole.2 == rest.2
                    &&& whole.0 == rest.0
                }),
            decreases reqs@.len() - i,
        {
            let r = reqs[i];
            assert(reqs@.skip(i as int)[0] == r);
            assert(reqs@.skip(i as int).drop_first() =~= reqs@.skip(i + 1));
            if r.disk < 0 || r.disk as usize >= self.disks.len() {
                assert(kinds@ + Seq::<IoKind>::empty() =~= kinds@);
                return (kinds, Some(RaidError::NoSuchDisk(r.disk)));
            }
            let mut d = self.disks[r.disk as usize];
            if r.off >= d.blocks_per_disk {
                assert(kinds@ + Seq::<IoKind>::empty() =~= kinds@);
                return (kinds, Some(RaidError::BeyondDisk(r.off)));
            }
            match d.enqueue(r.off) {
                Err(e) => {
                    assert(kinds@ + Seq::<IoKind>::empty() =~= kinds@);
                    return (kinds, Some(e));
                },
                Ok(k) => {
                    self.disks.set(r.disk as usize, d);
                    let ghost kv = kinds@;
                    kinds.push(k);
                    proof {
                        let rest = apply_reqs(self.disks@, reqs@.skip(i + 1));
                        assert(kv + (seq![k] + rest.1) =~= kinds@ + rest.1);
                    }
                },
            }
            i = i + 1;
        }
        assert(reqs@.skip(i as int) =~= Seq::<Req>::empty());
        assert(kinds@ + Seq::<IoKind>::empty() =~= kinds@);
        (kinds, None)
    }

    /// A logical request of `size` blocks at `addr`: the physical requests
    /// it becomes (see `enqueue_spec`), handed to the disks in turn.
    pub fn enqueue(&mut self, addr: i32, size: i32, is_write: bool) -> (run: RaidRun)
        ensures
            ({
                let g = enqueue_spec(old(self).cfg(), addr as int, size as int, is_write);
                let a = apply_reqs(old(self).disks@, g.0);
                &&& run.reqs@ == g.0
                &&& run.kinds@ == a.1
                &&& run.disk_fault == a.2
                &&& run.map_fault == g.1
                &&& final(self).disks@ == a.0
            }),
            final(self).cfg() == old(self).cfg(),
    {
        let c = RaidCfg {
            chunk_size: self.chunk_size,
            num_disks: self.num_disks,
            level: self.raid_level,
            layout: self.layout,
            blocks_in_stripe: self.blocks_in_stripe,
            pdisk: self.pdisk,
        };
        let (reqs, map_fault) = enqueue_reqs(c, addr, size, is_write);
        let (kinds, disk_fault) = self.apply(&reqs);
        RaidRun { reqs, kinds, disk_fault, map_fault }
    }
}

impl Disk {
    pub open spec fn new_spec() -> Disk {
        Disk {
            seek_time: 10,
            queue_len: 8,
            curr_addr: -10000i32,
            num_tracks: 100,
            blocks_per_track: 100,
            blocks_per_disk: 10000,
            count_io: 0,
            count_seq: 0,
            count_nseq: 0,
            count_rand: 0,
        }
    }
}

/// Every request a disk takes is counted once as sequential, nearby or
/// random: where the count of requests is the sum of the three kinds, it
/// stays so after a request is taken.
pub proof fn law_disk_counts_add_up(d: Disk, addr: i32)
    requires
        d.count_io == d.count_seq + d.count_nseq + d.count_rand,
        disk_enqueue_spec(d, addr as int) is Ok,
    ensures
        ({
            let d1 = disk_enqueue_spec(d, addr as int)->Ok_0.0;
            &&& d1.count_io == d1.count_seq + d1.count_nseq + d1.count_rand
            &&& d1.count_io == d.count_io + 1
            &&& d1.curr_addr == addr
        }),
{
}

/// RAID 0 places every block where it can be found again: with a positive
/// chunk size and number of disks, block `b` (not negative) lands on a disk
/// of the array, and its chunk row, disk and place in the chunk give `b`
/// back.
pub proof fn law_raid0_placement(c: RaidCfg, b: int)
    requires
        c.chunk_size > 0,
        c.num_disks > 0,
        0 <= b <= i32::MAX,
        map0(c, b) is Ok,
    ensures
        ({
            let (d, o) = map0(c, b)->Ok_0;
            &&& 0 <= d < c.num_disks
            &&& 0 <= o
            &&& b == ((o / (c.chunk_size as int)) * c.num_disks + d) * c.chunk_size + o % (c.chunk_size as int)
        }),
{
    let cs = c.chunk_size as int;
    let nd = c.num_disks as int;
    let cnum = b / cs;
    let coff = b % cs;
    vstd::arithmetic::div_mod::lemma_fundamental_div_mod(b, cs);
    vstd::arithmetic::div_mod::lemma_mod_pos_bound(b, cs);
    assert(cnum >= 0) by {
        vstd::arithmetic::div_mod::lemma_div_pos_is_pos(b, cs);
    }
    assert(tdiv(b, cs) == cnum);
    assert(tmod(b, cs) == coff);
    vstd::arithmetic::div_mod::lemma_fundamental_div_mod(cnum, nd);
    vstd::arithmetic::div_mod::lemma_mod_pos_bound(cnum, nd);
    let d = cnum % nd;
    let q = cnum / nd;
    assert(q >= 0) by {
        vstd::arithmetic::div_mod::lemma_div_pos_is_pos(cnum, nd);
    }
    assert(tdiv(cnum, nd) == q);
    assert(tmod(cnum, nd) == d);
    let o = q * cs + coff;
    assert(q * cs >= 0) by (nonlinear_arith)
        requires
            q >= 0,
            cs > 0,
    ;
    assert(map0(c, b) == Ok::<(int, int), RaidError>((d, o)));
    vstd::arithmetic::div_mod::lemma_fundamental_div_mod_converse(o, cs, q, coff);
    assert(b == (q * nd + d) * cs + coff) by (nonlinear_arith)
        requires
            b == cs * cnum + coff,
            cnum == nd * q + d,
    ;
}

/// RAID 5 puts block `b` on its data disk at the offset of its stripe row:
/// with `cs` blocks to a chunk and `nd` disks, chunk `b / cs` lies in row
/// `(b / cs) / (nd - 1)` (each row holds `nd - 1` data chunks), so the
/// offset is that row times `cs` plus `b % cs`; its row and place in the
/// chunk come back from the offset, and the data disk is not the parity
/// disk.
pub proof fn law_raid5_offset(c: RaidCfg, b: int)
    requires
        c.chunk_size > 0,
        c.num_disks >= 2,
        0 <= b <= i32::MAX,
        map5(c, b) is Ok,
    ensures
        ({
            let (d, p, o) = map5(c, b)->Ok_0;
            let cs = c.chunk_size as int;
            let row = (b / cs) / (c.num_disks - 1);
            &&& o == row * cs + b % cs
            &&& o / cs == row
            &&& o % cs == b % cs
            &&& 0 <= o
            &&& d != p
        }),
{
    let cs = c.chunk_size as int;
    let nd1 = c.num_disks - 1;
    let cnum = b / cs;
    let coff = b % cs;
    vstd::arithmetic::div_mod::lemma_fundamental_div_mod(b, cs);
    vstd::arithmetic::div_mod::lemma_mod_pos_bound(b, cs);
    assert(cnum >= 0) by {
        vstd::arithmetic::div_mod::lemma_div_pos_is_pos(b, cs);
    }
    assert(tdiv(b, cs) == cnum);
    assert(tmod(b, cs) == coff);
    let row = cnum / nd1;
    assert(row >= 0) by {
        vstd::arithmetic::div_mod::lemma_div_pos_is_pos(cnum, nd1);
    }
    assert(tdiv(cnum, nd1) == row);
    assert(row * cs >= 0) by (nonlinear_arith)
        requires
            row >= 0,
            cs > 0,
    ;
    let o = map5(c, b)->Ok_0.2;
    assert(o == row * cs + coff);
    vstd::arithmetic::div_mod::lemma_fundamental_div_mod_converse(o, cs, row, coff);
}

/// RAID 4 stripes data chunks over all disks but the last (which holds
/// parity): block `b` lands on disk `(b / cs) % (nd - 1)`, never the parity
/// disk, at the offset of its stripe row, `((b / cs) / (nd - 1)) * cs + b % cs`.
pub proof fn law_raid4_placement(c: RaidCfg, b: int)
    requires
        c.chunk_size > 0,
        c.num_disks >= 2,
        0 <= b <= i32::MAX,
        map4(c, b) is Ok,
    ensures
        ({
            let (d, o) = map4(c, b)->Ok_0;
            let cs = c.chunk_size as int;
            &&& d == (b / cs) % (c.num_disks - 1)
            &&& 0 <= d < c.num_disks - 1
            &&& o == ((b / cs) / (c.num_disks - 1)) * cs + b % cs
        }),
{
    let cs = c.chunk_size as int;
    let nd1 = c.num_disks - 1;
    let cnum = b / cs;
    vstd::arithmetic::div_mod::lemma_fundamental_div_mod(b, cs);
    vstd::arithmetic::div_mod::lemma_mod_pos_bound(b, cs);
    assert(cnum >= 0) by {
        vstd::arithmetic::div_mod::lemma_div_pos_is_pos(b, cs);
    }
    assert(tdiv(b, cs) == cnum);
    assert(tmod(b, cs) == b % cs);
    vstd::arithmetic::div_mod::lemma_fundamental_div_mod(cnum, nd1);
    vstd::arithmetic::div_mod::lemma_mod_pos_bound(cnum, nd1);
    assert(cnum / nd1 >= 0) by {
        vstd::arithmetic::div_mod::lemma_div_pos_is_pos(cnum, nd1);
    }
    assert(tdiv(cnum, nd1) == cnum / nd1);
    assert(tmod(cnum, nd1) == cnum % nd1);
}

/// RAID 5 rotates the parity: in stripe row `r` (see `law_raid5_offset`)
/// the parity sits on disk `(nd - 1) - r % nd`, and under the
/// left-asymmetric layout the data chunks take the other disks in order,
/// skipping the parity disk: data disk `(b / cs) % (nd - 1)`, moved one on
/// where it reaches the parity disk.
pub proof fn law_raid5_disks(c: RaidCfg, b: int)
    requires
        c.chunk_size > 0,
        c.num_disks >= 2,
        0 <= b <= i32::MAX,
        map5(c, b) is Ok,
    ensures
        ({
            let (d, p, o) = map5(c, b)->Ok_0;
            let cs = c.chunk_size as int;
            let nd = c.num_disks as int;
            let row = (b / cs) / (nd - 1);
            let d0 = (b / cs) % (nd - 1);
            &&& p == (nd - 1) - row % nd
            &&& 0 <= p < nd
            &&& c.layout == Raid5Layout::LeftAsymmetric ==> d == (if d0 >= p { d0 + 1 } else { d0 }) && 0 <= d < nd
        }),
{
    let cs = c.chunk_size as int;
    let nd = c.num_disks as int;
    let nd1 = nd - 1;
    let cnum = b / cs;
    vstd::arithmetic::div_mod::lemma_fundamental_div_mod(b, cs);
    vstd::arithmetic::div_mod::lemma_mod_pos_bound(b, cs);
    assert(cnum >= 0) by {
        vstd::arithmetic::div_mod::lemma_div_pos_is_pos(b, cs);
    }
    assert(tdiv(b, cs) == cnum);
    assert(tmod(b, cs) == b % cs);
    vstd::arithmetic::div_mod::lemma_fundamental_div_mod(cnum, nd1);
    vstd::arithmetic::div_mod::lemma_mod_pos_bound(cnum, nd1);
    let row = cnum / nd1;
    assert(row >= 0) by {
        vstd::arithmetic::div_mod::lemma_div_pos_is_pos(cnum, nd1);
    }
    assert(tdiv(cnum, nd1) == row);
    assert(tmod(cnum, nd1) == cnum % nd1);
    vstd::arithmetic::div_mod::lemma_fundamental_div_mod(row, nd);
    vstd::arithmetic::div_mod::lemma_mod_pos_bound(row, nd);
    assert(row / nd >= 0) by {
        vstd::arithmetic::div_mod::lemma_div_pos_is_pos(row, nd);
    }
    assert(tdiv(row, nd) == row / nd);
    assert(tmod(row, nd) == row % nd);
}

/// A read of one block at RAID 4 or 5 is one read request, of that block's
/// data disk at its offset (see `law_raid4_placement`, `law_raid5_offset`
/// and `law_raid5_disks`), and nothing else.
pub proof fn law_raid45_read_one(c: RaidCfg, b: int)
    requires
        c.level == 4 || c.level == 5,
        in_i32(b + 1),
        map45(c, b) is Ok,
    ensures
        c.level == 4 ==> enqueue_spec(c, b, 1, false) == (seq![req(false, map4(c, b)->Ok_0.0, map4(c, b)->Ok_0.1, false)], None::<RaidError>),
        c.level == 5 ==> enqueue_spec(c, b, 1, false) == (seq![req(false, map5(c, b)->Ok_0.0, map5(c, b)->Ok_0.2, false)], None::<RaidError>),
{
    let r = gen_here(c, b, false)->Ok_0;
    assert(gen_blocks(c, b + 1, b + 1, false) == (Seq::<Req>::empty(), None::<RaidError>));
    assert(r + Seq::<Req>::empty() =~= r);
}

/// RAID 1 keeps two copies: block `b` maps to a pair of neighbouring disks
/// at the same offset, and a write goes to both.
pub proof fn law_raid1_mirrors(c: RaidCfg, b: int)
    requires
        c.level == 1,
        map1(c, b) is Ok,
    ensures
        ({
            let (d1, d2, o) = map1(c, b)->Ok_0;
            &&& d2 == d1 + 1
            &&& gen_here(c, b, true) == Ok::<Seq<Req>, RaidError>(seq![req(true, d1, o, false), req(true, d2, o, true)])
        }),
{
}

} // verus!
