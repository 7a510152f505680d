//! The machine of the x86-like thread simulator: seven registers, six
//! condition codes, a word-addressed memory whose cells hold text, the
//! instructions that act on them, and the loader that reads a program's
//! lines into variables, labels and memory.

use vstd::prelude::*;
use std::collections::HashMap;
use crate::text::{spec_parse_i32, int_decimal, int_to_string, lemma_parse_decimal, is_digit, parse_i32_range, vec_chars_eq};
use crate::assoc::{first_key, assoc_get, assoc_put, lemma_first_key_range, lemma_first_key_push, lemma_first_key_update};
use crate::text::{chars_of, push_int};

verus! {

broadcast use vstd::std_specs::hash::group_hash_axioms;

pub const COND_GT: u8 = 0;
pub const COND_GTE: u8 = 1;
pub const COND_LT: u8 = 2;
pub const COND_LTE: u8 = 3;
pub const COND_EQ: u8 = 4;
pub const COND_NEQ: u8 = 5;

pub const REG_ZERO: u8 = 0;
pub const REG_AX: u8 = 1;
pub const REG_BX: u8 = 2;
pub const REG_CX: u8 = 3;
pub const REG_DX: u8 = 4;
pub const REG_SP: u8 = 5;
pub const REG_BP: u8 = 6;

/// What an instruction hands back: go on, halt the thread, or yield the CPU.
pub const RC_NEXT: i32 = 0;
pub const RC_HALT: i32 = -1;
pub const RC_YIELD: i32 = -2;

/// The register that a name denotes: `zero`, `ax`, `bx`, `cx`, `dx`, `sp`, `bp`.
pub open spec fn reg_of_name(n: Seq<char>) -> Option<u8> {
    if n =~= seq!['z', 'e', 'r', 'o'] {
        Some(REG_ZERO)
    } else if n =~= seq!['a', 'x'] {
        Some(REG_AX)
    } else if n =~= seq!['b', 'x'] {
        Some(REG_BX)
    } else if n =~= seq!['c', 'x'] {
        Some(REG_CX)
    } else if n =~= seq!['d', 'x'] {
        Some(REG_DX)
    } else if n =~= seq!['s', 'p'] {
        Some(REG_SP)
    } else if n =~= seq!['b', 'p'] {
        Some(REG_BP)
    } else {
        None
    }
}

/// The name of register `r`.
pub open spec fn name_of_reg(r: u8) -> Seq<char> {
    if r == REG_ZERO {
        seq!['z', 'e', 'r', 'o']
    } else if r == REG_AX {
        seq!['a', 'x']
    } else if r == REG_BX {
        seq!['b', 'x']
    } else if r == REG_CX {
        seq!['c', 'x']
    } else if r == REG_DX {
        seq!['d', 'x']
    } else if r == REG_SP {
        seq!['s', 'p']
    } else {
        seq!['b', 'p']
    }
}

/// The register a name denotes, and the zero register for any other name.
pub open spec fn reg_translate(n: Seq<char>) -> u8 {
    match reg_of_name(n) {
        Some(r) => r,
        None => REG_ZERO,
    }
}

/// The register that `name` denotes, if any.
pub fn register_number(name: &Vec<char>) -> (r: Option<u8>)
    ensures
        r == reg_of_name(name@),
{
    let n = name.len();
    if n == 4 {
        if name[0] == 'z' && name[1] == 'e' && name[2] == 'r' && name[3] == 'o' {
            assert(name@ =~= seq!['z', 'e', 'r', 'o']);
            return Some(REG_ZERO);
        }
        return None;
    }
    if n != 2 || name[1] != 'x' && name[1] != 'p' {
        return None;
    }
    let a = name[0];
    let b = name[1];
    assert(name@ =~= seq![a, b]);
    if b == 'x' {
        if a == 'a' {
            Some(REG_AX)
        } else if a == 'b' {
            Some(REG_BX)
        } else if a == 'c' {
            Some(REG_CX)
        } else if a == 'd' {
            Some(REG_DX)
        } else {
            None
        }
    } else {
        if a == 's' {
            Some(REG_SP)
        } else if a == 'b' {
            Some(REG_BP)
        } else {
            None
        }
    }
}

/// The register `name` denotes, or the zero register.
pub fn register_translate(name: &Vec<char>) -> (r: u8)
    ensures
        r == reg_translate(name@),
{
    match register_number(name) {
        Some(r) => r,
        None => REG_ZERO,
    }
}

/// The name of register `r`.
pub fn register_name(r: u8) -> (s: String)
    requires
        r <= REG_BP,
    ensures
        s@ == name_of_reg(r),
{
    let mut s = String::new();
    if r == REG_ZERO {
        s.push('z');
        s.push('e');
        s.push('r');
        s.push('o');
    } else {
        let a = if r == REG_AX {
            'a'
        } else if r == REG_BX || r == REG_BP {
            'b'
        } else if r == REG_CX {
            'c'
        } else if r == REG_DX {
            'd'
        } else {
            's'
        };
        let b = if r == REG_SP || r == REG_BP {
            'p'
        } else {
            'x'
        };
        s.push(a);
        s.push(b);
    }
    assert(s@ =~= name_of_reg(r));
    s
}

/// The state that the instructions act on.
pub struct MachineState {
    pub pc: int,
    pub regs: Seq<i32>,
    pub conds: Seq<bool>,
    pub mem: Map<i32, Seq<char>>,
}

pub open spec fn mem_view(m: Map<i32, String>) -> Map<i32, Seq<char>> {
    m.map_values(|s: String| s@)
}

pub open spec fn machine_wf(s: MachineState) -> bool {
    s.regs.len() == 7 && s.conds.len() == 6
}

pub open spec fn is_reg(r: u8) -> bool {
    r <= REG_BP
}

pub open spec fn with_reg(s: MachineState, r: u8, v: int) -> MachineState {
    MachineState { regs: s.regs.update(r as int, v as i32), ..s }
}

/// The address `value + r1 + r2` that a memory operand denotes.
pub open spec fn address(s: MachineState, value: i32, r1: u8, r2: u8) -> int {
    value + s.regs[r1 as int] + s.regs[r2 as int]
}

pub open spec fn fits_i32(v: int) -> bool {
    i32::MIN <= v <= i32::MAX
}

/// `s` with the decimal text of `v` written into cell `a`.
pub open spec fn store(s: MachineState, a: int, v: int) -> MachineState {
    MachineState { mem: s.mem.insert(a as i32, int_decimal(v)), ..s }
}

/// The number that cell `a` holds, if it holds one.
pub open spec fn word(s: MachineState, a: int) -> Option<i32> {
    if fits_i32(a) && s.mem.contains_key(a as i32) {
        spec_parse_i32(s.mem[a as i32])
    } else {
        None
    }
}

pub open spec fn sp(s: MachineState) -> int {
    s.regs[REG_SP as int] as int
}

// Instructions, one function each from the state before to the state after.

pub open spec fn move_m_to_r_spec(s: MachineState, value: i32, r1: u8, r2: u8, dst: u8) -> MachineState {
    with_reg(s, dst, word(s, address(s, value, r1, r2))->0 as int)
}

pub open spec fn atomic_exchange_spec(s: MachineState, src: u8, value: i32, r1: u8, r2: u8) -> MachineState {
    let a = address(s, value, r1, r2);
    with_reg(store(s, a, s.regs[src as int] as int), src, word(s, a)->0 as int)
}

pub open spec fn fetchadd_spec(s: MachineState, src: u8, value: i32, r1: u8, r2: u8) -> MachineState {
    let a = address(s, value, r1, r2);
    let old = word(s, a)->0 as int;
    with_reg(store(s, a, old + s.regs[src as int]), src, old)
}

/// The condition codes after comparing `dst` with `src`: each code whose
/// comparison holds is set, and a code already set stays set.
pub open spec fn test_spec(s: MachineState, src: u8, dst: u8) -> MachineState {
    let c = s.conds;
    MachineState {
        conds: seq![
            c[0] || dst > src,
            c[1] || dst >= src,
            c[2] || dst < src,
            c[3] || dst <= src,
            c[4] || dst == src,
            c[5] || dst != src,
        ],
        ..s
    }
}

pub open spec fn jump_if_spec(s: MachineState, cond: u8, targ: i32) -> MachineState {
    if s.conds[cond as int] {
        MachineState { pc: targ as int, ..s }
    } else {
        s
    }
}

pub open spec fn call_spec(s: MachineState, targ: i32) -> MachineState {
    let t = with_reg(s, REG_SP, sp(s) - 4);
    MachineState { pc: targ as int, ..store(t, sp(s) - 4, s.pc) }
}

pub open spec fn ret_spec(s: MachineState) -> MachineState {
    MachineState { pc: word(s, sp(s))->0 as int, ..with_reg(s, REG_SP, sp(s) + 4) }
}

pub open spec fn push_r_spec(s: MachineState, reg: u8) -> MachineState {
    let t = with_reg(s, REG_SP, sp(s) - 4);
    store(t, sp(s) - 4, t.regs[reg as int] as int)
}

pub open spec fn push_m_spec(s: MachineState, value: i32, r1: u8, r2: u8) -> MachineState {
    let t = with_reg(s, REG_SP, sp(s) - 4);
    store(t, sp(s) - 4, address(t, value, r1, r2))
}

pub open spec fn pop_r_spec(s: MachineState, dst: u8) -> MachineState {
    let t = with_reg(s, dst, sp(s));
    with_reg(t, REG_SP, sp(t) + 4)
}

/// `value + r1 + r2` computed left to right without leaving the range of `i32`.
pub open spec fn address_ok(s: MachineState, value: i32, r1: u8, r2: u8) -> bool {
    is_reg(r1) && is_reg(r2) && fits_i32(value + s.regs[r1 as int]) && fits_i32(address(s, value, r1, r2))
}

pub proof fn lemma_mem_insert(m: Map<i32, String>, k: i32, t: String)
    ensures
        mem_view(m.insert(k, t)) == mem_view(m).insert(k, t@),
{
    assert(mem_view(m.insert(k, t)) =~= mem_view(m).insert(k, t@));
}

/// The simulated CPU: its registers, condition codes and program counter,
/// its memory, and the program that was loaded into it.
pub struct Cpu {
    /// Number of memory cells: the memory size in KB times 1024.
    pub max_memory: i32,
    pub memtrace: Vec<String>,
    pub regtrace: Vec<String>,
    pub cctrace: bool,
    pub compute: bool,
    pub verbose: bool,
    pub pc: i32,
    /// Indexed by register number.
    pub registers: Vec<i32>,
    /// Indexed by condition code.
    pub conditions: Vec<bool>,
    /// Label name and the address of the instruction that follows it.
    pub labels: Vec<(Vec<char>, i32)>,
    /// Variable name and the address of its cell.
    pub vars: Vec<(Vec<char>, i32)>,
    pub memory: HashMap<i32, String>,
    /// The text of the instruction loaded at each address.
    pub pmemory: HashMap<i32, String>,
}

pub open spec fn table_view(t: Seq<(Vec<char>, i32)>) -> Seq<(Seq<char>, i32)> {
    Seq::new(t.len(), |i: int| (t[i].0@, t[i].1))
}

impl View for Cpu {
    type V = MachineState;

    open spec fn view(&self) -> MachineState {
        MachineState {
            pc: self.pc as int,
            regs: self.registers@,
            conds: self.conditions@,
            mem: mem_view(self.memory@),
        }
    }
}

impl Cpu {
    pub open spec fn wf(&self) -> bool {
        machine_wf(self@)
    }

    pub open spec fn same_program(&self, other: &Cpu) -> bool {
        &&& self.max_memory == other.max_memory
        &&& self.labels@ == other.labels@
        &&& self.vars@ == other.vars@
        &&& self.pmemory@ == other.pmemory@
        &&& self.verbose == other.verbose
    }

    /// A CPU with `memory` KB of memory, all registers zero, all condition
    /// codes clear and nothing in memory yet.
    pub fn new(memory: i32, memtrace: Vec<String>, regtrace: Vec<String>, cctrace: bool, compute: bool, verbose: bool) -> (c: Cpu)
        requires
            fits_i32(memory * 1024),
        ensures
            c.wf(),
            c.max_memory == memory * 1024,
            c.pc == 0,
            forall|r: int| 0 <= r < 7 ==> c.registers@[r] == 0,
            forall|k: int| 0 <= k < 6 ==> !c.conditions@[k],
            c.memory@ == Map::<i32, String>::empty(),
            c.pmemory@ == Map::<i32, String>::empty(),
            c.labels@.len() == 0,
            c.vars@.len() == 0,
            c.memtrace@ == memtrace@,
            c.regtrace@ == regtrace@,
            c.cctrace == cctrace,
            c.compute == compute,
            c.verbose == verbose,
    {
        let mut registers: Vec<i32> = Vec::new();
        let mut i: usize = 0;
        while i < 7
            invariant
                i <= 7,
                registers@.len() == i,
                forall|r: int| 0 <= r < i ==> registers@[r] == 0,
            decreases 7 - i,
        {
            registers.push(0);
            i = i + 1;
        }
        let mut conditions: Vec<bool> = Vec::new();
        let mut j: usize = 0;
        while j < 6
            invariant
                j <= 6,
                conditions@.len() == j,
                forall|k: int| 0 <= k < j ==> !conditions@[k],
            decreases 6 - j,
        {
            conditions.push(false);
            j = j + 1;
        }
        Cpu {
            max_memory: memory * 1024,
            memtrace,
            regtrace,
            cctrace,
            compute,
            verbose,
            pc: 0,
            registers,
            conditions,
            labels: Vec::new(),
            vars: Vec::new(),
            memory: HashMap::new(),
            pmemory: HashMap::new(),
        }
    }

    /// Keeps in the register trace only the names of registers, and gives
    /// every memory cell from 0 below `max_memory` that holds nothing the
    /// text `0`.
    pub fn init(&mut self)
        requires
            old(self).wf(),
        ensures
            final(self).wf(),
            final(self)@.pc == old(self)@.pc,
            final(self)@.regs == old(self)@.regs,
            final(self)@.conds == old(self)@.conds,
            final(self).same_program(old(self)),
            forall|a: i32| #![trigger final(self).memory@.contains_key(a)]
                0 <= a < old(self).max_memory ==> final(self).memory@.contains_key(a),
            forall|a: i32| #![trigger final(self)@.mem[a]]
                final(self).memory@.contains_key(a) ==> final(self)@.mem[a] == (if old(self).memory@.contains_key(a) {
                    old(self)@.mem[a]
                } else {
                    seq!['0']
                }),
            forall|a: i32| #![trigger final(self).memory@.contains_key(a)]
                final(self).memory@.contains_key(a) <==> (old(self).memory@.contains_key(a) || 0 <= a < old(self).max_memory),
            final(self).regtrace@.len() <= old(self).regtrace@.len(),
            forall|i: int| 0 <= i < final(self).regtrace@.len() ==> reg_of_name(#[trigger] final(self).regtrace@[i]@) is Some,
            forall|i: int| 0 <= i < old(self).regtrace@.len() && reg_of_name(#[trigger] old(self).regtrace@[i]@) is Some
                ==> final(self).regtrace@.contains(old(self).regtrace@[i]),
    {
        let mut kept: Vec<String> = Vec::new();
        let mut i: usize = 0;
        while i < self.regtrace.len()
            invariant
                i <= self.regtrace@.len(),
                self.regtrace@ == old(self).regtrace@,
                kept@.len() <= i,
                forall|k: int| 0 <= k < kept@.len() ==> reg_of_name(#[trigger] kept@[k]@) is Some,
                forall|k: int| 0 <= k < i && reg_of_name(#[trigger] self.regtrace@[k]@) is Some ==> kept@.contains(self.regtrace@[k]),
            decreases self.regtrace@.len() - i,
        {
            let name = crate::text::chars_of(self.regtrace[i].as_str());
            if register_number(&name).is_some() {
                let ghost before = kept@;
                kept.push(self.regtrace[i].clone());
                proof {
                    assert forall|k: int| 0 <= k < i && reg_of_name(#[trigger] self.regtrace@[k]@) is Some implies kept@.contains(self.regtrace@[k]) by {
                        let w = choose|m: int| 0 <= m < before.len() && before[m] == self.regtrace@[k];
                        assert(kept@[w] == before[w]);
                    }
                    assert(kept@[kept@.len() - 1] == self.regtrace@[i as int]);
                }
            }
            i = i + 1;
        }
        self.regtrace = kept;
        let ghost kv = self.regtrace@;
        let zero = int_to_string(0);
        assert(zero@ =~= seq!['0']);
        let ghost m0 = self.memory@;
        let mut a: i32 = 0;
        while a < self.max_memory
            invariant
                0 <= a,
                (self.max_memory >= 0 && a <= self.max_memory) || (self.max_memory < 0 && a == 0),
                self.max_memory == old(self).max_memory,
                zero@ == seq!['0'],
                m0 == old(self).memory@,
                self.pc == old(self).pc,
                self.registers@ == old(self).registers@,
                self.conditions@ == old(self).conditions@,
                self.same_program(old(self)),
                self.regtrace@ == kv,
                forall|b: i32| #![trigger self.memory@.contains_key(b)]
                    self.memory@.contains_key(b) <==> (m0.contains_key(b) || 0 <= b < a),
                forall|b: i32| #![trigger self.memory@[b]]
                    self.memory@.contains_key(b) ==> self.memory@[b]@ == (if m0.contains_key(b) { m0[b]@ } else { seq!['0'] }),
            decreases self.max_memory - a,
        {
            if !self.memory.contains_key(&a) {
                self.memory.insert(a, zero.clone());
            }
            a = a + 1;
        }
        proof {
            assert(a == self.max_memory || (self.max_memory < 0 && a == 0));
            assert forall|b: i32| #![trigger self.memory@.contains_key(b)]
                self.memory@.contains_key(b) <==> (old(self).memory@.contains_key(b) || 0 <= b < old(self).max_memory) by {
                assert(self.memory@.contains_key(b) <==> (m0.contains_key(b) || 0 <= b < a));
            }
            assert forall|b: i32| #![trigger self@.mem[b]]
                self.memory@.contains_key(b) implies self@.mem[b] == (if old(self).memory@.contains_key(b) {
                    old(self)@.mem[b]
                } else {
                    seq!['0']
                }) by {
                assert(self.memory@[b]@ == self@.mem[b]);
            }
        }
    }

    /// The register `reg` holds.
    pub fn get_reg(&self, reg: u8) -> (v: i32)
        requires
            self.wf(),
            is_reg(reg),
        ensures
            v == self@.regs[reg as int],
    {
        self.registers[reg as usize]
    }

    pub fn set_reg(&mut self, reg: u8, value: i32)
        requires
            old(self).wf(),
            is_reg(reg),
        ensures
            final(self)@ == with_reg(old(self)@, reg, value as int),
            final(self).same_program(old(self)),
    {
        self.registers.set(reg as usize, value);
    }

    pub fn get_cond(&self, cond: u8) -> (b: bool)
        requires
            self.wf(),
            cond <= COND_NEQ,
        ensures
            b == self@.conds[cond as int],
    {
        self.conditions[cond as usize]
    }

    pub fn set_cond(&mut self, cond: u8, value: bool)
        requires
            old(self).wf(),
            cond <= COND_NEQ,
        ensures
            final(self)@ == (MachineState { conds: old(self)@.conds.update(cond as int, value), ..old(self)@ }),
            final(self).same_program(old(self)),
    {
        self.conditions.set(cond as usize, value);
    }

    pub fn get_pc(&self) -> (p: i32)
        ensures
            p == self.pc,
    {
        self.pc
    }

    pub fn set_pc(&mut self, pc: i32)
        ensures
            final(self)@ == (MachineState { pc: pc as int, ..old(self)@ }),
            final(self).same_program(old(self)),
    {
        self.pc = pc;
    }

    /// What cell `a` holds, if it holds anything.
    pub fn memory_cell(&self, a: i32) -> (r: Option<String>)
        ensures
            match r {
                Some(t) => self.memory@.contains_key(a) && t@ == self@.mem[a],
                None => !self.memory@.contains_key(a),
            },
    {
        match self.memory.get(&a) {
            Some(t) => Some(t.clone()),
            None => None,
        }
    }

    /// The instruction text loaded at `a`, if any.
    pub fn program_cell(&self, a: i32) -> (r: Option<String>)
        ensures
            match r {
                Some(t) => self.pmemory@.contains_key(a) && t == self.pmemory@[a],
                None => !self.pmemory@.contains_key(a),
            },
    {
        match self.pmemory.get(&a) {
            Some(t) => Some(t.clone()),
            None => None,
        }
    }
}

impl Cpu {
    fn address_of(&self, value: i32, reg1: u8, reg2: u8) -> (a: i32)
        requires
            self.wf(),
            address_ok(self@, value, reg1, reg2),
        ensures
            a == address(self@, value, reg1, reg2),
    {
        value + self.registers[reg1 as usize] + self.registers[reg2 as usize]
    }

    /// The number cell `a` holds.
    fn read_word(&self, a: i32) -> (v: i32)
        requires
            word(self@, a as int) is Some,
        ensures
            v == word(self@, a as int)->0,
    {
        let t = self.memory.get(&a).unwrap();
        assert(t@ == self@.mem[a]);
        let cs = crate::text::chars_of(t.as_str());
        assert(cs@.subrange(0, cs@.len() as int) =~= cs@);
        crate::text::parse_i32_range(&cs, 0, cs.len()).unwrap()
    }

    /// Writes the decimal text of `v` into cell `a`.
    fn write_word(&mut self, a: i32, v: i32)
        ensures
            final(self)@ == store(old(self)@, a as int, v as int),
            final(self).same_program(old(self)),
            final(self).registers@ == old(self).registers@,
            final(self).conditions@ == old(self).conditions@,
    {
        let t = int_to_string(v as i64);
        proof {
            lemma_mem_insert(self.memory@, a, t);
        }
        self.memory.insert(a, t);
    }

    pub fn halt(&self) -> (rc: i32)
        ensures
            rc == RC_HALT,
    {
        RC_HALT
    }

    pub fn iyield(&self) -> (rc: i32)
        ensures
            rc == RC_YIELD,
    {
        RC_YIELD
    }

    pub fn nop(&self) -> (rc: i32)
        ensures
            rc == RC_NEXT,
    {
        RC_NEXT
    }

    pub fn move_i_to_r(&mut self, src: i32, dst: u8) -> (rc: i32)
        requires
            old(self).wf(),
            is_reg(dst),
        ensures
            final(self)@ == with_reg(old(self)@, dst, src as int),
            final(self).same_program(old(self)),
            rc == RC_NEXT,
    {
        self.registers.set(dst as usize, src);
        RC_NEXT
    }

    pub fn move_i_to_m(&mut self, src: i32, value: i32, reg1: u8, reg2: u8) -> (rc: i32)
        requires
            old(self).wf(),
            address_ok(old(self)@, value, reg1, reg2),
        ensures
            final(self)@ == store(old(self)@, address(old(self)@, value, reg1, reg2), src as int),
            final(self).same_program(old(self)),
            rc == RC_NEXT,
    {
        let a = self.address_of(value, reg1, reg2);
        self.write_word(a, src);
        RC_NEXT
    }

    pub fn move_m_to_r(&mut self, value: i32, reg1: u8, reg2: u8, dst: u8)
        requires
            old(self).wf(),
            is_reg(dst),
            address_ok(old(self)@, value, reg1, reg2),
            word(old(self)@, address(old(self)@, value, reg1, reg2)) is Some,
        ensures
            final(self)@ == move_m_to_r_spec(old(self)@, value, reg1, reg2, dst),
            final(self).same_program(old(self)),
    {
        let a = self.address_of(value, reg1, reg2);
        let v = self.read_word(a);
        self.registers.set(dst as usize, v);
    }

    pub fn move_r_to_m(&mut self, src: u8, value: i32, reg1: u8, reg2: u8) -> (rc: i32)
        requires
            old(self).wf(),
            is_reg(src),
            address_ok(old(self)@, value, reg1, reg2),
        ensures
            final(self)@ == store(old(self)@, address(old(self)@, value, reg1, reg2), old(self)@.regs[src as int] as int),
            final(self).same_program(old(self)),
            rc == RC_NEXT,
    {
        let a = self.address_of(value, reg1, reg2);
        let v = self.registers[src as usize];
        self.write_word(a, v);
        RC_NEXT
    }

    pub fn move_r_to_r(&mut self, src: u8, dst: u8) -> (rc: i32)
        requires
            old(self).wf(),
            is_reg(src),
            is_reg(dst),
        ensures
            final(self)@ == with_reg(old(self)@, dst, old(self)@.regs[src as int] as int),
            final(self).same_program(old(self)),
            rc == RC_NEXT,
    {
        let v = self.registers[src as usize];
        self.registers.set(dst as usize, v);
        RC_NEXT
    }

    pub fn add_i_to_r(&mut self, src: i32, dst: u8) -> (rc: i32)
        requires
            old(self).wf(),
            is_reg(dst),
            fits_i32(old(self)@.regs[dst as int] + src),
        ensures
            final(self)@ == with_reg(old(self)@, dst, old(self)@.regs[dst as int] + src),
            final(self).same_program(old(self)),
            rc == RC_NEXT,
    {
        let v = self.registers[dst as usize] + src;
        self.registers.set(dst as usize, v);
        RC_NEXT
    }

    pub fn add_r_to_r(&mut self, src: u8, dst: u8) -> (rc: i32)
        requires
            old(self).wf(),
            is_reg(src),
            is_reg(dst),
            fits_i32(old(self)@.regs[dst as int] + old(self)@.regs[src as int]),
        ensures
            final(self)@ == with_reg(old(self)@, dst, old(self)@.regs[dst as int] + old(self)@.regs[src as int]),
            final(self).same_program(old(self)),
            rc == RC_NEXT,
    {
        let v = self.registers[dst as usize] + self.registers[src as usize];
        self.registers.set(dst as usize, v);
        RC_NEXT
    }

    pub fn sub_i_to_r(&mut self, src: i32, dst: u8) -> (rc: i32)
        requires
            old(self).wf(),
            is_reg(dst),
            fits_i32(old(self)@.regs[dst as int] - src),
        ensures
            final(self)@ == with_reg(old(self)@, dst, old(self)@.regs[dst as int] - src),
            final(self).same_program(old(self)),
            rc == RC_NEXT,
    {
        let v = self.registers[dst as usize] - src;
        self.registers.set(dst as usize, v);
        RC_NEXT
    }

    pub fn sub_r_to_r(&mut self, src: u8, dst: u8) -> (rc: i32)
        requires
            old(self).wf(),
            is_reg(src),
            is_reg(dst),
            fits_i32(old(self)@.regs[dst as int] - old(self)@.regs[src as int]),
        ensures
            final(self)@ == with_reg(old(self)@, dst, old(self)@.regs[dst as int] - old(self)@.regs[src as int]),
            final(self).same_program(old(self)),
            rc == RC_NEXT,
    {
        let v = self.registers[dst as usize] - self.registers[src as usize];
        self.registers.set(dst as usize, v);
        RC_NEXT
    }

    /// Swaps register `src` with the number in the addressed cell.
    pub fn atomic_exchange(&mut self, src: u8, value: i32, reg1: u8, reg2: u8) -> (rc: i32)
        requires
            old(self).wf(),
            is_reg(src),
            address_ok(old(self)@, value, reg1, reg2),
            word(old(self)@, address(old(self)@, value, reg1, reg2)) is Some,
        ensures
            final(self)@ == atomic_exchange_spec(old(self)@, src, value, reg1, reg2),
            final(self).same_program(old(self)),
            rc == RC_NEXT,
    {
        let a = self.address_of(value, reg1, reg2);
        let old_v = self.read_word(a);
        let r = self.registers[src as usize];
        self.write_word(a, r);
        self.registers.set(src as usize, old_v);
        RC_NEXT
    }

    /// Adds register `src` to the number in the addressed cell and puts the
    /// number the cell held before into `src`.
    pub fn fetchadd(&mut self, src: u8, value: i32, reg1: u8, reg2: u8) -> (rc: i32)
        requires
            old(self).wf(),
            is_reg(src),
            address_ok(old(self)@, value, reg1, reg2),
            word(old(self)@, address(old(self)@, value, reg1, reg2)) is Some,
            fits_i32(word(old(self)@, address(old(self)@, value, reg1, reg2))->0 + old(self)@.regs[src as int]),
        ensures
            final(self)@ == fetchadd_spec(old(self)@, src, value, reg1, reg2),
            final(self).same_program(old(self)),
            rc == RC_NEXT,
    {
        let a = self.address_of(value, reg1, reg2);
        let old_v = self.read_word(a);
        let r = self.registers[src as usize];
        self.write_word(a, old_v + r);
        self.registers.set(src as usize, old_v);
        RC_NEXT
    }

    /// Compares `dst` with `src` and sets the condition codes that hold.
    pub fn test_all(&mut self, src: u8, dst: u8) -> (rc: i32)
        requires
            old(self).wf(),
        ensures
            final(self)@ == test_spec(old(self)@, src, dst),
            final(self).same_program(old(self)),
            rc == RC_NEXT,
    {
        if dst > src {
            self.conditions.set(COND_GT as usize, true);
        }
        if dst >= src {
            self.conditions.set(COND_GTE as usize, true);
        }
        if dst < src {
            self.conditions.set(COND_LT as usize, true);
        }
        if dst <= src {
            self.conditions.set(COND_LTE as usize, true);
        }
        if dst == src {
            self.conditions.set(COND_EQ as usize, true);
        }
        if dst != src {
            self.conditions.set(COND_NEQ as usize, true);
        }
        assert(self.conditions@ =~= test_spec(old(self)@, src, dst).conds);
        RC_NEXT
    }

    /// Compares the low byte of register `dst` with the immediate `src`.
    pub fn test_i_r(&mut self, src: u8, dst: u8) -> (rc: i32)
        requires
            old(self).wf(),
            is_reg(dst),
        ensures
            final(self)@ == test_spec(old(self)@, src, old(self)@.regs[dst as int] as u8),
            final(self).same_program(old(self)),
            rc == RC_NEXT,
    {
        let d = self.registers[dst as usize] as u8;
        self.test_all(src, d)
    }

    /// Compares the immediate `dst` with the low byte of register `src`.
    pub fn test_r_i(&mut self, src: u8, dst: u8) -> (rc: i32)
        requires
            old(self).wf(),
            is_reg(src),
        ensures
            final(self)@ == test_spec(old(self)@, old(self)@.regs[src as int] as u8, dst),
            final(self).same_program(old(self)),
            rc == RC_NEXT,
    {
        let s = self.registers[src as usize] as u8;
        self.test_all(s, dst)
    }

    /// Compares the low bytes of registers `dst` and `src`.
    pub fn test_r_r(&mut self, src: u8, dst: u8) -> (rc: i32)
        requires
            old(self).wf(),
            is_reg(src),
            is_reg(dst),
        ensures
            final(self)@ == test_spec(old(self)@, old(self)@.regs[src as int] as u8, old(self)@.regs[dst as int] as u8),
            final(self).same_program(old(self)),
            rc == RC_NEXT,
    {
        let s = self.registers[src as usize] as u8;
        let d = self.registers[dst as usize] as u8;
        self.test_all(s, d)
    }

    pub fn jump(&mut self, targ: i32) -> (rc: i32)
        ensures
            final(self)@ == (MachineState { pc: targ as int, ..old(self)@ }),
            final(self).same_program(old(self)),
            rc == RC_NEXT,
    {
        self.pc = targ;
        RC_NEXT
    }

    fn jump_if(&mut self, cond: u8, targ: i32) -> (rc: i32)
        requires
            old(self).wf(),
            cond <= COND_NEQ,
        ensures
            final(self)@ == jump_if_spec(old(self)@, cond, targ),
            final(self).same_program(old(self)),
            rc == RC_NEXT,
    {
        if self.conditions[cond as usize] {
            self.pc = targ;
        }
        RC_NEXT
    }

    pub fn jump_notequal(&mut self, targ: i32) -> (rc: i32)
        requires
            old(self).wf(),
        ensures
            final(self)@ == jump_if_spec(old(self)@, COND_NEQ, targ),
            final(self).same_program(old(self)),
            rc == RC_NEXT,
    {
        self.jump_if(COND_NEQ, targ)
    }

    pub fn jump_equal(&mut self, targ: i32) -> (rc: i32)
        requires
            old(self).wf(),
        ensures
            final(self)@ == jump_if_spec(old(self)@, COND_EQ, targ),
            final(self).same_program(old(self)),
            rc == RC_NEXT,
    {
        self.jump_if(COND_EQ, targ)
    }

    pub fn jump_lessthan(&mut self, targ: i32) -> (rc: i32)
        requires
            old(self).wf(),
        ensures
            final(self)@ == jump_if_spec(old(self)@, COND_LT, targ),
            final(self).same_program(old(self)),
            rc == RC_NEXT,
    {
        self.jump_if(COND_LT, targ)
    }

    pub fn jump_lessthanorequal(&mut self, targ: i32) -> (rc: i32)
        requires
            old(self).wf(),
        ensures
            final(self)@ == jump_if_spec(old(self)@, COND_LTE, targ),
            final(self).same_program(old(self)),
            rc == RC_NEXT,
    {
        self.jump_if(COND_LTE, targ)
    }

    pub fn jump_greaterthan(&mut self, targ: i32) -> (rc: i32)
        requires
            old(self).wf(),
        ensures
            final(self)@ == jump_if_spec(old(self)@, COND_GT, targ),
            final(self).same_program(old(self)),
            rc == RC_NEXT,
    {
        self.jump_if(COND_GT, targ)
    }

    pub fn jump_greaterthanorequal(&mut self, targ: i32) -> (rc: i32)
        requires
            old(self).wf(),
        ensures
            final(self)@ == jump_if_spec(old(self)@, COND_GTE, targ),
            final(self).same_program(old(self)),
            rc == RC_NEXT,
    {
        self.jump_if(COND_GTE, targ)
    }

    /// Pushes the program counter and jumps to `targ`.
    pub fn call(&mut self, targ: i32)
        requires
            old(self).wf(),
            fits_i32(sp(old(self)@) - 4),
        ensures
            final(self)@ == call_spec(old(self)@, targ),
            final(self).same_program(old(self)),
    {
        let nsp = self.registers[REG_SP as usize] - 4;
        self.registers.set(REG_SP as usize, nsp);
        let p = self.pc;
        self.write_word(nsp, p);
        self.pc = targ;
    }

    /// Pops the return address into the program counter.
    pub fn ret(&mut self)
        requires
            old(self).wf(),
            word(old(self)@, sp(old(self)@)) is Some,
            fits_i32(sp(old(self)@) + 4),
        ensures
            final(self)@ == ret_spec(old(self)@),
            final(self).same_program(old(self)),
    {
        let s = self.registers[REG_SP as usize];
        let p = self.read_word(s);
        self.pc = p;
        self.registers.set(REG_SP as usize, s + 4);
    }

    pub fn push_r(&mut self, reg: u8) -> (rc: i32)
        requires
            old(self).wf(),
            is_reg(reg),
            fits_i32(sp(old(self)@) - 4),
        ensures
            final(self)@ == push_r_spec(old(self)@, reg),
            final(self).same_program(old(self)),
            rc == RC_NEXT,
    {
        let nsp = self.registers[REG_SP as usize] - 4;
        self.registers.set(REG_SP as usize, nsp);
        let v = self.registers[reg as usize];
        self.write_word(nsp, v);
        RC_NEXT
    }

    pub fn push_m(&mut self, value: i32, reg1: u8, reg2: u8) -> (rc: i32)
        requires
            old(self).wf(),
            fits_i32(sp(old(self)@) - 4),
            address_ok(with_reg(old(self)@, REG_SP, sp(old(self)@) - 4), value, reg1, reg2),
        ensures
            final(self)@ == push_m_spec(old(self)@, value, reg1, reg2),
            final(self).same_program(old(self)),
            rc == RC_NEXT,
    {
        let nsp = self.registers[REG_SP as usize] - 4;
        self.registers.set(REG_SP as usize, nsp);
        let a = self.address_of(value, reg1, reg2);
        self.write_word(nsp, a);
        RC_NEXT
    }

    pub fn pop(&mut self)
        requires
            old(self).wf(),
            fits_i32(sp(old(self)@) + 4),
        ensures
            final(self)@ == with_reg(old(self)@, REG_SP, sp(old(self)@) + 4),
            final(self).same_program(old(self)),
    {
        let s = self.registers[REG_SP as usize];
        self.registers.set(REG_SP as usize, s + 4);
    }

    /// Puts the stack pointer into `dst` and moves the stack pointer up by
    /// one word; the cell on top of the stack is not read.
    pub fn pop_r(&mut self, dst: u8)
        requires
            old(self).wf(),
            is_reg(dst),
            fits_i32(sp(old(self)@) + 4),
        ensures
            final(self)@ == pop_r_spec(old(self)@, dst),
            final(self).same_program(old(self)),
    {
        let s = self.registers[REG_SP as usize];
        self.registers.set(dst as usize, s);
        let t = self.registers[REG_SP as usize];
        self.registers.set(REG_SP as usize, t + 4);
    }
}

/// A number written into a cell reads back as the same number.
pub proof fn law_store_load(s: MachineState, a: i32, v: i32)
    ensures
        word(store(s, a as int, v as int), a as int) == Some(v),
{
    lemma_parse_decimal(v);
}

/// `ret` right after `call` comes back to the instruction after the call,
/// with every register and condition code as it was before the call.
pub proof fn law_call_ret(s: MachineState, targ: i32)
    requires
        machine_wf(s),
        fits_i32(sp(s) - 4),
        fits_i32(s.pc),
    ensures
        word(call_spec(s, targ), sp(call_spec(s, targ))) == Some(s.pc as i32),
        ret_spec(call_spec(s, targ)).pc == s.pc,
        ret_spec(call_spec(s, targ)).regs == s.regs,
        ret_spec(call_spec(s, targ)).conds == s.conds,
{
    let t = with_reg(s, REG_SP, sp(s) - 4);
    law_store_load(t, (sp(s) - 4) as i32, s.pc as i32);
    assert(ret_spec(call_spec(s, targ)).regs =~= s.regs);
}

/// A pushed register sits on top of the stack, and `pop` takes the stack
/// pointer back to where it was.
pub proof fn law_push_pop(s: MachineState, reg: u8)
    requires
        machine_wf(s),
        is_reg(reg),
        fits_i32(sp(s) - 4),
    ensures
        word(push_r_spec(s, reg), sp(push_r_spec(s, reg))) == Some(with_reg(s, REG_SP, sp(s) - 4).regs[reg as int]),
        sp(with_reg(push_r_spec(s, reg), REG_SP, sp(push_r_spec(s, reg)) + 4)) == sp(s),
{
    let t = with_reg(s, REG_SP, sp(s) - 4);
    law_store_load(t, (sp(s) - 4) as i32, t.regs[reg as int]);
}

/// `xchg` leaves the register's old value in the cell and the cell's old
/// number in the register.
pub proof fn law_exchange(s: MachineState, src: u8, value: i32, r1: u8, r2: u8)
    requires
        machine_wf(s),
        is_reg(src),
        address_ok(s, value, r1, r2),
        word(s, address(s, value, r1, r2)) is Some,
    ensures
        word(atomic_exchange_spec(s, src, value, r1, r2), address(s, value, r1, r2)) == Some(s.regs[src as int]),
        atomic_exchange_spec(s, src, value, r1, r2).regs[src as int] == word(s, address(s, value, r1, r2))->0,
{
    law_store_load(s, address(s, value, r1, r2) as i32, s.regs[src as int]);
}

/// `fetchadd` leaves the sum in the cell and the cell's old number in the
/// register.
pub proof fn law_fetchadd(s: MachineState, src: u8, value: i32, r1: u8, r2: u8)
    requires
        machine_wf(s),
        is_reg(src),
        address_ok(s, value, r1, r2),
        word(s, address(s, value, r1, r2)) is Some,
        fits_i32(word(s, address(s, value, r1, r2))->0 + s.regs[src as int]),
    ensures
        word(fetchadd_spec(s, src, value, r1, r2), address(s, value, r1, r2)) == Some(
            (word(s, address(s, value, r1, r2))->0 + s.regs[src as int]) as i32,
        ),
        fetchadd_spec(s, src, value, r1, r2).regs[src as int] == word(s, address(s, value, r1, r2))->0,
{
    let a = address(s, value, r1, r2);
    law_store_load(s, a as i32, (word(s, a)->0 + s.regs[src as int]) as i32);
}

/// A test never clears a condition code: one that was set stays set.
pub proof fn law_test_keeps_codes(s: MachineState, src: u8, dst: u8, c: int)
    requires
        machine_wf(s),
        0 <= c < 6,
        s.conds[c],
    ensures
        test_spec(s, src, dst).conds[c],
{
}

// Reading the operands of an instruction.

/// `char::is_whitespace`: the characters with the Unicode `White_Space` property.
pub open spec fn is_ws(c: char) -> bool {
    ||| '\u{9}' <= c && c <= '\u{D}'
    ||| c == ' '
    ||| c == '\u{85}'
    ||| c == '\u{A0}'
    ||| c == '\u{1680}'
    ||| '\u{2000}' <= c && c <= '\u{200A}'
    ||| c == '\u{2028}'
    ||| c == '\u{2029}'
    ||| c == '\u{202F}'
    ||| c == '\u{205F}'
    ||| c == '\u{3000}'
}

pub fn is_whitespace_char(c: char) -> (b: bool)
    ensures
        b == is_ws(c),
{
    ('\u{9}' <= c && c <= '\u{D}') || c == ' ' || c == '\u{85}' || c == '\u{A0}' || c == '\u{1680}'
        || ('\u{2000}' <= c && c <= '\u{200A}') || c == '\u{2028}' || c == '\u{2029}' || c == '\u{202F}'
        || c == '\u{205F}' || c == '\u{3000}'
}

/// The first index from `i` on whose character is no whitespace, or the length.
pub open spec fn ws_start(s: Seq<char>, i: int) -> int
    decreases s.len() - i,
{
    if i < 0 || i >= s.len() {
        s.len() as int
    } else if !is_ws(s[i]) {
        i
    } else {
        ws_start(s, i + 1)
    }
}

/// One past the last index below `j` whose character is no whitespace, or 0.
pub open spec fn ws_end(s: Seq<char>, j: int) -> int
    decreases j,
{
    if j <= 0 || j > s.len() {
        0
    } else if !is_ws(s[j - 1]) {
        j
    } else {
        ws_end(s, j - 1)
    }
}

/// `str::trim`: `s` without its leading and trailing whitespace.
pub open spec fn trim_spec(s: Seq<char>) -> Seq<char> {
    let a = ws_start(s, 0);
    let b = ws_end(s, s.len() as int);
    if a < b {
        s.subrange(a, b)
    } else {
        Seq::empty()
    }
}

/// `s` with every `c` taken out.
pub open spec fn strip_char(s: Seq<char>, c: char) -> Seq<char>
    decreases s.len(),
{
    if s.len() == 0 {
        s
    } else if s.last() == c {
        strip_char(s.drop_last(), c)
    } else {
        strip_char(s.drop_last(), c).push(s.last())
    }
}

/// The index of the first `c` in `s` from `i` on, or the length.
pub open spec fn pos_from(s: Seq<char>, c: char, i: int) -> int
    decreases s.len() - i,
{
    if i < 0 || i >= s.len() {
        s.len() as int
    } else if s[i] == c {
        i
    } else {
        pos_from(s, c, i + 1)
    }
}

/// What comes before the first `c` in `s` (all of `s` if there is none):
/// the first piece that `str::split` gives.
pub open spec fn upto(s: Seq<char>, c: char) -> Seq<char> {
    s.subrange(0, pos_from(s, c, 0))
}

pub open spec fn occurs(s: Seq<char>, c: char) -> bool {
    pos_from(s, c, 0) < s.len()
}

/// What comes after the first `c` in `s`.
pub open spec fn after(s: Seq<char>, c: char) -> Seq<char> {
    s.subrange(pos_from(s, c, 0) + 1, s.len() as int)
}

pub open spec fn all_ascii(s: Seq<char>) -> bool {
    forall|i: int| 0 <= i < s.len() ==> (#[trigger] s[i] as u32) < 128
}

/// An operand as the loader reads it.
#[derive(Debug)]
pub enum Arg {
    /// `$n`: a number.
    Immediate(i32),
    /// `%name`.
    Register(u8),
    /// A cell: offset, base register and index register.
    Memory(i32, u8, u8),
    /// `.name`.
    Label(Vec<char>),
    /// Text of no known form.
    Bad,
}

pub enum ArgV {
    Immediate(i32),
    Register(u8),
    Memory(i32, u8, u8),
    Label(Seq<char>),
    Bad,
}

impl View for Arg {
    type V = ArgV;

    open spec fn view(&self) -> ArgV {
        match self {
            Arg::Immediate(v) => ArgV::Immediate(*v),
            Arg::Register(r) => ArgV::Register(*r),
            Arg::Memory(v, a, b) => ArgV::Memory(*v, *a, *b),
            Arg::Label(l) => ArgV::Label(l@),
            Arg::Bad => ArgV::Bad,
        }
    }
}

/// Why the loader gives up on an operand.
#[derive(Clone, Copy, PartialEq, Eq, Structural, Debug)]
pub enum ArgError {
    /// `$` followed by text that is no `i32`.
    ImmediateValue,
    /// A memory operand without its register mark.
    RegisterSyntax,
    /// A name that no `.var` line declared.
    UndeclaredVariable,
    /// An offset that is no `i32`.
    BadNumber,
}

pub open spec fn arg_result_view(r: Result<Arg, ArgError>) -> Result<ArgV, ArgError> {
    match r {
        Ok(a) => Ok(a@),
        Err(e) => Err(e),
    }
}

pub open spec fn signed_value(neg: bool, p: i32) -> Option<i32> {
    if !neg {
        Some(p)
    } else if p == i32::MIN {
        None
    } else {
        Some((-p) as i32)
    }
}

/// The registers inside the brackets of a memory operand, commas taken out:
/// `%r1` or `%r1%r2`, each name trimmed; a missing second register is the
/// zero register.
pub open spec fn bracket_regs(inner: Seq<char>) -> Result<(u8, u8), ArgError> {
    if !occurs(inner, '%') {
        Err(ArgError::RegisterSyntax)
    } else {
        let regs = after(inner, '%');
        let r1 = reg_translate(trim_spec(upto(regs, '%')));
        if !occurs(regs, '%') {
            Ok((r1, REG_ZERO))
        } else {
            Ok((r1, reg_translate(trim_spec(upto(after(regs, '%'), '%')))))
        }
    }
}

/// The offset forms `n`, `n(%r)` and `n(%r1,%r2)` (commas taken out), with
/// an optional leading minus taken off first and put back on the number.
pub open spec fn offset_arg(t: Seq<char>) -> Result<ArgV, ArgError> {
    let neg = t.len() > 0 && t[0] == '-';
    let u = if neg {
        t.drop_first()
    } else {
        t
    };
    if !occurs(u, '(') {
        match spec_parse_i32(u) {
            Some(p) => match signed_value(neg, p) {
                Some(v) => Ok(ArgV::Memory(v, REG_ZERO, REG_ZERO)),
                None => Err(ArgError::BadNumber),
            },
            None => Err(ArgError::BadNumber),
        }
    } else if occurs(after(u, '('), '(') {
        Ok(ArgV::Bad)
    } else {
        match spec_parse_i32(upto(u, '(')) {
            None => Err(ArgError::BadNumber),
            Some(p) => match signed_value(neg, p) {
                None => Err(ArgError::BadNumber),
                Some(v) => match bracket_regs(upto(after(u, '('), ')')) {
                    Err(e) => Err(e),
                    Ok((r1, r2)) => Ok(ArgV::Memory(v, r1, r2)),
                },
            },
        }
    }
}

/// Text that starts like a number: a digit or a minus sign.
pub open spec fn numeric_start(t: Seq<char>) -> bool {
    t.len() > 0 && (t[0] == '-' || is_digit(t[0]))
}

/// What an operand `t` (commas taken out, trimmed) denotes, given the
/// declared variables. (Opaque, so that proofs about whole programs do not
/// unfold it; `reveal(arg_spec)` shows it.)
#[verifier::opaque]
pub open spec fn arg_spec(t: Seq<char>, vars: Seq<(Seq<char>, i32)>) -> Result<ArgV, ArgError> {
    if t.len() > 0 && t[0] == '$' {
        match spec_parse_i32(t.drop_first()) {
            Some(v) => Ok(ArgV::Immediate(v)),
            None => Err(ArgError::ImmediateValue),
        }
    } else if t.len() > 0 && t[0] == '%' {
        Ok(ArgV::Register(reg_translate(upto(t.drop_first(), '%'))))
    } else if t.len() > 0 && t[0] == '(' {
        let inner = upto(upto(t.drop_first(), '('), ')');
        if !occurs(inner, '%') {
            Err(ArgError::RegisterSyntax)
        } else {
            Ok(ArgV::Memory(0, reg_translate(upto(after(inner, '%'), '%')), REG_ZERO))
        }
    } else if t.len() > 0 && t[0] == '.' {
        Ok(ArgV::Label(t))
    } else if numeric_start(t) {
        offset_arg(t)
    } else if all_ascii(t) && spec_parse_i32(t) is None {
        match assoc_get(vars, t) {
            Some(v) => Ok(ArgV::Memory(v, REG_ZERO, REG_ZERO)),
            None => Err(ArgError::UndeclaredVariable),
        }
    } else if spec_parse_i32(t) is Some {
        offset_arg(t)
    } else {
        Ok(ArgV::Bad)
    }
}

/// What an operand as written in a program line denotes.
pub open spec fn getarg_spec(raw: Seq<char>, vars: Seq<(Seq<char>, i32)>) -> Result<ArgV, ArgError> {
    arg_spec(trim_spec(strip_char(raw, ',')), vars)
}

proof fn lemma_pos_from(s: Seq<char>, c: char, i: int)
    requires
        0 <= i <= s.len(),
    ensures
        i <= pos_from(s, c, i) <= s.len(),
        pos_from(s, c, i) < s.len() ==> s[pos_from(s, c, i)] == c,
        forall|m: int| i <= m < pos_from(s, c, i) ==> s[m] != c,
    decreases s.len() - i,
{
    if i < s.len() && s[i] != c {
        lemma_pos_from(s, c, i + 1);
    }
}

/// The index of the first `c` in `v`, or its length.
pub fn find_char(v: &Vec<char>, c: char) -> (r: usize)
    ensures
        r == pos_from(v@, c, 0),
        r <= v@.len(),
{
    let mut i: usize = 0;
    while i < v.len()
        invariant
            i <= v@.len(),
            pos_from(v@, c, 0) == pos_from(v@, c, i as int),
        decreases v@.len() - i,
    {
        if v[i] == c {
            return i;
        }
        i = i + 1;
    }
    i
}

/// The characters of `v` from `lo` up to `hi`.
pub fn slice(v: &Vec<char>, lo: usize, hi: usize) -> (r: Vec<char>)
    requires
        lo <= hi <= v@.len(),
    ensures
        r@ == v@.subrange(lo as int, hi as int),
{
    let mut r: Vec<char> = Vec::new();
    let mut i: usize = lo;
    while i < hi
        invariant
            lo <= i <= hi <= v@.len(),
            r@ == v@.subrange(lo as int, i as int),
        decreases hi - i,
    {
        r.push(v[i]);
        i = i + 1;
        assert(r@ =~= v@.subrange(lo as int, i as int));
    }
    r
}

pub fn is_ascii_chars(v: &Vec<char>) -> (b: bool)
    ensures
        b == all_ascii(v@),
{
    let mut i: usize = 0;
    while i < v.len()
        invariant
            i <= v@.len(),
            forall|m: int| 0 <= m < i ==> (#[trigger] v@[m] as u32) < 128,
        decreases v@.len() - i,
    {
        if (v[i] as u32) >= 128 {
            return false;
        }
        i = i + 1;
    }
    true
}

/// `v` with every `c` taken out.
pub fn strip_chars(v: &Vec<char>, c: char) -> (r: Vec<char>)
    ensures
        r@ == strip_char(v@, c),
{
    let mut r: Vec<char> = Vec::new();
    let mut i: usize = 0;
    while i < v.len()
        invariant
            i <= v@.len(),
            r@ == strip_char(v@.subrange(0, i as int), c),
        decreases v@.len() - i,
    {
        assert(v@.subrange(0, i + 1).drop_last() =~= v@.subrange(0, i as int));
        if v[i] != c {
            r.push(v[i]);
        }
        i = i + 1;
    }
    assert(v@.subrange(0, v@.len() as int) =~= v@);
    r
}

/// `v` without leading and trailing whitespace, as `str::trim` gives it.
pub fn trim_chars(v: &Vec<char>) -> (r: Vec<char>)
    ensures
        r@ == trim_spec(v@),
{
    let n = v.len();
    let mut a: usize = 0;
    while a < n && is_whitespace_char(v[a])
        invariant
            a <= n == v@.len(),
            ws_start(v@, 0) == ws_start(v@, a as int),
        decreases n - a,
    {
        a = a + 1;
    }
    let mut b: usize = n;
    while b > 0 && is_whitespace_char(v[b - 1])
        invariant
            b <= n == v@.len(),
            ws_end(v@, n as int) == ws_end(v@, b as int),
        decreases b,
    {
        b = b - 1;
    }
    if a < b {
        slice(v, a, b)
    } else {
        Vec::new()
    }
}

/// The entry for `k` in the name table `t`, the first one.
pub fn find_name(t: &Vec<(Vec<char>, i32)>, k: &Vec<char>) -> (r: Option<usize>)
    ensures
        match r {
            Some(i) => first_key(table_view(t@), k@, 0) == Some(i as int) && i < t@.len(),
            None => first_key(table_view(t@), k@, 0) is None,
        },
{
    let mut i: usize = 0;
    while i < t.len()
        invariant
            i <= t@.len(),
            first_key(table_view(t@), k@, 0) == first_key(table_view(t@), k@, i as int),
        decreases t@.len() - i,
    {
        if vec_chars_eq(&t[i].0, k) {
            return Some(i);
        }
        i = i + 1;
    }
    None
}

fn offset_arg_exec(t: &Vec<char>) -> (r: Result<Arg, ArgError>)
    ensures
        arg_result_view(r) == offset_arg(t@),
{
    let n = t.len();
    let neg = n > 0 && t[0] == '-';
    let u = if neg {
        slice(t, 1, n)
    } else {
        slice(t, 0, n)
    };
    assert(neg ==> u@ =~= t@.drop_first());
    assert(!neg ==> u@ =~= t@);
    let p = find_char(&u, '(');
    if p >= u.len() {
        assert(u@.subrange(0, u@.len() as int) =~= u@);
        return match parse_i32_range(&u, 0, u.len()) {
            Some(x) => {
                if neg {
                    if x == i32::MIN {
                        Err(ArgError::BadNumber)
                    } else {
                        Ok(Arg::Memory(-x, REG_ZERO, REG_ZERO))
                    }
                } else {
                    Ok(Arg::Memory(x, REG_ZERO, REG_ZERO))
                }
            },
            None => Err(ArgError::BadNumber),
        };
    }
    let s1 = slice(&u, p + 1, u.len());
    if find_char(&s1, '(') < s1.len() {
        return Ok(Arg::Bad);
    }
    let value = match parse_i32_range(&u, 0, p) {
        Some(x) => {
            if neg {
                if x == i32::MIN {
                    return Err(ArgError::BadNumber);
                }
                -x
            } else {
                x
            }
        },
        None => {
            return Err(ArgError::BadNumber);
        },
    };
    let q = find_char(&s1, ')');
    let inner = slice(&s1, 0, q);
    match bracket_regs_exec(&inner) {
        Err(e) => Err(e),
        Ok((r1, r2)) => Ok(Arg::Memory(value, r1, r2)),
    }
}

fn bracket_regs_exec(inner: &Vec<char>) -> (r: Result<(u8, u8), ArgError>)
    ensures
        r == bracket_regs(inner@),
{
    let k = find_char(inner, '%');
    if k >= inner.len() {
        return Err(ArgError::RegisterSyntax);
    }
    let regs = slice(inner, k + 1, inner.len());
    let e = find_char(&regs, '%');
    let first = slice(&regs, 0, e);
    let r1 = register_translate(&trim_chars(&first));
    if e >= regs.len() {
        return Ok((r1, REG_ZERO));
    }
    let rest = slice(&regs, e + 1, regs.len());
    let e2 = find_char(&rest, '%');
    let second = slice(&rest, 0, e2);
    Ok((r1, register_translate(&trim_chars(&second))))
}

fn classify_arg(t: &Vec<char>, vars: &Vec<(Vec<char>, i32)>) -> (r: Result<Arg, ArgError>)
    ensures
        arg_result_view(r) == arg_spec(t@, table_view(vars@)),
{
    reveal(arg_spec);
    let n = t.len();
    if n > 0 && t[0] == '$' {
        proof {
            assert(t@.subrange(1, n as int) =~= t@.drop_first());
        }
        return match parse_i32_range(t, 1, n) {
            Some(v) => Ok(Arg::Immediate(v)),
            None => Err(ArgError::ImmediateValue),
        };
    }
    if n > 0 && t[0] == '%' {
        let rest = slice(t, 1, n);
        assert(rest@ =~= t@.drop_first());
        let p = find_char(&rest, '%');
        let name = slice(&rest, 0, p);
        return Ok(Arg::Register(register_translate(&name)));
    }
    if n > 0 && t[0] == '(' {
        let rest = slice(t, 1, n);
        assert(rest@ =~= t@.drop_first());
        let p = find_char(&rest, '(');
        let first = slice(&rest, 0, p);
        let q = find_char(&first, ')');
        let inner = slice(&first, 0, q);
        let k = find_char(&inner, '%');
        if k >= inner.len() {
            return Err(ArgError::RegisterSyntax);
        }
        let tail = slice(&inner, k + 1, inner.len());
        let e = find_char(&tail, '%');
        let name = slice(&tail, 0, e);
        return Ok(Arg::Memory(0, register_translate(&name), REG_ZERO));
    }
    if n > 0 && t[0] == '.' {
        let l = slice(t, 0, n);
        assert(l@ =~= t@);
        return Ok(Arg::Label(l));
    }
    if n > 0 && (t[0] == '-' || ('0' <= t[0] && t[0] <= '9')) {
        return offset_arg_exec(t);
    }
    let parsed = parse_i32_range(t, 0, n);
    assert(t@.subrange(0, n as int) =~= t@);
    if is_ascii_chars(t) && parsed.is_none() {
        proof {
            lemma_first_key_range(table_view(vars@), t@, 0);
        }
        return match find_name(vars, t) {
            Some(i) => Ok(Arg::Memory(vars[i].1, REG_ZERO, REG_ZERO)),
            None => Err(ArgError::UndeclaredVariable),
        };
    }
    if parsed.is_some() {
        return offset_arg_exec(t);
    }
    Ok(Arg::Bad)
}

impl Cpu {
    /// Reads one operand of a program line: commas are taken out and the
    /// text trimmed, then its form decides what it denotes.
    pub fn getarg(&self, arg: &Vec<char>) -> (r: Result<Arg, ArgError>)
        ensures
            arg_result_view(r) == getarg_spec(arg@, table_view(self.vars@)),
    {
        let stripped = strip_chars(arg, ',');
        let t = trim_chars(&stripped);
        classify_arg(&t, &self.vars)
    }
}

// Loading a program.

/// Why the loader gives up on a program.
#[derive(Clone, Copy, PartialEq, Eq, Structural, Debug)]
pub enum LoadError {
    /// A line with more than one `#`.
    CommentForm,
    /// A `.var` line that is not `.var` and one name.
    VarForm,
    /// A `.var` line after a variable named `.var` was declared.
    VarRedeclared,
    /// The variables reach the load address.
    StaticOverrun,
    /// A label line with more than the label on it.
    LabelForm,
    /// A `mov` without two operands separated by a comma.
    MovOperands,
    /// An operand that cannot be read.
    Operand(ArgError),
}

pub open spec fn var_word() -> Seq<char> {
    seq!['.', 'v', 'a', 'r']
}

pub open spec fn mov_word() -> Seq<char> {
    seq!['m', 'o', 'v']
}

/// The code of a program line: the trimmed line up to its comment, if it
/// holds at most one `#`.
pub open spec fn code_of(line: Seq<char>) -> Option<Seq<char>> {
    let c = trim_spec(line);
    if occurs(c, '#') && occurs(after(c, '#'), '#') {
        None
    } else {
        Some(upto(c, '#'))
    }
}

pub open spec fn is_directive(code: Seq<char>) -> bool {
    code.len() > 0 && code[0] == '.'
}

/// What the first pass has gathered: variables, labels, the address of the
/// next instruction and of the next variable.
pub struct ScanState {
    pub vars: Seq<(Seq<char>, i32)>,
    pub labels: Seq<(Seq<char>, i32)>,
    pub pc: int,
    pub data: int,
}

/// The first pass over one line: a `.var` line gives the variable the next
/// data address, a label line gives the label the address of the next
/// instruction, and every other line (an empty one too) takes up one address.
pub open spec fn scan_spec(st: ScanState, line: Seq<char>, bpc: int) -> Result<ScanState, LoadError> {
    match code_of(line) {
        None => Err(LoadError::CommentForm),
        Some(code) => {
            if upto(code, ' ') == var_word() {
                if !(occurs(code, ' ') && !occurs(after(code, ' '), ' ')) {
                    Err(LoadError::VarForm)
                } else if assoc_get(st.vars, var_word()) is Some {
                    Err(LoadError::VarRedeclared)
                } else if st.data + 4 >= bpc {
                    Err(LoadError::StaticOverrun)
                } else {
                    Ok(ScanState { vars: assoc_put(st.vars, after(code, ' '), st.data as i32), data: st.data + 4, ..st })
                }
            } else if is_directive(code) {
                if occurs(code, ' ') {
                    Err(LoadError::LabelForm)
                } else {
                    Ok(ScanState { labels: assoc_put(st.labels, code, st.pc as i32), ..st })
                }
            } else {
                Ok(ScanState { pc: st.pc + 1, ..st })
            }
        },
    }
}

/// The first pass over the first `n` lines.
pub open spec fn scan_lines(lines: Seq<Seq<char>>, n: int, st: ScanState, bpc: int) -> Result<ScanState, LoadError>
    decreases n,
{
    if n <= 0 {
        Ok(st)
    } else {
        match scan_lines(lines, n - 1, st, bpc) {
            Err(e) => Err(e),
            Ok(s) => scan_spec(s, lines[n - 1], bpc),
        }
    }
}

/// The text a `mov` of an immediate into a register is loaded as.
pub open spec fn move_text(d: int, r: int) -> Seq<char> {
    seq!['s', 'e', 'l', 'f', '.', 'm', 'o', 'v', 'e', '_', 'i', '_', 't', 'o', '_', 'r', '('] + int_decimal(d) + seq![',', ' ']
        + int_decimal(r) + seq![')']
}

/// What the second pass has placed: memory, the program text at each
/// address, and the address of the next instruction.
pub struct PlaceState {
    pub mem: Map<i32, Seq<char>>,
    pub prog: Map<i32, Seq<char>>,
    pub pc: int,
}

/// The second pass over the operands of a `mov` whose line was recorded in
/// `st`: `Ok((state, true))` where the loader stops at this line.
pub open spec fn place_mov(st: PlaceState, code: Seq<char>, vars: Seq<(Seq<char>, i32)>) -> Result<(PlaceState, bool), LoadError> {
    let rest = after(code, ' ');
    if !occurs(code, ' ') || !occurs(rest, ',') {
        Err(LoadError::MovOperands)
    } else {
        match getarg_spec(trim_spec(upto(rest, ',')), vars) {
            Err(e) => Err(LoadError::Operand(e)),
            Ok(a) => match getarg_spec(trim_spec(after(rest, ',')), vars) {
                Err(e) => Err(LoadError::Operand(e)),
                Ok(b) => {
                    if a is Memory || b is Memory || (a is Immediate && b is Immediate) {
                        Ok((st, true))
                    } else if a is Immediate && b is Register {
                        Ok((PlaceState {
                            mem: st.mem.insert(st.pc as i32, move_text(a->Immediate_0 as int, b->Register_0 as int)),
                            pc: st.pc + 1,
                            ..st
                        }, false))
                    } else {
                        Ok((PlaceState { pc: st.pc + 1, ..st }, false))
                    }
                },
            },
        }
    }
}

/// The second pass over one line: directive lines are passed over, every
/// other line is recorded at the next address, and a `mov` of an
/// immediate into a register is also written into memory there.
pub open spec fn place_spec(st: PlaceState, line: Seq<char>, vars: Seq<(Seq<char>, i32)>) -> Result<(PlaceState, bool), LoadError> {
    match code_of(line) {
        None => Err(LoadError::CommentForm),
        Some(code) => {
            if is_directive(code) {
                Ok((st, false))
            } else {
                let st1 = PlaceState { prog: st.prog.insert(st.pc as i32, code), ..st };
                if upto(code, ' ') == mov_word() {
                    place_mov(st1, code, vars)
                } else {
                    Ok((PlaceState { pc: st.pc + 1, ..st1 }, false))
                }
            }
        },
    }
}

/// The second pass over the first `n` lines; once it has stopped, the lines
/// after are not looked at.
pub open spec fn place_lines(lines: Seq<Seq<char>>, n: int, st: PlaceState, vars: Seq<(Seq<char>, i32)>) -> Result<(PlaceState, bool), LoadError>
    decreases n,
{
    if n <= 0 {
        Ok((st, false))
    } else {
        match place_lines(lines, n - 1, st, vars) {
            Err(e) => Err(e),
            Ok((s, true)) => Ok((s, true)),
            Ok((s, false)) => place_spec(s, lines[n - 1], vars),
        }
    }
}

pub open spec fn lines_view(ls: Seq<String>) -> Seq<Seq<char>> {
    Seq::new(ls.len(), |i: int| ls[i]@)
}

/// What the first pass made of one line, for whoever reports on it.
pub enum Scanned {
    /// A variable and its address.
    Var(Vec<char>, i32),
    /// A label and the address it stands for.
    Label(Vec<char>, i32),
    Instruction,
}

/// What the second pass made of one line.
pub enum Placed {
    Directive,
    Instruction,
    /// A `mov` with these operands, placed.
    Move(Arg, Arg),
    /// A `mov` with these operands, which stops the loader.
    Refused(Arg, Arg),
}

/// The code of a program line, as `code_of` says.
pub fn line_code(line: &Vec<char>) -> (r: Result<Vec<char>, LoadError>)
    ensures
        match r {
            Ok(c) => code_of(line@) == Some(c@),
            Err(e) => code_of(line@) is None && e == LoadError::CommentForm,
        },
{
    let c = trim_chars(line);
    let p = find_char(&c, '#');
    if p < c.len() {
        let rest = slice(&c, p + 1, c.len());
        if find_char(&rest, '#') < rest.len() {
            return Err(LoadError::CommentForm);
        }
    }
    Ok(slice(&c, 0, p))
}

fn words_equal(a: &Vec<char>, w: Ghost<Seq<char>>, b: &str) -> (r: bool)
    requires
        b@ == w@,
    ensures
        r == (a@ == w@),
{
    let bc = chars_of(b);
    vec_chars_eq(a, &bc)
}

impl Cpu {
    pub open spec fn scan_state(&self, pc: int, data: int) -> ScanState {
        ScanState { vars: table_view(self.vars@), labels: table_view(self.labels@), pc, data }
    }

    pub open spec fn place_state(&self, pc: int) -> PlaceState {
        PlaceState { mem: mem_view(self.memory@), prog: mem_view(self.pmemory@), pc }
    }

    /// Stores `v` for `k` in a name table.
    fn table_put(t: &mut Vec<(Vec<char>, i32)>, k: Vec<char>, v: i32)
        ensures
            table_view(final(t)@) == assoc_put(table_view(old(t)@), k@, v),
    {
        let ghost tv = table_view(t@);
        match find_name(t, &k) {
            Some(i) => {
                let ghost kv = k@;
                t.set(i, (k, v));
                assert(table_view(t@) =~= tv.update(i as int, (kv, v)));
            },
            None => {
                let ghost kv = k@;
                t.push((k, v));
                assert(table_view(t@) =~= tv.push((kv, v)));
            },
        }
    }

    /// The first pass over one line.
    pub fn scan_line(&mut self, line: &Vec<char>, pc: &mut i32, data: &mut i32, bpc: i32) -> (r: Result<Scanned, LoadError>)
        requires
            *old(pc) < i32::MAX,
        ensures
            match r {
                Ok(_) => scan_spec(old(self).scan_state(*old(pc) as int, *old(data) as int), line@, bpc as int)
                    == Ok::<ScanState, LoadError>(final(self).scan_state(*final(pc) as int, *final(data) as int)),
                Err(e) => scan_spec(old(self).scan_state(*old(pc) as int, *old(data) as int), line@, bpc as int) == Err::<ScanState, LoadError>(e),
            },
            final(self)@ == old(self)@,
            final(self).pmemory@ == old(self).pmemory@,
            final(self).memory@ == old(self).memory@,
            final(self).max_memory == old(self).max_memory,
            final(self).verbose == old(self).verbose,
            *old(data) <= *final(data),
            *final(data) != *old(data) ==> *final(data) < bpc,
            *old(pc) <= *final(pc) <= *old(pc) + 1,
            final(self).registers@ == old(self).registers@,
    {
        let code = match line_code(line) {
            Ok(c) => c,
            Err(e) => {
                return Err(e);
            },
        };
        proof {
            reveal_strlit(".var");
            assert(".var"@ =~= var_word());
        }
        let sp = find_char(&code, ' ');
        let first = slice(&code, 0, sp);
        if words_equal(&first, Ghost(var_word()), ".var") {
            if sp >= code.len() {
                return Err(LoadError::VarForm);
            }
            let name = slice(&code, sp + 1, code.len());
            if find_char(&name, ' ') < name.len() {
                return Err(LoadError::VarForm);
            }
            let key = chars_of(".var");
            if find_name(&self.vars, &key).is_some() {
                proof {
                    lemma_first_key_range(table_view(self.vars@), var_word(), 0);
                }
                return Err(LoadError::VarRedeclared);
            }
            proof {
                lemma_first_key_range(table_view(self.vars@), var_word(), 0);
            }
            if (*data as i64) + 4 >= bpc as i64 {
                return Err(LoadError::StaticOverrun);
            }
            let addr = *data;
            Self::table_put(&mut self.vars, slice(&code, sp + 1, code.len()), addr);
            *data = addr + 4;
            return Ok(Scanned::Var(name, addr));
        }
        if code.len() > 0 && code[0] == '.' {
            if sp < code.len() {
                return Err(LoadError::LabelForm);
            }
            let at = *pc;
            let label = slice(&code, 0, code.len());
            assert(label@ =~= code@);
            Self::table_put(&mut self.labels, label, at);
            let shown = slice(&code, 0, code.len());
            return Ok(Scanned::Label(shown, at));
        }
        *pc = *pc + 1;
        Ok(Scanned::Instruction)
    }
}

/// The two passes of the loader count addresses alike: where both go
/// through the same lines (and the second does not stop), the first ends
/// at the address where the second places the next instruction.
pub proof fn law_passes_agree(
    lines: Seq<Seq<char>>,
    n: int,
    st: ScanState,
    ps: PlaceState,
    bpc: int,
    vars: Seq<(Seq<char>, i32)>,
)
    requires
        0 <= n <= lines.len(),
        st.pc == ps.pc,
        scan_lines(lines, n, st, bpc) is Ok,
        place_lines(lines, n, ps, vars) matches Ok((_, stopped)) && !stopped,
    ensures
        scan_lines(lines, n, st, bpc)->Ok_0.pc == place_lines(lines, n, ps, vars)->Ok_0.0.pc,
    decreases n,
{
    if n > 0 {
        let prev_s = scan_lines(lines, n - 1, st, bpc);
        let prev_p = place_lines(lines, n - 1, ps, vars);
        assert(prev_s is Ok);
        assert(prev_p matches Ok((_, false)));
        law_passes_agree(lines, n - 1, st, ps, bpc, vars);
        let line = lines[n - 1];
        let code = code_of(line)->0;
        if upto(code, ' ') == var_word() {
            lemma_pos_from(code, ' ', 0);
            let u = upto(code, ' ');
            assert(u.len() == 4);
            assert(u[0] == '.');
            assert(u[0] == code[0]);
        }
    }
}

/// A `String` with the characters of `v`.
pub fn string_of(v: &Vec<char>) -> (s: String)
    ensures
        s@ == v@,
{
    let mut s = String::new();
    let mut i: usize = 0;
    while i < v.len()
        invariant
            i <= v@.len(),
            s@ == v@.subrange(0, i as int),
        decreases v@.len() - i,
    {
        s.push(v[i]);
        i = i + 1;
        assert(s@ =~= v@.subrange(0, i as int));
    }
    assert(v@.subrange(0, v@.len() as int) =~= v@);
    s
}

/// The text `self.move_i_to_r(d, r)`.
fn move_string(d: i32, r: u8) -> (s: String)
    ensures
        s@ == move_text(d as int, r as int),
{
    proof {
        reveal_strlit("self.move_i_to_r(");
    }
    let mut s = "self.move_i_to_r(".to_owned();
    push_int(&mut s, d as i64);
    s.push(',');
    s.push(' ');
    push_int(&mut s, r as i64);
    s.push(')');
    assert(s@ =~= move_text(d as int, r as int));
    s
}

pub proof fn lemma_place_stopped(lines: Seq<Seq<char>>, i: int, n: int, st: PlaceState, vars: Seq<(Seq<char>, i32)>, s: PlaceState)
    requires
        0 <= i <= n,
        place_lines(lines, i, st, vars) == Ok::<(PlaceState, bool), LoadError>((s, true)),
    ensures
        place_lines(lines, n, st, vars) == Ok::<(PlaceState, bool), LoadError>((s, true)),
    decreases n - i,
{
    if i < n {
        lemma_place_stopped(lines, i, n - 1, st, vars, s);
    }
}

/// What loading `lines` at `loadaddr` makes of the variables, labels,
/// memory and program text: the first pass, then the second pass with the
/// variables the first found.
pub open spec fn load_result(
    lines: Seq<Seq<char>>,
    loadaddr: int,
    vars: Seq<(Seq<char>, i32)>,
    labels: Seq<(Seq<char>, i32)>,
    mem: Map<i32, Seq<char>>,
    prog: Map<i32, Seq<char>>,
) -> Result<(ScanState, PlaceState), LoadError> {
    match scan_lines(lines, lines.len() as int, ScanState { vars, labels, pc: loadaddr, data: 100 }, loadaddr) {
        Err(e) => Err(e),
        Ok(s) => match place_lines(lines, lines.len() as int, PlaceState { mem, prog, pc: loadaddr }, s.vars) {
            Err(e) => Err(e),
            Ok((p, _)) => Ok((s, p)),
        },
    }
}

impl Cpu {
    /// The second pass over one line.
    pub fn place_line(&mut self, line: &Vec<char>, pc: &mut i32) -> (r: Result<Placed, LoadError>)
        requires
            *old(pc) < i32::MAX,
        ensures
            match r {
                Ok(p) => place_spec(old(self).place_state(*old(pc) as int), line@, table_view(old(self).vars@))
                    == Ok::<(PlaceState, bool), LoadError>((final(self).place_state(*final(pc) as int), p is Refused)),
                Err(e) => place_spec(old(self).place_state(*old(pc) as int), line@, table_view(old(self).vars@))
                    == Err::<(PlaceState, bool), LoadError>(e),
            },
            final(self)@.pc == old(self)@.pc,
            final(self).registers@ == old(self).registers@,
            final(self).conditions@ == old(self).conditions@,
            final(self).vars@ == old(self).vars@,
            final(self).labels@ == old(self).labels@,
            final(self).max_memory == old(self).max_memory,
            *old(pc) <= *final(pc) <= *old(pc) + 1,
    {
        let code = match line_code(line) {
            Ok(c) => c,
            Err(e) => {
                return Err(e);
            },
        };
        if code.len() > 0 && code[0] == '.' {
            return Ok(Placed::Directive);
        }
        let at = *pc;
        let text = string_of(&code);
        proof {
            lemma_mem_insert(self.pmemory@, at, text);
        }
        self.pmemory.insert(at, text);
        proof {
            reveal_strlit("mov");
            assert("mov"@ =~= mov_word());
        }
        let sp = find_char(&code, ' ');
        let first = slice(&code, 0, sp);
        if !words_equal(&first, Ghost(mov_word()), "mov") {
            *pc = at + 1;
            return Ok(Placed::Instruction);
        }
        if sp >= code.len() {
            return Err(LoadError::MovOperands);
        }
        let rest = slice(&code, sp + 1, code.len());
        let c = find_char(&rest, ',');
        if c >= rest.len() {
            return Err(LoadError::MovOperands);
        }
        let a1 = trim_chars(&slice(&rest, 0, c));
        let a2 = trim_chars(&slice(&rest, c + 1, rest.len()));
        let a = match self.getarg(&a1) {
            Ok(a) => a,
            Err(e) => {
                return Err(LoadError::Operand(e));
            },
        };
        let b = match self.getarg(&a2) {
            Ok(b) => b,
            Err(e) => {
                return Err(LoadError::Operand(e));
            },
        };
        let refused = match (&a, &b) {
            (Arg::Memory(..), _) => true,
            (_, Arg::Memory(..)) => true,
            (Arg::Immediate(_), Arg::Immediate(_)) => true,
            _ => false,
        };
        if refused {
            return Ok(Placed::Refused(a, b));
        }
        match (&a, &b) {
            (Arg::Immediate(d), Arg::Register(r)) => {
                let t = move_string(*d, *r);
                proof {
                    lemma_mem_insert(self.memory@, at, t);
                }
                self.memory.insert(at, t);
            },
            _ => {},
        }
        *pc = at + 1;
        Ok(Placed::Move(a, b))
    }

    /// Loads a program: the first pass gathers variables and labels, the
    /// second records each instruction line at its address and writes the
    /// loaded form of `mov $n, %r` into memory; it stops at a `mov` it
    /// refuses.
    pub fn load(&mut self, lines: &Vec<String>, loadaddr: i32) -> (r: Result<(), LoadError>)
        requires
            loadaddr as int + lines@.len() < i32::MAX,
        ensures
            match r {
                Ok(()) => load_result(
                    lines_view(lines@),
                    loadaddr as int,
                    table_view(old(self).vars@),
                    table_view(old(self).labels@),
                    mem_view(old(self).memory@),
                    mem_view(old(self).pmemory@),
                ) matches Ok((s, p)) && s.vars == table_view(final(self).vars@) && s.labels == table_view(final(self).labels@)
                    && p.mem == mem_view(final(self).memory@) && p.prog == mem_view(final(self).pmemory@),
                Err(e) => load_result(
                    lines_view(lines@),
                    loadaddr as int,
                    table_view(old(self).vars@),
                    table_view(old(self).labels@),
                    mem_view(old(self).memory@),
                    mem_view(old(self).pmemory@),
                ) == Err::<(ScanState, PlaceState), LoadError>(e),
            },
            final(self)@.pc == old(self)@.pc,
            final(self).registers@ == old(self).registers@,
            final(self).conditions@ == old(self).conditions@,
            final(self).max_memory == old(self).max_memory,
    {
        let ghost lv = lines_view(lines@);
        let ghost st0 = old(self).scan_state(loadaddr as int, 100);
        let ghost p0 = old(self).place_state(loadaddr as int);
        let mut pc: i32 = loadaddr;
        let mut data: i32 = 100;
        let mut i: usize = 0;
        while i < lines.len()
            invariant
                i <= lines@.len(),
                lv == lines_view(lines@),
                loadaddr as int + lines@.len() < i32::MAX,
                loadaddr <= pc <= loadaddr + i,
                scan_lines(lv, i as int, st0, loadaddr as int) == Ok::<ScanState, LoadError>(self.scan_state(pc as int, data as int)),
                st0 == (ScanState { vars: table_view(old(self).vars@), labels: table_view(old(self).labels@), pc: loadaddr as int, data: 100 }),
                self.memory@ == old(self).memory@,
                self.pmemory@ == old(self).pmemory@,
                self.pc == old(self).pc,
                self.registers@ == old(self).registers@,
                self.conditions@ == old(self).conditions@,
                self.max_memory == old(self).max_memory,
            decreases lines@.len() - i,
        {
            let line = chars_of(lines[i].as_str());
            assert(line@ == lv[i as int]);
            match self.scan_line(&line, &mut pc, &mut data, loadaddr) {
                Ok(_) => {},
                Err(e) => {
                    proof {
                        assert(scan_lines(lv, i + 1, st0, loadaddr as int) == Err::<ScanState, LoadError>(e));
                        lemma_scan_failed(lv, i + 1, lv.len() as int, st0, loadaddr as int, e);
                        assert(lv.len() == lines@.len());
                        assert(st0 == (ScanState { vars: table_view(old(self).vars@), labels: table_view(old(self).labels@), pc: loadaddr as int, data: 100 }));
                    }
                    return Err(e);
                },
            }
            i = i + 1;
        }
        let ghost svars = table_view(self.vars@);
        let ghost slabels = table_view(self.labels@);
        let ghost spc = pc as int;
        let ghost sdata = data as int;
        assert(lv.len() == lines@.len());
        assert(scan_lines(lv, lv.len() as int, st0, loadaddr as int) == Ok::<ScanState, LoadError>(self.scan_state(pc as int, data as int)));
        let mut pc2: i32 = loadaddr;
        let mut j: usize = 0;
        while j < lines.len()
            invariant
                j <= lines@.len(),
                lv == lines_view(lines@),
                loadaddr as int + lines@.len() < i32::MAX,
                loadaddr <= pc2 <= loadaddr + j,
                place_lines(lv, j as int, p0, svars) == Ok::<(PlaceState, bool), LoadError>((self.place_state(pc2 as int), false)),
                table_view(self.vars@) == svars,
                table_view(self.labels@) == slabels,
                lv.len() == lines@.len(),
                st0 == (ScanState { vars: table_view(old(self).vars@), labels: table_view(old(self).labels@), pc: loadaddr as int, data: 100 }),
                p0 == (PlaceState { mem: mem_view(old(self).memory@), prog: mem_view(old(self).pmemory@), pc: loadaddr as int }),
                scan_lines(lv, lv.len() as int, st0, loadaddr as int) == Ok::<ScanState, LoadError>(
                    ScanState { vars: svars, labels: slabels, pc: spc, data: sdata },
                ),
                self.pc == old(self).pc,
                self.registers@ == old(self).registers@,
                self.conditions@ == old(self).conditions@,
                self.max_memory == old(self).max_memory,
            decreases lines@.len() - j,
        {
            let line = chars_of(lines[j].as_str());
            assert(line@ == lv[j as int]);
            match self.place_line(&line, &mut pc2) {
                Ok(Placed::Refused(_, _)) => {
                    proof {
                        lemma_place_stopped(lv, j + 1, lv.len() as int, p0, svars, self.place_state(pc2 as int));
                        assert(lv.len() == lines@.len());
                    }
                    return Ok(());
                },
                Ok(_) => {},
                Err(e) => {
                    proof {
                        lemma_place_failed(lv, j + 1, lv.len() as int, p0, svars, e);
                        assert(lv.len() == lines@.len());
                    }
                    return Err(e);
                },
            }
            j = j + 1;
        }
        Ok(())
    }
}

pub proof fn lemma_scan_failed(lines: Seq<Seq<char>>, i: int, n: int, st: ScanState, bpc: int, e: LoadError)
    requires
        0 <= i <= n,
        scan_lines(lines, i, st, bpc) == Err::<ScanState, LoadError>(e),
    ensures
        scan_lines(lines, n, st, bpc) == Err::<ScanState, LoadError>(e),
    decreases n - i,
{
    if i < n {
        lemma_scan_failed(lines, i, n - 1, st, bpc, e);
    }
}

pub proof fn lemma_place_failed(lines: Seq<Seq<char>>, i: int, n: int, st: PlaceState, vars: Seq<(Seq<char>, i32)>, e: LoadError)
    requires
        0 <= i <= n,
        place_lines(lines, i, st, vars) == Err::<(PlaceState, bool), LoadError>(e),
    ensures
        place_lines(lines, n, st, vars) == Err::<(PlaceState, bool), LoadError>(e),
    decreases n - i,
{
    if i < n {
        lemma_place_failed(lines, i, n - 1, st, vars, e);
    }
}

/// The options of the simulator.
pub struct X86Option {
    pub seed: i32,
    pub numthreads: i32,
    pub progfile: String,
    pub intfreq: i32,
    pub intrand: bool,
    pub argv: String,
    pub loadaddr: i32,
    pub memsize: i32,
    pub memtrace: String,
    pub regtrace: String,
    pub cctrace: bool,
    pub printstats: bool,
    pub verbose: bool,
    pub solve: bool,
}

impl X86Option {
    /// The defaults: seed 0, two threads, no program, an interrupt every
    /// 50 instructions, load address 1000, 128 KB of memory, no tracing.
    pub fn new() -> (o: X86Option)
        ensures
            o.seed == 0,
            o.numthreads == 2,
            o.progfile@ == Seq::<char>::empty(),
            o.intfreq == 50,
            !o.intrand,
            o.argv@ == Seq::<char>::empty(),
            o.loadaddr == 1000,
            o.memsize == 128,
            o.memtrace@ == Seq::<char>::empty(),
            o.regtrace@ == Seq::<char>::empty(),
            !o.cctrace,
            !o.printstats,
            !o.verbose,
            !o.solve,
    {
        X86Option {
            seed: 0,
            numthreads: 2,
            progfile: String::new(),
            intfreq: 50,
            intrand: false,
            argv: String::new(),
            loadaddr: 1000,
            memsize: 128,
            memtrace: String::new(),
            regtrace: String::new(),
            cctrace: false,
            printstats: false,
            verbose: false,
            solve: false,
        }
    }
}

impl Cpu {
    /// The cells below `max_memory` that hold something other than `0` and
    /// no loaded instruction, in address order.
    pub fn memory_dump(&self) -> (d: Vec<(i32, String)>)
        ensures
            forall|k: int| 0 <= k < d@.len() ==> {
                let a = (#[trigger] d@[k]).0;
                &&& 0 <= a < self.max_memory
                &&& !self.pmemory@.contains_key(a)
                &&& self.memory@.contains_key(a)
                &&& d@[k].1@ == self@.mem[a]
                &&& self@.mem[a] != seq!['0']
            },
            forall|k: int, m: int| 0 <= k < m < d@.len() ==> d@[k].0 < d@[m].0,
            forall|a: i32| #![trigger self@.mem[a]]
                0 <= a < self.max_memory && !self.pmemory@.contains_key(a) && self.memory@.contains_key(a)
                    && self@.mem[a] != seq!['0'] ==> exists|k: int| 0 <= k < d@.len() && d@[k].0 == a,
    {
        let mut d: Vec<(i32, String)> = Vec::new();
        let mut a: i32 = 0;
        while a < self.max_memory
            invariant
                0 <= a,
                a <= self.max_memory || a == 0,
                forall|k: int| 0 <= k < d@.len() ==> {
                    let b = (#[trigger] d@[k]).0;
                    &&& 0 <= b < a
                    &&& !self.pmemory@.contains_key(b)
                    &&& self.memory@.contains_key(b)
                    &&& d@[k].1@ == self@.mem[b]
                    &&& self@.mem[b] != seq!['0']
                },
                forall|k: int, m: int| 0 <= k < m < d@.len() ==> d@[k].0 < d@[m].0,
                forall|b: i32| #![trigger self@.mem[b]]
                    0 <= b < a && !self.pmemory@.contains_key(b) && self.memory@.contains_key(b)
                        && self@.mem[b] != seq!['0'] ==> exists|k: int| 0 <= k < d@.len() && d@[k].0 == b,
            decreases self.max_memory - a,
        {
            if !self.pmemory.contains_key(&a) {
                match self.memory.get(&a) {
                    Some(t) => {
                        assert(t@ == self@.mem[a]);
                        let is_zero = t.unicode_len() == 1 && t.get_char(0) == '0';
                        assert(is_zero == (self@.mem[a] =~= seq!['0']));
                        if !is_zero {
                            let ghost before = d@;
                            d.push((a, t.clone()));
                            proof {
                                assert forall|b: i32| #![trigger self@.mem[b]]
                                    0 <= b < a + 1 && !self.pmemory@.contains_key(b) && self.memory@.contains_key(b)
                                        && self@.mem[b] != seq!['0'] implies exists|k: int| 0 <= k < d@.len() && d@[k].0 == b by {
                                    if b < a {
                                        let k = choose|k: int| 0 <= k < before.len() && before[k].0 == b;
                                        assert(d@[k] == before[k]);
                                    } else {
                                        assert(d@[d@.len() - 1].0 == b);
                                    }
                                }
                            }
                        }
                    },
                    None => {},
                }
            }
            a = a + 1;
        }
        d
    }
}

// Threads of the simulator and the list it switches between.

/// Why a thread's register settings such as `ax=1:bx=2` cannot be read.
#[derive(Clone, Copy, PartialEq, Eq, Structural, Debug)]
pub enum RegInitError {
    /// A setting is not `name=value`.
    NotNameValue,
    /// The name is no register.
    UnknownRegister,
    /// The value is no `i32`.
    BadValue,
}

/// The first setting from `i` on that cannot be read, if any.
pub open spec fn reginit_fault(ps: Seq<Seq<char>>, i: int) -> Option<RegInitError>
    decreases ps.len() - i,
{
    if i < 0 || i >= ps.len() {
        None
    } else {
        let kv = crate::text::split_spec(ps[i], '=');
        if kv.len() != 2 {
            Some(RegInitError::NotNameValue)
        } else if reg_of_name(kv[0]) is None {
            Some(RegInitError::UnknownRegister)
        } else if spec_parse_i32(kv[1]) is None {
            Some(RegInitError::BadValue)
        } else {
            reginit_fault(ps, i + 1)
        }
    }
}

/// A thread: its number, its saved program counter, registers and
/// condition codes, whether it is done, and the bottom of its stack.
pub struct Process {
    pub tid: usize,
    pub pc: i32,
    pub regs: Vec<i32>,
    pub cc: Vec<bool>,
    pub done: bool,
    pub stack: i32,
}

impl Process {
    pub open spec fn wf(&self) -> bool {
        self.regs@.len() == 7 && self.cc@.len() == 6
    }

    /// A thread that starts at `pc` with its stack at `stackbottom`.
    pub fn new(tid: usize, pc: i32, stackbottom: i32) -> (p: Process)
        ensures
            p.wf(),
            p.tid == tid && p.pc == pc && p.stack == stackbottom && !p.done,
            forall|r: int| 0 <= r < 7 ==> p.regs@[r] == 0,
            forall|k: int| 0 <= k < 6 ==> !p.cc@[k],
    {
        Process { tid, pc, regs: vec![0; 7], cc: vec![false; 6], done: false, stack: stackbottom }
    }

    /// Sets the registers up: every register 0 but the stack pointer, which
    /// points at the bottom of the stack, and every condition code clear.
    /// The settings in `reginit` are checked, and have no further effect:
    /// a register already has a value when they are read, and a setting
    /// never replaces one.
    pub fn init(&mut self, reginit: &str) -> (r: Result<(), RegInitError>)
        ensures
            reginit@.len() > 0 ==> r == (match reginit_fault(crate::text::split_spec(reginit@, ':'), 0) {
                Some(e) => Err(e),
                None => Ok(()),
            }),
            reginit@.len() == 0 ==> r is Ok,
            r is Ok ==> final(self).wf() && final(self).regs@ == Seq::new(7, |i: int| if i == REG_SP { old(self).stack } else { 0i32 })
                && final(self).cc@ == Seq::new(6, |i: int| false),
            final(self).tid == old(self).tid && final(self).pc == old(self).pc && final(self).done == old(self).done
                && final(self).stack == old(self).stack,
    {
        let cs = crate::text::chars_of(reginit);
        if cs.len() > 0 {
            let pieces = crate::text::split_chars(&cs, ':');
            let ghost ps = crate::text::split_spec(reginit@, ':');
            let mut i: usize = 0;
            while i < pieces.len()
                invariant
                    crate::text::views_of(pieces@) == ps,
                    ps == crate::text::split_spec(reginit@, ':'),
                    reginit@.len() > 0,
                    i <= ps.len(),
                    reginit_fault(ps, 0) == reginit_fault(ps, i as int),
                decreases ps.len() - i,
            {
                assert(pieces@[i as int]@ == ps[i as int]);
                let kv = crate::text::split_chars(&pieces[i], '=');
                let ghost kvs = crate::text::split_spec(ps[i as int], '=');
                assert(crate::text::views_of(kv@) == kvs);
                if kv.len() != 2 {
                    return Err(RegInitError::NotNameValue);
                }
                assert(kv@[0]@ == kvs[0] && kv@[1]@ == kvs[1]);
                if register_number(&kv[0]).is_none() {
                    return Err(RegInitError::UnknownRegister);
                }
                assert(kv@[1]@.subrange(0, kv@[1]@.len() as int) =~= kv@[1]@);
                if parse_i32_range(&kv[1], 0, kv[1].len()).is_none() {
                    return Err(RegInitError::BadValue);
                }
                i = i + 1;
            }
        }
        self.regs = vec![0; 7];
        self.regs.set(REG_SP as usize, self.stack);
        self.cc = vec![false; 6];
        assert(self.regs@ =~= Seq::new(7, |i: int| if i == REG_SP { old(self).stack } else { 0i32 }));
        assert(self.cc@ =~= Seq::new(6, |i: int| false));
        Ok(())
    }

    pub fn gettid(&self) -> (t: usize)
        ensures
            t == self.tid,
    {
        self.tid
    }

    /// Keeps the CPU's program counter, condition codes and registers.
    pub fn save(&mut self, cpu: &Cpu)
        requires
            cpu.wf(),
        ensures
            final(self).pc == cpu.pc,
            final(self).regs@ == cpu.registers@,
            final(self).cc@ == cpu.conditions@,
            final(self).wf(),
            final(self).tid == old(self).tid && final(self).done == old(self).done && final(self).stack == old(self).stack,
    {
        self.pc = cpu.get_pc();
        self.cc = cpu.conditions.clone();
        self.regs = cpu.registers.clone();
        assert(self.cc@ =~= cpu.conditions@);
        assert(self.regs@ =~= cpu.registers@);
    }

    /// Puts the kept program counter, condition codes and registers back
    /// into the CPU.
    pub fn restore(&self, cpu: &mut Cpu)
        requires
            self.wf(),
            old(cpu).wf(),
        ensures
            final(cpu)@ == (MachineState { pc: self.pc as int, regs: self.regs@, conds: self.cc@, ..old(cpu)@ }),
            final(cpu).same_program(old(cpu)),
            final(cpu).wf(),
    {
        cpu.set_pc(self.pc);
        cpu.conditions = self.cc.clone();
        cpu.registers = self.regs.clone();
        assert(cpu.conditions@ =~= self.cc@);
        assert(cpu.registers@ =~= self.regs@);
    }

    pub fn setdone(&mut self)
        ensures
            final(self).done,
            final(self).tid == old(self).tid && final(self).pc == old(self).pc && final(self).regs@ == old(self).regs@
                && final(self).cc@ == old(self).cc@ && final(self).stack == old(self).stack,
    {
        self.done = true;
    }

    pub fn isdone(&self) -> (b: bool)
        ensures
            b == self.done,
    {
        self.done
    }
}

/// The threads, the one running now, and how many are not done.
pub struct Proclist {
    pub plist: Vec<Process>,
    pub curr: usize,
    pub active: usize,
}

pub open spec fn dones(ps: Seq<Process>) -> Seq<bool> {
    Seq::new(ps.len(), |i: int| ps[i].done)
}

/// The last index in `lo..hi` of a thread that is not done.
pub open spec fn last_running(done: Seq<bool>, lo: int, hi: int) -> Option<int>
    decreases hi - lo,
{
    if hi <= lo || hi > done.len() {
        None
    } else if !done[hi - 1] {
        Some(hi - 1)
    } else {
        last_running(done, lo, hi - 1)
    }
}

/// The thread to run after `curr`: the last one after `curr` that is not
/// done, else the last one up to `curr` that is not done, else `curr`.
pub open spec fn next_spec(done: Seq<bool>, curr: int) -> int {
    match last_running(done, curr + 1, done.len() as int) {
        Some(i) => i,
        None => match last_running(done, 0, curr + 1) {
            Some(i) => i,
            None => curr,
        },
    }
}

proof fn lemma_last_running(done: Seq<bool>, lo: int, hi: int)
    requires
        0 <= lo <= hi <= done.len(),
    ensures
        last_running(done, lo, hi) matches Some(i) ==> lo <= i < hi && !done[i] && forall|k: int| i < k < hi ==> done[k],
        last_running(done, lo, hi) is None ==> forall|k: int| lo <= k < hi ==> done[k],
    decreases hi - lo,
{
    if hi > lo && done[hi - 1] {
        lemma_last_running(done, lo, hi - 1);
    }
}

/// The next thread is one that is not done, where any thread is not done.
pub proof fn law_next_runs_a_live_thread(done: Seq<bool>, curr: int, k: int)
    requires
        0 <= curr < done.len(),
        0 <= k < done.len(),
        !done[k],
    ensures
        0 <= next_spec(done, curr) < done.len(),
        !done[next_spec(done, curr)],
{
    lemma_last_running(done, curr + 1, done.len() as int);
    lemma_last_running(done, 0, curr + 1);
}

impl Proclist {
    pub open spec fn wf(&self) -> bool {
        &&& self.curr < self.plist@.len() || (self.plist@.len() == 0 && self.curr == 0)
        &&& forall|i: int| 0 <= i < self.plist@.len() ==> (#[trigger] self.plist@[i]).wf()
    }

    pub fn new() -> (l: Proclist)
        ensures
            l.plist@.len() == 0 && l.curr == 0 && l.active == 0,
            l.wf(),
    {
        Proclist { plist: Vec::new(), curr: 0, active: 0 }
    }

    /// Adds a thread, which counts as not done.
    pub fn add(&mut self, p: Process)
        requires
            old(self).wf(),
            p.wf(),
            old(self).active < usize::MAX,
        ensures
            final(self).plist@ == old(self).plist@.push(p),
            final(self).active == old(self).active + 1,
            final(self).curr == old(self).curr,
            final(self).wf(),
    {
        self.active = self.active + 1;
        self.plist.push(p);
    }

    pub fn getnum(&self) -> (n: usize)
        ensures
            n == self.plist@.len(),
    {
        self.plist.len()
    }

    /// How many threads are done: those not counted as active.
    pub fn numdone(&self) -> (n: usize)
        requires
            self.active <= self.plist@.len(),
        ensures
            n == self.plist@.len() - self.active,
    {
        self.plist.len() - self.active
    }

    /// The current thread is done.
    pub fn done(&mut self)
        requires
            old(self).wf(),
            old(self).curr < old(self).plist@.len(),
            old(self).active > 0,
        ensures
            final(self).wf(),
            final(self).curr == old(self).curr,
            final(self).active == old(self).active - 1,
            dones(final(self).plist@) == dones(old(self).plist@).update(old(self).curr as int, true),
            forall|i: int| 0 <= i < old(self).plist@.len() ==> (#[trigger] final(self).plist@[i]).tid == old(self).plist@[i].tid,
    {
        let c = self.curr;
        let mut p = self.plist.remove(c);
        p.setdone();
        self.plist.insert(c, p);
        self.active = self.active - 1;
        assert(dones(self.plist@) =~= dones(old(self).plist@).update(c as int, true));
    }

    /// Moves on to the next thread (see `next_spec`).
    pub fn next(&mut self)
        requires
            old(self).wf(),
        ensures
            final(self).curr == next_spec(dones(old(self).plist@), old(self).curr as int),
            final(self).plist@ == old(self).plist@,
            final(self).active == old(self).active,
            final(self).wf(),
    {
        let ghost d = dones(self.plist@);
        let n = self.plist.len();
        let start = self.curr;
        let mut c = self.curr;
        if start >= n {
            return;
        }
        let mut i: usize = start + 1;
        while i < n
            invariant
                start < n == self.plist@.len(),
                d == dones(self.plist@),
                start + 1 <= i <= n,
                c == (match last_running(d, start + 1, i as int) {
                    Some(k) => k,
                    None => start as int,
                }),
            decreases n - i,
        {
            if !self.plist[i].isdone() {
                c = i;
            }
            i = i + 1;
        }
        proof {
            lemma_last_running(d, start + 1, n as int);
        }
        let mid = c;
        let mut j: usize = 0;
        while j < mid + 1
            invariant
                mid < n == self.plist@.len(),
                d == dones(self.plist@),
                j <= mid + 1,
                c == (match last_running(d, 0, j as int) {
                    Some(k) => k,
                    None => mid as int,
                }),
            decreases mid + 1 - j,
        {
            if !self.plist[j].isdone() {
                c = j;
            }
            j = j + 1;
        }
        proof {
            lemma_last_running(d, start + 1, n as int);
            lemma_last_running(d, 0, mid + 1);
            lemma_last_running(d, 0, start + 1);
            if last_running(d, start + 1, n as int) is Some {
                assert(!d[mid as int]);
                assert(last_running(d, 0, mid + 1) == Some(mid as int));
            }
        }
        self.curr = c;
    }
}

} // verus!
