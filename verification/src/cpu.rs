use vstd::prelude::*;
use crate::memory::{Memory, load_u32, store_u32, word_in_bounds};
use crate::encoding::{splice, le_bytes, op_only, op_reg_reg, op_word, op_reg_word, lemma_splice_concat, lemma_load_le_bytes};

verus! {

pub const LOAD: u8 = 1;
pub const STORE: u8 = 2;
pub const ADD: u8 = 3;
pub const SUB: u8 = 4;
pub const JMP: u8 = 5;
pub const JZ: u8 = 6;
pub const JNZ: u8 = 7;
pub const LOADI: u8 = 8;
pub const MOV: u8 = 9;
pub const HLT: u8 = 255;

/// The first processor: eight registers, a program counter and an instruction register.
/// Its conditional jumps test a register directly; it has no flags and no stack.
pub struct CPU {
    pub registers: [u32; 8],
    pub pc: u32,
    pub ir: u8,
}

/// The mathematical state of a `CPU`.
pub struct CpuState {
    pub regs: Seq<u32>,
    pub pc: u32,
    pub ir: u8,
}

impl View for CPU {
    type V = CpuState;

    open spec fn view(&self) -> CpuState {
        CpuState { regs: self.registers@, pc: self.pc, ir: self.ir }
    }
}

pub open spec fn advance(s: CpuState, n: u32) -> CpuState {
    CpuState { pc: s.pc.wrapping_add(n), ..s }
}

pub open spec fn with_reg(s: CpuState, r: u8, v: u32) -> CpuState {
    CpuState { regs: s.regs.update(r as int, v), ..s }
}

/// A register byte followed by a word, both at `pc`.
pub open spec fn reg_word_operands(t: CpuState, mem: Seq<u8>) -> Option<(u8, u32, CpuState)> {
    if t.pc < mem.len() && word_in_bounds(mem, t.pc.wrapping_add(1) as int) {
        Some(
            (
                mem[t.pc as int],
                load_u32(mem, t.pc.wrapping_add(1) as int),
                advance(advance(t, 1), 4),
            ),
        )
    } else {
        None
    }
}

/// Two register bytes at `pc`.
pub open spec fn two_reg_operands(t: CpuState, mem: Seq<u8>) -> Option<(u8, u8, CpuState)> {
    if t.pc < mem.len() && t.pc.wrapping_add(1) < mem.len() {
        Some((mem[t.pc as int], mem[t.pc.wrapping_add(1) as int], advance(advance(t, 1), 1)))
    } else {
        None
    }
}

/// The effect of the instruction whose opcode is `t.ir`, `t.pc` just past the opcode:
/// the new state, the new memory, and whether the processor stopped. `None` where it
/// faults (a register number of 8 or more, an access outside memory).
pub open spec fn exec_spec(t: CpuState, mem: Seq<u8>) -> Option<(CpuState, Seq<u8>, bool)> {
    let op = t.ir;
    if op == LOAD || op == LOADI || op == STORE || op == JZ || op == JNZ {
        match reg_word_operands(t, mem) {
            Some((r, w, u)) => if r >= 8 {
                None
            } else if op == LOAD {
                if word_in_bounds(mem, w as int) {
                    Some((with_reg(u, r, load_u32(mem, w as int)), mem, false))
                } else {
                    None
                }
            } else if op == LOADI {
                Some((with_reg(u, r, w), mem, false))
            } else if op == STORE {
                if word_in_bounds(mem, w as int) {
                    Some((u, store_u32(mem, w as int, u.regs[r as int]), false))
                } else {
                    None
                }
            } else if (op == JZ) == (u.regs[r as int] == 0) {
                Some((CpuState { pc: w, ..u }, mem, false))
            } else {
                Some((u, mem, false))
            },
            None => None,
        }
    } else if op == MOV || op == ADD || op == SUB {
        match two_reg_operands(t, mem) {
            Some((d, s, u)) => if d < 8 && s < 8 {
                let a = u.regs[d as int];
                let b = u.regs[s as int];
                let r = if op == MOV {
                    b
                } else if op == ADD {
                    a.wrapping_add(b)
                } else {
                    a.wrapping_sub(b)
                };
                Some((with_reg(u, d, r), mem, false))
            } else {
                None
            },
            None => None,
        }
    } else if op == JMP {
        if word_in_bounds(mem, t.pc as int) {
            Some((CpuState { pc: load_u32(mem, t.pc as int), ..t }, mem, false))
        } else {
            None
        }
    } else {
        // HLT, and any opcode the processor does not know, stop it.
        Some((t, mem, true))
    }
}

/// One fetch-decode-execute cycle; `None` where it faults.
pub open spec fn step_spec(s: CpuState, mem: Seq<u8>) -> Option<(CpuState, Seq<u8>, bool)> {
    if s.pc < mem.len() {
        exec_spec(CpuState { ir: mem[s.pc as int], ..advance(s, 1) }, mem)
    } else {
        None
    }
}

impl CPU {
    /// A processor at address 0 with clear registers.
    pub fn new() -> (cpu: Self)
        ensures
            cpu@ == (CpuState { regs: Seq::new(8, |i: int| 0u32), pc: 0, ir: 0 }),
    {
        let cpu = CPU { registers: [0u32; 8], pc: 0, ir: 0 };
        assert(cpu.registers@ =~= Seq::new(8, |i: int| 0u32));
        cpu
    }

    fn fetch_u8(&mut self, memory: &Memory) -> (value: u8)
        requires
            old(self).pc < memory.data@.len(),
        ensures
            value == memory.data@[old(self).pc as int],
            final(self)@ == advance(old(self)@, 1),
    {
        let value = memory.read_u8(self.pc);
        self.pc = self.pc.wrapping_add(1);
        value
    }

    fn fetch_u32(&mut self, memory: &Memory) -> (value: u32)
        requires
            word_in_bounds(memory.data@, old(self).pc as int),
        ensures
            value == load_u32(memory.data@, old(self).pc as int),
            final(self)@ == advance(old(self)@, 4),
    {
        let value = memory.read_u32(self.pc);
        self.pc = self.pc.wrapping_add(4);
        value
    }

    fn check_register(reg: u8) -> (index: usize)
        requires
            reg < 8,
        ensures
            index == reg,
    {
        reg as usize
    }

    /// Executes one instruction. Returns `true` when the processor stops: on `HLT`, and on
    /// an opcode it does not know.
    pub fn step(&mut self, memory: &mut Memory) -> (halted: bool)
        requires
            step_spec(old(self)@, old(memory).data@) is Some,
        ensures
            step_spec(old(self)@, old(memory).data@) == Some(
                (final(self)@, final(memory).data@, halted),
            ),
    {
        self.ir = self.fetch_u8(memory);
        let op = self.ir;
        if op == LOAD || op == LOADI || op == STORE || op == JZ || op == JNZ {
            let reg = self.fetch_u8(memory);
            let word = self.fetch_u32(memory);
            let reg_index = CPU::check_register(reg);
            if op == LOAD {
                self.registers[reg_index] = memory.read_u32(word);
            } else if op == LOADI {
                self.registers[reg_index] = word;
            } else if op == STORE {
                memory.write_u32(word, self.registers[reg_index]);
            } else if op == JZ {
                if self.registers[reg_index] == 0 {
                    self.pc = word;
                }
            } else {
                if self.registers[reg_index] != 0 {
                    self.pc = word;
                }
            }
        } else if op == MOV || op == ADD || op == SUB {
            let dst = self.fetch_u8(memory);
            let src = self.fetch_u8(memory);
            let dst_index = CPU::check_register(dst);
            let src_index = CPU::check_register(src);
            if op == MOV {
                self.registers[dst_index] = self.registers[src_index];
            } else if op == ADD {
                self.registers[dst_index] = self.registers[dst_index].wrapping_add(
                    self.registers[src_index],
                );
            } else {
                self.registers[dst_index] = self.registers[dst_index].wrapping_sub(
                    self.registers[src_index],
                );
            }
        } else if op == JMP {
            let address = self.fetch_u32(memory);
            self.pc = address;
        } else {
            return true;
        }
        false
    }

    /// Whether `step` can run in this state: `false` exactly where it would fault.
    pub fn can_step(&self, memory: &Memory) -> (ok: bool)
        ensures
            ok == (step_spec(self@, memory.data@) is Some),
    {
        let len = memory.data.len();
        if self.pc as usize >= len {
            return false;
        }
        let op = memory.data[self.pc as usize];
        let p1 = self.pc.wrapping_add(1);
        if op == LOAD || op == LOADI || op == STORE || op == JZ || op == JNZ {
            if p1 as usize >= len {
                return false;
            }
            let p2 = p1.wrapping_add(1);
            if !word_fits(memory, p2) || memory.data[p1 as usize] >= 8 {
                return false;
            }
            if op == LOAD || op == STORE {
                let address = memory.read_u32(p2);
                word_fits(memory, address)
            } else {
                true
            }
        } else if op == MOV || op == ADD || op == SUB {
            if p1 as usize >= len {
                return false;
            }
            let p2 = p1.wrapping_add(1);
            if p2 as usize >= len {
                return false;
            }
            memory.data[p1 as usize] < 8 && memory.data[p2 as usize] < 8
        } else if op == JMP {
            word_fits(memory, p1)
        } else {
            true
        }
    }
}

/// Whether the word at `a` can be read.
fn word_fits(memory: &Memory, a: u32) -> (b: bool)
    ensures
        b == word_in_bounds(memory.data@, a as int),
{
    a <= u32::MAX - 3 && (a as usize) + 3 < memory.data.len()
}

/// An instruction of this processor with its operands.
pub enum Instr {
    Load(u8, u32),
    LoadI(u8, u32),
    Store(u8, u32),
    Mov(u8, u8),
    Add(u8, u8),
    Sub(u8, u8),
    Jmp(u32),
    Jz(u8, u32),
    Jnz(u8, u32),
    Hlt,
}

/// The bytes of an instruction, as the emitters of this processor write them.
pub open spec fn encode(i: Instr) -> Seq<u8> {
    match i {
        Instr::Load(r, a) => op_reg_word(LOAD, r, a),
        Instr::LoadI(r, v) => op_reg_word(LOADI, r, v),
        Instr::Store(r, a) => op_reg_word(STORE, r, a),
        Instr::Mov(d, s) => op_reg_reg(MOV, d, s),
        Instr::Add(d, s) => op_reg_reg(ADD, d, s),
        Instr::Sub(d, s) => op_reg_reg(SUB, d, s),
        Instr::Jmp(a) => op_word(JMP, a),
        Instr::Jz(r, a) => op_reg_word(JZ, r, a),
        Instr::Jnz(r, a) => op_reg_word(JNZ, r, a),
        Instr::Hlt => op_only(HLT),
    }
}

/// What an instruction does, stated without its bytes: `t` has `ir` set to the opcode and
/// `pc` just past the whole instruction.
pub open spec fn execute(i: Instr, t: CpuState, mem: Seq<u8>) -> Option<(CpuState, Seq<u8>, bool)> {
    match i {
        Instr::Load(r, a) => if r < 8 && word_in_bounds(mem, a as int) {
            Some((with_reg(t, r, load_u32(mem, a as int)), mem, false))
        } else {
            None
        },
        Instr::LoadI(r, v) => if r < 8 {
            Some((with_reg(t, r, v), mem, false))
        } else {
            None
        },
        Instr::Store(r, a) => if r < 8 && word_in_bounds(mem, a as int) {
            Some((t, store_u32(mem, a as int, t.regs[r as int]), false))
        } else {
            None
        },
        Instr::Mov(d, s) => if d < 8 && s < 8 {
            Some((with_reg(t, d, t.regs[s as int]), mem, false))
        } else {
            None
        },
        Instr::Add(d, s) => if d < 8 && s < 8 {
            Some((with_reg(t, d, t.regs[d as int].wrapping_add(t.regs[s as int])), mem, false))
        } else {
            None
        },
        Instr::Sub(d, s) => if d < 8 && s < 8 {
            Some((with_reg(t, d, t.regs[d as int].wrapping_sub(t.regs[s as int])), mem, false))
        } else {
            None
        },
        Instr::Jmp(a) => Some((CpuState { pc: a, ..t }, mem, false)),
        Instr::Jz(r, a) => if r < 8 {
            Some((if t.regs[r as int] == 0 { CpuState { pc: a, ..t } } else { t }, mem, false))
        } else {
            None
        },
        Instr::Jnz(r, a) => if r < 8 {
            Some((if t.regs[r as int] != 0 { CpuState { pc: a, ..t } } else { t }, mem, false))
        } else {
            None
        },
        Instr::Hlt => Some((t, mem, true)),
    }
}

/// The state with `ir` set to the opcode of `i` and `pc` past the whole instruction.
pub open spec fn after_fetch(s: CpuState, i: Instr) -> CpuState {
    CpuState { ir: encode(i)[0], pc: (s.pc + encode(i).len()) as u32, ..s }
}

proof fn lemma_decode_reg_word(s: CpuState, mem: Seq<u8>, i: Instr, r: u8, w: u32)
    requires
        s.pc + 6 <= mem.len(),
        s.pc + 6 <= u32::MAX,
        encode(i) == op_reg_word(encode(i)[0], r, w),
    ensures
        reg_word_operands(
            CpuState { ir: encode(i)[0], pc: (s.pc + 1) as u32, ..s },
            splice(mem, s.pc as int, encode(i)),
        ) == Some((r, w, after_fetch(s, i))),
{
    let p = s.pc as int;
    let m = splice(mem, p, encode(i));
    assert(m[p + 1] == r);
    lemma_splice_concat(mem, p, seq![encode(i)[0], r], le_bytes(w));
    lemma_load_le_bytes(splice(mem, p, seq![encode(i)[0], r]), p + 2, w);
    assert(seq![encode(i)[0], r] + le_bytes(w) =~= encode(i));
}

/// Decoding undoes encoding on this processor too: an instruction that its emitters write
/// at `pc` is fetched with exactly its operands, and one step does what it says.
pub proof fn law_step_decodes(s: CpuState, mem: Seq<u8>, i: Instr)
    requires
        s.pc + encode(i).len() <= mem.len(),
        s.pc + encode(i).len() <= u32::MAX,
    ensures
        step_spec(s, splice(mem, s.pc as int, encode(i))) == execute(
            i,
            after_fetch(s, i),
            splice(mem, s.pc as int, encode(i)),
        ),
{
    let p = s.pc as int;
    let m = splice(mem, p, encode(i));
    assert(m[p] == encode(i)[0]);
    match i {
        Instr::Load(r, a) => lemma_decode_reg_word(s, mem, i, r, a),
        Instr::LoadI(r, a) => lemma_decode_reg_word(s, mem, i, r, a),
        Instr::Store(r, a) => lemma_decode_reg_word(s, mem, i, r, a),
        Instr::Jz(r, a) => lemma_decode_reg_word(s, mem, i, r, a),
        Instr::Jnz(r, a) => lemma_decode_reg_word(s, mem, i, r, a),
        Instr::Mov(d, r) | Instr::Add(d, r) | Instr::Sub(d, r) => {
            assert(m[p + 1] == d);
            assert(m[p + 2] == r);
        },
        Instr::Jmp(a) => {
            lemma_splice_concat(mem, p, seq![JMP], le_bytes(a));
            lemma_load_le_bytes(splice(mem, p, seq![JMP]), p + 1, a);
        },
        Instr::Hlt => {},
    }
}

/// An instruction that memory already holds at `pc` runs as that instruction.
proof fn lemma_step_in_place(s: CpuState, mem: Seq<u8>, i: Instr)
    requires
        s.pc + encode(i).len() <= mem.len(),
        s.pc + encode(i).len() <= u32::MAX,
        splice(mem, s.pc as int, encode(i)) == mem,
    ensures
        step_spec(s, mem) == execute(i, after_fetch(s, i), mem),
{
    law_step_decodes(s, mem, i);
}

/// `LOAD r, a` puts the word memory holds at `a` into register `r`; `LOADI r, v` puts `v`
/// itself there. Memory and the other registers do not change.
pub proof fn law_load_step(s: CpuState, mem: Seq<u8>, op: u8, r: u8, a: u32)
    requires
        s.regs.len() == 8,
        op == LOAD || op == LOADI,
        r < 8,
        s.pc + 6 <= mem.len(),
        s.pc + 6 <= u32::MAX,
        mem[s.pc as int] == op,
        mem[s.pc + 1] == r,
        load_u32(mem, s.pc + 2) == a,
        op == LOAD ==> word_in_bounds(mem, a as int),
    ensures
        step_spec(s, mem) matches Some((t, m, halted)) && !halted && m == mem && t.pc == s.pc + 6
            && t.regs[r as int] == (if op == LOAD { load_u32(mem, a as int) } else { a })
            && (forall|k: int| 0 <= k < 8 && k != r ==> t.regs[k] == s.regs[k]),
{
    crate::encoding::lemma_code_in_place(mem, s.pc as int, seq![op, r], a);
    if op == LOAD {
        lemma_step_in_place(s, mem, Instr::Load(r, a));
    } else {
        lemma_step_in_place(s, mem, Instr::LoadI(r, a));
    }
}

/// `STORE r, a` writes register `r` at `a`, where a later read finds it, leaves the rest of
/// memory and changes no register.
pub proof fn law_store_step(s: CpuState, mem: Seq<u8>, r: u8, a: u32)
    requires
        s.regs.len() == 8,
        r < 8,
        s.pc + 6 <= mem.len(),
        s.pc + 6 <= u32::MAX,
        mem[s.pc as int] == STORE,
        mem[s.pc + 1] == r,
        load_u32(mem, s.pc + 2) == a,
        word_in_bounds(mem, a as int),
    ensures
        step_spec(s, mem) matches Some((t, m, halted)) && !halted && t.pc == s.pc + 6
            && m.len() == mem.len()
            && load_u32(m, a as int) == s.regs[r as int]
            && (forall|i: int| 0 <= i < mem.len() && (i < a || a + 4 <= i) ==> m[i] == mem[i])
            && t.regs == s.regs,
{
    crate::encoding::lemma_code_in_place(mem, s.pc as int, seq![STORE, r], a);
    lemma_step_in_place(s, mem, Instr::Store(r, a));
    crate::memory::lemma_load_store_same(mem, a as int, s.regs[r as int]);
    assert forall|i: int| 0 <= i < mem.len() && (i < a || a + 4 <= i) implies store_u32(mem, a as int, s.regs[r as int])[i] == mem[i] by {
        crate::memory::lemma_store_elsewhere(mem, a as int, s.regs[r as int], i);
    }
}

/// A value stored at an address is what a load from that address gives back, one step
/// later.
pub proof fn law_store_then_load(
    s0: CpuState,
    mem0: Seq<u8>,
    r: u8,
    a: u32,
    s1: CpuState,
    mem1: Seq<u8>,
    r2: u8,
)
    requires
        s0.regs.len() == 8,
        r < 8,
        r2 < 8,
        s0.pc + 6 <= mem0.len(),
        s0.pc + 6 <= u32::MAX,
        mem0[s0.pc as int] == STORE,
        mem0[s0.pc + 1] == r,
        load_u32(mem0, s0.pc + 2) == a,
        word_in_bounds(mem0, a as int),
        step_spec(s0, mem0) == Some((s1, mem1, false)),
        s1.pc + 6 <= mem1.len(),
        s1.pc + 6 <= u32::MAX,
        mem1[s1.pc as int] == LOAD,
        mem1[s1.pc + 1] == r2,
        load_u32(mem1, s1.pc + 2) == a,
    ensures
        step_spec(s1, mem1) matches Some((s2, _m, _h)) && s2.regs[r2 as int] == s0.regs[r as int],
{
    law_store_step(s0, mem0, r, a);
    law_load_step(s1, mem1, LOAD, r2, a);
}

/// `ADD d, r` and `SUB d, r` add and subtract modulo 2^32 into `d`; `MOV d, r` copies.
pub proof fn law_arith_step(s: CpuState, mem: Seq<u8>, op: u8, d: u8, r: u8)
    requires
        s.regs.len() == 8,
        op == ADD || op == SUB || op == MOV,
        d < 8,
        r < 8,
        s.pc + 3 <= mem.len(),
        s.pc + 3 <= u32::MAX,
        mem[s.pc as int] == op,
        mem[s.pc + 1] == d,
        mem[s.pc + 2] == r,
    ensures
        step_spec(s, mem) matches Some((t, m, halted)) && !halted && m == mem && t.pc == s.pc + 3
            && (op == MOV ==> t.regs[d as int] == s.regs[r as int])
            && (op == ADD ==> t.regs[d as int] as int == (s.regs[d as int] + s.regs[r as int]) % 0x1_0000_0000)
            && (op == SUB ==> t.regs[d as int] as int == (s.regs[d as int] - s.regs[r as int] + 0x1_0000_0000) % 0x1_0000_0000)
            && (forall|k: int| 0 <= k < 8 && k != d ==> t.regs[k] == s.regs[k]),
{
    crate::encoding::lemma_bytes_in_place(mem, s.pc as int, op_reg_reg(op, d, r));
    let a = s.regs[d as int];
    let b = s.regs[r as int];
    if op == ADD {
        lemma_step_in_place(s, mem, Instr::Add(d, r));
        assert((a + b) % 0x1_0000_0000 == if a + b < 0x1_0000_0000 { a + b } else { a + b - 0x1_0000_0000 });
    } else if op == SUB {
        lemma_step_in_place(s, mem, Instr::Sub(d, r));
        assert((a - b + 0x1_0000_0000) % 0x1_0000_0000 == if a >= b { a - b } else { a - b + 0x1_0000_0000 });
    } else {
        lemma_step_in_place(s, mem, Instr::Mov(d, r));
    }
}

/// `JZ r, a` jumps to `a` when register `r` is 0, `JNZ r, a` when it is not, `JMP a` always;
/// otherwise execution goes on after the instruction. Registers and memory stay.
pub proof fn law_jump_step(s: CpuState, mem: Seq<u8>, op: u8, r: u8, a: u32)
    requires
        s.regs.len() == 8,
        op == JZ || op == JNZ,
        r < 8,
        s.pc + 6 <= mem.len(),
        s.pc + 6 <= u32::MAX,
        mem[s.pc as int] == op,
        mem[s.pc + 1] == r,
        load_u32(mem, s.pc + 2) == a,
    ensures
        step_spec(s, mem) matches Some((t, m, halted)) && !halted && m == mem && t.regs == s.regs
            && t.pc == (if (op == JZ && s.regs[r as int] == 0) || (op == JNZ && s.regs[r as int] != 0) {
                a
            } else {
                (s.pc + 6) as u32
            }),
{
    crate::encoding::lemma_code_in_place(mem, s.pc as int, seq![op, r], a);
    if op == JZ {
        lemma_step_in_place(s, mem, Instr::Jz(r, a));
    } else {
        lemma_step_in_place(s, mem, Instr::Jnz(r, a));
    }
}

} // verus!
