use vstd::prelude::*;
use crate::memory::{Memory, load_u32, store_u32, word_in_bounds};
use crate::encoding::{
    splice, le_bytes, op_only, op_reg, op_reg_reg, op_word, op_reg_word, lemma_splice_concat,
    lemma_load_le_bytes,
};

verus! {

pub const LOAD: u8 = 1;
pub const STORE: u8 = 2;
pub const ADD: u8 = 3;
pub const SUB: u8 = 4;
pub const JMP: u8 = 5;
pub const JZ: u8 = 6;
pub const JNZ: u8 = 7;
pub const LOADI: u8 = 8;
pub const MOV: u8 = 9;
pub const JS: u8 = 10;
pub const JNS: u8 = 11;
pub const PUSH: u8 = 12;
pub const POP: u8 = 13;
pub const CALL: u8 = 14;
pub const RET: u8 = 15;
pub const INT: u8 = 16;
pub const IRET: u8 = 17;
pub const ENTER: u8 = 18;
pub const LEAVE: u8 = 19;
pub const HLT: u8 = 255;

/// The processor: eight general registers, the program counter, the instruction register,
/// the interrupt vector, the stack and frame registers and four flags.
pub struct CPU {
    pub registers: [u32; 8],
    pub pc: u32,
    pub ir: u8,
    pub interrupt_register: u32,
    pub sp: u32,
    pub bp: u32,
    pub fp: u32,
    pub lr: u32,
    pub carry_flag: bool,
    pub sign_flag: bool,
    pub zero_flag: bool,
    pub overflow_flag: bool,
}

/// The mathematical state of a `CPU`: the registers as a sequence.
pub struct CpuState {
    pub regs: Seq<u32>,
    pub pc: u32,
    pub ir: u8,
    pub interrupt_register: u32,
    pub sp: u32,
    pub bp: u32,
    pub fp: u32,
    pub lr: u32,
    pub carry_flag: bool,
    pub sign_flag: bool,
    pub zero_flag: bool,
    pub overflow_flag: bool,
}

impl View for CPU {
    type V = CpuState;

    open spec fn view(&self) -> CpuState {
        CpuState {
            regs: self.registers@,
            pc: self.pc,
            ir: self.ir,
            interrupt_register: self.interrupt_register,
            sp: self.sp,
            bp: self.bp,
            fp: self.fp,
            lr: self.lr,
            carry_flag: self.carry_flag,
            sign_flag: self.sign_flag,
            zero_flag: self.zero_flag,
            overflow_flag: self.overflow_flag,
        }
    }
}

/// What one instruction leaves behind: the processor, the memory, and whether it halted.
pub type Outcome = (CpuState, Seq<u8>, bool);

pub open spec fn advance(s: CpuState, n: u32) -> CpuState {
    CpuState { pc: s.pc.wrapping_add(n), ..s }
}

pub open spec fn with_reg(s: CpuState, r: u8, v: u32) -> CpuState {
    CpuState { regs: s.regs.update(r as int, v), ..s }
}

/// The zero flag tells whether `v` is 0, the sign flag whether its top bit is set.
pub open spec fn with_zs(s: CpuState, v: u32) -> CpuState {
    CpuState { zero_flag: v == 0, sign_flag: v >= 0x8000_0000, ..s }
}

pub open spec fn jump_if(s: CpuState, cond: bool, target: u32) -> CpuState {
    if cond {
        CpuState { pc: target, ..s }
    } else {
        s
    }
}

/// One register byte at `pc`.
pub open spec fn reg_operand(t: CpuState, mem: Seq<u8>) -> Option<(u8, CpuState)> {
    if t.pc < mem.len() {
        Some((mem[t.pc as int], advance(t, 1)))
    } else {
        None
    }
}

/// One little-endian word at `pc`.
pub open spec fn word_operand(t: CpuState, mem: Seq<u8>) -> Option<(u32, CpuState)> {
    if word_in_bounds(mem, t.pc as int) {
        Some((load_u32(mem, t.pc as int), advance(t, 4)))
    } else {
        None
    }
}

/// A register byte followed by a word.
pub open spec fn reg_word_operands(t: CpuState, mem: Seq<u8>) -> Option<(u8, u32, CpuState)> {
    match reg_operand(t, mem) {
        Some((r, t1)) => match word_operand(t1, mem) {
            Some((w, t2)) => Some((r, w, t2)),
            None => None,
        },
        None => None,
    }
}

/// Two register bytes.
pub open spec fn two_reg_operands(t: CpuState, mem: Seq<u8>) -> Option<(u8, u8, CpuState)> {
    match reg_operand(t, mem) {
        Some((d, t1)) => match reg_operand(t1, mem) {
            Some((s, t2)) => Some((d, s, t2)),
            None => None,
        },
        None => None,
    }
}

/// Pushes `v`: the stack grows down by a word; `None` where it cannot.
pub open spec fn push_word(s: CpuState, mem: Seq<u8>, v: u32) -> Option<(CpuState, Seq<u8>)> {
    if s.sp >= 4 && word_in_bounds(mem, s.sp - 4) {
        Some((CpuState { sp: (s.sp - 4) as u32, ..s }, store_u32(mem, s.sp - 4, v)))
    } else {
        None
    }
}

/// Pops a word: `None` where the stack is empty or its top word leaves memory.
pub open spec fn pop_word(s: CpuState, mem: Seq<u8>) -> Option<(u32, CpuState)> {
    if s.sp < mem.len() && word_in_bounds(mem, s.sp as int) {
        Some((load_u32(mem, s.sp as int), CpuState { sp: s.sp.wrapping_add(4), ..s }))
    } else {
        None
    }
}

/// The effect of the instruction whose opcode is `t.ir`, with `t.pc` just past the opcode.
/// `None` where the instruction faults (a bad register, an access outside memory, a stack
/// that cannot grow or is empty, an unset interrupt vector).
pub open spec fn exec_spec(t: CpuState, mem: Seq<u8>) -> Option<Outcome> {
    let op = t.ir;
    if op == LOAD {
        match reg_word_operands(t, mem) {
            Some((r, a, u)) => if r < 8 && word_in_bounds(mem, a as int) {
                let v = load_u32(mem, a as int);
                Some((with_zs(with_reg(u, r, v), v), mem, false))
            } else {
                None
            },
            None => None,
        }
    } else if op == LOADI {
        match reg_word_operands(t, mem) {
            Some((r, v, u)) => if r < 8 {
                Some((with_zs(with_reg(u, r, v), v), mem, false))
            } else {
                None
            },
            None => None,
        }
    } else if op == STORE {
        match reg_word_operands(t, mem) {
            Some((r, a, u)) => if r < 8 && word_in_bounds(mem, a as int) {
                Some((u, store_u32(mem, a as int, u.regs[r as int]), false))
            } else {
                None
            },
            None => None,
        }
    } else if op == MOV || op == ADD || op == SUB {
        match two_reg_operands(t, mem) {
            Some((d, s, u)) => if d < 8 && s < 8 {
                let a = u.regs[d as int];
                let b = u.regs[s as int];
                if op == MOV {
                    Some((with_zs(with_reg(u, d, b), b), mem, false))
                } else if op == ADD {
                    let r = a.wrapping_add(b);
                    let u2 = CpuState { carry_flag: a + b > u32::MAX, ..u };
                    Some((with_zs(with_reg(u2, d, r), r), mem, false))
                } else {
                    let r = a.wrapping_sub(b);
                    let u2 = CpuState { carry_flag: a < b, ..u };
                    Some((with_zs(with_reg(u2, d, r), r), mem, false))
                }
            } else {
                None
            },
            None => None,
        }
    } else if op == JMP || op == JZ || op == JNZ || op == JS || op == JNS {
        match word_operand(t, mem) {
            Some((a, u)) => {
                let cond = if op == JMP {
                    true
                } else if op == JZ {
                    u.zero_flag
                } else if op == JNZ {
                    !u.zero_flag
                } else if op == JS {
                    u.sign_flag
                } else {
                    !u.sign_flag
                };
                Some((jump_if(u, cond, a), mem, false))
            },
            None => None,
        }
    } else if op == PUSH {
        match reg_operand(t, mem) {
            Some((r, u)) => if r < 8 {
                match push_word(u, mem, u.regs[r as int]) {
                    Some((u2, m2)) => Some((u2, m2, false)),
                    None => None,
                }
            } else {
                None
            },
            None => None,
        }
    } else if op == POP {
        match reg_operand(t, mem) {
            Some((r, u)) => if r < 8 {
                match pop_word(u, mem) {
                    Some((v, u2)) => Some((with_zs(with_reg(u2, r, v), v), mem, false)),
                    None => None,
                }
            } else {
                None
            },
            None => None,
        }
    } else if op == CALL {
        match word_operand(t, mem) {
            Some((a, u)) => match push_word(u, mem, u.pc) {
                Some((u2, m2)) => Some((CpuState { pc: a, ..u2 }, m2, false)),
                None => None,
            },
            None => None,
        }
    } else if op == RET || op == IRET {
        match pop_word(t, mem) {
            Some((ra, u)) => Some((CpuState { pc: ra, ..u }, mem, false)),
            None => None,
        }
    } else if op == INT {
        if t.interrupt_register == 0 {
            None
        } else {
            match push_word(t, mem, t.pc) {
                Some((u, m2)) => Some((CpuState { pc: t.interrupt_register, ..u }, m2, false)),
                None => None,
            }
        }
    } else if op == ENTER {
        match push_word(t, mem, t.bp) {
            Some((u, m2)) => if u.sp >= 8 {
                Some((CpuState { bp: u.sp, sp: (u.sp - 8) as u32, ..u }, m2, false))
            } else {
                None
            },
            None => None,
        }
    } else if op == LEAVE {
        if word_in_bounds(mem, t.bp as int) && t.bp + 4 <= u32::MAX {
            Some((CpuState { bp: load_u32(mem, t.bp as int), sp: (t.bp + 4) as u32, ..t }, mem, false))
        } else {
            None
        }
    } else {
        // HLT, and any opcode the processor does not know, stop it.
        Some((t, mem, true))
    }
}

/// One fetch-decode-execute cycle: the opcode at `pc` goes to `ir`, `pc` moves past it,
/// and the instruction runs. `None` where the cycle faults.
pub open spec fn step_spec(s: CpuState, mem: Seq<u8>) -> Option<Outcome> {
    if s.pc < mem.len() {
        exec_spec(CpuState { ir: mem[s.pc as int], ..advance(s, 1) }, mem)
    } else {
        None
    }
}


impl CPU {
    /// A processor at address 0 with clear registers and flags, whose stack, base and frame
    /// registers start at `memory_size`, the end of an empty stack.
    pub fn new(memory_size: u32) -> (cpu: Self)
        ensures
            cpu@ == (CpuState {
                regs: Seq::new(8, |i: int| 0u32),
                pc: 0,
                ir: 0,
                interrupt_register: 0,
                sp: memory_size,
                bp: memory_size,
                fp: memory_size,
                lr: 0,
                carry_flag: false,
                sign_flag: false,
                zero_flag: false,
                overflow_flag: false,
            }),
    {
        let cpu = CPU {
            registers: [0u32; 8],
            pc: 0,
            ir: 0,
            interrupt_register: 0,
            sp: memory_size,
            bp: memory_size,
            fp: memory_size,
            lr: 0,
            carry_flag: false,
            sign_flag: false,
            zero_flag: false,
            overflow_flag: false,
        };
        assert(cpu.registers@ =~= Seq::new(8, |i: int| 0u32));
        cpu
    }

    fn fetch_u8(&mut self, memory: &Memory) -> (value: u8)
        requires
            old(self).pc < memory.data@.len(),
        ensures
            value == memory.data@[old(self).pc as int],
            final(self)@ == advance(old(self)@, 1),
    {
        let value = memory.read_u8(self.pc);
        self.pc = self.pc.wrapping_add(1);
        value
    }

    fn fetch_u32(&mut self, memory: &Memory) -> (value: u32)
        requires
            word_in_bounds(memory.data@, old(self).pc as int),
        ensures
            value == load_u32(memory.data@, old(self).pc as int),
            final(self)@ == advance(old(self)@, 4),
    {
        let value = memory.read_u32(self.pc);
        self.pc = self.pc.wrapping_add(4);
        value
    }

    fn check_register(reg: u8) -> (index: usize)
        requires
            reg < 8,
        ensures
            index == reg,
    {
        reg as usize
    }

    fn update_zero_sign_flags(&mut self, value: u32)
        ensures
            final(self)@ == with_zs(old(self)@, value),
    {
        self.zero_flag = value == 0;
        self.sign_flag = (value & 0x8000_0000u32) != 0;
        assert(((value & 0x8000_0000u32) != 0) == (value >= 0x8000_0000u32)) by (bit_vector);
    }

    fn exec_load(&mut self, memory: &Memory)
        requires
            old(self).ir == LOAD || old(self).ir == LOADI,
            exec_spec(old(self)@, memory.data@) is Some,
        ensures
            exec_spec(old(self)@, memory.data@) == Some((final(self)@, memory.data@, false)),
    {
        let reg = self.fetch_u8(memory);
        let operand = self.fetch_u32(memory);
        let reg_index = CPU::check_register(reg);
        if self.ir == LOAD {
            self.registers[reg_index] = memory.read_u32(operand);
        } else {
            self.registers[reg_index] = operand;
        }
        self.update_zero_sign_flags(self.registers[reg_index]);
    }

    fn exec_store(&mut self, memory: &mut Memory)
        requires
            old(self).ir == STORE,
            exec_spec(old(self)@, old(memory).data@) is Some,
        ensures
            exec_spec(old(self)@, old(memory).data@) == Some(
                (final(self)@, final(memory).data@, false),
            ),
    {
        let reg = self.fetch_u8(memory);
        let address = self.fetch_u32(memory);
        let reg_index = CPU::check_register(reg);
        memory.write_u32(address, self.registers[reg_index]);
    }

    fn exec_arith(&mut self, memory: &Memory)
        requires
            old(self).ir == MOV || old(self).ir == ADD || old(self).ir == SUB,
            exec_spec(old(self)@, memory.data@) is Some,
        ensures
            exec_spec(old(self)@, memory.data@) == Some((final(self)@, memory.data@, false)),
    {
        let dst = self.fetch_u8(memory);
        let src = self.fetch_u8(memory);
        let dst_index = CPU::check_register(dst);
        let src_index = CPU::check_register(src);
        let a = self.registers[dst_index];
        let b = self.registers[src_index];
        if self.ir == MOV {
            self.registers[dst_index] = b;
        } else if self.ir == ADD {
            let result = a.wrapping_add(b);
            self.carry_flag = result < a;
            self.registers[dst_index] = result;
        } else {
            let result = a.wrapping_sub(b);
            self.carry_flag = a < b;
            self.registers[dst_index] = result;
        }
        self.update_zero_sign_flags(self.registers[dst_index]);
    }

    fn exec_jump(&mut self, memory: &Memory)
        requires
            old(self).ir == JMP || old(self).ir == JZ || old(self).ir == JNZ || old(self).ir == JS
                || old(self).ir == JNS,
            exec_spec(old(self)@, memory.data@) is Some,
        ensures
            exec_spec(old(self)@, memory.data@) == Some((final(self)@, memory.data@, false)),
    {
        let address = self.fetch_u32(memory);
        let taken = if self.ir == JMP {
            true
        } else if self.ir == JZ {
            self.zero_flag
        } else if self.ir == JNZ {
            !self.zero_flag
        } else if self.ir == JS {
            self.sign_flag
        } else {
            !self.sign_flag
        };
        if taken {
            self.pc = address;
        }
    }

    fn push_u32(&mut self, memory: &mut Memory, value: u32)
        requires
            push_word(old(self)@, old(memory).data@, value) is Some,
        ensures
            push_word(old(self)@, old(memory).data@, value) == Some(
                (final(self)@, final(memory).data@),
            ),
    {
        self.sp = self.sp - 4;
        memory.write_u32(self.sp, value);
    }

    fn pop_u32(&mut self, memory: &Memory) -> (value: u32)
        requires
            pop_word(old(self)@, memory.data@) is Some,
        ensures
            pop_word(old(self)@, memory.data@) == Some((value, final(self)@)),
    {
        let value = memory.read_u32(self.sp);
        self.sp = self.sp.wrapping_add(4);
        value
    }

    fn exec_stack(&mut self, memory: &mut Memory)
        requires
            old(self).ir == PUSH || old(self).ir == POP || old(self).ir == CALL || old(self).ir
                == RET || old(self).ir == IRET || old(self).ir == INT,
            exec_spec(old(self)@, old(memory).data@) is Some,
        ensures
            exec_spec(old(self)@, old(memory).data@) == Some(
                (final(self)@, final(memory).data@, false),
            ),
    {
        if self.ir == PUSH {
            let reg = self.fetch_u8(memory);
            let reg_index = CPU::check_register(reg);
            let value = self.registers[reg_index];
            self.push_u32(memory, value);
        } else if self.ir == POP {
            let reg = self.fetch_u8(memory);
            let reg_index = CPU::check_register(reg);
            let value = self.pop_u32(memory);
            self.registers[reg_index] = value;
            self.update_zero_sign_flags(self.registers[reg_index]);
        } else if self.ir == CALL {
            let address = self.fetch_u32(memory);
            let return_address = self.pc;
            self.push_u32(memory, return_address);
            self.pc = address;
        } else if self.ir == INT {
            let return_address = self.pc;
            self.push_u32(memory, return_address);
            self.pc = self.interrupt_register;
        } else {
            let return_address = self.pop_u32(memory);
            self.pc = return_address;
        }
    }

    fn exec_frame(&mut self, memory: &mut Memory)
        requires
            old(self).ir == ENTER || old(self).ir == LEAVE,
            exec_spec(old(self)@, old(memory).data@) is Some,
        ensures
            exec_spec(old(self)@, old(memory).data@) == Some(
                (final(self)@, final(memory).data@, false),
            ),
    {
        if self.ir == ENTER {
            let bp = self.bp;
            self.push_u32(memory, bp);
            self.bp = self.sp;
            self.sp = self.sp - 8;
        } else {
            self.sp = self.bp;
            self.bp = memory.read_u32(self.sp);
            self.sp = self.sp + 4;
        }
    }

    /// Executes one instruction. Returns `true` when the processor stops: on `HLT`, and on
    /// an opcode it does not know.
    pub fn step(&mut self, memory: &mut Memory) -> (halted: bool)
        requires
            step_spec(old(self)@, old(memory).data@) is Some,
        ensures
            step_spec(old(self)@, old(memory).data@) == Some(
                (final(self)@, final(memory).data@, halted),
            ),
    {
        self.ir = self.fetch_u8(memory);
        let op = self.ir;
        if op == LOAD || op == LOADI {
            self.exec_load(memory);
        } else if op == STORE {
            self.exec_store(memory);
        } else if op == MOV || op == ADD || op == SUB {
            self.exec_arith(memory);
        } else if op == JMP || op == JZ || op == JNZ || op == JS || op == JNS {
            self.exec_jump(memory);
        } else if op == PUSH || op == POP || op == CALL || op == RET || op == IRET || op == INT {
            self.exec_stack(memory);
        } else if op == ENTER || op == LEAVE {
            self.exec_frame(memory);
        } else {
            return true;
        }
        false
    }

    /// Whether `step` can run in this state: `false` exactly where the instruction at `pc`
    /// would fault.
    pub fn can_step(&self, memory: &Memory) -> (ok: bool)
        ensures
            ok == (step_spec(self@, memory.data@) is Some),
    {
        let len = memory.data.len();
        let pc = self.pc;
        if pc as usize >= len {
            return false;
        }
        let op = memory.data[pc as usize];
        let p1 = pc.wrapping_add(1);
        if op == LOAD || op == LOADI || op == STORE {
            if p1 as usize >= len {
                return false;
            }
            let reg = memory.data[p1 as usize];
            let p2 = p1.wrapping_add(1);
            if !word_fits(memory, p2) || reg >= 8 {
                return false;
            }
            if op == LOADI {
                return true;
            }
            let address = memory.read_u32(p2);
            word_fits(memory, address)
        } else if op == MOV || op == ADD || op == SUB {
            if p1 as usize >= len {
                return false;
            }
            let p2 = p1.wrapping_add(1);
            if p2 as usize >= len {
                return false;
            }
            memory.data[p1 as usize] < 8 && memory.data[p2 as usize] < 8
        } else if op == JMP || op == JZ || op == JNZ || op == JS || op == JNS {
            word_fits(memory, p1)
        } else if op == PUSH || op == POP {
            if p1 as usize >= len || memory.data[p1 as usize] >= 8 {
                return false;
            }
            if op == PUSH {
                self.sp >= 4 && word_fits(memory, self.sp - 4)
            } else {
                (self.sp as usize) < len && word_fits(memory, self.sp)
            }
        } else if op == CALL {
            word_fits(memory, p1) && self.sp >= 4 && word_fits(memory, self.sp - 4)
        } else if op == RET || op == IRET {
            (self.sp as usize) < len && word_fits(memory, self.sp)
        } else if op == INT {
            self.interrupt_register != 0 && self.sp >= 4 && word_fits(memory, self.sp - 4)
        } else if op == ENTER {
            self.sp >= 12 && word_fits(memory, self.sp - 4)
        } else if op == LEAVE {
            word_fits(memory, self.bp) && self.bp <= u32::MAX - 4
        } else {
            true
        }
    }

    /// The words on the stack, from `sp` up to the end of memory, each with its address.
    pub fn stack_words(&self, memory: &Memory) -> (words: Vec<(u32, u32)>)
        requires
            memory.data@.len() <= u32::MAX,
            self.sp < memory.data@.len() ==> (memory.data@.len() - self.sp) % 4 == 0,
        ensures
            words@ == stack_spec(self.sp, memory.data@),
    {
        let memory_size = memory.data.len() as u32;
        let mut words: Vec<(u32, u32)> = Vec::new();
        if self.sp >= memory_size {
            return words;
        }
        let mut address = self.sp;
        while address < memory_size
            invariant
                memory_size == memory.data@.len(),
                self.sp <= address <= memory_size,
                (memory_size - address) % 4 == 0,
                (address - self.sp) % 4 == 0,
                words@.len() == (address - self.sp) / 4,
                forall|k: int|
                    0 <= k < words@.len() ==> #[trigger] words@[k] == (
                        (self.sp + 4 * k) as u32,
                        load_u32(memory.data@, self.sp + 4 * k),
                    ),
            decreases memory_size - address,
        {
            let value = memory.read_u32(address);
            words.push((address, value));
            address = address + 4;
        }
        assert(words@ =~= stack_spec(self.sp, memory.data@));
        words
    }
}

/// Whether the word at `a` can be read.
fn word_fits(memory: &Memory, a: u32) -> (b: bool)
    ensures
        b == word_in_bounds(memory.data@, a as int),
{
    a <= u32::MAX - 3 && (a as usize) + 3 < memory.data.len()
}

/// The `(address, word)` pairs from `sp` to the end of `mem`, four bytes apart.
pub open spec fn stack_spec(sp: u32, mem: Seq<u8>) -> Seq<(u32, u32)> {
    if sp < mem.len() {
        Seq::new(
            ((mem.len() - sp) / 4) as nat,
            |k: int| ((sp + 4 * k) as u32, load_u32(mem, sp + 4 * k)),
        )
    } else {
        Seq::empty()
    }
}

/// An instruction of the processor with its operands.
pub enum Instr {
    Load(u8, u32),
    LoadI(u8, u32),
    Store(u8, u32),
    Mov(u8, u8),
    Add(u8, u8),
    Sub(u8, u8),
    Jmp(u32),
    Jz(u32),
    Jnz(u32),
    Js(u32),
    Jns(u32),
    Push(u8),
    Pop(u8),
    Call(u32),
    Ret,
    Int,
    Iret,
    Enter,
    Leave,
    Hlt,
}

/// The bytes of an instruction, as the emitters write them.
pub open spec fn encode(i: Instr) -> Seq<u8> {
    match i {
        Instr::Load(r, a) => op_reg_word(LOAD, r, a),
        Instr::LoadI(r, v) => op_reg_word(LOADI, r, v),
        Instr::Store(r, a) => op_reg_word(STORE, r, a),
        Instr::Mov(d, s) => op_reg_reg(MOV, d, s),
        Instr::Add(d, s) => op_reg_reg(ADD, d, s),
        Instr::Sub(d, s) => op_reg_reg(SUB, d, s),
        Instr::Jmp(a) => op_word(JMP, a),
        Instr::Jz(a) => op_word(JZ, a),
        Instr::Jnz(a) => op_word(JNZ, a),
        Instr::Js(a) => op_word(JS, a),
        Instr::Jns(a) => op_word(JNS, a),
        Instr::Push(r) => op_reg(PUSH, r),
        Instr::Pop(r) => op_reg(POP, r),
        Instr::Call(a) => op_word(CALL, a),
        Instr::Ret => op_only(RET),
        Instr::Int => op_only(INT),
        Instr::Iret => op_only(IRET),
        Instr::Enter => op_only(ENTER),
        Instr::Leave => op_only(LEAVE),
        Instr::Hlt => op_only(HLT),
    }
}

/// What an instruction does, stated without its bytes: `t` is the processor with `ir` set
/// to the opcode and `pc` just past the whole instruction.
pub open spec fn execute(i: Instr, t: CpuState, mem: Seq<u8>) -> Option<Outcome> {
    match i {
        Instr::Load(r, a) => if r < 8 && word_in_bounds(mem, a as int) {
            let v = load_u32(mem, a as int);
            Some((with_zs(with_reg(t, r, v), v), mem, false))
        } else {
            None
        },
        Instr::LoadI(r, v) => if r < 8 {
            Some((with_zs(with_reg(t, r, v), v), mem, false))
        } else {
            None
        },
        Instr::Store(r, a) => if r < 8 && word_in_bounds(mem, a as int) {
            Some((t, store_u32(mem, a as int, t.regs[r as int]), false))
        } else {
            None
        },
        Instr::Mov(d, s) => if d < 8 && s < 8 {
            let v = t.regs[s as int];
            Some((with_zs(with_reg(t, d, v), v), mem, false))
        } else {
            None
        },
        Instr::Add(d, s) => if d < 8 && s < 8 {
            let a = t.regs[d as int];
            let b = t.regs[s as int];
            let v = a.wrapping_add(b);
            Some((with_zs(with_reg(CpuState { carry_flag: a + b > u32::MAX, ..t }, d, v), v), mem, false))
        } else {
            None
        },
        Instr::Sub(d, s) => if d < 8 && s < 8 {
            let a = t.regs[d as int];
            let b = t.regs[s as int];
            let v = a.wrapping_sub(b);
            Some((with_zs(with_reg(CpuState { carry_flag: a < b, ..t }, d, v), v), mem, false))
        } else {
            None
        },
        Instr::Jmp(a) => Some((CpuState { pc: a, ..t }, mem, false)),
        Instr::Jz(a) => Some((jump_if(t, t.zero_flag, a), mem, false)),
        Instr::Jnz(a) => Some((jump_if(t, !t.zero_flag, a), mem, false)),
        Instr::Js(a) => Some((jump_if(t, t.sign_flag, a), mem, false)),
        Instr::Jns(a) => Some((jump_if(t, !t.sign_flag, a), mem, false)),
        Instr::Push(r) => if r < 8 {
            match push_word(t, mem, t.regs[r as int]) {
                Some((u, m)) => Some((u, m, false)),
                None => None,
            }
        } else {
            None
        },
        Instr::Pop(r) => if r < 8 {
            match pop_word(t, mem) {
                Some((v, u)) => Some((with_zs(with_reg(u, r, v), v), mem, false)),
                None => None,
            }
        } else {
            None
        },
        Instr::Call(a) => match push_word(t, mem, t.pc) {
            Some((u, m)) => Some((CpuState { pc: a, ..u }, m, false)),
            None => None,
        },
        Instr::Ret | Instr::Iret => match pop_word(t, mem) {
            Some((ra, u)) => Some((CpuState { pc: ra, ..u }, mem, false)),
            None => None,
        },
        Instr::Int => if t.interrupt_register != 0 {
            match push_word(t, mem, t.pc) {
                Some((u, m)) => Some((CpuState { pc: t.interrupt_register, ..u }, m, false)),
                None => None,
            }
        } else {
            None
        },
        Instr::Enter => match push_word(t, mem, t.bp) {
            Some((u, m)) => if u.sp >= 8 {
                Some((CpuState { bp: u.sp, sp: (u.sp - 8) as u32, ..u }, m, false))
            } else {
                None
            },
            None => None,
        },
        Instr::Leave => if word_in_bounds(mem, t.bp as int) && t.bp + 4 <= u32::MAX {
            Some((CpuState { bp: load_u32(mem, t.bp as int), sp: (t.bp + 4) as u32, ..t }, mem, false))
        } else {
            None
        },
        Instr::Hlt => Some((t, mem, true)),
    }
}

/// A word placed right after a prefix reads back as itself.
proof fn lemma_word_after(mem: Seq<u8>, a: int, x: Seq<u8>, w: u32)
    requires
        0 <= a,
        a + x.len() + 4 <= mem.len(),
    ensures
        load_u32(splice(mem, a, x + le_bytes(w)), a + x.len()) == w,
        splice(mem, a, x + le_bytes(w)).len() == mem.len(),
{
    lemma_splice_concat(mem, a, x, le_bytes(w));
    lemma_load_le_bytes(splice(mem, a, x), a + x.len(), w);
}

/// The state after the opcode of `i` is fetched at `s.pc`.
pub open spec fn after_opcode(s: CpuState, i: Instr) -> CpuState {
    CpuState { ir: encode(i)[0], pc: (s.pc + 1) as u32, ..s }
}

/// The state with `ir` set to the opcode of `i` and `pc` past the whole instruction.
pub open spec fn after_fetch(s: CpuState, i: Instr) -> CpuState {
    CpuState { ir: encode(i)[0], pc: (s.pc + encode(i).len()) as u32, ..s }
}

proof fn lemma_decode_reg_word(s: CpuState, mem: Seq<u8>, i: Instr, r: u8, w: u32)
    requires
        s.pc + 6 <= mem.len(),
        s.pc + 6 <= u32::MAX,
        encode(i) == op_reg_word(encode(i)[0], r, w),
    ensures
        reg_word_operands(after_opcode(s, i), splice(mem, s.pc as int, encode(i))) == Some(
            (r, w, after_fetch(s, i)),
        ),
{
    let p = s.pc as int;
    let m = splice(mem, p, encode(i));
    assert(m[p + 1] == r);
    lemma_word_after(mem, p, seq![encode(i)[0], r], w);
    assert(seq![encode(i)[0], r] + le_bytes(w) =~= encode(i));
}

proof fn lemma_decode_word(s: CpuState, mem: Seq<u8>, i: Instr, w: u32)
    requires
        s.pc + 5 <= mem.len(),
        s.pc + 5 <= u32::MAX,
        encode(i) == op_word(encode(i)[0], w),
    ensures
        word_operand(after_opcode(s, i), splice(mem, s.pc as int, encode(i))) == Some(
            (w, after_fetch(s, i)),
        ),
{
    let p = s.pc as int;
    lemma_word_after(mem, p, seq![encode(i)[0]], w);
    assert(seq![encode(i)[0]] + le_bytes(w) =~= encode(i));
}

proof fn lemma_decode_regs(s: CpuState, mem: Seq<u8>, i: Instr, d: u8, r: u8)
    requires
        s.pc + 3 <= mem.len(),
        s.pc + 3 <= u32::MAX,
        encode(i) == op_reg_reg(encode(i)[0], d, r),
    ensures
        two_reg_operands(after_opcode(s, i), splice(mem, s.pc as int, encode(i))) == Some(
            (d, r, after_fetch(s, i)),
        ),
{
    let p = s.pc as int;
    let m = splice(mem, p, encode(i));
    assert(m[p + 1] == d);
    assert(m[p + 2] == r);
}

proof fn lemma_decode_reg(s: CpuState, mem: Seq<u8>, i: Instr, r: u8)
    requires
        s.pc + 2 <= mem.len(),
        s.pc + 2 <= u32::MAX,
        encode(i) == op_reg(encode(i)[0], r),
    ensures
        reg_operand(after_opcode(s, i), splice(mem, s.pc as int, encode(i))) == Some(
            (r, after_fetch(s, i)),
        ),
{
    let p = s.pc as int;
    let m = splice(mem, p, encode(i));
    assert(m[p + 1] == r);
}

proof fn lemma_step_decodes_reg_word(s: CpuState, mem: Seq<u8>, i: Instr)
    requires
        i is Load || i is LoadI || i is Store,
        s.pc + encode(i).len() <= mem.len(),
        s.pc + encode(i).len() <= u32::MAX,
    ensures
        exec_spec(after_opcode(s, i), splice(mem, s.pc as int, encode(i))) == execute(
            i,
            after_fetch(s, i),
            splice(mem, s.pc as int, encode(i)),
        ),
{
    match i {
        Instr::Load(r, a) => lemma_decode_reg_word(s, mem, i, r, a),
        Instr::LoadI(r, a) => lemma_decode_reg_word(s, mem, i, r, a),
        Instr::Store(r, a) => lemma_decode_reg_word(s, mem, i, r, a),
        _ => {},
    }
}

proof fn lemma_step_decodes_regs(s: CpuState, mem: Seq<u8>, i: Instr)
    requires
        i is Mov || i is Add || i is Sub,
        s.pc + encode(i).len() <= mem.len(),
        s.pc + encode(i).len() <= u32::MAX,
    ensures
        exec_spec(after_opcode(s, i), splice(mem, s.pc as int, encode(i))) == execute(
            i,
            after_fetch(s, i),
            splice(mem, s.pc as int, encode(i)),
        ),
{
    match i {
        Instr::Mov(d, r) => lemma_decode_regs(s, mem, i, d, r),
        Instr::Add(d, r) => lemma_decode_regs(s, mem, i, d, r),
        Instr::Sub(d, r) => lemma_decode_regs(s, mem, i, d, r),
        _ => {},
    }
}

proof fn lemma_step_decodes_jump(s: CpuState, mem: Seq<u8>, i: Instr)
    requires
        i is Jmp || i is Jz || i is Jnz || i is Js || i is Jns,
        s.pc + encode(i).len() <= mem.len(),
        s.pc + encode(i).len() <= u32::MAX,
    ensures
        exec_spec(after_opcode(s, i), splice(mem, s.pc as int, encode(i))) == execute(
            i,
            after_fetch(s, i),
            splice(mem, s.pc as int, encode(i)),
        ),
{
    match i {
        Instr::Jmp(a) => lemma_decode_word(s, mem, i, a),
        Instr::Jz(a) => lemma_decode_word(s, mem, i, a),
        Instr::Jnz(a) => lemma_decode_word(s, mem, i, a),
        Instr::Js(a) => lemma_decode_word(s, mem, i, a),
        Instr::Jns(a) => lemma_decode_word(s, mem, i, a),
        _ => {},
    }
}

proof fn lemma_step_decodes_stack(s: CpuState, mem: Seq<u8>, i: Instr)
    requires
        i is Push || i is Pop || i is Call,
        s.pc + encode(i).len() <= mem.len(),
        s.pc + encode(i).len() <= u32::MAX,
    ensures
        exec_spec(after_opcode(s, i), splice(mem, s.pc as int, encode(i))) == execute(
            i,
            after_fetch(s, i),
            splice(mem, s.pc as int, encode(i)),
        ),
{
    match i {
        Instr::Call(a) => lemma_decode_word(s, mem, i, a),
        Instr::Push(r) => lemma_decode_reg(s, mem, i, r),
        Instr::Pop(r) => lemma_decode_reg(s, mem, i, r),
        _ => {},
    }
}

proof fn lemma_step_decodes_bare(s: CpuState, mem: Seq<u8>, i: Instr)
    requires
        i is Ret || i is Int || i is Iret || i is Enter || i is Leave || i is Hlt,
        s.pc + encode(i).len() <= mem.len(),
        s.pc + encode(i).len() <= u32::MAX,
    ensures
        exec_spec(after_opcode(s, i), splice(mem, s.pc as int, encode(i))) == execute(
            i,
            after_fetch(s, i),
            splice(mem, s.pc as int, encode(i)),
        ),
{

}

/// Decoding undoes encoding: an instruction written at `pc` by the emitters is fetched with
/// exactly its operands, and one step of the processor does what the instruction says.
pub proof fn law_step_decodes(s: CpuState, mem: Seq<u8>, i: Instr)
    requires
        s.pc + encode(i).len() <= mem.len(),
        s.pc + encode(i).len() <= u32::MAX,
    ensures
        step_spec(s, splice(mem, s.pc as int, encode(i))) == execute(
            i,
            after_fetch(s, i),
            splice(mem, s.pc as int, encode(i)),
        ),
{
    let m = splice(mem, s.pc as int, encode(i));
    assert(m[s.pc as int] == encode(i)[0]);
    assert(step_spec(s, m) == exec_spec(after_opcode(s, i), m));
    if i is Load || i is LoadI || i is Store {
        lemma_step_decodes_reg_word(s, mem, i);
    } else if i is Mov || i is Add || i is Sub {
        lemma_step_decodes_regs(s, mem, i);
    } else if i is Jmp || i is Jz || i is Jnz || i is Js || i is Jns {
        lemma_step_decodes_jump(s, mem, i);
    } else if i is Push || i is Pop || i is Call {
        lemma_step_decodes_stack(s, mem, i);
    } else {
        lemma_step_decodes_bare(s, mem, i);
    }
}

/// What a push stores, the matching pop gives back, and the stack pointer returns to where
/// it was.
pub proof fn law_push_pop(s: CpuState, mem: Seq<u8>, v: u32)
    requires
        push_word(s, mem, v) is Some,
    ensures
        ({
            let (s1, m1) = push_word(s, mem, v)->Some_0;
            pop_word(s1, m1) == Some((v, CpuState { sp: s.sp, ..s1 }))
        }),
{
    let (s1, m1) = push_word(s, mem, v)->Some_0;
    crate::memory::lemma_load_store_same(mem, s.sp - 4, v);
    assert(s1.sp < m1.len());
}

/// A call and the return at its target come back to the instruction after the call, with
/// the stack pointer where it was before the call.
pub proof fn law_call_then_ret(t: CpuState, mem: Seq<u8>, a: u32, ret_pc: u32)
    requires
        execute(Instr::Call(a), t, mem) is Some,
    ensures
        ({
            let (u, m, halted) = execute(Instr::Call(a), t, mem)->Some_0;
            &&& !halted
            &&& u.pc == a
            &&& execute(Instr::Ret, CpuState { ir: RET, pc: ret_pc, ..u }, m) == Some(
                (CpuState { ir: RET, pc: t.pc, sp: t.sp, ..u }, m, false),
            )
        }),
{
    law_push_pop(t, mem, t.pc);
}

/// An interrupt and the `IRET` that ends its handler come back to the instruction after
/// `INT`, with the stack pointer where it was.
pub proof fn law_int_then_iret(t: CpuState, mem: Seq<u8>, ret_pc: u32)
    requires
        execute(Instr::Int, t, mem) is Some,
    ensures
        ({
            let (u, m, halted) = execute(Instr::Int, t, mem)->Some_0;
            &&& !halted
            &&& u.pc == t.interrupt_register
            &&& execute(Instr::Iret, CpuState { ir: IRET, pc: ret_pc, ..u }, m) == Some(
                (CpuState { ir: IRET, pc: t.pc, sp: t.sp, ..u }, m, false),
            )
        }),
{
    law_push_pop(t, mem, t.pc);
}

/// `LEAVE` after `ENTER` restores the base and stack pointers that `ENTER` found.
pub proof fn law_enter_then_leave(t: CpuState, mem: Seq<u8>, pc: u32)
    requires
        execute(Instr::Enter, t, mem) is Some,
    ensures
        ({
            let (u, m, halted) = execute(Instr::Enter, t, mem)->Some_0;
            &&& !halted
            &&& execute(Instr::Leave, CpuState { ir: LEAVE, pc, ..u }, m) == Some(
                (CpuState { ir: LEAVE, pc, bp: t.bp, sp: t.sp, ..u }, m, false),
            )
        }),
{
    crate::memory::lemma_load_store_same(mem, t.sp - 4, t.bp);
}

/// An instruction that memory already holds at `pc` runs as that instruction.
proof fn lemma_step_in_place(s: CpuState, mem: Seq<u8>, i: Instr)
    requires
        s.pc + encode(i).len() <= mem.len(),
        s.pc + encode(i).len() <= u32::MAX,
        splice(mem, s.pc as int, encode(i)) == mem,
    ensures
        step_spec(s, mem) == execute(i, after_fetch(s, i), mem),
{
    law_step_decodes(s, mem, i);
}

proof fn lemma_regs_in_place(s: CpuState, mem: Seq<u8>, op: u8, d: u8, r: u8)
    requires
        s.pc + 3 <= mem.len(),
        mem[s.pc as int] == op,
        mem[s.pc + 1] == d,
        mem[s.pc + 2] == r,
    ensures
        splice(mem, s.pc as int, op_reg_reg(op, d, r)) == mem,
{
    crate::encoding::lemma_bytes_in_place(mem, s.pc as int, op_reg_reg(op, d, r));
}

proof fn lemma_reg_word_in_place(s: CpuState, mem: Seq<u8>, op: u8, r: u8, w: u32)
    requires
        s.pc + 6 <= mem.len(),
        mem[s.pc as int] == op,
        mem[s.pc + 1] == r,
        load_u32(mem, s.pc + 2) == w,
    ensures
        splice(mem, s.pc as int, op_reg_word(op, r, w)) == mem,
{
    crate::encoding::lemma_code_in_place(mem, s.pc as int, seq![op, r], w);
}

proof fn lemma_word_in_place(s: CpuState, mem: Seq<u8>, op: u8, w: u32)
    requires
        s.pc + 5 <= mem.len(),
        mem[s.pc as int] == op,
        load_u32(mem, s.pc + 1) == w,
    ensures
        splice(mem, s.pc as int, op_word(op, w)) == mem,
{
    crate::encoding::lemma_code_in_place(mem, s.pc as int, seq![op], w);
}

/// `SUB d, r` subtracts modulo 2^32, sets the carry flag exactly when the subtraction
/// borrows, the zero flag when the two registers were equal and the sign flag from the
/// result's top bit; nothing else but the program counter changes.
pub proof fn law_sub_step(s: CpuState, mem: Seq<u8>, d: u8, r: u8)
    requires
        s.regs.len() == 8,
        d < 8,
        r < 8,
        s.pc + 3 <= mem.len(),
        s.pc + 3 <= u32::MAX,
        mem[s.pc as int] == SUB,
        mem[s.pc + 1] == d,
        mem[s.pc + 2] == r,
    ensures
        step_spec(s, mem) matches Some((t, m, halted)) && !halted && m == mem && t.pc == s.pc + 3
            && t.regs.len() == 8
            && t.regs[d as int] as int == (if s.regs[d as int] >= s.regs[r as int] {
                s.regs[d as int] - s.regs[r as int]
            } else {
                s.regs[d as int] - s.regs[r as int] + 0x1_0000_0000
            })
            && t.carry_flag == ((s.regs[d as int] as int) - (s.regs[r as int] as int) < 0)
            && t.zero_flag == (s.regs[d as int] == s.regs[r as int])
            && t.sign_flag == (t.regs[d as int] >= 0x8000_0000)
            && t.overflow_flag == s.overflow_flag
            && t.sp == s.sp
            && (forall|k: int| 0 <= k < 8 && k != d ==> t.regs[k] == s.regs[k]),
{
    lemma_regs_in_place(s, mem, SUB, d, r);
    lemma_step_in_place(s, mem, Instr::Sub(d, r));
}

/// `ADD d, r` adds modulo 2^32 and sets the carry flag exactly when the sum leaves 32 bits,
/// the zero flag when the result is 0 and the sign flag from its top bit.
pub proof fn law_add_step(s: CpuState, mem: Seq<u8>, d: u8, r: u8)
    requires
        s.regs.len() == 8,
        d < 8,
        r < 8,
        s.pc + 3 <= mem.len(),
        s.pc + 3 <= u32::MAX,
        mem[s.pc as int] == ADD,
        mem[s.pc + 1] == d,
        mem[s.pc + 2] == r,
    ensures
        step_spec(s, mem) matches Some((t, m, halted)) && !halted && m == mem && t.pc == s.pc + 3
            && t.regs.len() == 8
            && t.regs[d as int] as int == (if s.regs[d as int] + s.regs[r as int] < 0x1_0000_0000 {
                s.regs[d as int] + s.regs[r as int]
            } else {
                s.regs[d as int] + s.regs[r as int] - 0x1_0000_0000
            })
            && t.carry_flag == (s.regs[d as int] + s.regs[r as int] >= 0x1_0000_0000)
            && t.zero_flag == (t.regs[d as int] == 0)
            && t.sign_flag == (t.regs[d as int] >= 0x8000_0000)
            && t.sp == s.sp
            && (forall|k: int| 0 <= k < 8 && k != d ==> t.regs[k] == s.regs[k]),
{
    lemma_regs_in_place(s, mem, ADD, d, r);
    lemma_step_in_place(s, mem, Instr::Add(d, r));
}

/// `MOV d, r` copies register `r` into `d` and keeps the carry flag.
pub proof fn law_mov_step(s: CpuState, mem: Seq<u8>, d: u8, r: u8)
    requires
        s.regs.len() == 8,
        d < 8,
        r < 8,
        s.pc + 3 <= mem.len(),
        s.pc + 3 <= u32::MAX,
        mem[s.pc as int] == MOV,
        mem[s.pc + 1] == d,
        mem[s.pc + 2] == r,
    ensures
        step_spec(s, mem) matches Some((t, m, halted)) && !halted && m == mem && t.pc == s.pc + 3
            && t.regs[d as int] == s.regs[r as int]
            && t.carry_flag == s.carry_flag
            && t.zero_flag == (s.regs[r as int] == 0)
            && (forall|k: int| 0 <= k < 8 && k != d ==> t.regs[k] == s.regs[k]),
{
    lemma_regs_in_place(s, mem, MOV, d, r);
    lemma_step_in_place(s, mem, Instr::Mov(d, r));
}

/// `LOAD r, a` puts the word memory holds at `a` into register `r`; `LOADI r, v` puts `v`
/// itself there. Memory does not change.
pub proof fn law_load_step(s: CpuState, mem: Seq<u8>, op: u8, r: u8, a: u32)
    requires
        s.regs.len() == 8,
        op == LOAD || op == LOADI,
        r < 8,
        s.pc + 6 <= mem.len(),
        s.pc + 6 <= u32::MAX,
        mem[s.pc as int] == op,
        mem[s.pc + 1] == r,
        load_u32(mem, s.pc + 2) == a,
        op == LOAD ==> word_in_bounds(mem, a as int),
    ensures
        step_spec(s, mem) matches Some((t, m, halted)) && !halted && m == mem && t.pc == s.pc + 6
            && t.regs[r as int] == (if op == LOAD { load_u32(mem, a as int) } else { a })
            && t.zero_flag == (t.regs[r as int] == 0)
            && (forall|k: int| 0 <= k < 8 && k != r ==> t.regs[k] == s.regs[k]),
{
    lemma_reg_word_in_place(s, mem, op, r, a);
    if op == LOAD {
        lemma_step_in_place(s, mem, Instr::Load(r, a));
    } else {
        lemma_step_in_place(s, mem, Instr::LoadI(r, a));
    }
}

/// `STORE r, a` writes register `r` at `a`, where a later read finds it, and changes no
/// register.
pub proof fn law_store_step(s: CpuState, mem: Seq<u8>, r: u8, a: u32)
    requires
        s.regs.len() == 8,
        r < 8,
        s.pc + 6 <= mem.len(),
        s.pc + 6 <= u32::MAX,
        mem[s.pc as int] == STORE,
        mem[s.pc + 1] == r,
        load_u32(mem, s.pc + 2) == a,
        word_in_bounds(mem, a as int),
    ensures
        step_spec(s, mem) matches Some((t, m, halted)) && !halted && t.pc == s.pc + 6
            && m.len() == mem.len()
            && load_u32(m, a as int) == s.regs[r as int]
            && (forall|i: int| 0 <= i < mem.len() && (i < a || a + 4 <= i) ==> m[i] == mem[i])
            && t.regs == s.regs,
{
    lemma_reg_word_in_place(s, mem, STORE, r, a);
    lemma_step_in_place(s, mem, Instr::Store(r, a));
    crate::memory::lemma_load_store_same(mem, a as int, s.regs[r as int]);
    assert forall|i: int| 0 <= i < mem.len() && (i < a || a + 4 <= i) implies store_u32(mem, a as int, s.regs[r as int])[i] == mem[i] by {
        crate::memory::lemma_store_elsewhere(mem, a as int, s.regs[r as int], i);
    }
}

/// The jumps: `JMP` always goes to its target; `JZ` when the zero flag is set, `JNZ` when it
/// is clear, `JS` when the sign flag is set, `JNS` when it is clear; otherwise execution
/// goes on after the instruction. Registers, flags and memory stay.
pub proof fn law_jump_step(s: CpuState, mem: Seq<u8>, op: u8, a: u32)
    requires
        op == JMP || op == JZ || op == JNZ || op == JS || op == JNS,
        s.pc + 5 <= mem.len(),
        s.pc + 5 <= u32::MAX,
        mem[s.pc as int] == op,
        load_u32(mem, s.pc + 1) == a,
    ensures
        step_spec(s, mem) matches Some((t, m, halted)) && !halted && m == mem
            && t.pc == (if op == JMP || (op == JZ && s.zero_flag) || (op == JNZ && !s.zero_flag)
                || (op == JS && s.sign_flag) || (op == JNS && !s.sign_flag) {
                a
            } else {
                (s.pc + 5) as u32
            })
            && t.regs == s.regs && t.zero_flag == s.zero_flag && t.sign_flag == s.sign_flag
            && t.carry_flag == s.carry_flag && t.sp == s.sp,
{
    lemma_word_in_place(s, mem, op, a);
    if op == JMP {
        lemma_step_in_place(s, mem, Instr::Jmp(a));
    } else if op == JZ {
        lemma_step_in_place(s, mem, Instr::Jz(a));
    } else if op == JNZ {
        lemma_step_in_place(s, mem, Instr::Jnz(a));
    } else if op == JS {
        lemma_step_in_place(s, mem, Instr::Js(a));
    } else {
        lemma_step_in_place(s, mem, Instr::Jns(a));
    }
}

/// `PUSH r` moves the stack pointer down a word and leaves register `r` there; `POP r`
/// reads the word at the stack pointer into `r` and moves the pointer up a word.
pub proof fn law_push_pop_step(s: CpuState, mem: Seq<u8>, op: u8, r: u8)
    requires
        s.regs.len() == 8,
        op == PUSH || op == POP,
        r < 8,
        s.pc + 2 <= mem.len(),
        s.pc + 2 <= u32::MAX,
        mem[s.pc as int] == op,
        mem[s.pc + 1] == r,
        op == PUSH ==> s.sp >= 4 && word_in_bounds(mem, s.sp - 4),
        op == POP ==> word_in_bounds(mem, s.sp as int) && s.sp + 4 <= u32::MAX,
    ensures
        step_spec(s, mem) matches Some((t, m, halted)) && !halted && t.pc == s.pc + 2
            && (op == PUSH ==> t.sp == s.sp - 4 && load_u32(m, t.sp as int) == s.regs[r as int] && t.regs == s.regs)
            && (op == POP ==> t.sp == s.sp + 4 && m == mem && t.regs[r as int] == load_u32(mem, s.sp as int)),
{
    crate::encoding::lemma_bytes_in_place(mem, s.pc as int, op_reg(op, r));
    if op == PUSH {
        lemma_step_in_place(s, mem, Instr::Push(r));
        crate::memory::lemma_load_store_same(mem, s.sp - 4, s.regs[r as int]);
    } else {
        lemma_step_in_place(s, mem, Instr::Pop(r));
    }
}

/// The stack, as listed: from the stack pointer, the top, upward a word at a time to the
/// end of memory, each address with the word memory holds there.
pub proof fn law_stack_listing(sp: u32, mem: Seq<u8>, k: int)
    requires
        sp < mem.len(),
        (mem.len() - sp) % 4 == 0,
        mem.len() <= u32::MAX,
    ensures
        stack_spec(sp, mem).len() * 4 == mem.len() - sp,
        stack_spec(sp, mem)[0] == (sp, load_u32(mem, sp as int)),
        0 <= k < stack_spec(sp, mem).len() ==> stack_spec(sp, mem)[k].0 == sp + 4 * k
            && stack_spec(sp, mem)[k].1 == load_u32(mem, sp + 4 * k),
{
}

} // verus!
