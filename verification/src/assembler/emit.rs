use vstd::prelude::*;
use crate::emulator::cpu::{
    LOAD, LOADI, STORE, ADD, SUB, MOV, JMP, JZ, JNZ, JS, JNS, PUSH, POP, CALL, RET, INT, IRET, HLT,
};
use crate::memory::{Memory, store_u32, word_in_bounds};
use crate::encoding::{
    splice, room_for, le_bytes, op_only, op_reg, op_reg_reg, op_word, op_reg_word, emit_u8,
    emit_op_reg, emit_op_reg_reg, emit_op_word, emit_op_reg_word,
};
use crate::labels::LabelMap;
use crate::text::{
    chars_of, string_from_chars, trim, has_prefix, has_suffix, trim_end_matches, parse_u8_spec,
    parse_u32_spec, split_char, split_once, before_first, lines, views, trim_chars, starts_with,
    ends_with, strip_suffixes, parse_u8, parse_u32, split_chars, split_once_chars,
    before_first_chars, lines_of, slice_chars, is_ws, occurs_at, lemma_trim_all_ws,
    lemma_before_first_at,
};
use crate::labels::chars_equal;

verus! {

broadcast use vstd::string::group_string_axioms;

/// Writes `LOAD reg, ...` (six bytes) at `*pos` and moves `*pos` past it.
pub fn emit_load(memory: &mut Memory, pos: &mut u32, reg: u8, address: u32)
    requires
        room_for(old(memory).data@, *old(pos), 6),
    ensures
        final(memory).data@ == splice(
            old(memory).data@,
            *old(pos) as int,
            op_reg_word(LOAD, reg, address),
        ),
        *final(pos) == *old(pos) + 6,
{
    emit_op_reg_word(memory, pos, LOAD, reg, address);
}

/// Writes `LOADI reg, ...` (six bytes) at `*pos` and moves `*pos` past it.
pub fn emit_loadi(memory: &mut Memory, pos: &mut u32, reg: u8, value: u32)
    requires
        room_for(old(memory).data@, *old(pos), 6),
    ensures
        final(memory).data@ == splice(
            old(memory).data@,
            *old(pos) as int,
            op_reg_word(LOADI, reg, value),
        ),
        *final(pos) == *old(pos) + 6,
{
    emit_op_reg_word(memory, pos, LOADI, reg, value);
}

/// Writes `MOV dst, src` (three bytes) at `*pos` and moves `*pos` past it.
pub fn emit_mov(memory: &mut Memory, pos: &mut u32, dst: u8, src: u8)
    requires
        room_for(old(memory).data@, *old(pos), 3),
    ensures
        final(memory).data@ == splice(
            old(memory).data@,
            *old(pos) as int,
            op_reg_reg(MOV, dst, src),
        ),
        *final(pos) == *old(pos) + 3,
{
    emit_op_reg_reg(memory, pos, MOV, dst, src);
}

/// Writes `ADD dst, src` (three bytes) at `*pos` and moves `*pos` past it.
pub fn emit_add(memory: &mut Memory, pos: &mut u32, dst: u8, src: u8)
    requires
        room_for(old(memory).data@, *old(pos), 3),
    ensures
        final(memory).data@ == splice(
            old(memory).data@,
            *old(pos) as int,
            op_reg_reg(ADD, dst, src),
        ),
        *final(pos) == *old(pos) + 3,
{
    emit_op_reg_reg(memory, pos, ADD, dst, src);
}

/// Writes `SUB dst, src` (three bytes) at `*pos` and moves `*pos` past it.
pub fn emit_sub(memory: &mut Memory, pos: &mut u32, dst: u8, src: u8)
    requires
        room_for(old(memory).data@, *old(pos), 3),
    ensures
        final(memory).data@ == splice(
            old(memory).data@,
            *old(pos) as int,
            op_reg_reg(SUB, dst, src),
        ),
        *final(pos) == *old(pos) + 3,
{
    emit_op_reg_reg(memory, pos, SUB, dst, src);
}

/// Writes `STORE reg, ...` (six bytes) at `*pos` and moves `*pos` past it.
pub fn emit_store(memory: &mut Memory, pos: &mut u32, reg: u8, address: u32)
    requires
        room_for(old(memory).data@, *old(pos), 6),
    ensures
        final(memory).data@ == splice(
            old(memory).data@,
            *old(pos) as int,
            op_reg_word(STORE, reg, address),
        ),
        *final(pos) == *old(pos) + 6,
{
    emit_op_reg_word(memory, pos, STORE, reg, address);
}

/// Writes `JMP address` (five bytes) at `*pos` and moves `*pos` past it.
pub fn emit_jmp(memory: &mut Memory, pos: &mut u32, address: u32)
    requires
        room_for(old(memory).data@, *old(pos), 5),
    ensures
        final(memory).data@ == splice(old(memory).data@, *old(pos) as int, op_word(JMP, address)),
        *final(pos) == *old(pos) + 5,
{
    emit_op_word(memory, pos, JMP, address);
}

/// Writes `JZ address` (five bytes) at `*pos` and moves `*pos` past it.
pub fn emit_jz(memory: &mut Memory, pos: &mut u32, address: u32)
    requires
        room_for(old(memory).data@, *old(pos), 5),
    ensures
        final(memory).data@ == splice(old(memory).data@, *old(pos) as int, op_word(JZ, address)),
        *final(pos) == *old(pos) + 5,
{
    emit_op_word(memory, pos, JZ, address);
}

/// Writes `JMP` with a zero placeholder address (five bytes) at `*pos`, moves `*pos` past
/// it, and records in `patches` that the placeholder awaits the address of `label`.
pub fn emit_jmp_label(memory: &mut Memory, pos: &mut u32, label: &str, patches: &mut Vec<Patch>)
    requires
        room_for(old(memory).data@, *old(pos), 5),
    ensures
        final(memory).data@ == splice(old(memory).data@, *old(pos) as int, op_word(JMP, 0)),
        *final(pos) == *old(pos) + 5,
        patches_view(final(patches)@) == patches_view(old(patches)@).push(
            (label@, (*old(pos) + 1) as u32),
        ),
{
    emit_label_ref(memory, pos, JMP, &chars_of(label), patches);
}

/// Writes `JNZ address` (five bytes) at `*pos` and moves `*pos` past it.
pub fn emit_jnz(memory: &mut Memory, pos: &mut u32, address: u32)
    requires
        room_for(old(memory).data@, *old(pos), 5),
    ensures
        final(memory).data@ == splice(old(memory).data@, *old(pos) as int, op_word(JNZ, address)),
        *final(pos) == *old(pos) + 5,
{
    emit_op_word(memory, pos, JNZ, address);
}

/// Writes `JS address` (five bytes) at `*pos` and moves `*pos` past it.
pub fn emit_js(memory: &mut Memory, pos: &mut u32, address: u32)
    requires
        room_for(old(memory).data@, *old(pos), 5),
    ensures
        final(memory).data@ == splice(old(memory).data@, *old(pos) as int, op_word(JS, address)),
        *final(pos) == *old(pos) + 5,
{
    emit_op_word(memory, pos, JS, address);
}

/// Writes `JNS address` (five bytes) at `*pos` and moves `*pos` past it.
pub fn emit_jns(memory: &mut Memory, pos: &mut u32, address: u32)
    requires
        room_for(old(memory).data@, *old(pos), 5),
    ensures
        final(memory).data@ == splice(old(memory).data@, *old(pos) as int, op_word(JNS, address)),
        *final(pos) == *old(pos) + 5,
{
    emit_op_word(memory, pos, JNS, address);
}

/// Writes `PUSH reg` (two bytes) at `*pos` and moves `*pos` past it.
pub fn emit_push(memory: &mut Memory, pos: &mut u32, reg: u8)
    requires
        room_for(old(memory).data@, *old(pos), 2),
    ensures
        final(memory).data@ == splice(old(memory).data@, *old(pos) as int, op_reg(PUSH, reg)),
        *final(pos) == *old(pos) + 2,
{
    emit_op_reg(memory, pos, PUSH, reg);
}

/// Writes `POP reg` (two bytes) at `*pos` and moves `*pos` past it.
pub fn emit_pop(memory: &mut Memory, pos: &mut u32, reg: u8)
    requires
        room_for(old(memory).data@, *old(pos), 2),
    ensures
        final(memory).data@ == splice(old(memory).data@, *old(pos) as int, op_reg(POP, reg)),
        *final(pos) == *old(pos) + 2,
{
    emit_op_reg(memory, pos, POP, reg);
}

/// Writes `CALL address` (five bytes) at `*pos` and moves `*pos` past it.
pub fn emit_call(memory: &mut Memory, pos: &mut u32, address: u32)
    requires
        room_for(old(memory).data@, *old(pos), 5),
    ensures
        final(memory).data@ == splice(old(memory).data@, *old(pos) as int, op_word(CALL, address)),
        *final(pos) == *old(pos) + 5,
{
    emit_op_word(memory, pos, CALL, address);
}

/// Writes `RET` (one byte) at `*pos` and moves `*pos` past it.
pub fn emit_ret(memory: &mut Memory, pos: &mut u32)
    requires
        room_for(old(memory).data@, *old(pos), 1),
    ensures
        final(memory).data@ == splice(old(memory).data@, *old(pos) as int, op_only(RET)),
        *final(pos) == *old(pos) + 1,
{
    emit_u8(memory, pos, RET);
}

/// Writes `INT` (one byte) at `*pos` and moves `*pos` past it.
pub fn emit_int(memory: &mut Memory, pos: &mut u32)
    requires
        room_for(old(memory).data@, *old(pos), 1),
    ensures
        final(memory).data@ == splice(old(memory).data@, *old(pos) as int, op_only(INT)),
        *final(pos) == *old(pos) + 1,
{
    emit_u8(memory, pos, INT);
}

/// Writes `IRET` (one byte) at `*pos` and moves `*pos` past it.
pub fn emit_iret(memory: &mut Memory, pos: &mut u32)
    requires
        room_for(old(memory).data@, *old(pos), 1),
    ensures
        final(memory).data@ == splice(old(memory).data@, *old(pos) as int, op_only(IRET)),
        *final(pos) == *old(pos) + 1,
{
    emit_u8(memory, pos, IRET);
}

/// Writes `HLT` (one byte) at `*pos` and moves `*pos` past it.
pub fn emit_hlt(memory: &mut Memory, pos: &mut u32)
    requires
        room_for(old(memory).data@, *old(pos), 1),
    ensures
        final(memory).data@ == splice(old(memory).data@, *old(pos) as int, op_only(HLT)),
        *final(pos) == *old(pos) + 1,
{
    emit_u8(memory, pos, HLT);
}

/// Overwrites the word at `address_pos` with `value`: fills in an address written as a
/// placeholder earlier.
pub fn patch_u32(memory: &mut Memory, address_pos: u32, value: u32)
    requires
        word_in_bounds(old(memory).data@, address_pos as int),
    ensures
        final(memory).data@ == splice(old(memory).data@, address_pos as int, le_bytes(value)),
{
    memory.write_u32(address_pos, value);
    proof {
        crate::encoding::lemma_store_is_splice(old(memory).data@, address_pos as int, value);
    }
}

/// Label names and the addresses they stand for.
pub struct LabelTable {
    labels: LabelMap,
}

/// A placeholder address at `address_pos` that awaits the address of `label`.
pub struct Patch {
    pub label: String,
    pub address_pos: u32,
}

/// Each patch as its label's characters and its position.
pub open spec fn patches_view(ps: Seq<Patch>) -> Seq<(Seq<char>, u32)> {
    ps.map_values(|p: Patch| (p.label@, p.address_pos))
}

/// Writes `op` and a zero placeholder word, and records the placeholder under `label`.
fn emit_label_ref(memory: &mut Memory, pos: &mut u32, op: u8, label: &Vec<char>, patches: &mut Vec<Patch>)
    requires
        room_for(old(memory).data@, *old(pos), 5),
    ensures
        final(memory).data@ == splice(old(memory).data@, *old(pos) as int, op_word(op, 0)),
        *final(pos) == *old(pos) + 5,
        patches_view(final(patches)@) == patches_view(old(patches)@).push(
            (label@, (*old(pos) + 1) as u32),
        ),
{
    emit_u8(memory, pos, op);
    let address_pos = *pos;
    crate::encoding::emit_u32(memory, pos, 0);
    proof {
        crate::encoding::lemma_splice_concat(old(memory).data@, *old(pos) as int, seq![op], le_bytes(0));
    }
    patches.push(Patch { label: string_from_chars(label), address_pos });
    assert(patches_view(patches@) =~= patches_view(old(patches)@).push((label@, address_pos)));
}

/// Writes `JZ` with a zero placeholder address (five bytes) at `*pos`, moves `*pos` past
/// it, and records in `patches` that the placeholder awaits the address of `label`.
pub fn emit_jz_label(memory: &mut Memory, pos: &mut u32, label: &str, patches: &mut Vec<Patch>)
    requires
        room_for(old(memory).data@, *old(pos), 5),
    ensures
        final(memory).data@ == splice(old(memory).data@, *old(pos) as int, op_word(JZ, 0)),
        *final(pos) == *old(pos) + 5,
        patches_view(final(patches)@) == patches_view(old(patches)@).push(
            (label@, (*old(pos) + 1) as u32),
        ),
{
    emit_label_ref(memory, pos, JZ, &chars_of(label), patches);
}

/// `mem` after each patch, in order, has had its word overwritten by its label's address.
pub open spec fn patched(mem: Seq<u8>, labels: Map<Seq<char>, u32>, ps: Seq<(Seq<char>, u32)>) -> Seq<u8>
    decreases ps.len(),
{
    if ps.len() == 0 {
        mem
    } else {
        store_u32(patched(mem, labels, ps.drop_last()), ps.last().1 as int, labels[ps.last().0])
    }
}

/// Every patch names a defined label and has its word inside memory.
pub open spec fn patches_resolvable(mem: Seq<u8>, labels: Map<Seq<char>, u32>, ps: Seq<(Seq<char>, u32)>) -> bool {
    forall|i: int|
        0 <= i < ps.len() ==> labels.dom().contains(#[trigger] ps[i].0) && word_in_bounds(
            mem,
            ps[i].1 as int,
        )
}

/// Fills in every placeholder with the address of its label.
pub fn resolve_patches(memory: &mut Memory, labels: &LabelTable, patches: &[Patch])
    requires
        patches_resolvable(old(memory).data@, labels.view(), patches_view(patches@)),
    ensures
        final(memory).data@ == patched(old(memory).data@, labels.view(), patches_view(patches@)),
{
    let ghost ps = patches_view(patches@);
    let mut i: usize = 0;
    while i < patches.len()
        invariant
            i <= patches@.len(),
            ps == patches_view(patches@),
            patches_resolvable(old(memory).data@, labels.view(), ps),
            memory.data@.len() == old(memory).data@.len(),
            memory.data@ == patched(old(memory).data@, labels.view(), ps.take(i as int)),
        decreases patches@.len() - i,
    {
        let patch = &patches[i];
        assert(ps[i as int] == (patch.label@, patch.address_pos));
        assert(labels.view().dom().contains(ps[i as int].0));
        assert(word_in_bounds(old(memory).data@, ps[i as int].1 as int));
        let address = labels.get(patch.label.as_str());
        memory.write_u32(patch.address_pos, address);
        assert(ps.take(i + 1).drop_last() =~= ps.take(i as int));
        i += 1;
    }
    assert(ps.take(patches@.len() as int) =~= ps);
}

impl LabelTable {
    /// The names defined so far, each with its address.
    pub closed spec fn view(&self) -> Map<Seq<char>, u32> {
        self.labels.view()
    }

    /// A table with no labels.
    pub fn new() -> (t: Self)
        ensures
            t.view() == Map::<Seq<char>, u32>::empty(),
    {
        LabelTable { labels: LabelMap::new() }
    }

    /// Gives `name` the address `address`; a later definition replaces an earlier one.
    pub fn define(&mut self, name: &str, address: u32)
        ensures
            final(self).view() == old(self).view().insert(name@, address),
    {
        self.labels.define(chars_of(name), address);
    }

    fn define_chars(&mut self, name: Vec<char>, address: u32)
        ensures
            final(self).view() == old(self).view().insert(name@, address),
    {
        self.labels.define(name, address);
    }

    /// Whether `name` is defined.
    pub fn contains(&self, name: &str) -> (b: bool)
        ensures
            b == self.view().dom().contains(name@),
    {
        self.labels.contains(&chars_of(name))
    }

    /// The address of `name`, which must be defined.
    pub fn get(&self, name: &str) -> (address: u32)
        requires
            self.view().dom().contains(name@),
        ensures
            address == self.view()[name@],
    {
        self.labels.get(&chars_of(name))
    }
}

/// Where a jump or call goes: a number, or a label to be filled in later.
pub enum Target {
    Address(u32),
    Label(Vec<char>),
}

/// What one line of assembly stands for.
pub enum AsmItem {
    /// An empty or comment-only line.
    Skip,
    /// `name:` defines a label at the current position.
    Label(Vec<char>),
    /// An instruction without operands.
    Bare(u8),
    /// An instruction with one register.
    Reg(u8, u8),
    /// An instruction with two registers.
    RegReg(u8, u8, u8),
    /// An instruction with a register and a word.
    RegWord(u8, u8, u32),
    /// A jump or call.
    Jump(u8, Target),
}

pub enum TargetSpec {
    Address(u32),
    Label(Seq<char>),
}

pub enum ItemSpec {
    Skip,
    Label(Seq<char>),
    Bare(u8),
    Reg(u8, u8),
    RegReg(u8, u8, u8),
    RegWord(u8, u8, u32),
    Jump(u8, TargetSpec),
}

/// Why a line of assembly is refused.
pub enum AsmError {
    /// An instruction that needs operands has none.
    MissingOperands,
    /// An instruction has the wrong number of operands.
    OperandCount,
    /// An operand is not `R0` to `R7`.
    BadRegister,
    /// A number does not parse as a `u32`.
    BadNumber,
    /// The mnemonic is not one the assembler knows.
    UnknownInstruction,
}

impl View for AsmItem {
    type V = ItemSpec;

    open spec fn view(&self) -> ItemSpec {
        match self {
            AsmItem::Skip => ItemSpec::Skip,
            AsmItem::Label(n) => ItemSpec::Label(n@),
            AsmItem::Bare(op) => ItemSpec::Bare(*op),
            AsmItem::Reg(op, r) => ItemSpec::Reg(*op, *r),
            AsmItem::RegReg(op, d, s) => ItemSpec::RegReg(*op, *d, *s),
            AsmItem::RegWord(op, r, w) => ItemSpec::RegWord(*op, *r, *w),
            AsmItem::Jump(op, Target::Address(a)) => ItemSpec::Jump(*op, TargetSpec::Address(*a)),
            AsmItem::Jump(op, Target::Label(n)) => ItemSpec::Jump(*op, TargetSpec::Label(n@)),
        }
    }
}

pub open spec fn result_view(r: Result<AsmItem, AsmError>) -> Result<ItemSpec, AsmError> {
    match r {
        Ok(it) => Ok(it@),
        Err(e) => Err(e),
    }
}

/// The register that `text` names, `R0` to `R7`, after trimming.
pub open spec fn register_spec(text: Seq<char>) -> Option<u8> {
    let t = trim(text);
    if has_prefix(t, "R"@) {
        match parse_u8_spec(t.skip("R"@.len() as int)) {
            Some(r) => if r < 8 {
                Some(r)
            } else {
                None
            },
            None => None,
        }
    } else {
        None
    }
}

/// A register operand, then a word operand.
pub open spec fn reg_word_spec(op: u8, ops: Seq<Seq<char>>) -> Result<ItemSpec, AsmError> {
    if ops.len() != 2 {
        Err(AsmError::OperandCount)
    } else {
        match register_spec(ops[0]) {
            None => Err(AsmError::BadRegister),
            Some(r) => match parse_u32_spec(ops[1]) {
                None => Err(AsmError::BadNumber),
                Some(w) => Ok(ItemSpec::RegWord(op, r, w)),
            },
        }
    }
}

/// Two register operands.
pub open spec fn reg_reg_spec(op: u8, ops: Seq<Seq<char>>) -> Result<ItemSpec, AsmError> {
    if ops.len() != 2 {
        Err(AsmError::OperandCount)
    } else {
        match register_spec(ops[0]) {
            None => Err(AsmError::BadRegister),
            Some(d) => match register_spec(ops[1]) {
                None => Err(AsmError::BadRegister),
                Some(r) => Ok(ItemSpec::RegReg(op, d, r)),
            },
        }
    }
}

/// One register operand.
pub open spec fn reg_spec(op: u8, ops: Seq<Seq<char>>) -> Result<ItemSpec, AsmError> {
    if ops.len() != 1 {
        Err(AsmError::OperandCount)
    } else {
        match register_spec(ops[0]) {
            None => Err(AsmError::BadRegister),
            Some(r) => Ok(ItemSpec::Reg(op, r)),
        }
    }
}

/// One target operand: a number, or else a label.
pub open spec fn jump_spec(op: u8, ops: Seq<Seq<char>>) -> Result<ItemSpec, AsmError> {
    if ops.len() != 1 {
        Err(AsmError::OperandCount)
    } else {
        match parse_u32_spec(ops[0]) {
            Some(a) => Ok(ItemSpec::Jump(op, TargetSpec::Address(a))),
            None => Ok(ItemSpec::Jump(op, TargetSpec::Label(ops[0]))),
        }
    }
}

/// An instruction with operands: `ins` is the mnemonic, `ops` the trimmed operands.
pub open spec fn instruction_spec(ins: Seq<char>, ops: Seq<Seq<char>>) -> Result<ItemSpec, AsmError> {
    if ins == "LOADI"@ {
        reg_word_spec(LOADI, ops)
    } else if ins == "ADD"@ {
        reg_reg_spec(ADD, ops)
    } else if ins == "SUB"@ {
        reg_reg_spec(SUB, ops)
    } else if ins == "MOV"@ {
        reg_reg_spec(MOV, ops)
    } else if ins == "STORE"@ {
        reg_word_spec(STORE, ops)
    } else if ins == "LOAD"@ {
        reg_word_spec(LOAD, ops)
    } else if ins == "PUSH"@ {
        reg_spec(PUSH, ops)
    } else if ins == "POP"@ {
        reg_spec(POP, ops)
    } else if ins == "CALL"@ {
        jump_spec(CALL, ops)
    } else if ins == "JMP"@ {
        jump_spec(JMP, ops)
    } else if ins == "JZ"@ {
        jump_spec(JZ, ops)
    } else if ins == "JNZ"@ {
        jump_spec(JNZ, ops)
    } else if ins == "JS"@ {
        jump_spec(JS, ops)
    } else if ins == "JNS"@ {
        jump_spec(JNS, ops)
    } else {
        Err(AsmError::UnknownInstruction)
    }
}

/// One line of assembly: its comment (from `//`) and surrounding whitespace go; an empty
/// line is skipped; a line ending in `:` defines a label; otherwise the mnemonic is what
/// precedes the first space and the operands are the comma-separated rest, each trimmed.
pub open spec fn parse_line_spec(raw: Seq<char>) -> Result<ItemSpec, AsmError> {
    let line = trim(before_first(raw, "//"@));
    if line.len() == 0 {
        Ok(ItemSpec::Skip)
    } else if has_suffix(line, ":"@) {
        Ok(ItemSpec::Label(trim_end_matches(line, ":"@)))
    } else {
        let parts = split_once(line, ' ');
        let ins = parts[0];
        if ins == "HLT"@ {
            Ok(ItemSpec::Bare(HLT))
        } else if ins == "RET"@ {
            Ok(ItemSpec::Bare(RET))
        } else if ins == "INT"@ {
            Ok(ItemSpec::Bare(INT))
        } else if ins == "IRET"@ {
            Ok(ItemSpec::Bare(IRET))
        } else if parts.len() < 2 {
            Err(AsmError::MissingOperands)
        } else {
            instruction_spec(ins, split_char(parts[1], ',').map_values(|x: Seq<char>| trim(x)))
        }
    }
}

/// The register that `text` names, `R0` to `R7`; `None` where it names none, which
/// `parse_line` reports as `BadRegister` and `check_source` as a bad line, so that
/// `assemble_source`, which requires every line to read, never meets it.
fn parse_register(text: &Vec<char>) -> (r: Option<u8>)
    ensures
        r == register_spec(text@),
{
    let t = trim_chars(text);
    let prefix = chars_of("R");
    if !starts_with(&t, &prefix) {
        return None;
    }
    let number = slice_chars(&t, prefix.len(), t.len());
    assert(number@ =~= t@.skip("R"@.len() as int));
    match parse_u8(&number) {
        Some(r) => if r < 8 {
            Some(r)
        } else {
            None
        },
        None => None,
    }
}

fn parse_reg_word(op: u8, ops: &Vec<Vec<char>>) -> (r: Result<AsmItem, AsmError>)
    ensures
        result_view(r) == reg_word_spec(op, views(ops@)),
{
    if ops.len() != 2 {
        return Err(AsmError::OperandCount);
    }
    match parse_register(&ops[0]) {
        None => Err(AsmError::BadRegister),
        Some(reg) => match parse_u32(&ops[1]) {
            None => Err(AsmError::BadNumber),
            Some(w) => Ok(AsmItem::RegWord(op, reg, w)),
        },
    }
}

fn parse_reg_reg(op: u8, ops: &Vec<Vec<char>>) -> (r: Result<AsmItem, AsmError>)
    ensures
        result_view(r) == reg_reg_spec(op, views(ops@)),
{
    if ops.len() != 2 {
        return Err(AsmError::OperandCount);
    }
    match parse_register(&ops[0]) {
        None => Err(AsmError::BadRegister),
        Some(d) => match parse_register(&ops[1]) {
            None => Err(AsmError::BadRegister),
            Some(s) => Ok(AsmItem::RegReg(op, d, s)),
        },
    }
}

fn parse_reg(op: u8, ops: &Vec<Vec<char>>) -> (r: Result<AsmItem, AsmError>)
    ensures
        result_view(r) == reg_spec(op, views(ops@)),
{
    if ops.len() != 1 {
        return Err(AsmError::OperandCount);
    }
    match parse_register(&ops[0]) {
        None => Err(AsmError::BadRegister),
        Some(reg) => Ok(AsmItem::Reg(op, reg)),
    }
}

fn parse_jump(op: u8, ops: &Vec<Vec<char>>) -> (r: Result<AsmItem, AsmError>)
    ensures
        result_view(r) == jump_spec(op, views(ops@)),
{
    if ops.len() != 1 {
        return Err(AsmError::OperandCount);
    }
    match parse_u32(&ops[0]) {
        Some(a) => Ok(AsmItem::Jump(op, Target::Address(a))),
        None => {
            let name = slice_chars(&ops[0], 0, ops[0].len());
            assert(name@ =~= ops@[0]@);
            Ok(AsmItem::Jump(op, Target::Label(name)))
        },
    }
}

/// Whether the characters of `s` spell `word`.
fn is_word(s: &Vec<char>, word: &str) -> (b: bool)
    ensures
        b == (s@ == word@),
{
    chars_equal(s, &chars_of(word))
}

fn parse_instruction(ins: &Vec<char>, ops: &Vec<Vec<char>>) -> (r: Result<AsmItem, AsmError>)
    ensures
        result_view(r) == instruction_spec(ins@, views(ops@)),
{
    if is_word(ins, "LOADI") {
        parse_reg_word(LOADI, ops)
    } else if is_word(ins, "ADD") {
        parse_reg_reg(ADD, ops)
    } else if is_word(ins, "SUB") {
        parse_reg_reg(SUB, ops)
    } else if is_word(ins, "MOV") {
        parse_reg_reg(MOV, ops)
    } else if is_word(ins, "STORE") {
        parse_reg_word(STORE, ops)
    } else if is_word(ins, "LOAD") {
        parse_reg_word(LOAD, ops)
    } else if is_word(ins, "PUSH") {
        parse_reg(PUSH, ops)
    } else if is_word(ins, "POP") {
        parse_reg(POP, ops)
    } else if is_word(ins, "CALL") {
        parse_jump(CALL, ops)
    } else if is_word(ins, "JMP") {
        parse_jump(JMP, ops)
    } else if is_word(ins, "JZ") {
        parse_jump(JZ, ops)
    } else if is_word(ins, "JNZ") {
        parse_jump(JNZ, ops)
    } else if is_word(ins, "JS") {
        parse_jump(JS, ops)
    } else if is_word(ins, "JNS") {
        parse_jump(JNS, ops)
    } else {
        Err(AsmError::UnknownInstruction)
    }
}

/// Reads one line of assembly.
pub fn parse_line(raw: &Vec<char>) -> (r: Result<AsmItem, AsmError>)
    ensures
        result_view(r) == parse_line_spec(raw@),
{
    let code = before_first_chars(raw, &chars_of("//"));
    let line = trim_chars(&code);
    if line.len() == 0 {
        return Ok(AsmItem::Skip);
    }
    let colon = chars_of(":");
    if ends_with(&line, &colon) {
        return Ok(AsmItem::Label(strip_suffixes(&line, &colon)));
    }
    let parts = split_once_chars(&line, ' ');
    assert(views(parts@).len() == parts@.len());
    assert(parts@.len() >= 1);
    assert(views(parts@)[0] == parts@[0]@);
    let ins = &parts[0];
    if is_word(ins, "HLT") {
        Ok(AsmItem::Bare(HLT))
    } else if is_word(ins, "RET") {
        Ok(AsmItem::Bare(RET))
    } else if is_word(ins, "INT") {
        Ok(AsmItem::Bare(INT))
    } else if is_word(ins, "IRET") {
        Ok(AsmItem::Bare(IRET))
    } else if parts.len() < 2 {
        Err(AsmError::MissingOperands)
    } else {
        assert(views(parts@)[1] == parts@[1]@);
        let pieces = split_chars(&parts[1], ',');
        let mut ops: Vec<Vec<char>> = Vec::new();
        let mut i: usize = 0;
        while i < pieces.len()
            invariant
                i <= pieces@.len(),
                views(ops@) == views(pieces@).take(i as int).map_values(|x: Seq<char>| trim(x)),
            decreases pieces@.len() - i,
        {
            let ghost before = views(ops@);
            ops.push(trim_chars(&pieces[i]));
            assert(views(ops@) =~= before.push(trim(pieces@[i as int]@)));
            assert(views(pieces@).take(i + 1) =~= views(pieces@).take(i as int).push(pieces@[i as int]@));
            i += 1;
        }
        assert(views(pieces@).take(pieces@.len() as int) =~= views(pieces@));
        assert(views(ops@) =~= split_char(parts@[1]@, ',').map_values(|x: Seq<char>| trim(x)));
        parse_instruction(ins, &ops)
    }
}

/// What assembling has built so far: the memory, the position of the next byte, the labels
/// and the placeholders awaiting them.
pub struct AsmState {
    pub mem: Seq<u8>,
    pub pos: u32,
    pub labels: Map<Seq<char>, u32>,
    pub patches: Seq<(Seq<char>, u32)>,
}

/// The bytes that an item assembles to; a label reference assembles to a zero placeholder.
pub open spec fn item_bytes(it: ItemSpec) -> Seq<u8> {
    match it {
        ItemSpec::Skip => Seq::empty(),
        ItemSpec::Label(_) => Seq::empty(),
        ItemSpec::Bare(op) => op_only(op),
        ItemSpec::Reg(op, r) => op_reg(op, r),
        ItemSpec::RegReg(op, d, r) => op_reg_reg(op, d, r),
        ItemSpec::RegWord(op, r, w) => op_reg_word(op, r, w),
        ItemSpec::Jump(op, TargetSpec::Address(a)) => op_word(op, a),
        ItemSpec::Jump(op, TargetSpec::Label(_)) => op_word(op, 0),
    }
}

/// Assembles one item: its bytes go at `pos`, which moves past them; a label is defined at
/// `pos`; a label reference records its placeholder, one byte past the opcode.
pub open spec fn apply_item(st: AsmState, it: ItemSpec) -> AsmState {
    let written = AsmState {
        mem: splice(st.mem, st.pos as int, item_bytes(it)),
        pos: (st.pos + item_bytes(it).len()) as u32,
        ..st
    };
    match it {
        ItemSpec::Label(n) => AsmState { labels: st.labels.insert(n, st.pos), ..st },
        ItemSpec::Jump(_, TargetSpec::Label(n)) => AsmState {
            patches: st.patches.push((n, (st.pos + 1) as u32)),
            ..written
        },
        _ => written,
    }
}

/// Assembles `items` in order.
pub open spec fn assemble_items(st: AsmState, items: Seq<ItemSpec>) -> AsmState
    decreases items.len(),
{
    if items.len() == 0 {
        st
    } else {
        apply_item(assemble_items(st, items.drop_last()), items.last())
    }
}

/// How many bytes `items` assemble to.
pub open spec fn items_size(items: Seq<ItemSpec>) -> nat
    decreases items.len(),
{
    if items.len() == 0 {
        0
    } else {
        items_size(items.drop_last()) + item_bytes(items.last()).len()
    }
}

/// Each line of `src`, read.
pub open spec fn parsed_lines(src: Seq<char>) -> Seq<Result<ItemSpec, AsmError>> {
    lines(src).map_values(|l: Seq<char>| parse_line_spec(l))
}

/// Every line of `src` reads.
pub open spec fn source_ok(src: Seq<char>) -> bool {
    forall|i: int| 0 <= i < parsed_lines(src).len() ==> #[trigger] parsed_lines(src)[i] is Ok
}

/// The items of `src`, line by line.
pub open spec fn source_items(src: Seq<char>) -> Seq<ItemSpec> {
    parsed_lines(src).map_values(
        |r: Result<ItemSpec, AsmError>|
            match r {
                Ok(x) => x,
                Err(_) => ItemSpec::Skip,
            },
    )
}

proof fn lemma_items_size_prefix(items: Seq<ItemSpec>, i: int)
    requires
        0 <= i <= items.len(),
    ensures
        items_size(items.take(i)) <= items_size(items),
    decreases items.len() - i,
{
    if i < items.len() {
        lemma_items_size_prefix(items, i + 1);
        assert(items.take(i + 1).drop_last() =~= items.take(i));
    } else {
        assert(items.take(i) =~= items);
    }
}

/// Writes the bytes of `item` at `*pos`, defines its label or records its placeholder.
fn assemble_item(
    memory: &mut Memory,
    pos: &mut u32,
    item: AsmItem,
    labels: &mut LabelTable,
    patches: &mut Vec<Patch>,
)
    requires
        room_for(old(memory).data@, *old(pos), item_bytes(item@).len() as int),
    ensures
        apply_item(
            AsmState {
                mem: old(memory).data@,
                pos: *old(pos),
                labels: old(labels).view(),
                patches: patches_view(old(patches)@),
            },
            item@,
        ) == (AsmState {
            mem: final(memory).data@,
            pos: *final(pos),
            labels: final(labels).view(),
            patches: patches_view(final(patches)@),
        }),
{
    match item {
        AsmItem::Skip => {
            assert(splice(memory.data@, *pos as int, Seq::empty()) =~= memory.data@);
        },
        AsmItem::Label(name) => {
            labels.define_chars(name, *pos);
        },
        AsmItem::Bare(op) => {
            emit_u8(memory, pos, op);
        },
        AsmItem::Reg(op, r) => {
            emit_op_reg(memory, pos, op, r);
        },
        AsmItem::RegReg(op, d, r) => {
            emit_op_reg_reg(memory, pos, op, d, r);
        },
        AsmItem::RegWord(op, r, w) => {
            emit_op_reg_word(memory, pos, op, r, w);
        },
        AsmItem::Jump(op, Target::Address(a)) => {
            emit_op_word(memory, pos, op, a);
        },
        AsmItem::Jump(op, Target::Label(name)) => {
            emit_label_ref(memory, pos, op, &name, patches);
        },
    }
}

/// Assembles `source` line by line into `memory` from `*pos` on, leaving `*pos` past the
/// last byte: defines each label at the position where it stands, and writes a zero
/// placeholder for each jump or call to a label, recorded in `patches` for
/// `resolve_patches`.
#[verifier::rlimit(40)]
pub fn assemble_source(
    memory: &mut Memory,
    pos: &mut u32,
    source: &str,
    labels: &mut LabelTable,
    patches: &mut Vec<Patch>,
)
    requires
        source_ok(source@),
        room_for(old(memory).data@, *old(pos), items_size(source_items(source@)) as int),
    ensures
        assemble_items(
            AsmState {
                mem: old(memory).data@,
                pos: *old(pos),
                labels: old(labels).view(),
                patches: patches_view(old(patches)@),
            },
            source_items(source@),
        ) == (AsmState {
            mem: final(memory).data@,
            pos: *final(pos),
            labels: final(labels).view(),
            patches: patches_view(final(patches)@),
        }),
{
    let ghost start = AsmState {
        mem: memory.data@,
        pos: *pos,
        labels: labels.view(),
        patches: patches_view(patches@),
    };
    let ghost items = source_items(source@);
    let ls = lines_of(&chars_of(source));
    let mut i: usize = 0;
    while i < ls.len()
        invariant
            i <= ls@.len(),
            views(ls@) == lines(source@),
            items == source_items(source@),
            items.len() == ls@.len(),
            source_ok(source@),
            start.pos + items_size(items) <= start.mem.len(),
            start.pos + items_size(items) <= u32::MAX,
            memory.data@.len() == start.mem.len(),
            *pos == start.pos + items_size(items.take(i as int)),
            assemble_items(start, items.take(i as int)) == (AsmState {
                mem: memory.data@,
                pos: *pos,
                labels: labels.view(),
                patches: patches_view(patches@),
            }),
        decreases ls@.len() - i,
    {
        assert(parsed_lines(source@)[i as int] is Ok);
        assert(views(ls@)[i as int] == ls@[i as int]@);
        let parsed = parse_line(&ls[i]);
        match parsed {
            Ok(item) => {
                assert(items[i as int] == item@);
                proof {
                    lemma_items_size_prefix(items, i + 1);
                    assert(items.take(i + 1).drop_last() =~= items.take(i as int));
                }
                assemble_item(memory, pos, item, labels, patches);
            },
            Err(_) => {
                assert(false);
            },
        }
        i += 1;
    }
    assert(items.take(ls@.len() as int) =~= items);
}

/// How many bytes `item` assembles to.
fn item_size(item: &AsmItem) -> (n: u64)
    ensures
        n == item_bytes(item@).len(),
{
    match item {
        AsmItem::Skip => 0,
        AsmItem::Label(_) => 0,
        AsmItem::Bare(_) => 1,
        AsmItem::Reg(_, _) => 2,
        AsmItem::RegReg(_, _, _) => 3,
        AsmItem::RegWord(_, _, _) => 6,
        AsmItem::Jump(_, _) => 5,
    }
}

/// Why a source cannot be assembled where it is to go.
pub enum SourceError {
    /// A line does not read.
    Line(AsmError),
    /// The program runs past the end of memory or of the address space.
    TooLong,
}

/// Whether `assemble_source` can assemble `source` into `memory` from `pos`: `Ok` exactly
/// where every line reads and the program fits; otherwise the first line, in order, that
/// does not read or does not fit.
#[verifier::rlimit(60)]
pub fn check_source(memory: &Memory, pos: u32, source: &str) -> (r: Result<(), SourceError>)
    ensures
        r is Ok <==> (source_ok(source@) && room_for(
            memory.data@,
            pos,
            items_size(source_items(source@)) as int,
        )),
        r matches Err(SourceError::Line(e)) ==> exists|i: int|
            0 <= i < parsed_lines(source@).len() && parsed_lines(source@)[i] == Err::<ItemSpec, AsmError>(e)
                && (forall|j: int| 0 <= j < i ==> #[trigger] parsed_lines(source@)[j] is Ok)
                && room_for(memory.data@, pos, items_size(source_items(source@).take(i)) as int),
        r matches Err(SourceError::TooLong) ==> !room_for(memory.data@, pos, 0) || exists|k: int|
            1 <= k <= parsed_lines(source@).len() && (forall|j: int| 0 <= j < k ==> #[trigger] parsed_lines(source@)[j] is Ok)
                && !room_for(memory.data@, pos, #[trigger] items_size(source_items(source@).take(k)) as int),
{
    let ls = lines_of(&chars_of(source));
    let ghost items = source_items(source@);
    let limit: u64 = if (memory.data.len() as u64) < (u32::MAX as u64) {
        memory.data.len() as u64
    } else {
        u32::MAX as u64
    };
    if pos as u64 > limit {
        return Err(SourceError::TooLong);
    }
    let mut end: u64 = pos as u64;
    let mut i: usize = 0;
    assert(items.take(0) =~= Seq::<ItemSpec>::empty());
    while i < ls.len()
        invariant
            i <= ls@.len(),
            views(ls@) == lines(source@),
            items == source_items(source@),
            items.len() == ls@.len(),
            limit == if memory.data@.len() < u32::MAX { memory.data@.len() as int } else { u32::MAX as int },
            forall|k: int| 0 <= k < i ==> #[trigger] parsed_lines(source@)[k] is Ok,
            end == pos + items_size(items.take(i as int)),
            end <= limit,
        decreases ls@.len() - i,
    {
        assert(views(ls@)[i as int] == ls@[i as int]@);
        match parse_line(&ls[i]) {
            Ok(item) => {
                assert(items[i as int] == item@);
                assert(items.take(i + 1).drop_last() =~= items.take(i as int));
                let size = item_size(&item);
                if end + size > limit {
                    proof {
                        lemma_items_size_prefix(items, i + 1);
                        assert(forall|j: int| 0 <= j < i + 1 ==> #[trigger] parsed_lines(source@)[j] is Ok);
                        assert(!room_for(memory.data@, pos, items_size(items.take(i + 1)) as int));
                    }
                    return Err(SourceError::TooLong);
                }
                end = end + size;
            },
            Err(e) => {
                assert(parsed_lines(source@)[i as int] == Err::<ItemSpec, AsmError>(e));
                assert(room_for(memory.data@, pos, items_size(items.take(i as int)) as int));
                return Err(SourceError::Line(e));
            },
        }
        i += 1;
    }
    assert(items.take(ls@.len() as int) =~= items);
    Ok(())
}

/// No two placeholders share a byte.
pub open spec fn patches_disjoint(ps: Seq<(Seq<char>, u32)>) -> bool {
    forall|i: int, j: int|
        0 <= i < ps.len() && 0 <= j < ps.len() && i != j ==> #[trigger] ps[i].1 + 4 <= #[trigger] ps[j].1
            || ps[j].1 + 4 <= ps[i].1
}

/// Once the patches are resolved, every placeholder holds the address of its label.
#[verifier::spinoff_prover]
pub proof fn law_patches_resolved(mem: Seq<u8>, labels: Map<Seq<char>, u32>, ps: Seq<(Seq<char>, u32)>, k: int)
    requires
        patches_resolvable(mem, labels, ps),
        patches_disjoint(ps),
        0 <= k < ps.len(),
    ensures
        crate::memory::load_u32(patched(mem, labels, ps), ps[k].1 as int) == labels[ps[k].0],
    decreases ps.len(),
{
    let n = ps.len() - 1;
    let rest = ps.drop_last();
    assert forall|i: int| 0 <= i < rest.len() implies labels.dom().contains(#[trigger] rest[i].0) && word_in_bounds(mem, rest[i].1 as int) by {
        assert(0 <= i < ps.len());
        assert(rest[i] == ps[i]);
        assert(labels.dom().contains(ps[i].0));
        assert(word_in_bounds(mem, ps[i].1 as int));
    }
    assert(patches_resolvable(mem, labels, rest));
    lemma_patched_len(mem, labels, rest);
    assert(labels.dom().contains(ps[n].0));
    assert(word_in_bounds(mem, ps[n].1 as int));
    assert(labels.dom().contains(ps[k].0));
    if k == n {
        crate::memory::lemma_load_store_same(patched(mem, labels, rest), ps[n].1 as int, labels[ps[n].0]);
    } else {
        assert(word_in_bounds(mem, ps[k].1 as int));
        assert(rest[k] == ps[k]);
        assert forall|i: int, j: int|
            0 <= i < rest.len() && 0 <= j < rest.len() && i != j implies #[trigger] rest[i].1 + 4 <= #[trigger] rest[j].1
                || rest[j].1 + 4 <= rest[i].1 by {
            assert(rest[i] == ps[i] && rest[j] == ps[j]);
        }
        law_patches_resolved(mem, labels, rest, k);
        assert(ps[k].1 + 4 <= ps[n].1 || ps[n].1 + 4 <= ps[k].1);
        crate::memory::lemma_load_store_other(patched(mem, labels, rest), ps[n].1 as int, labels[ps[n].0], ps[k].1 as int);
    }
}

proof fn lemma_patched_len(mem: Seq<u8>, labels: Map<Seq<char>, u32>, ps: Seq<(Seq<char>, u32)>)
    requires
        patches_resolvable(mem, labels, ps),
    ensures
        patched(mem, labels, ps).len() == mem.len(),
    decreases ps.len(),
{
    if ps.len() > 0 {
        let rest = ps.drop_last();
        assert forall|i: int| 0 <= i < rest.len() implies labels.dom().contains(#[trigger] rest[i].0) && word_in_bounds(mem, rest[i].1 as int) by {
            assert(rest[i] == ps[i]);
        }
        lemma_patched_len(mem, labels, rest);
    }
}

/// After `define(name, a)`, `get(name)` gives `a`, and every other defined name keeps its
/// address.
pub proof fn law_define_then_get(labels: Map<Seq<char>, u32>, name: Seq<char>, a: u32, other: Seq<char>)
    ensures
        labels.insert(name, a).dom().contains(name),
        labels.insert(name, a)[name] == a,
        other != name ==> (labels.insert(name, a).dom().contains(other) == labels.dom().contains(other)),
        other != name && labels.dom().contains(other) ==> labels.insert(name, a)[other] == labels[other],
{
}

/// The table that `defs`, defined in order, leave behind `start`.
pub open spec fn defined_after(start: Map<Seq<char>, u32>, defs: Seq<(Seq<char>, u32)>) -> Map<Seq<char>, u32>
    decreases defs.len(),
{
    if defs.len() == 0 {
        start
    } else {
        defined_after(start, defs.drop_last()).insert(defs.last().0, defs.last().1)
    }
}

/// After a run of definitions from an empty table, a name is defined exactly when some
/// definition named it, and it holds the address of the last definition that did.
pub proof fn law_defines_then_get(defs: Seq<(Seq<char>, u32)>, name: Seq<char>, i: int)
    ensures
        defined_after(Map::empty(), defs).dom().contains(name) <==> exists|k: int| 0 <= k < defs.len() && #[trigger] defs[k].0 == name,
        0 <= i < defs.len() && defs[i].0 == name && (forall|j: int| i < j < defs.len() ==> #[trigger] defs[j].0 != name)
            ==> defined_after(Map::empty(), defs)[name] == defs[i].1,
    decreases defs.len(),
{
    if defs.len() > 0 {
        let rest = defs.drop_last();
        law_defines_then_get(rest, name, i);
        if defs.last().0 != name {
            if exists|k: int| 0 <= k < defs.len() && #[trigger] defs[k].0 == name {
                let k = choose|k: int| 0 <= k < defs.len() && #[trigger] defs[k].0 == name;
                assert(k < rest.len() && rest[k].0 == name);
            }
            if 0 <= i < defs.len() && defs[i].0 == name && (forall|j: int| i < j < defs.len() ==> #[trigger] defs[j].0 != name) {
                assert(i < rest.len());
                assert(rest[i] == defs[i]);
                assert forall|j: int| i < j < rest.len() implies #[trigger] rest[j].0 != name by {
                    assert(rest[j] == defs[j]);
                    assert(defs[j].0 != name);
                }
            }
            assert forall|k: int| 0 <= k < rest.len() && #[trigger] rest[k].0 == name implies defs[k].0 == name by {
                assert(rest[k] == defs[k]);
            }
        } else {
            assert(defs[defs.len() - 1].0 == name);
            if 0 <= i < defs.len() && defs[i].0 == name && (forall|j: int| i < j < defs.len() ==> #[trigger] defs[j].0 != name) {
                if i < defs.len() - 1 {
                    assert(defs[defs.len() - 1].0 != name);
                }
            }
        }
    }
}

/// Assembling `a` and then `b` is assembling `a + b`.
pub proof fn lemma_assemble_concat(st: AsmState, a: Seq<ItemSpec>, b: Seq<ItemSpec>)
    ensures
        assemble_items(st, a + b) == assemble_items(assemble_items(st, a), b),
    decreases b.len(),
{
    if b.len() == 0 {
        assert(a + b =~= a);
    } else {
        lemma_assemble_concat(st, a, b.drop_last());
        assert((a + b).drop_last() =~= a + b.drop_last());
        assert((a + b).last() == b.last());
    }
}

/// Assembling one item is applying it.
proof fn lemma_assemble_one(st: AsmState, it: ItemSpec)
    ensures
        assemble_items(st, seq![it]) == apply_item(st, it),
        items_size(seq![it]) == item_bytes(it).len(),
{
    let e = seq![it].drop_last();
    assert(e =~= Seq::<ItemSpec>::empty());
    assert(assemble_items(st, e) == st);
    assert(items_size(e) == 0);
    assert(seq![it].last() == it);
}

/// A skipped line leaves the assembly as it was.
pub proof fn law_skip_changes_nothing(st: AsmState, a: Seq<ItemSpec>, b: Seq<ItemSpec>)
    ensures
        apply_item(st, ItemSpec::Skip) == st,
        assemble_items(st, a + seq![ItemSpec::Skip] + b) == assemble_items(st, a + b),
        items_size(a + seq![ItemSpec::Skip] + b) == items_size(a + b),
{
    assert(splice(st.mem, st.pos as int, Seq::empty()) =~= st.mem);
    let m = assemble_items(st, a);
    assert(splice(m.mem, m.pos as int, Seq::empty()) =~= m.mem);
    lemma_assemble_one(m, ItemSpec::Skip);
    lemma_assemble_concat(st, a + seq![ItemSpec::Skip], b);
    lemma_assemble_concat(st, a, seq![ItemSpec::Skip]);
    lemma_assemble_concat(st, a, b);
    lemma_items_size_concat(a + seq![ItemSpec::Skip], b);
    lemma_items_size_concat(a, seq![ItemSpec::Skip]);
    lemma_items_size_concat(a, b);
}

proof fn lemma_items_size_concat(a: Seq<ItemSpec>, b: Seq<ItemSpec>)
    ensures
        items_size(a + b) == items_size(a) + items_size(b),
    decreases b.len(),
{
    if b.len() == 0 {
        assert(a + b =~= a);
    } else {
        lemma_items_size_concat(a, b.drop_last());
        assert((a + b).drop_last() =~= a + b.drop_last());
    }
}

/// A line of whitespace, and a line whose first other text is `//`, read as nothing.
pub proof fn law_blank_and_comment_lines_skip(w: Seq<char>, comment: Seq<char>)
    requires
        forall|i: int| 0 <= i < w.len() ==> is_ws(#[trigger] w[i]),
    ensures
        parse_line_spec(w) == Ok::<ItemSpec, AsmError>(ItemSpec::Skip),
        parse_line_spec(w + "//"@ + comment) == Ok::<ItemSpec, AsmError>(ItemSpec::Skip),
{
    reveal_strlit("//");
    assert("//"@ =~= seq!['/', '/']);
    assert forall|i: int| 0 <= i < w.len() implies w[i] != '/' by {
        assert(is_ws(w[i]));
    }
    crate::text::lemma_before_first_absent(w, "//"@);
    lemma_trim_all_ws(w);
    let l = w + "//"@ + comment;
    assert(l.subrange(w.len() as int, w.len() + 2int) =~= "//"@);
    assert forall|j: int| 0 <= j < w.len() implies !occurs_at(l, "//"@, j) by {
        assert(l.subrange(j, j + 2)[0] == w[j]);
    }
    lemma_before_first_at(l, "//"@, w.len() as int);
    assert(l.take(w.len() as int) =~= w);
}

proof fn lemma_comment_cut(l: Seq<char>, comment: Seq<char>)
    requires
        forall|i: int| 0 <= i < l.len() ==> #[trigger] l[i] != '/',
    ensures
        before_first(l + "//"@ + comment, "//"@) == before_first(l, "//"@),
{
    reveal_strlit("//");
    assert("//"@ =~= seq!['/', '/']);
    crate::text::lemma_before_first_absent(l, "//"@);
    let s = l + "//"@ + comment;
    assert(s.subrange(l.len() as int, l.len() + 2int) =~= "//"@);
    assert forall|j: int| 0 <= j < l.len() implies !occurs_at(s, "//"@, j) by {
        assert(s.subrange(j, j + 2)[0] == l[j]);
    }
    lemma_before_first_at(s, "//"@, l.len() as int);
    assert(s.take(l.len() as int) =~= l);
}

/// A comment put after a line without `/` changes nothing of how it reads.
#[verifier::spinoff_prover]
pub proof fn law_trailing_comment_ignored(l: Seq<char>, comment: Seq<char>)
    requires
        forall|i: int| 0 <= i < l.len() ==> #[trigger] l[i] != '/',
    ensures
        parse_line_spec(l + "//"@ + comment) == parse_line_spec(l),
{
    lemma_comment_cut(l, comment);
}

/// Inserting a line that reads as nothing into a source changes neither whether it
/// assembles, nor its size, nor what assembling it does.
pub proof fn law_skipped_line_inserted(s1: Seq<char>, s2: Seq<char>, i: int, l: Seq<char>, st: AsmState)
    requires
        0 <= i <= lines(s1).len(),
        lines(s2) == lines(s1).insert(i, l),
        parse_line_spec(l) == Ok::<ItemSpec, AsmError>(ItemSpec::Skip),
    ensures
        source_ok(s2) == source_ok(s1),
        items_size(source_items(s2)) == items_size(source_items(s1)),
        assemble_items(st, source_items(s2)) == assemble_items(st, source_items(s1)),
{
    let p1 = parsed_lines(s1);
    let p2 = parsed_lines(s2);
    assert(p2 =~= p1.insert(i, Ok::<ItemSpec, AsmError>(ItemSpec::Skip)));
    let a = source_items(s1).take(i);
    let b = source_items(s1).skip(i);
    assert(source_items(s2) =~= a + seq![ItemSpec::Skip] + b);
    assert(source_items(s1) =~= a + b);
    law_skip_changes_nothing(st, a, b);
    assert(source_ok(s2) == source_ok(s1)) by {
        if source_ok(s1) {
            assert forall|k: int| 0 <= k < p2.len() implies #[trigger] p2[k] is Ok by {
                if k < i {
                    assert(p2[k] == p1[k]);
                } else if k > i {
                    assert(p2[k] == p1[k - 1]);
                }
            }
        }
        if source_ok(s2) {
            assert forall|k: int| 0 <= k < p1.len() implies #[trigger] p1[k] is Ok by {
                if k < i {
                    assert(p2[k] == p1[k]);
                } else {
                    assert(p2[k + 1] == p1[k]);
                }
            }
        }
    }
}

/// A comment added to a line without `/` changes nothing of what the source assembles to.
pub proof fn law_commented_line(s1: Seq<char>, s2: Seq<char>, i: int, comment: Seq<char>)
    requires
        0 <= i < lines(s1).len(),
        forall|k: int| 0 <= k < lines(s1)[i].len() ==> #[trigger] lines(s1)[i][k] != '/',
        lines(s2) == lines(s1).update(i, lines(s1)[i] + "//"@ + comment),
    ensures
        parsed_lines(s2) == parsed_lines(s1),
        source_ok(s2) == source_ok(s1),
        source_items(s2) == source_items(s1),
{
    law_trailing_comment_ignored(lines(s1)[i], comment);
    assert(parsed_lines(s2) =~= parsed_lines(s1));
    assert(source_items(s2) =~= source_items(s1));
}

/// A label line emits no byte and records no placeholder: it defines the label at the
/// current position.
pub proof fn law_label_defines_here(st: AsmState, name: Seq<char>)
    ensures
        apply_item(st, ItemSpec::Label(name)) == (AsmState { labels: st.labels.insert(name, st.pos), ..st }),
        item_bytes(ItemSpec::Label(name)).len() == 0,
{
}

/// What assembling leaves in memory, at `pos` and among the placeholders does not depend on
/// the labels defined.
proof fn lemma_labels_irrelevant(s1: AsmState, s2: AsmState, items: Seq<ItemSpec>)
    requires
        s1.mem == s2.mem,
        s1.pos == s2.pos,
        s1.patches == s2.patches,
    ensures
        assemble_items(s1, items).mem == assemble_items(s2, items).mem,
        assemble_items(s1, items).pos == assemble_items(s2, items).pos,
        assemble_items(s1, items).patches == assemble_items(s2, items).patches,
    decreases items.len(),
{
    if items.len() > 0 {
        lemma_labels_irrelevant(s1, s2, items.drop_last());
    }
}

/// A label defined and not defined again keeps its address.
proof fn lemma_label_kept(st: AsmState, items: Seq<ItemSpec>, name: Seq<char>)
    requires
        st.labels.dom().contains(name),
        forall|j: int| 0 <= j < items.len() ==> #[trigger] items[j] != ItemSpec::Label(name),
    ensures
        assemble_items(st, items).labels.dom().contains(name),
        assemble_items(st, items).labels[name] == st.labels[name],
    decreases items.len(),
{
    if items.len() > 0 {
        assert forall|j: int| 0 <= j < items.drop_last().len() implies #[trigger] items.drop_last()[j] != ItemSpec::Label(name) by {
            assert(items.drop_last()[j] == items[j]);
        }
        lemma_label_kept(st, items.drop_last(), name);
        assert(items.last() == items[items.len() - 1]);
    }
}

/// Between two runs of items, a label line emits nothing: memory, position and placeholders
/// end as without it, and the label holds the position reached after the items before it,
/// unless a later label line defines it again.
pub proof fn law_label_line_between(st: AsmState, a: Seq<ItemSpec>, name: Seq<char>, b: Seq<ItemSpec>)
    ensures
        assemble_items(st, a + seq![ItemSpec::Label(name)] + b).mem == assemble_items(st, a + b).mem,
        assemble_items(st, a + seq![ItemSpec::Label(name)] + b).pos == assemble_items(st, a + b).pos,
        assemble_items(st, a + seq![ItemSpec::Label(name)] + b).patches == assemble_items(st, a + b).patches,
        (forall|j: int| 0 <= j < b.len() ==> #[trigger] b[j] != ItemSpec::Label(name)) ==>
            assemble_items(st, a + seq![ItemSpec::Label(name)] + b).labels[name] == assemble_items(st, a).pos,
{
    let mid = assemble_items(st, a);
    lemma_assemble_concat(st, a, seq![ItemSpec::Label(name)]);
    lemma_assemble_one(mid, ItemSpec::Label(name));
    let after = assemble_items(mid, seq![ItemSpec::Label(name)]);
    assert(after == AsmState { labels: mid.labels.insert(name, mid.pos), ..mid });
    lemma_assemble_concat(st, a + seq![ItemSpec::Label(name)], b);
    lemma_assemble_concat(st, a, b);
    lemma_labels_irrelevant(after, mid, b);
    if forall|j: int| 0 <= j < b.len() ==> #[trigger] b[j] != ItemSpec::Label(name) {
        lemma_label_kept(after, b, name);
    }
}

/// The bytes of `items`, one after another.
pub open spec fn items_code(items: Seq<ItemSpec>) -> Seq<u8>
    decreases items.len(),
{
    if items.len() == 0 {
        Seq::empty()
    } else {
        items_code(items.drop_last()) + item_bytes(items.last())
    }
}

/// An instruction that names no label: bare, or with registers and numbers only.
pub open spec fn plain_item(it: ItemSpec) -> bool {
    it is Bare || it is Reg || it is RegReg || it is RegWord
}

/// Items that name no label assemble to their bytes one after another, and leave the labels
/// and placeholders as they were.
pub proof fn law_plain_items_assemble(st: AsmState, items: Seq<ItemSpec>)
    requires
        forall|i: int| 0 <= i < items.len() ==> plain_item(#[trigger] items[i]),
        st.pos + items_code(items).len() <= u32::MAX,
    ensures
        items_size(items) == items_code(items).len(),
        assemble_items(st, items) == (AsmState {
            mem: splice(st.mem, st.pos as int, items_code(items)),
            pos: (st.pos + items_code(items).len()) as u32,
            ..st
        }),
    decreases items.len(),
{
    if items.len() == 0 {
        assert(splice(st.mem, st.pos as int, Seq::empty()) =~= st.mem);
    } else {
        let init = items.drop_last();
        assert forall|i: int| 0 <= i < init.len() implies plain_item(#[trigger] init[i]) by {
            assert(init[i] == items[i]);
        }
        law_plain_items_assemble(st, init);
        let it = items.last();
        assert(plain_item(items[items.len() - 1]));
        crate::encoding::lemma_splice_concat(st.mem, st.pos as int, items_code(init), item_bytes(it));
    }
}

/// The placeholders of `st` are disjoint, and each lies wholly between `lo` and `st.pos`.
pub open spec fn patches_below(st: AsmState, lo: int) -> bool {
    &&& patches_disjoint(st.patches)
    &&& forall|i: int| 0 <= i < st.patches.len() ==> lo <= #[trigger] st.patches[i].1 && st.patches[i].1 + 4 <= st.pos
}

proof fn lemma_assembled_patches(st0: AsmState, items: Seq<ItemSpec>)
    requires
        st0.patches.len() == 0,
        st0.pos + items_size(items) <= u32::MAX,
    ensures
        patches_below(assemble_items(st0, items), st0.pos as int),
        assemble_items(st0, items).pos == st0.pos + items_size(items),
        assemble_items(st0, items).mem.len() == st0.mem.len(),
    decreases items.len(),
{
    if items.len() > 0 {
        let prev = assemble_items(st0, items.drop_last());
        lemma_assembled_patches(st0, items.drop_last());
        let it = items.last();
        let st = apply_item(prev, it);
        assert forall|i: int| 0 <= i < st.patches.len() implies st0.pos <= #[trigger] st.patches[i].1 && st.patches[i].1 + 4 <= st.pos by {
            if i < prev.patches.len() {
                assert(st.patches[i] == prev.patches[i]);
            }
        }
        assert forall|i: int, j: int|
            0 <= i < st.patches.len() && 0 <= j < st.patches.len() && i != j implies #[trigger] st.patches[i].1 + 4 <= #[trigger] st.patches[j].1
                || st.patches[j].1 + 4 <= st.patches[i].1 by {
            if i < prev.patches.len() {
                assert(st.patches[i] == prev.patches[i]);
            }
            if j < prev.patches.len() {
                assert(st.patches[j] == prev.patches[j]);
            }
        }
    } else {
        assert(patches_disjoint(st0.patches));
    }
}

/// Assembling and then resolving the placeholders makes every jump or call to a label
/// carry that label's address: the placeholders the assembler records never overlap.
pub proof fn law_assembled_jumps_reach_labels(st0: AsmState, items: Seq<ItemSpec>, k: int)
    requires
        st0.patches.len() == 0,
        room_for(st0.mem, st0.pos, items_size(items) as int),
        forall|i: int|
            0 <= i < assemble_items(st0, items).patches.len() ==> assemble_items(st0, items).labels.dom().contains(
                #[trigger] assemble_items(st0, items).patches[i].0,
            ),
        0 <= k < assemble_items(st0, items).patches.len(),
    ensures
        ({
            let st = assemble_items(st0, items);
            crate::memory::load_u32(patched(st.mem, st.labels, st.patches), st.patches[k].1 as int)
                == st.labels[st.patches[k].0]
        }),
{
    let st = assemble_items(st0, items);
    lemma_assembled_patches(st0, items);
    assert forall|i: int| 0 <= i < st.patches.len() implies st.labels.dom().contains(#[trigger] st.patches[i].0)
        && word_in_bounds(st.mem, st.patches[i].1 as int) by {
    }
    law_patches_resolved(st.mem, st.labels, st.patches, k);
}

proof fn lemma_no_ws_ends(s: Seq<char>)
    requires
        s.len() > 0,
        !is_ws(s[0]),
        !is_ws(s.last()),
    ensures
        trim(s) == s,
{
    assert(crate::text::trim_start(s) == s);
    assert(crate::text::trim_end(s) == s);
}

/// A target operand as a line may give it: some text without commas or slashes, not
/// starting or ending in whitespace and not ending in `:`.
pub open spec fn target_text(t: Seq<char>) -> bool {
    &&& t.len() > 0
    &&& forall|i: int| 0 <= i < t.len() ==> #[trigger] t[i] != ',' && t[i] != '/'
    &&& !is_ws(t[0])
    &&& !is_ws(t.last())
    &&& t.last() != ':'
}

/// A mnemonic in capitals, no bare one, followed by one operand, reads as that mnemonic with
/// that operand.
proof fn lemma_one_operand_line(m: Seq<char>, a: Seq<char>)
    requires
        m.len() > 0,
        forall|i: int| 0 <= i < m.len() ==> 'A' <= #[trigger] m[i] <= 'Z',
        m != "HLT"@,
        m != "RET"@,
        m != "INT"@,
        m != "IRET"@,
        target_text(a),
    ensures
        parse_line_spec(m + seq![' '] + a) == instruction_spec(m, seq![a]),
{
    reveal_strlit("//");
    reveal_strlit(":");
    assert("//"@ =~= seq!['/', '/']);
    assert(":"@ =~= seq![':']);
    let line = m + seq![' '] + a;
    let n1 = m.len() as int;
    assert forall|i: int| 0 <= i < line.len() implies line[i] != '/' by {
        if i < n1 {
            assert(line[i] == m[i]);
        } else if i > n1 {
            assert(line[i] == a[i - n1 - 1]);
        }
    }
    crate::text::lemma_before_first_absent(line, "//"@);
    assert(line[0] == m[0]);
    assert(line.last() == a.last()) by {
        assert(line[line.len() - 1] == a[a.len() - 1]);
    }
    assert(!is_ws(line[0]));
    lemma_no_ws_ends(line);
    assert(!has_suffix(line, ":"@)) by {
        assert(line.skip(line.len() - 1)[0] == line.last());
    }
    assert forall|i: int| 0 <= i < m.len() implies m[i] != ' ' by {
    }
    crate::text::lemma_split_once_at(m, ' ', a);
    assert(!a.contains(',')) by {
        assert forall|i: int| 0 <= i < a.len() implies a[i] != ',' by {}
    }
    crate::text::lemma_split_char_none(a, ',');
    assert(a.last() == a[a.len() - 1]);
    lemma_no_ws_ends(a);
    let ops = split_char(a, ',').map_values(|x: Seq<char>| trim(x));
    assert(ops =~= seq![a]);
}

/// How the mnemonics with one operand are spelled, and the item each makes.
proof fn lemma_one_operand_mnemonics()
    ensures
        "JMP "@ == "JMP"@ + seq![' '],
        "JZ "@ == "JZ"@ + seq![' '],
        "JNZ "@ == "JNZ"@ + seq![' '],
        "JS "@ == "JS"@ + seq![' '],
        "JNS "@ == "JNS"@ + seq![' '],
        "CALL "@ == "CALL"@ + seq![' '],
        "PUSH "@ == "PUSH"@ + seq![' '],
        "POP "@ == "POP"@ + seq![' '],
        forall|ops: Seq<Seq<char>>| #[trigger] instruction_spec("JMP"@, ops) == jump_spec(JMP, ops),
        forall|ops: Seq<Seq<char>>| #[trigger] instruction_spec("JZ"@, ops) == jump_spec(JZ, ops),
        forall|ops: Seq<Seq<char>>| #[trigger] instruction_spec("JNZ"@, ops) == jump_spec(JNZ, ops),
        forall|ops: Seq<Seq<char>>| #[trigger] instruction_spec("JS"@, ops) == jump_spec(JS, ops),
        forall|ops: Seq<Seq<char>>| #[trigger] instruction_spec("JNS"@, ops) == jump_spec(JNS, ops),
        forall|ops: Seq<Seq<char>>| #[trigger] instruction_spec("CALL"@, ops) == jump_spec(CALL, ops),
        forall|ops: Seq<Seq<char>>| #[trigger] instruction_spec("PUSH"@, ops) == reg_spec(PUSH, ops),
        forall|ops: Seq<Seq<char>>| #[trigger] instruction_spec("POP"@, ops) == reg_spec(POP, ops),
        forall|m: Seq<char>| (m == "JMP"@ || m == "JZ"@ || m == "JNZ"@ || m == "JS"@ || m == "JNS"@
            || m == "CALL"@ || m == "PUSH"@ || m == "POP"@) ==> {
            &&& m.len() > 0
            &&& forall|i: int| 0 <= i < m.len() ==> 'A' <= #[trigger] m[i] <= 'Z'
            &&& m != "HLT"@ && m != "RET"@ && m != "INT"@ && m != "IRET"@
        },
{
    reveal_strlit("LOADI");
    reveal_strlit("ADD");
    reveal_strlit("SUB");
    reveal_strlit("MOV");
    reveal_strlit("STORE");
    reveal_strlit("LOAD");
    reveal_strlit("PUSH");
    reveal_strlit("POP");
    reveal_strlit("CALL");
    reveal_strlit("JMP");
    reveal_strlit("JZ");
    reveal_strlit("JNZ");
    reveal_strlit("JS");
    reveal_strlit("JNS");
    reveal_strlit("HLT");
    reveal_strlit("RET");
    reveal_strlit("INT");
    reveal_strlit("IRET");
    reveal_strlit("JMP ");
    reveal_strlit("JZ ");
    reveal_strlit("JNZ ");
    reveal_strlit("JS ");
    reveal_strlit("JNS ");
    reveal_strlit("CALL ");
    reveal_strlit("PUSH ");
    reveal_strlit("POP ");
    assert("JMP "@ =~= "JMP"@ + seq![' ']);
    assert("JZ "@ =~= "JZ"@ + seq![' ']);
    assert("JNZ "@ =~= "JNZ"@ + seq![' ']);
    assert("JS "@ =~= "JS"@ + seq![' ']);
    assert("JNS "@ =~= "JNS"@ + seq![' ']);
    assert("CALL "@ =~= "CALL"@ + seq![' ']);
    assert("PUSH "@ =~= "PUSH"@ + seq![' ']);
    assert("POP "@ =~= "POP"@ + seq![' ']);
    assert("SUB"@[0] != "ADD"@[0]);
    assert("MOV"@[0] != "ADD"@[0]);
    assert("MOV"@[0] != "SUB"@[0]);
    assert("STORE"@[0] != "LOADI"@[0]);
    assert("PUSH"@[0] != "LOAD"@[0]);
    assert("POP"@[0] != "ADD"@[0]);
    assert("POP"@[0] != "SUB"@[0]);
    assert("POP"@[0] != "MOV"@[0]);
    assert("CALL"@[0] != "LOAD"@[0]);
    assert("CALL"@[0] != "PUSH"@[0]);
    assert("JMP"@[0] != "ADD"@[0]);
    assert("JMP"@[0] != "SUB"@[0]);
    assert("JMP"@[0] != "MOV"@[0]);
    assert("JMP"@[0] != "POP"@[0]);
    assert("JNZ"@[0] != "ADD"@[0]);
    assert("JNZ"@[0] != "SUB"@[0]);
    assert("JNZ"@[0] != "MOV"@[0]);
    assert("JNZ"@[0] != "POP"@[0]);
    assert("JNZ"@[1] != "JMP"@[1]);
    assert("JS"@[1] != "JZ"@[1]);
    assert("JNS"@[0] != "ADD"@[0]);
    assert("JNS"@[0] != "SUB"@[0]);
    assert("JNS"@[0] != "MOV"@[0]);
    assert("JNS"@[0] != "POP"@[0]);
    assert("JNS"@[1] != "JMP"@[1]);
    assert("JNS"@[2] != "JNZ"@[2]);
    assert("HLT"@[0] != "JMP"@[0] && "RET"@[0] != "JMP"@[0] && "INT"@[0] != "JMP"@[0]);
    assert("HLT"@[0] != "JNZ"@[0] && "RET"@[0] != "JNZ"@[0] && "INT"@[0] != "JNZ"@[0]);
    assert("HLT"@[0] != "JNS"@[0] && "RET"@[0] != "JNS"@[0] && "INT"@[0] != "JNS"@[0]);
    assert("HLT"@[0] != "POP"@[0] && "RET"@[0] != "POP"@[0] && "INT"@[0] != "POP"@[0]);
    assert("IRET"@[0] != "CALL"@[0] && "IRET"@[0] != "PUSH"@[0]);
}

proof fn lemma_jump_line(m: Seq<char>, op: u8, t: Seq<char>)
    requires
        m.len() > 0,
        forall|i: int| 0 <= i < m.len() ==> 'A' <= #[trigger] m[i] <= 'Z',
        m != "HLT"@ && m != "RET"@ && m != "INT"@ && m != "IRET"@,
        target_text(t),
        instruction_spec(m, seq![t]) == jump_spec(op, seq![t]),
    ensures
        parse_line_spec(m + seq![' '] + t) matches Ok(ItemSpec::Jump(o, target)) && o == op && target == (match parse_u32_spec(t) {
            Some(a) => TargetSpec::Address(a),
            None => TargetSpec::Label(t),
        }),
{
    lemma_one_operand_line(m, t);
}

/// Each jump mnemonic reads as its own opcode with its target, a number or else a label:
/// `JMP`, `JZ`, `JNZ`, `JS`, `JNS` and `CALL`.
pub proof fn law_jump_mnemonics(ins: Seq<char>, op: u8, t: Seq<char>)
    requires
        (ins == "JMP "@ && op == JMP) || (ins == "JZ "@ && op == JZ) || (ins == "JNZ "@ && op == JNZ)
            || (ins == "JS "@ && op == JS) || (ins == "JNS "@ && op == JNS) || (ins == "CALL "@ && op == CALL),
        target_text(t),
    ensures
        parse_line_spec(ins + t) matches Ok(ItemSpec::Jump(o, target)) && o == op && target == (match parse_u32_spec(t) {
            Some(a) => TargetSpec::Address(a),
            None => TargetSpec::Label(t),
        }),
{
    lemma_one_operand_mnemonics();
    let o = seq![t];
    if ins == "JMP "@ && op == JMP {
        let m = "JMP"@;
        assert(instruction_spec(m, o) == jump_spec(JMP, o));
        assert(ins + t =~= m + seq![' '] + t);
        lemma_jump_line(m, JMP, t);
    } else if ins == "JZ "@ && op == JZ {
        let m = "JZ"@;
        assert(instruction_spec(m, o) == jump_spec(JZ, o));
        assert(ins + t =~= m + seq![' '] + t);
        lemma_jump_line(m, JZ, t);
    } else if ins == "JNZ "@ && op == JNZ {
        let m = "JNZ"@;
        assert(instruction_spec(m, o) == jump_spec(JNZ, o));
        assert(ins + t =~= m + seq![' '] + t);
        lemma_jump_line(m, JNZ, t);
    } else if ins == "JS "@ && op == JS {
        let m = "JS"@;
        assert(instruction_spec(m, o) == jump_spec(JS, o));
        assert(ins + t =~= m + seq![' '] + t);
        lemma_jump_line(m, JS, t);
    } else if ins == "JNS "@ && op == JNS {
        let m = "JNS"@;
        assert(instruction_spec(m, o) == jump_spec(JNS, o));
        assert(ins + t =~= m + seq![' '] + t);
        lemma_jump_line(m, JNS, t);
    } else {
        let m = "CALL"@;
        assert(instruction_spec(m, o) == jump_spec(CALL, o));
        assert(ins + t =~= m + seq![' '] + t);
        lemma_jump_line(m, CALL, t);
    }
}

/// `R` and a register's number in decimal, as lines name registers.
pub open spec fn register_text(r: u8) -> Seq<char> {
    "R"@ + crate::text::dec_string(r as nat)
}

proof fn lemma_register_text_reads(r: u8)
    requires
        r < 8,
    ensures
        register_spec(register_text(r)) == Some(r),
        target_text(register_text(r)),
{
    reveal_strlit("R");
    assert("R"@ =~= seq!['R']);
    let d = crate::text::dec_string(r as nat);
    crate::text::lemma_dec_string_digits(r as nat);
    let t = register_text(r);
    assert forall|i: int| 0 <= i < t.len() implies #[trigger] t[i] != ',' && t[i] != '/' && !is_ws(t[i]) && t[i] != ':' by {
        if i > 0 {
            assert(t[i] == d[i - 1]);
            assert(crate::text::is_digit(d[i - 1]));
        }
    }
    assert(t.last() == t[t.len() - 1]);
    lemma_no_ws_ends(t);
    assert(t.take(1) =~= "R"@);
    assert(t.skip(1) =~= d);
    crate::text::law_decimal_roundtrip(r as u32);
}

/// `PUSH` and `POP` read as their own opcodes with the register named.
pub proof fn law_register_mnemonics(ins: Seq<char>, op: u8, r: u8)
    requires
        (ins == "PUSH "@ && op == PUSH) || (ins == "POP "@ && op == POP),
        r < 8,
    ensures
        parse_line_spec(ins + register_text(r)) == Ok::<ItemSpec, AsmError>(ItemSpec::Reg(op, r)),
{
    lemma_one_operand_mnemonics();
    lemma_register_text_reads(r);
    let t = register_text(r);
    let o = seq![t];
    if ins == "PUSH "@ && op == PUSH {
        let m = "PUSH"@;
        assert(instruction_spec(m, o) == reg_spec(PUSH, o));
        assert(ins + t =~= m + seq![' '] + t);
        lemma_one_operand_line(m, t);
    } else {
        let m = "POP"@;
        assert(instruction_spec(m, o) == reg_spec(POP, o));
        assert(ins + t =~= m + seq![' '] + t);
        lemma_one_operand_line(m, t);
    }
}

proof fn lemma_one_word_line(m: Seq<char>)
    requires
        m.len() > 0,
        forall|i: int| 0 <= i < m.len() ==> 'A' <= #[trigger] m[i] <= 'Z',
    ensures
        trim(before_first(m, "//"@)) == m,
        !has_suffix(m, ":"@),
        split_once(m, ' ') == seq![m],
{
    reveal_strlit("//");
    reveal_strlit(":");
    assert("//"@ =~= seq!['/', '/']);
    assert(":"@ =~= seq![':']);
    crate::text::lemma_before_first_absent(m, "//"@);
    assert(m.last() == m[m.len() - 1]);
    lemma_no_ws_ends(m);
    assert(!has_suffix(m, ":"@)) by {
        assert(m.skip(m.len() - 1)[0] == m.last());
    }
    assert(!m.contains(' '));
}

/// `HLT`, `RET`, `INT` and `IRET` alone on a line read as their own opcodes.
pub proof fn law_bare_mnemonics()
    ensures
        parse_line_spec("HLT"@) == Ok::<ItemSpec, AsmError>(ItemSpec::Bare(HLT)),
        parse_line_spec("RET"@) == Ok::<ItemSpec, AsmError>(ItemSpec::Bare(RET)),
        parse_line_spec("INT"@) == Ok::<ItemSpec, AsmError>(ItemSpec::Bare(INT)),
        parse_line_spec("IRET"@) == Ok::<ItemSpec, AsmError>(ItemSpec::Bare(IRET)),
{
    reveal_strlit("HLT");
    reveal_strlit("RET");
    reveal_strlit("INT");
    reveal_strlit("IRET");
    assert("HLT"@ =~= seq!['H', 'L', 'T']);
    assert("RET"@ =~= seq!['R', 'E', 'T']);
    assert("INT"@ =~= seq!['I', 'N', 'T']);
    assert("IRET"@ =~= seq!['I', 'R', 'E', 'T']);
    assert("RET"@[0] != "HLT"@[0]);
    assert("INT"@[0] != "HLT"@[0] && "INT"@[0] != "RET"@[0]);
    lemma_one_word_line("HLT"@);
    lemma_one_word_line("RET"@);
    lemma_one_word_line("INT"@);
    lemma_one_word_line("IRET"@);
}

} // verus!
