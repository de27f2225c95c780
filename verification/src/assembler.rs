pub mod emit;

use vstd::prelude::*;
use crate::cpu::{LOADI, STORE, ADD, SUB, MOV, JMP, JZ, JNZ, HLT};
use crate::memory::Memory;
use crate::encoding::{
    splice, room_for, op_only, op_reg_reg, op_word, op_reg_word, emit_u8,
    emit_op_reg_reg, emit_op_word, emit_op_reg_word,
};
use crate::labels::LabelMap;
use crate::text::chars_of;

verus! {

/// Writes `LOADI reg, value` (six bytes) at `*pos` and moves `*pos` past it.
pub fn emit_loadi(memory: &mut Memory, pos: &mut u32, reg: u8, value: u32)
    requires
        room_for(old(memory).data@, *old(pos), 6),
    ensures
        final(memory).data@ == splice(
            old(memory).data@,
            *old(pos) as int,
            op_reg_word(LOADI, reg, value),
        ),
        *final(pos) == *old(pos) + 6,
{
    emit_op_reg_word(memory, pos, LOADI, reg, value);
}

/// Writes `MOV dst, src` (three bytes) at `*pos` and moves `*pos` past it.
pub fn emit_mov(memory: &mut Memory, pos: &mut u32, dst: u8, src: u8)
    requires
        room_for(old(memory).data@, *old(pos), 3),
    ensures
        final(memory).data@ == splice(
            old(memory).data@,
            *old(pos) as int,
            op_reg_reg(MOV, dst, src),
        ),
        *final(pos) == *old(pos) + 3,
{
    emit_op_reg_reg(memory, pos, MOV, dst, src);
}

/// Writes `ADD dst, src` (three bytes) at `*pos` and moves `*pos` past it.
pub fn emit_add(memory: &mut Memory, pos: &mut u32, dst: u8, src: u8)
    requires
        room_for(old(memory).data@, *old(pos), 3),
    ensures
        final(memory).data@ == splice(
            old(memory).data@,
            *old(pos) as int,
            op_reg_reg(ADD, dst, src),
        ),
        *final(pos) == *old(pos) + 3,
{
    emit_op_reg_reg(memory, pos, ADD, dst, src);
}

/// Writes `SUB dst, src` (three bytes) at `*pos` and moves `*pos` past it.
pub fn emit_sub(memory: &mut Memory, pos: &mut u32, dst: u8, src: u8)
    requires
        room_for(old(memory).data@, *old(pos), 3),
    ensures
        final(memory).data@ == splice(
            old(memory).data@,
            *old(pos) as int,
            op_reg_reg(SUB, dst, src),
        ),
        *final(pos) == *old(pos) + 3,
{
    emit_op_reg_reg(memory, pos, SUB, dst, src);
}

/// Writes `STORE reg, address` (six bytes) at `*pos` and moves `*pos` past it.
pub fn emit_store(memory: &mut Memory, pos: &mut u32, reg: u8, address: u32)
    requires
        room_for(old(memory).data@, *old(pos), 6),
    ensures
        final(memory).data@ == splice(
            old(memory).data@,
            *old(pos) as int,
            op_reg_word(STORE, reg, address),
        ),
        *final(pos) == *old(pos) + 6,
{
    emit_op_reg_word(memory, pos, STORE, reg, address);
}

/// Writes `JMP address` (five bytes) at `*pos` and moves `*pos` past it.
pub fn emit_jmp(memory: &mut Memory, pos: &mut u32, address: u32)
    requires
        room_for(old(memory).data@, *old(pos), 5),
    ensures
        final(memory).data@ == splice(
            old(memory).data@,
            *old(pos) as int,
            op_word(JMP, address),
        ),
        *final(pos) == *old(pos) + 5,
{
    emit_op_word(memory, pos, JMP, address);
}

/// Writes `JZ reg, address` (six bytes) at `*pos` and moves `*pos` past it.
pub fn emit_jz(memory: &mut Memory, pos: &mut u32, reg: u8, address: u32)
    requires
        room_for(old(memory).data@, *old(pos), 6),
    ensures
        final(memory).data@ == splice(
            old(memory).data@,
            *old(pos) as int,
            op_reg_word(JZ, reg, address),
        ),
        *final(pos) == *old(pos) + 6,
{
    emit_op_reg_word(memory, pos, JZ, reg, address);
}

/// Writes `JNZ reg, address` (six bytes) at `*pos` and moves `*pos` past it.
pub fn emit_jnz(memory: &mut Memory, pos: &mut u32, reg: u8, address: u32)
    requires
        room_for(old(memory).data@, *old(pos), 6),
    ensures
        final(memory).data@ == splice(
            old(memory).data@,
            *old(pos) as int,
            op_reg_word(JNZ, reg, address),
        ),
        *final(pos) == *old(pos) + 6,
{
    emit_op_reg_word(memory, pos, JNZ, reg, address);
}

/// Writes `HLT` (one byte) at `*pos` and moves `*pos` past it.
pub fn emit_hlt(memory: &mut Memory, pos: &mut u32)
    requires
        room_for(old(memory).data@, *old(pos), 1),
    ensures
        final(memory).data@ == splice(old(memory).data@, *old(pos) as int, op_only(HLT)),
        *final(pos) == *old(pos) + 1,
{
    emit_u8(memory, pos, HLT);
}

/// Overwrites the word at `address_pos` with `value`: fills in an address written as a
/// placeholder earlier.
pub fn patch_u32(memory: &mut Memory, address_pos: u32, value: u32)
    requires
        crate::memory::word_in_bounds(old(memory).data@, address_pos as int),
    ensures
        final(memory).data@ == splice(
            old(memory).data@,
            address_pos as int,
            crate::encoding::le_bytes(value),
        ),
{
    memory.write_u32(address_pos, value);
    proof {
        crate::encoding::lemma_store_is_splice(old(memory).data@, address_pos as int, value);
    }
}

/// Label names and the addresses they stand for.
pub struct LabelTable {
    labels: LabelMap,
}

impl LabelTable {
    /// The names defined so far, each with its address.
    pub closed spec fn view(&self) -> Map<Seq<char>, u32> {
        self.labels.view()
    }

    /// A table with no labels.
    pub fn new() -> (t: Self)
        ensures
            t.view() == Map::<Seq<char>, u32>::empty(),
    {
        LabelTable { labels: LabelMap::new() }
    }

    /// Gives `name` the address `address`; a later definition replaces an earlier one.
    pub fn define(&mut self, name: &str, address: u32)
        ensures
            final(self).view() == old(self).view().insert(name@, address),
    {
        self.labels.define(chars_of(name), address);
    }

    /// The address of `name`, which must be defined.
    pub fn get(&self, name: &str) -> (address: u32)
        requires
            self.view().dom().contains(name@),
        ensures
            address == self.view()[name@],
    {
        self.labels.get(&chars_of(name))
    }
}

} // verus!
