use vstd::prelude::*;
use crate::memory::{Memory, byte_of, load_u32, store_u32};

verus! {

/// `mem` with `bytes` written from `a` on; bytes that would fall past the end are dropped.
pub open spec fn splice(mem: Seq<u8>, a: int, bytes: Seq<u8>) -> Seq<u8> {
    Seq::new(mem.len(), |i: int| if a <= i < a + bytes.len() { bytes[i - a] } else { mem[i] })
}

/// The four bytes of `v`, least significant first.
pub open spec fn le_bytes(v: u32) -> Seq<u8> {
    seq![byte_of(v, 0), byte_of(v, 1), byte_of(v, 2), byte_of(v, 3)]
}

/// `n` bytes from `pos` fit in memory, and `pos + n` is still a `u32`.
pub open spec fn room_for(mem: Seq<u8>, pos: u32, n: int) -> bool {
    pos + n <= mem.len() && pos + n <= u32::MAX
}

/// An opcode alone.
pub open spec fn op_only(op: u8) -> Seq<u8> {
    seq![op]
}

/// An opcode and a register byte.
pub open spec fn op_reg(op: u8, reg: u8) -> Seq<u8> {
    seq![op, reg]
}

/// An opcode and two register bytes.
pub open spec fn op_reg_reg(op: u8, dst: u8, src: u8) -> Seq<u8> {
    seq![op, dst, src]
}

/// An opcode and a little-endian word.
pub open spec fn op_word(op: u8, w: u32) -> Seq<u8> {
    seq![op] + le_bytes(w)
}

/// An opcode, a register byte and a little-endian word.
pub open spec fn op_reg_word(op: u8, reg: u8, w: u32) -> Seq<u8> {
    seq![op, reg] + le_bytes(w)
}

/// Storing a word is writing its little-endian bytes.
pub proof fn lemma_store_is_splice(mem: Seq<u8>, a: int, v: u32)
    requires
        0 <= a,
        a + 4 <= mem.len(),
    ensures
        store_u32(mem, a, v) == splice(mem, a, le_bytes(v)),
{
    assert(store_u32(mem, a, v) =~= splice(mem, a, le_bytes(v)));
}

/// Writing `x` and then `y` right after it is writing `x + y`.
pub proof fn lemma_splice_concat(mem: Seq<u8>, a: int, x: Seq<u8>, y: Seq<u8>)
    requires
        0 <= a,
    ensures
        splice(splice(mem, a, x), a + x.len(), y) == splice(mem, a, x + y),
{
    assert(splice(splice(mem, a, x), a + x.len(), y) =~= splice(mem, a, x + y));
}

/// The bytes just written are there to be read.
pub proof fn lemma_splice_read(mem: Seq<u8>, a: int, bytes: Seq<u8>, k: int)
    requires
        0 <= a,
        a + bytes.len() <= mem.len(),
        0 <= k < bytes.len(),
    ensures
        splice(mem, a, bytes)[a + k] == bytes[k],
{
}

/// A word written as little-endian bytes reads back as itself.
pub proof fn lemma_load_le_bytes(mem: Seq<u8>, a: int, v: u32)
    requires
        0 <= a,
        a + 4 <= mem.len(),
    ensures
        load_u32(splice(mem, a, le_bytes(v)), a) == v,
{
    lemma_store_is_splice(mem, a, v);
    crate::memory::lemma_load_store_same(mem, a, v);
}

/// Writes one byte at `*pos` and moves `*pos` past it.
pub fn emit_u8(memory: &mut Memory, pos: &mut u32, b: u8)
    requires
        room_for(old(memory).data@, *old(pos), 1),
    ensures
        final(memory).data@ == splice(old(memory).data@, *old(pos) as int, seq![b]),
        *final(pos) == *old(pos) + 1,
{
    memory.write_u8(*pos, b);
    assert(memory.data@ =~= splice(old(memory).data@, *old(pos) as int, seq![b]));
    *pos += 1;
}

/// Writes a little-endian word at `*pos` and moves `*pos` past it.
pub fn emit_u32(memory: &mut Memory, pos: &mut u32, w: u32)
    requires
        room_for(old(memory).data@, *old(pos), 4),
    ensures
        final(memory).data@ == splice(old(memory).data@, *old(pos) as int, le_bytes(w)),
        *final(pos) == *old(pos) + 4,
{
    memory.write_u32(*pos, w);
    proof {
        lemma_store_is_splice(old(memory).data@, *old(pos) as int, w);
    }
    *pos += 4;
}

/// Writes an opcode followed by a register byte.
pub fn emit_op_reg(memory: &mut Memory, pos: &mut u32, op: u8, reg: u8)
    requires
        room_for(old(memory).data@, *old(pos), 2),
    ensures
        final(memory).data@ == splice(old(memory).data@, *old(pos) as int, op_reg(op, reg)),
        *final(pos) == *old(pos) + 2,
{
    emit_u8(memory, pos, op);
    emit_u8(memory, pos, reg);
    proof {
        lemma_splice_concat(old(memory).data@, *old(pos) as int, seq![op], seq![reg]);
        assert(seq![op] + seq![reg] =~= op_reg(op, reg));
    }
}

/// Writes an opcode followed by two register bytes.
pub fn emit_op_reg_reg(memory: &mut Memory, pos: &mut u32, op: u8, dst: u8, src: u8)
    requires
        room_for(old(memory).data@, *old(pos), 3),
    ensures
        final(memory).data@ == splice(
            old(memory).data@,
            *old(pos) as int,
            op_reg_reg(op, dst, src),
        ),
        *final(pos) == *old(pos) + 3,
{
    emit_op_reg(memory, pos, op, dst);
    emit_u8(memory, pos, src);
    proof {
        lemma_splice_concat(old(memory).data@, *old(pos) as int, op_reg(op, dst), seq![src]);
        assert(op_reg(op, dst) + seq![src] =~= op_reg_reg(op, dst, src));
    }
}

/// Writes an opcode followed by a little-endian word.
pub fn emit_op_word(memory: &mut Memory, pos: &mut u32, op: u8, w: u32)
    requires
        room_for(old(memory).data@, *old(pos), 5),
    ensures
        final(memory).data@ == splice(old(memory).data@, *old(pos) as int, op_word(op, w)),
        *final(pos) == *old(pos) + 5,
{
    emit_u8(memory, pos, op);
    emit_u32(memory, pos, w);
    proof {
        lemma_splice_concat(old(memory).data@, *old(pos) as int, seq![op], le_bytes(w));
    }
}

/// Writes an opcode, a register byte and a little-endian word.
pub fn emit_op_reg_word(memory: &mut Memory, pos: &mut u32, op: u8, reg: u8, w: u32)
    requires
        room_for(old(memory).data@, *old(pos), 6),
    ensures
        final(memory).data@ == splice(
            old(memory).data@,
            *old(pos) as int,
            op_reg_word(op, reg, w),
        ),
        *final(pos) == *old(pos) + 6,
{
    emit_op_reg(memory, pos, op, reg);
    emit_u32(memory, pos, w);
    proof {
        lemma_splice_concat(old(memory).data@, *old(pos) as int, op_reg(op, reg), le_bytes(w));
    }
}

/// Writing over memory the bytes it already holds changes nothing.
pub proof fn lemma_bytes_in_place(mem: Seq<u8>, a: int, bytes: Seq<u8>)
    requires
        0 <= a,
        a + bytes.len() <= mem.len(),
        forall|i: int| 0 <= i < bytes.len() ==> mem[a + i] == #[trigger] bytes[i],
    ensures
        splice(mem, a, bytes) == mem,
{
    assert(splice(mem, a, bytes) =~= mem);
}

/// Bytes followed by the word memory already holds after them change nothing when written
/// over themselves.
pub proof fn lemma_code_in_place(mem: Seq<u8>, a: int, prefix: Seq<u8>, w: u32)
    requires
        0 <= a,
        a + prefix.len() + 4 <= mem.len(),
        forall|i: int| 0 <= i < prefix.len() ==> mem[a + i] == #[trigger] prefix[i],
        crate::memory::load_u32(mem, a + prefix.len()) == w,
    ensures
        splice(mem, a, prefix + le_bytes(w)) == mem,
{
    lemma_splice_concat(mem, a, prefix, le_bytes(w));
    lemma_bytes_in_place(mem, a, prefix);
    lemma_store_is_splice(mem, a + prefix.len(), w);
    crate::memory::lemma_store_load_identity(mem, a + prefix.len());
}

} // verus!
