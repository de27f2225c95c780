use vstd::prelude::*;

verus! {

/// The little-endian value of the four bytes of `mem` that start at `a`.
pub open spec fn load_u32(mem: Seq<u8>, a: int) -> u32 {
    (mem[a] as u32) | ((mem[a + 1] as u32) << 8u32) | ((mem[a + 2] as u32) << 16u32) | ((mem[a
        + 3] as u32) << 24u32)
}

/// Byte `k` (0 is the least significant) of `v`.
pub open spec fn byte_of(v: u32, k: int) -> u8 {
    ((v >> (8 * k) as u32) & 0xffu32) as u8
}

/// `mem` with the four bytes of `v` written little-endian at `a`.
pub open spec fn store_u32(mem: Seq<u8>, a: int, v: u32) -> Seq<u8> {
    mem.update(a, byte_of(v, 0)).update(a + 1, byte_of(v, 1)).update(a + 2, byte_of(v, 2)).update(
        a + 3,
        byte_of(v, 3),
    )
}

/// Four bytes starting at `a` lie inside `mem`, and `a + 3` is still a `u32`.
pub open spec fn word_in_bounds(mem: Seq<u8>, a: int) -> bool {
    0 <= a && a + 4 <= mem.len() && a + 3 <= u32::MAX
}

/// Reading back a word that was just stored gives the stored value.
pub proof fn lemma_load_store_same(mem: Seq<u8>, a: int, v: u32)
    requires
        0 <= a,
        a + 4 <= mem.len(),
    ensures
        load_u32(store_u32(mem, a, v), a) == v,
{
    let s = store_u32(mem, a, v);
    assert(s[a] == byte_of(v, 0));
    assert(s[a + 1] == byte_of(v, 1));
    assert(s[a + 2] == byte_of(v, 2));
    assert(s[a + 3] == byte_of(v, 3));
    let b0 = byte_of(v, 0);
    let b1 = byte_of(v, 1);
    let b2 = byte_of(v, 2);
    let b3 = byte_of(v, 3);
    assert(b0 == ((v >> 0u32) & 0xffu32) as u8);
    assert(b1 == ((v >> 8u32) & 0xffu32) as u8);
    assert(b2 == ((v >> 16u32) & 0xffu32) as u8);
    assert(b3 == ((v >> 24u32) & 0xffu32) as u8);
    assert(((((v >> 0u32) & 0xffu32) as u8) as u32) | (((((v >> 8u32) & 0xffu32) as u8) as u32)
        << 8u32) | (((((v >> 16u32) & 0xffu32) as u8) as u32) << 16u32) | (((((v >> 24u32)
        & 0xffu32) as u8) as u32) << 24u32) == v) by (bit_vector);
}

/// A stored word leaves every byte outside its four bytes unchanged.
pub proof fn lemma_store_elsewhere(mem: Seq<u8>, a: int, v: u32, i: int)
    requires
        0 <= a,
        a + 4 <= mem.len(),
        0 <= i < mem.len(),
        i < a || a + 4 <= i,
    ensures
        store_u32(mem, a, v)[i] == mem[i],
        store_u32(mem, a, v).len() == mem.len(),
{
}

/// A stored word leaves every word that does not overlap it unchanged.
pub proof fn lemma_load_store_other(mem: Seq<u8>, a: int, v: u32, b: int)
    requires
        0 <= a,
        a + 4 <= mem.len(),
        0 <= b,
        b + 4 <= mem.len(),
        a + 4 <= b || b + 4 <= a,
    ensures
        load_u32(store_u32(mem, a, v), b) == load_u32(mem, b),
{
    let s = store_u32(mem, a, v);
    assert(s[b] == mem[b]);
    assert(s[b + 1] == mem[b + 1]);
    assert(s[b + 2] == mem[b + 2]);
    assert(s[b + 3] == mem[b + 3]);
}

/// Storing the word that is already there changes nothing.
pub proof fn lemma_store_load_identity(mem: Seq<u8>, a: int)
    requires
        0 <= a,
        a + 4 <= mem.len(),
    ensures
        store_u32(mem, a, load_u32(mem, a)) == mem,
{
    let v = load_u32(mem, a);
    let b0 = mem[a];
    let b1 = mem[a + 1];
    let b2 = mem[a + 2];
    let b3 = mem[a + 3];
    assert(v == (b0 as u32) | ((b1 as u32) << 8u32) | ((b2 as u32) << 16u32) | ((b3 as u32)
        << 24u32));
    assert(forall|x: u32|
        x == (b0 as u32) | ((b1 as u32) << 8u32) | ((b2 as u32) << 16u32) | ((b3 as u32) << 24u32)
            ==> ((x >> 0u32) & 0xffu32) as u8 == b0 && ((x >> 8u32) & 0xffu32) as u8 == b1 && ((x
            >> 16u32) & 0xffu32) as u8 == b2 && ((x >> 24u32) & 0xffu32) as u8 == b3)
        by (bit_vector);
    assert(store_u32(mem, a, v) =~= mem);
}

/// Byte-addressed main memory.
pub struct Memory {
    pub data: Vec<u8>,
}

impl Memory {
    /// A memory of `size` bytes, all zero.
    pub fn new(size: usize) -> (m: Memory)
        ensures
            m.data@ == Seq::new(size as nat, |i: int| 0u8),
    {
        let m = Memory { data: vec![0u8; size] };
        assert(m.data@ =~= Seq::new(size as nat, |i: int| 0u8));
        m
    }

    /// The byte at `address`.
    pub fn read_u8(&self, address: u32) -> (value: u8)
        requires
            address < self.data@.len(),
        ensures
            value == self.data@[address as int],
    {
        self.data[address as usize]
    }

    /// Overwrites the byte at `address`.
    pub fn write_u8(&mut self, address: u32, value: u8)
        requires
            address < old(self).data@.len(),
        ensures
            final(self).data@ == old(self).data@.update(address as int, value),
    {
        self.data.set(address as usize, value);
    }

    /// The little-endian word at `address`.
    pub fn read_u32(&self, address: u32) -> (value: u32)
        requires
            word_in_bounds(self.data@, address as int),
        ensures
            value == load_u32(self.data@, address as int),
    {
        let b0 = self.read_u8(address) as u32;
        let b1 = self.read_u8(address + 1) as u32;
        let b2 = self.read_u8(address + 2) as u32;
        let b3 = self.read_u8(address + 3) as u32;
        b0 | (b1 << 8u32) | (b2 << 16u32) | (b3 << 24u32)
    }

    /// Writes `value` little-endian at `address`.
    pub fn write_u32(&mut self, address: u32, value: u32)
        requires
            word_in_bounds(old(self).data@, address as int),
        ensures
            final(self).data@ == store_u32(old(self).data@, address as int, value),
    {
        proof {
            assert((value >> 0u32) == value) by (bit_vector);
        }
        self.write_u8(address, (value & 0xFFu32) as u8);
        self.write_u8(address + 1, ((value >> 8u32) & 0xFFu32) as u8);
        self.write_u8(address + 2, ((value >> 16u32) & 0xFFu32) as u8);
        self.write_u8(address + 3, ((value >> 24u32) & 0xFFu32) as u8);
    }
}

} // verus!
