//! FNV-1a 64, used to fingerprint a world state.
//!
//! Stable across machines, processes and compiler versions, and changes when any byte
//! changes.

use vstd::prelude::*;

verus! {

pub const OFFSET_BASIS: u64 = 0xcbf2_9ce4_8422_2325;

pub const PRIME: u64 = 0x0000_0100_0000_01b3;

/// One FNV-1a round.
pub open spec fn fnv_step(state: u64, byte: u8) -> u64 {
    (state ^ (byte as u64)).wrapping_mul(PRIME)
}

/// FNV-1a over a byte sequence, starting from `state`.
pub open spec fn fnv_bytes(state: u64, bytes: Seq<u8>) -> u64
    decreases bytes.len(),
{
    if bytes.len() == 0 {
        state
    } else {
        fnv_step(fnv_bytes(state, bytes.drop_last()), bytes.last())
    }
}

/// The little-endian bytes of a 32-bit value.
pub open spec fn le_bytes_u32(value: u32) -> Seq<u8> {
    seq![value as u8, (value >> 8u32) as u8, (value >> 16u32) as u8, (value >> 24u32) as u8]
}

/// The little-endian bytes of a 64-bit value.
pub open spec fn le_bytes_u64(value: u64) -> Seq<u8> {
    seq![
        value as u8,
        (value >> 8u64) as u8,
        (value >> 16u64) as u8,
        (value >> 24u64) as u8,
        (value >> 32u64) as u8,
        (value >> 40u64) as u8,
        (value >> 48u64) as u8,
        (value >> 56u64) as u8,
    ]
}

/// Hashing two pieces in turn is hashing them joined.
pub proof fn lemma_fnv_append(state: u64, a: Seq<u8>, b: Seq<u8>)
    ensures
        fnv_bytes(state, a + b) == fnv_bytes(fnv_bytes(state, a), b),
    decreases b.len(),
{
    if b.len() == 0 {
        assert(a + b =~= a);
    } else {
        lemma_fnv_append(state, a, b.drop_last());
        assert((a + b).drop_last() =~= a + b.drop_last());
    }
}

#[derive(Clone, Copy, Debug)]
pub struct Hasher(u64);

impl Default for Hasher {
    fn default() -> (r: Hasher)
        ensures
            r@ == OFFSET_BASIS,
    {
        Hasher(OFFSET_BASIS)
    }
}

impl View for Hasher {
    type V = u64;

    closed spec fn view(&self) -> u64 {
        self.0
    }
}

impl Hasher {
    pub fn new() -> (r: Hasher)
        ensures
            r@ == OFFSET_BASIS,
    {
        Hasher(OFFSET_BASIS)
    }

    pub fn write_u8(&mut self, value: u8)
        ensures
            final(self)@ == fnv_step(old(self)@, value),
    {
        self.0 = (self.0 ^ (value as u64)).wrapping_mul(PRIME);
    }

    pub fn write_bytes(&mut self, bytes: &[u8])
        ensures
            final(self)@ == fnv_bytes(old(self)@, bytes@),
    {
        let ghost start: u64 = self@;
        let mut index: usize = 0;
        while index < bytes.len()
            invariant
                0 <= index <= bytes@.len(),
                self@ == fnv_bytes(start, bytes@.subrange(0, index as int)),
            decreases bytes@.len() - index,
        {
            proof {
                assert(bytes@.subrange(0, index + 1).drop_last() =~= bytes@.subrange(0, index as int));
            }
            self.write_u8(bytes[index]);
            index = index + 1;
        }
        proof {
            assert(bytes@.subrange(0, bytes@.len() as int) =~= bytes@);
        }
    }

    /// Little-endian, so the hash does not depend on host byte order.
    pub fn write_u32(&mut self, value: u32)
        ensures
            final(self)@ == fnv_bytes(old(self)@, le_bytes_u32(value)),
    {
        let ghost start: u64 = self@;
        self.write_u8(value as u8);
        self.write_u8((value >> 8u32) as u8);
        self.write_u8((value >> 16u32) as u8);
        self.write_u8((value >> 24u32) as u8);
        proof {
            reveal_with_fuel(fnv_bytes, 5);
            let s = le_bytes_u32(value);
            assert(s.drop_last().drop_last().drop_last().drop_last() =~= Seq::<u8>::empty());
            assert(s.drop_last().drop_last().drop_last() =~= seq![value as u8]);
            assert(s.drop_last().drop_last() =~= seq![value as u8, (value >> 8u32) as u8]);
            assert(s.drop_last() =~= seq![value as u8, (value >> 8u32) as u8, (value >> 16u32) as u8]);
        }
    }

    /// Little-endian, so the hash does not depend on host byte order.
    pub fn write_u64(&mut self, value: u64)
        ensures
            final(self)@ == fnv_bytes(old(self)@, le_bytes_u64(value)),
    {
        let mut bytes: Vec<u8> = Vec::new();
        bytes.push(value as u8);
        bytes.push((value >> 8u64) as u8);
        bytes.push((value >> 16u64) as u8);
        bytes.push((value >> 24u64) as u8);
        bytes.push((value >> 32u64) as u8);
        bytes.push((value >> 40u64) as u8);
        bytes.push((value >> 48u64) as u8);
        bytes.push((value >> 56u64) as u8);
        proof {
            assert(bytes@ =~= le_bytes_u64(value));
        }
        self.write_bytes(bytes.as_slice());
    }

    /// A temperature, as its two little-endian bytes.
    pub fn write_i16(&mut self, value: i16)
        ensures
            final(self)@ == fnv_step(fnv_step(old(self)@, value as u8), ((value as u16) >> 8u16) as u8),
    {
        self.write_u8(value as u8);
        self.write_u8(((value as u16) >> 8u16) as u8);
    }

    pub fn finish(self) -> (r: u64)
        ensures
            r == self@,
    {
        self.0
    }
}

} // verus!
