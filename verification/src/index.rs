//! The records of an index over an append-only log.

use vstd::prelude::*;
use crate::helpers::{
    decode_u32, decode_u64, encode_u32, encode_u64, lemma_u32_round_trip, lemma_u64_round_trip,
    u32_bytes, u32_from, u64_bytes, u64_from, ByteOrder,
};

verus! {

/// Number of bytes that a slot takes in a map.
pub const SLOT_SIZE: usize = 16;

/// A slot representing a value: where its bytes lie in a log, how many
/// they are, and a discriminant by which a search tells it from most
/// others without reading the log.
#[derive(Clone, Copy, Debug, PartialEq, Eq, Structural)]
pub struct TreeSlot {
    pub ofs: u64,
    pub len: u32,
    pub discriminant: u32,
}

/// The bytes that stand for `slot` in a map.
pub open spec fn slot_bytes(order: ByteOrder, slot: TreeSlot) -> Seq<u8> {
    u64_bytes(order, slot.ofs) + u32_bytes(order, slot.len) + u32_bytes(order, slot.discriminant)
}

/// The slot that 16 bytes of a map stand for.
pub open spec fn slot_from(order: ByteOrder, bytes: Seq<u8>) -> TreeSlot {
    TreeSlot {
        ofs: u64_from(order, bytes.subrange(0, 8)),
        len: u32_from(order, bytes.subrange(8, 12)),
        discriminant: u32_from(order, bytes.subrange(12, 16)),
    }
}

/// A slot that is written to a map is read back as it was.
pub proof fn lemma_slot_round_trip(order: ByteOrder, slot: TreeSlot)
    ensures
        slot_bytes(order, slot).len() == SLOT_SIZE,
        slot_from(order, slot_bytes(order, slot)) == slot,
{
    lemma_u64_round_trip(order, slot.ofs);
    lemma_u32_round_trip(order, slot.len);
    lemma_u32_round_trip(order, slot.discriminant);
    let bytes = slot_bytes(order, slot);
    assert(bytes.subrange(0, 8) =~= u64_bytes(order, slot.ofs));
    assert(bytes.subrange(8, 12) =~= u32_bytes(order, slot.len));
    assert(bytes.subrange(12, 16) =~= u32_bytes(order, slot.discriminant));
}

impl TreeSlot {
    /// A slot for `len` bytes at `ofs`, told from others by `discriminant`.
    pub fn new(ofs: u64, len: u32, discriminant: u32) -> (r: Self)
        ensures
            r == (TreeSlot { ofs, len, discriminant }),
    {
        TreeSlot { ofs, len, discriminant }
    }

    /// The 16 bytes that stand for the slot in a map.
    pub fn to_bytes(&self, order: ByteOrder) -> (r: Vec<u8>)
        ensures
            r@ == slot_bytes(order, *self),
            r@.len() == SLOT_SIZE,
    {
        let mut bytes = encode_u64(order, self.ofs);
        let mut len = encode_u32(order, self.len);
        let mut discriminant = encode_u32(order, self.discriminant);
        bytes.append(&mut len);
        bytes.append(&mut discriminant);
        bytes
    }

    /// The slot that 16 bytes of a map stand for.
    pub fn from_bytes(order: ByteOrder, bytes: &[u8]) -> (r: Self)
        requires
            bytes@.len() == SLOT_SIZE,
        ensures
            r == slot_from(order, bytes@),
    {
        TreeSlot {
            ofs: decode_u64(order, vstd::slice::slice_subrange(bytes, 0, 8)),
            len: decode_u32(order, vstd::slice::slice_subrange(bytes, 8, 12)),
            discriminant: decode_u32(order, vstd::slice::slice_subrange(bytes, 12, 16)),
        }
    }
}

} // verus!
