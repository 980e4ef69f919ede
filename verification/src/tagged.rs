//! Tagged words: a slab's address and a cell index in one machine word.
//!
//! A slab is aligned to 64 bytes, so the low six bits of its address are
//! zero. A tagged word keeps the cell index there and the address above.

use vstd::prelude::*;

verus! {

/// The low six bits of a word: where the cell index stands.
pub const IDX: usize = 63;

/// The bits above the low six: where the slab's address stands.
pub const IDX_MASK: usize = !IDX;

/// The lowest address that a slab has: the first aligned one above zero.
pub const FIRST_ADDR: usize = 64;

/// Whether `addr` can be a slab's address: its low six bits are zero.
pub open spec fn aligned(addr: usize) -> bool {
    addr & IDX == 0
}

/// The tagged word for cell `idx` of the slab at `addr`.
pub open spec fn tag(addr: usize, idx: usize) -> usize {
    addr | idx
}

/// The slab address that a tagged word carries.
pub open spec fn tag_addr(raw: usize) -> usize {
    raw & IDX_MASK
}

/// The cell index that a tagged word carries.
pub open spec fn tag_idx(raw: usize) -> usize {
    raw & IDX
}

proof fn lemma_tag_bits(addr: usize, idx: usize)
    by (bit_vector)
    ensures
        addr & 63 == 0 && idx <= 63 ==> (addr | idx) & !63usize == addr && (addr | idx) & 63 == idx
            && addr | idx == addr + idx,
        (addr & !63usize) & 63 == 0,
        addr & 63 <= 63,
        (addr & !63usize) | (addr & 63) == addr,
        (addr & 63 == 0) == (addr % 64 == 0),
        addr & 63 == addr % 64,
        addr & !63usize == (addr / 64) * 64,
{
}

/// Packing and then unpacking gives back the address and the index.
pub proof fn lemma_tag_round_trip(addr: usize, idx: usize)
    requires
        aligned(addr),
        idx <= IDX,
    ensures
        tag_addr(tag(addr, idx)) == addr,
        tag_idx(tag(addr, idx)) == idx,
        tag(addr, idx) == addr + idx,
{
    lemma_tag_bits(addr, idx);
}

/// Every word unpacks to an aligned address and an index below 64, and packs
/// back to itself.
pub proof fn lemma_tag_parts(raw: usize)
    ensures
        aligned(tag_addr(raw)),
        tag_idx(raw) <= IDX,
        tag(tag_addr(raw), tag_idx(raw)) == raw,
        tag_idx(raw) == raw % 64,
        tag_addr(raw) == (raw / 64) * 64,
{
    lemma_tag_bits(raw, 0);
}

/// An address is aligned exactly when it is a multiple of 64.
pub proof fn lemma_aligned(addr: usize)
    ensures
        aligned(addr) <==> addr % 64 == 0,
{
    lemma_tag_bits(addr, 0);
}

/// Packs a slab address and a cell index into one word. For a multiple of 64
/// and an index below 64 that is their sum.
pub fn pack(addr: usize, idx: usize) -> (raw: usize)
    ensures
        raw == tag(addr, idx),
        addr % 64 == 0 && idx < 64 ==> raw == addr + idx,
{
    proof {
        lemma_tag_bits(addr, idx);
    }
    addr | idx
}

/// The slab address in a tagged word: the word rounded down to a multiple of
/// 64.
pub fn slab_addr(raw: usize) -> (addr: usize)
    ensures
        addr == tag_addr(raw),
        addr == raw - raw % 64,
        aligned(addr),
{
    proof {
        lemma_tag_parts(raw);
    }
    raw & IDX_MASK
}

/// The cell index in a tagged word: the word modulo 64.
pub fn cell_idx(raw: usize) -> (idx: usize)
    ensures
        idx == tag_idx(raw),
        idx == raw % 64,
        idx <= IDX,
{
    proof {
        lemma_tag_parts(raw);
    }
    raw & IDX
}

} // verus!
