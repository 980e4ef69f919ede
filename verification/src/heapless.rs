//! A slab of sixty-four cells held by value.
//!
//! A [`Fixed64`] is never sealed and never freed: its cells are let go by
//! clearing their bits. A handle is a token for one cell. It does not let go
//! of the cell when it goes out of scope; it is given back to the slab with
//! `release` or `take`, and a handle that is dropped leaves its cell held.

use vstd::prelude::*;
use core::marker::PhantomData;
use crate::bits::{ALL_ONES, CELLS, cell_bit, first_clear, held, set_lowest_clear};
use crate::bits::{lemma_bit, lemma_held_cell};
use crate::slab::{SlabState, lemma_acquire, lemma_fresh};
use crate::tagged::{FIRST_ADDR, aligned, cell_idx, lemma_tag_parts, lemma_tag_round_trip, pack,
    slab_addr, tag, tag_addr, tag_idx};

verus! {

/// A slab with 64 cells, stored in place.
///
/// The address that it counts as lying at is the address in the tagged words
/// of its handles: [`FIRST_ADDR`], unless another is given.
pub struct Fixed64<T> {
    base: usize,
    occupancy: u64,
    slots: Vec<Option<T>>,
}

/// The right to initialise one cell of a [`Fixed64`]: the cell is held, and
/// its storage is raw.
pub struct UninitSlot<T> {
    slab: usize,
    idx: usize,
    cell: PhantomData<T>,
}

/// The right to one cell of a [`Fixed64`] that stores a value.
pub struct Slot<T> {
    slab: usize,
    idx: usize,
    cell: PhantomData<T>,
}

impl<T> View for Fixed64<T> {
    type V = SlabState<T>;

    closed spec fn view(&self) -> SlabState<T> {
        SlabState {
            addr: self.base,
            word: self.occupancy,
            cells: self.slots@,
            sealed: false,
            handles: held(self.occupancy),
        }
    }
}

impl<T> Default for Fixed64<T> {
    fn default() -> (slab: Self)
        ensures
            slab.wf(),
            slab@ == SlabState::<T>::fresh(FIRST_ADDR),
    {
        Self::new()
    }
}

impl<T> Fixed64<T> {
    /// The slab is well formed and live. A `Fixed64` is never sealed.
    pub open spec fn wf(&self) -> bool {
        self@.wf() && !self@.sealed
    }

    /// A new slab that counts as lying at `addr`.
    pub fn at(addr: usize) -> (slab: Self)
        requires
            aligned(addr),
        ensures
            slab.wf(),
            slab@ == SlabState::<T>::fresh(addr),
    {
        let mut slots: Vec<Option<T>> = Vec::new();
        let mut i: usize = 0;
        while i < 64
            invariant
                i <= 64,
                slots.len() == i,
                forall|j: int| 0 <= j < i ==> slots[j] is None,
            decreases 64 - i,
        {
            slots.push(None);
            i += 1;
        }
        let slab = Fixed64 { base: addr, occupancy: 0, slots };
        proof {
            lemma_fresh::<T>(addr);
            assert(slab@.cells =~= SlabState::<T>::fresh(addr).cells);
        }
        slab
    }

    /// Create with a fixed capacity of 64.
    pub fn new() -> (slab: Self)
        ensures
            slab.wf(),
            slab@ == SlabState::<T>::fresh(FIRST_ADDR),
    {
        proof {
            lemma_tag_parts(FIRST_ADDR);
        }
        Self::at(FIRST_ADDR)
    }

    /// Get an unoccupied [`UninitSlot`] if available: the one for the lowest
    /// free cell. `None` exactly when every cell is held.
    pub fn get_uninit_slot(&mut self) -> (slot: Option<UninitSlot<T>>)
        requires
            old(self).wf(),
        ensures
            final(self).wf(),
            final(self)@ == old(self)@.acquire(),
            slot is None <==> old(self)@.word == ALL_ONES,
            slot is None <==> old(self)@.handles.len() == 64,
            slot matches Some(s) ==> s.addr() == old(self)@.addr && s.idx() == first_clear(
                old(self)@.word,
            ) && final(self)@.reserved(s.addr(), s.idx() as nat),
            slot matches Some(s) ==> !old(self)@.handles.contains(s.idx() as nat) && forall|j: nat|
                j < s.idx() ==> old(self)@.handles.contains(j),
            slot matches Some(s) ==> s.idx() <= old(self)@.handles.len(),
    {
        proof {
            lemma_acquire(self@);
        }
        match set_lowest_clear(&mut self.occupancy) {
            Some(idx) => Some(UninitSlot { slab: self.base, idx, cell: PhantomData }),
            None => None,
        }
    }

    /// The occupancy word.
    pub fn occupancy(&self) -> (word: u64)
        ensures
            word == self@.word,
    {
        self.occupancy
    }

    /// Whether `slot` stands for a cell of this slab that is held and raw.
    pub fn reserves(&self, slot: &UninitSlot<T>) -> (yes: bool)
        requires
            self.wf(),
        ensures
            yes == self@.reserved(slot.addr(), slot.idx() as nat),
    {
        if slot.slab == self.base && slot.idx < CELLS {
            proof {
                lemma_bit(slot.idx as nat);
            }
            self.occupancy & cell_bit(slot.idx) != 0 && self.slots[slot.idx].is_none()
        } else {
            false
        }
    }

    /// Whether `slot` stands for a cell of this slab that holds a value.
    pub fn holds(&self, slot: &Slot<T>) -> (yes: bool)
        requires
            self.wf(),
        ensures
            yes == self@.filled(slot.addr(), slot.idx() as nat),
    {
        slot.slab == self.base && slot.idx < CELLS && self.slots[slot.idx].is_some()
    }
}

impl<T> UninitSlot<T> {
    /// The address of the slab that the cell belongs to.
    pub closed spec fn addr(&self) -> usize {
        self.slab
    }

    /// The index of the cell.
    pub closed spec fn idx(&self) -> usize {
        self.idx
    }

    /// The index of the cell.
    pub fn index(&self) -> (idx: usize)
        ensures
            idx == self.idx(),
    {
        self.idx
    }

    /// Initialize slot with value.
    pub fn insert(self, slab: &mut Fixed64<T>, value: T) -> (slot: Slot<T>)
        requires
            old(slab).wf(),
            old(slab)@.reserved(self.addr(), self.idx() as nat),
        ensures
            final(slab).wf(),
            final(slab)@ == old(slab)@.put(self.idx() as nat, value),
            final(slab)@.filled(slot.addr(), slot.idx() as nat),
            slot.addr() == self.addr(),
            slot.idx() == self.idx(),
    {
        slab.slots[self.idx] = Some(value);
        Slot { slab: self.slab, idx: self.idx, cell: PhantomData }
    }

    /// Gives the cell back without a value having been written.
    pub fn release(self, slab: &mut Fixed64<T>)
        requires
            old(slab).wf(),
            old(slab)@.reserved(self.addr(), self.idx() as nat),
        ensures
            final(slab).wf(),
            final(slab)@ == old(slab)@.release(self.idx() as nat),
    {
        proof {
            lemma_held_cell(slab.occupancy, self.idx as nat);
        }
        slab.occupancy = slab.occupancy & !cell_bit(self.idx);
    }
}

impl<T> Slot<T> {
    /// The address of the slab that the cell belongs to.
    pub closed spec fn addr(&self) -> usize {
        self.slab
    }

    /// The index of the cell.
    pub closed spec fn idx(&self) -> usize {
        self.idx
    }

    /// The index of the cell.
    pub fn index(&self) -> (idx: usize)
        ensures
            idx == self.idx(),
    {
        self.idx
    }

    /// Moves the value out and gives the cell back.
    pub fn take(self, slab: &mut Fixed64<T>) -> (value: T)
        requires
            old(slab).wf(),
            old(slab)@.filled(self.addr(), self.idx() as nat),
        ensures
            final(slab).wf(),
            old(slab)@.cells[self.idx() as int] == Some(value),
            final(slab)@ == old(slab)@.vacate(self.idx() as nat).release(self.idx() as nat),
    {
        proof {
            lemma_held_cell(slab.occupancy, self.idx as nat);
        }
        let value = slab.slots[self.idx].take().unwrap();
        slab.occupancy = slab.occupancy & !cell_bit(self.idx);
        value
    }

    /// Drops the value in place and gives the cell back.
    pub fn release(self, slab: &mut Fixed64<T>)
        requires
            old(slab).wf(),
            old(slab)@.filled(self.addr(), self.idx() as nat),
        ensures
            final(slab).wf(),
            final(slab)@ == old(slab)@.vacate(self.idx() as nat).release(self.idx() as nat),
    {
        proof {
            lemma_held_cell(slab.occupancy, self.idx as nat);
        }
        slab.slots[self.idx] = None;
        slab.occupancy = slab.occupancy & !cell_bit(self.idx);
    }

    /// The value in the cell.
    pub fn get<'a>(&self, slab: &'a Fixed64<T>) -> (value: &'a T)
        requires
            slab.wf(),
            slab@.filled(self.addr(), self.idx() as nat),
        ensures
            slab@.cells[self.idx() as int] == Some(*value),
    {
        slab.slots[self.idx].as_ref().unwrap()
    }

    /// The value in the cell, to be changed in place.
    pub fn get_mut<'a>(&self, slab: &'a mut Fixed64<T>) -> (value: &'a mut T)
        requires
            old(slab).wf(),
            old(slab)@.filled(self.addr(), self.idx() as nat),
        ensures
            old(slab)@.cells[self.idx() as int] == Some(*value),
            final(slab)@ == old(slab)@.put(self.idx() as nat, *final(value)),
            final(slab).wf(),
    {
        slab.slots[self.idx].as_mut().unwrap()
    }

    /// Reconstruct [`Slot`] from a tagged word: the cell index comes from the
    /// low six bits, the slab address from the bits above.
    pub fn from_raw(raw: usize) -> (slot: Self)
        ensures
            slot.addr() == tag_addr(raw),
            slot.idx() == tag_idx(raw),
    {
        Slot { slab: slab_addr(raw), idx: cell_idx(raw), cell: PhantomData }
    }

    /// Consumes [`Slot`], converting into a tagged word: the address of the
    /// slab with the cell index in the low bits. The cell stays held.
    pub fn into_raw(self) -> (raw: usize)
        ensures
            raw == tag(self.addr(), self.idx()),
    {
        pack(self.slab, self.idx)
    }
}

/// A handle that went into a tagged word and came back out of it is the
/// same handle: it stands for the same cell of the same slab, and so for the
/// same value.
pub proof fn lemma_raw_round_trip<T>(slab: Fixed64<T>, slot: Slot<T>, back: Slot<T>)
    requires
        slab.wf(),
        slab@.filled(slot.addr(), slot.idx() as nat),
        back.addr() == tag_addr(tag(slot.addr(), slot.idx())),
        back.idx() == tag_idx(tag(slot.addr(), slot.idx())),
    ensures
        back == slot,
        slab@.filled(back.addr(), back.idx() as nat),
        slab@.cells[back.idx() as int] == slab@.cells[slot.idx() as int],
{
    lemma_tag_round_trip(slot.addr(), slot.idx());
}

} // verus!
