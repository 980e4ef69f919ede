//! A slab of sixty-four cells on the heap, freed by whoever lets go last.
//!
//! The owner of a [`Boxed64`] and the handles of its cells may finish in any
//! order. When the owner is done it seals the slab. If no handle is out, the
//! heap part goes at once; otherwise it goes with the last handle. The
//! occupancy word alone carries this: sealing inverts it, a handle lets go by
//! flipping its bit, and whoever makes the word full frees the slab.
//!
//! A handle is a token for one cell. It does not let go of the cell when it
//! goes out of scope; it is given back to the slab with `release` or `take`,
//! and a handle that is dropped leaves its cell held. A [`Boxed64`] stays
//! behind when it is sealed, so that its handles can be given back to it.

use vstd::prelude::*;
use core::marker::PhantomData;
use vstd::std_specs::bits::u64_trailing_zeros;
use crate::bits::{ALL_ONES, CELLS, bit, cell_bit, fills, first_clear, held, is_set,
    set_lowest_clear};
use crate::bits::{lemma_bit, lemma_bitwise, lemma_fills, lemma_lowest_set, lemma_word_identities};
use crate::slab::{SlabState, lemma_acquire, lemma_fresh, lemma_held_not_freed, lemma_no_handles, lemma_seal,
    lemma_taken, lemma_toggle, lemma_toggle_cell, marked};
use crate::tagged::{FIRST_ADDR, aligned, cell_idx, lemma_tag_parts, lemma_tag_round_trip, pack,
    slab_addr, tag, tag_addr, tag_idx};

verus! {

/// The heap part of a slab: the occupancy word and the cells.
struct Inner<T> {
    occupancy: u64,
    slots: Vec<Option<T>>,
}

/// A slab with 64 cells on the heap. The heap part is not given up until the
/// slab is sealed and every handle has let go.
///
/// The address that it counts as lying at is the address in the tagged words
/// of its handles: [`FIRST_ADDR`], unless another is given.
pub struct Boxed64<T> {
    addr: usize,
    sealed: bool,
    inner: Option<Box<Inner<T>>>,
}

/// The right to initialise one cell of a [`Boxed64`]: the cell is held, and
/// its storage is raw.
pub struct UninitSlot<T> {
    slab: usize,
    idx: usize,
    cell: PhantomData<T>,
}

/// The right to one cell that stores a value, in a [`Boxed64`] or in a slab
/// of an arena.
pub struct Slot<T> {
    slab: usize,
    idx: usize,
    cell: PhantomData<T>,
}

impl<T> Inner<T> {
    /// The slab that this is the heap part of, given where it lies and
    /// whether it is sealed.
    spec fn state(self, addr: usize, sealed: bool) -> SlabState<T> {
        SlabState {
            addr,
            word: self.occupancy,
            cells: self.slots@,
            sealed,
            handles: marked(self.occupancy, sealed),
        }
    }

    /// The heap part of a new slab.
    fn new() -> (inner: Self)
        ensures
            forall|addr: usize| inner.state(addr, false) == SlabState::<T>::fresh(addr),
            forall|addr: usize| inner.state(addr, true) == SlabState::<T>::taken(addr),
    {
        let mut slots: Vec<Option<T>> = Vec::new();
        let mut i: usize = 0;
        while i < 64
            invariant
                i <= 64,
                slots.len() == i,
                forall|j: int| 0 <= j < i ==> slots[j] is None,
            decreases 64 - i,
        {
            slots.push(None);
            i += 1;
        }
        let inner = Inner { occupancy: 0, slots };
        proof {
            lemma_bit(0);
            lemma_word_identities(0);
            assert(inner.slots@ =~= Seq::new(64, |i: int| None::<T>));
            assert(marked(0, false) =~= Set::<nat>::empty());
            assert(marked(0, true) =~= Set::new(|i: nat| i < 64));
        }
        inner
    }

    /// Flips the bits of `mask` in the occupancy word and hands back the
    /// word as it was before.
    fn fetch_xor(&mut self, mask: u64) -> (before: u64)
        ensures
            before == old(self).occupancy,
            final(self).occupancy == before ^ mask,
            final(self).slots == old(self).slots,
    {
        let before: u64 = self.occupancy;
        self.occupancy = before ^ mask;
        before
    }

    /// Get an unoccupied [`UninitSlot`] if available, for the slab at `addr`
    /// that this is the heap part of: the one for the lowest free cell. `None`
    /// exactly when every cell is held.
    fn get_uninit_slot(&mut self, addr: usize) -> (slot: Option<UninitSlot<T>>)
        requires
            old(self).state(addr, false).wf(),
        ensures
            final(self).state(addr, false).wf(),
            final(self).state(addr, false) == old(self).state(addr, false).acquire(),
            slot is None <==> old(self).occupancy == ALL_ONES,
            slot matches Some(s) ==> s.addr() == addr && s.idx() == first_clear(
                old(self).occupancy,
            ) && final(self).state(addr, false).reserved(s.addr(), s.idx() as nat),
            slot matches Some(s) ==> !is_set(old(self).occupancy, s.idx() as nat) && forall|j: nat|
                j < s.idx() ==> is_set(old(self).occupancy, j),
    {
        match set_lowest_clear(&mut self.occupancy) {
            Some(idx) => Some(UninitSlot { slab: addr, idx, cell: PhantomData }),
            None => None,
        }
    }
}

impl<T> View for Boxed64<T> {
    type V = SlabState<T>;

    /// A freed slab is viewed with the full word it had when its memory went,
    /// and with no value in any cell.
    closed spec fn view(&self) -> SlabState<T> {
        match self.inner {
            Some(inner) => inner.state(self.addr, self.sealed),
            None => SlabState {
                addr: self.addr,
                word: ALL_ONES,
                cells: Seq::new(64, |i: int| None),
                sealed: self.sealed,
                handles: marked(ALL_ONES, self.sealed),
            },
        }
    }
}

impl<T> Default for Boxed64<T> {
    fn default() -> (slab: Self)
        ensures
            slab.wf(),
            slab@ == SlabState::<T>::fresh(FIRST_ADDR),
    {
        Self::new()
    }
}

impl<T> Boxed64<T> {
    /// The heap part is there.
    pub closed spec fn allocated(&self) -> bool {
        self.inner is Some
    }

    /// The slab is well formed, and its heap part is there exactly as long as
    /// the slab is not freed.
    pub open spec fn wf(&self) -> bool {
        &&& self@.wf()
        &&& self.allocated() <==> !self@.freed()
    }

    /// A new slab that counts as lying at `addr`.
    pub fn at(addr: usize) -> (slab: Self)
        requires
            aligned(addr),
        ensures
            slab.wf(),
            slab@ == SlabState::<T>::fresh(addr),
    {
        proof {
            lemma_fresh::<T>(addr);
        }
        Boxed64 { addr, sealed: false, inner: Some(Box::new(Inner::new())) }
    }

    /// Create with a fixed capacity of 64.
    pub fn new() -> (slab: Self)
        ensures
            slab.wf(),
            slab@ == SlabState::<T>::fresh(FIRST_ADDR),
    {
        proof {
            lemma_tag_parts(FIRST_ADDR);
        }
        Self::at(FIRST_ADDR)
    }

    /// Get an unoccupied [`UninitSlot`] if available: the one for the lowest
    /// free cell. `None` when every cell is held, and always once the slab is
    /// sealed.
    pub fn get_uninit_slot(&mut self) -> (slot: Option<UninitSlot<T>>)
        requires
            old(self).wf(),
        ensures
            final(self).wf(),
            old(self)@.sealed ==> slot is None && final(self)@ == old(self)@,
            !old(self)@.sealed ==> final(self)@ == old(self)@.acquire(),
            slot is None <==> old(self)@.sealed || old(self)@.word == ALL_ONES,
            slot is None <==> old(self)@.sealed || old(self)@.handles.len() == 64,
            slot matches Some(s) ==> s.addr() == old(self)@.addr && s.idx() == first_clear(
                old(self)@.word,
            ) && final(self)@.reserved(s.addr(), s.idx() as nat),
            slot matches Some(s) ==> !old(self)@.handles.contains(s.idx() as nat) && forall|j: nat|
                j < s.idx() ==> old(self)@.handles.contains(j),
            slot matches Some(s) ==> s.idx() <= old(self)@.handles.len(),
    {
        proof {
            if !self.sealed {
                lemma_acquire(self@);
            }
        }
        match (self.sealed, &mut self.inner) {
            (false, Some(inner)) => inner.get_uninit_slot(self.addr),
            _ => None,
        }
    }

    /// A slab at `addr` that is sealed from the start, with every cell held by
    /// its owner.
    pub(crate) fn taken_at(addr: usize) -> (slab: Self)
        requires
            aligned(addr),
        ensures
            slab.wf(),
            slab@ == SlabState::<T>::taken(addr),
    {
        proof {
            lemma_taken::<T>(addr);
        }
        Boxed64 { addr, sealed: true, inner: Some(Box::new(Inner::new())) }
    }

    /// The occupancy word, as long as the heap part is there.
    pub fn occupancy(&self) -> (word: Option<u64>)
        requires
            self.wf(),
        ensures
            word is None <==> self@.freed(),
            word matches Some(w) ==> w == self@.word,
    {
        match &self.inner {
            Some(inner) => Some(inner.occupancy),
            None => None,
        }
    }

    /// Whether the slab was sealed.
    pub fn is_sealed(&self) -> (yes: bool)
        ensures
            yes == self@.sealed,
    {
        self.sealed
    }

    /// Whether the heap part is gone.
    pub fn is_freed(&self) -> (yes: bool)
        requires
            self.wf(),
        ensures
            yes == self@.freed(),
    {
        self.inner.is_none()
    }

    /// Whether `slot` stands for a cell of this slab that is held and raw.
    pub fn reserves(&self, slot: &UninitSlot<T>) -> (yes: bool)
        requires
            self.wf(),
        ensures
            yes == self@.reserved(slot.addr(), slot.idx() as nat),
    {
        if slot.slab == self.addr && slot.idx < CELLS {
            proof {
                lemma_bit(slot.idx as nat);
                lemma_bitwise(self@.word, 0);
            }
            match &self.inner {
                Some(inner) => (inner.occupancy & cell_bit(slot.idx) != 0) != self.sealed
                    && inner.slots[slot.idx].is_none(),
                None => false,
            }
        } else {
            false
        }
    }

    /// Whether `slot` stands for a cell of this slab that holds a value.
    pub fn holds(&self, slot: &Slot<T>) -> (yes: bool)
        requires
            self.wf(),
        ensures
            yes == self@.filled(slot.addr(), slot.idx() as nat),
    {
        if slot.slab == self.addr && slot.idx < CELLS {
            match &self.inner {
                Some(inner) => inner.slots[slot.idx].is_some(),
                None => false,
            }
        } else {
            false
        }
    }

    /// Seals the slab: its owner is done with it. The word is inverted, so
    /// that from now on a handle that lets go sets its bit. If no handle is
    /// out the heap part is given up at once; otherwise the last handle gives
    /// it up. Sealing a sealed slab changes nothing.
    pub fn seal(&mut self)
        requires
            old(self).wf(),
        ensures
            final(self).wf(),
            old(self)@.sealed ==> final(self)@ == old(self)@,
            !old(self)@.sealed ==> final(self)@ == old(self)@.seal(),
            !old(self)@.sealed ==> (final(self)@.freed() <==> old(self)@.word == 0),
            !old(self)@.sealed ==> (final(self)@.freed() <==> old(self)@.handles.len() == 0),
    {
        if !self.sealed {
            proof {
                lemma_seal(self@);
                lemma_no_handles(self@);
            }
            let mut unused: bool = false;
            if let Some(inner) = &mut self.inner {
                unused = fills(inner.fetch_xor(ALL_ONES), ALL_ONES);
            }
            self.sealed = true;
            if unused {
                self.inner = None;
            }
            proof {
                assert(self@.cells =~= old(self)@.cells);
            }
        }
    }

    /// Writes `value` into the reserved cell `idx`.
    pub(crate) fn fill(&mut self, idx: usize, value: T) -> (slot: Slot<T>)
        requires
            old(self).wf(),
            old(self)@.reserved(old(self)@.addr, idx as nat),
        ensures
            final(self).wf(),
            final(self)@ == old(self)@.put(idx as nat, value),
            final(self)@.filled(slot.addr(), slot.idx() as nat),
            slot.addr() == old(self)@.addr,
            slot.idx() == idx,
    {
        proof {
            lemma_held_not_freed(self@, idx as nat);
        }
        if let Some(inner) = &mut self.inner {
            inner.slots[idx] = Some(value);
        }
        Slot { slab: self.addr, idx, cell: PhantomData }
    }

    /// Moves the value out of the filled cell `idx`, which stays held.
    pub(crate) fn empty(&mut self, idx: usize) -> (value: Option<T>)
        requires
            old(self).wf(),
            old(self)@.filled(old(self)@.addr, idx as nat),
        ensures
            final(self).wf(),
            value == old(self)@.cells[idx as int],
            final(self)@ == old(self)@.vacate(idx as nat),
            final(self)@.reserved(old(self)@.addr, idx as nat),
    {
        proof {
            lemma_held_not_freed(self@, idx as nat);
        }
        if let Some(inner) = &mut self.inner {
            inner.slots[idx].take()
        } else {
            None
        }
    }

    /// Flips the bits of `mask`, which are the bits of held cells whose
    /// storage is raw, and so lets go of those cells. Gives up the heap part
    /// if the word before was the complement of `mask`: then the slab was
    /// sealed and these were the last cells held.
    pub(crate) fn flip(&mut self, mask: u64)
        requires
            old(self).wf(),
            mask != 0,
            held(mask).subset_of(old(self)@.handles),
            forall|i: nat| held(mask).contains(i) ==> old(self)@.cells[i as int] is None,
        ensures
            final(self).wf(),
            final(self)@ == old(self)@.toggle(mask),
            final(self)@.freed() <==> old(self)@.word == !mask,
    {
        proof {
            lemma_toggle(self@, mask);
            lemma_no_handles(self@);
            lemma_no_handles(self@.toggle(mask));
            lemma_lowest_set(mask);
            assert(held(mask).contains(u64_trailing_zeros(mask) as nat));
            lemma_held_not_freed(self@, u64_trailing_zeros(mask) as nat);
            lemma_fills(self@.word, mask);
        }
        let mut last: bool = false;
        if let Some(inner) = &mut self.inner {
            last = fills(inner.fetch_xor(mask), mask);
        }
        if last {
            self.inner = None;
        }
        proof {
            assert(self@.cells =~= old(self)@.cells);
        }
    }
}

impl<T> UninitSlot<T> {
    /// The address of the slab that the cell belongs to.
    pub closed spec fn addr(&self) -> usize {
        self.slab
    }

    /// The index of the cell.
    pub closed spec fn idx(&self) -> usize {
        self.idx
    }

    /// The index of the cell.
    pub fn index(&self) -> (idx: usize)
        ensures
            idx == self.idx(),
    {
        self.idx
    }

    /// Initialize slot with value.
    pub fn insert(self, slab: &mut Boxed64<T>, value: T) -> (slot: Slot<T>)
        requires
            old(slab).wf(),
            old(slab)@.reserved(self.addr(), self.idx() as nat),
        ensures
            final(slab).wf(),
            final(slab)@ == old(slab)@.put(self.idx() as nat, value),
            final(slab)@.filled(slot.addr(), slot.idx() as nat),
            slot.addr() == self.addr(),
            slot.idx() == self.idx(),
    {
        slab.fill(self.idx, value)
    }

    /// Gives the cell back without a value having been written. If the slab
    /// is sealed and this was its last handle, the heap part is given up.
    pub fn release(self, slab: &mut Boxed64<T>)
        requires
            old(slab).wf(),
            old(slab)@.reserved(self.addr(), self.idx() as nat),
        ensures
            final(slab).wf(),
            final(slab)@ == old(slab)@.toggle(bit(self.idx() as nat)),
            final(slab)@.freed() <==> old(slab)@.word == !bit(self.idx() as nat),
            final(slab)@.freed() <==> old(slab)@.sealed && old(slab)@.handles.len() == 1,
    {
        proof {
            lemma_toggle_cell(slab@, self.idx as nat);
            lemma_bit(self.idx as nat);
            assert(held(bit(self.idx as nat)) =~= set![self.idx as nat]);
        }
        slab.flip(cell_bit(self.idx));
    }
}

impl<T> Slot<T> {
    /// The address of the slab that the cell belongs to.
    pub closed spec fn addr(&self) -> usize {
        self.slab
    }

    /// The index of the cell.
    pub closed spec fn idx(&self) -> usize {
        self.idx
    }

    /// The index of the cell.
    pub fn index(&self) -> (idx: usize)
        ensures
            idx == self.idx(),
    {
        self.idx
    }

    /// The address of the slab that the cell belongs to.
    pub fn slab(&self) -> (addr: usize)
        ensures
            addr == self.addr(),
    {
        self.slab
    }

    /// Moves the value out and gives the cell back. If the slab is sealed and
    /// this was its last handle, the heap part is given up.
    pub fn take(self, slab: &mut Boxed64<T>) -> (value: T)
        requires
            old(slab).wf(),
            old(slab)@.filled(self.addr(), self.idx() as nat),
        ensures
            final(slab).wf(),
            old(slab)@.cells[self.idx() as int] == Some(value),
            final(slab)@ == old(slab)@.vacate(self.idx() as nat).toggle(bit(self.idx() as nat)),
            final(slab)@.freed() <==> old(slab)@.word == !bit(self.idx() as nat),
            final(slab)@.freed() <==> old(slab)@.sealed && old(slab)@.handles.len() == 1,
    {
        let value = slab.empty(self.idx).unwrap();
        proof {
            lemma_toggle_cell(slab@, self.idx as nat);
            lemma_bit(self.idx as nat);
            assert(held(bit(self.idx as nat)) =~= set![self.idx as nat]);
        }
        slab.flip(cell_bit(self.idx));
        value
    }

    /// Drops the value in place and gives the cell back. If the slab is
    /// sealed and this was its last handle, the heap part is given up.
    pub fn release(self, slab: &mut Boxed64<T>)
        requires
            old(slab).wf(),
            old(slab)@.filled(self.addr(), self.idx() as nat),
        ensures
            final(slab).wf(),
            final(slab)@ == old(slab)@.vacate(self.idx() as nat).toggle(bit(self.idx() as nat)),
            final(slab)@.freed() <==> old(slab)@.word == !bit(self.idx() as nat),
            final(slab)@.freed() <==> old(slab)@.sealed && old(slab)@.handles.len() == 1,
    {
        let _ = slab.empty(self.idx);
        proof {
            lemma_toggle_cell(slab@, self.idx as nat);
            lemma_bit(self.idx as nat);
            assert(held(bit(self.idx as nat)) =~= set![self.idx as nat]);
        }
        slab.flip(cell_bit(self.idx));
    }

    /// The value in the cell.
    pub fn get<'a>(&self, slab: &'a Boxed64<T>) -> (value: &'a T)
        requires
            slab.wf(),
            slab@.filled(self.addr(), self.idx() as nat),
        ensures
            slab@.cells[self.idx() as int] == Some(*value),
    {
        slab.inner.as_ref().unwrap().slots[self.idx].as_ref().unwrap()
    }

    /// The value in the cell, to be changed in place.
    pub fn get_mut<'a>(&self, slab: &'a mut Boxed64<T>) -> (value: &'a mut T)
        requires
            old(slab).wf(),
            old(slab)@.filled(self.addr(), self.idx() as nat),
        ensures
            old(slab)@.cells[self.idx() as int] == Some(*value),
            final(slab)@ == old(slab)@.put(self.idx() as nat, *final(value)),
            final(slab).wf(),
    {
        slab.inner.as_mut().unwrap().slots[self.idx].as_mut().unwrap()
    }

    /// Reconstruct [`Slot`] from a tagged word: the cell index comes from the
    /// low six bits, the slab address from the bits above.
    pub fn from_raw(raw: usize) -> (slot: Self)
        ensures
            slot.addr() == tag_addr(raw),
            slot.idx() == tag_idx(raw),
    {
        Slot { slab: slab_addr(raw), idx: cell_idx(raw), cell: PhantomData }
    }

    /// Consumes [`Slot`], converting into a tagged word: the address of the
    /// slab with the cell index in the low bits. The cell stays held.
    pub fn into_raw(self) -> (raw: usize)
        ensures
            raw == tag(self.addr(), self.idx()),
    {
        pack(self.slab, self.idx)
    }
}

/// A handle that went into a tagged word and came back out of it is the
/// same handle: it stands for the same cell of the same slab, and so for the
/// same value.
pub proof fn lemma_raw_round_trip<T>(slab: Boxed64<T>, slot: Slot<T>, back: Slot<T>)
    requires
        slab.wf(),
        slab@.filled(slot.addr(), slot.idx() as nat),
        back.addr() == tag_addr(tag(slot.addr(), slot.idx())),
        back.idx() == tag_idx(tag(slot.addr(), slot.idx())),
    ensures
        back == slot,
        slab@.filled(back.addr(), back.idx() as nat),
        slab@.cells[back.idx() as int] == slab@.cells[slot.idx() as int],
{
    lemma_tag_round_trip(slot.addr(), slot.idx());
}

} // verus!
