//! The slabs that an arena has had, in the order in which it got them.
//!
//! The slab with number `k` lies at address `64 * (k + 1)`, so a handle's
//! address says which slab it belongs to. An arena never walks this chain to
//! allocate; it is here so that a handle can find its slab again. A slab that
//! is freed keeps its place in the chain, without its heap part.

use vstd::prelude::*;
use crate::bits::{ALL_ONES, bit, first_clear, held};
use crate::boxed::{Boxed64, Slot, UninitSlot};
use crate::slab::SlabState;
use crate::tagged::{aligned, lemma_aligned};

verus! {

/// The address of the slab with number `k`.
pub open spec fn addr_of(k: int) -> int {
    64 * (k + 1)
}

/// The number of the slab at `addr`.
pub open spec fn number_of(addr: usize) -> int {
    addr / 64 - 1
}

/// Every slab of the chain is well formed and lies at its address, which is
/// a machine word.
pub open spec fn chain_wf<T>(chain: Seq<SlabState<T>>) -> bool {
    &&& 64 * chain.len() <= usize::MAX
    &&& forall|k: int|
        0 <= k < chain.len() ==> (#[trigger] chain[k]).wf() && chain[k].addr == addr_of(k)
}

/// Whether one more slab can follow: its address is still a machine word.
pub open spec fn chain_can_grow<T>(chain: Seq<SlabState<T>>) -> bool {
    64 * (chain.len() + 1) <= usize::MAX
}

/// Whether `addr` is the address of a slab of the chain.
pub open spec fn chain_has<T>(chain: Seq<SlabState<T>>, addr: usize) -> bool {
    &&& 0 <= number_of(addr) < chain.len()
    &&& addr == addr_of(number_of(addr))
}

/// Cell `idx` of the slab at `addr` is held.
pub open spec fn chain_held<T>(chain: Seq<SlabState<T>>, addr: usize, idx: nat) -> bool {
    chain_has(chain, addr) && chain[number_of(addr)].handles.contains(idx)
}

/// Cell `idx` of the slab at `addr` stores a value.
pub open spec fn chain_filled<T>(chain: Seq<SlabState<T>>, addr: usize, idx: nat) -> bool {
    chain_has(chain, addr) && chain[number_of(addr)].filled(addr, idx)
}

/// The chain after the value of cell `idx` of the slab at `addr` has left and
/// the cell was let go.
pub open spec fn chain_let_go<T>(chain: Seq<SlabState<T>>, addr: usize, idx: nat) -> Seq<
    SlabState<T>,
> {
    chain.update(number_of(addr), chain[number_of(addr)].vacate(idx).toggle(bit(idx)))
}

/// The slabs of an arena.
pub(crate) struct Chain<T> {
    slabs: Vec<Boxed64<T>>,
}

impl<T> View for Chain<T> {
    type V = Seq<SlabState<T>>;

    closed spec fn view(&self) -> Seq<SlabState<T>> {
        Seq::new(self.slabs.len() as nat, |k: int| self.slabs[k]@)
    }
}

impl<T> Chain<T> {
    /// Every slab is well formed in itself.
    pub(crate) closed spec fn slabs_wf(&self) -> bool {
        forall|k: int| 0 <= k < self.slabs.len() ==> (#[trigger] self.slabs[k]).wf()
    }

    /// The chain is well formed.
    pub(crate) open spec fn wf(&self) -> bool {
        chain_wf(self@) && self.slabs_wf()
    }

    /// A chain without slabs.
    pub(crate) fn new() -> (chain: Self)
        ensures
            chain.wf(),
            chain@ == Seq::<SlabState<T>>::empty(),
    {
        let chain = Chain { slabs: Vec::new() };
        proof {
            assert(chain@ =~= Seq::<SlabState<T>>::empty());
        }
        chain
    }

    /// The number of slabs.
    pub(crate) fn len(&self) -> (n: usize)
        ensures
            n == self@.len(),
    {
        self.slabs.len()
    }

    /// Whether one more slab can follow.
    pub(crate) fn can_grow(&self) -> (yes: bool)
        ensures
            yes == chain_can_grow(self@),
    {
        self.slabs.len() < usize::MAX / 64
    }

    /// The address at which the next slab will lie.
    pub(crate) fn next_addr(&self) -> (addr: usize)
        requires
            chain_can_grow(self@),
        ensures
            addr == addr_of(self@.len() as int),
            aligned(addr),
            addr != 0,
    {
        let addr: usize = 64 * (self.slabs.len() + 1);
        proof {
            lemma_aligned(addr);
        }
        addr
    }

    /// Puts `slab` at the end of the chain.
    pub(crate) fn push(&mut self, slab: Boxed64<T>)
        requires
            old(self).wf(),
            chain_can_grow(old(self)@),
            slab.wf(),
            slab@.addr == addr_of(old(self)@.len() as int),
        ensures
            final(self).wf(),
            final(self)@ == old(self)@.push(slab@),
    {
        self.slabs.push(slab);
        proof {
            assert(self@ =~= old(self)@.push(slab@));
        }
    }

    /// Whether `slot` stands for a cell of a slab of this chain that holds a
    /// value.
    pub(crate) fn holds(&self, slot: &Slot<T>) -> (yes: bool)
        requires
            self.wf(),
        ensures
            yes == chain_filled(self@, slot.addr(), slot.idx() as nat),
    {
        let addr: usize = slot.slab();
        if addr >= 64 && addr % 64 == 0 && addr / 64 - 1 < self.slabs.len() {
            self.slabs[addr / 64 - 1].holds(slot)
        } else {
            false
        }
    }

    /// The value in the cell.
    pub(crate) fn get<'a>(&'a self, slot: &Slot<T>) -> (value: &'a T)
        requires
            self.wf(),
            chain_filled(self@, slot.addr(), slot.idx() as nat),
        ensures
            self@[number_of(slot.addr())].cells[slot.idx() as int] == Some(*value),
    {
        slot.get(&self.slabs[slot.slab() / 64 - 1])
    }

    /// The value in the cell, to be changed in place.
    pub(crate) fn get_mut<'a>(&'a mut self, slot: &Slot<T>) -> (value: &'a mut T)
        requires
            old(self).wf(),
            chain_filled(old(self)@, slot.addr(), slot.idx() as nat),
        ensures
            old(self)@[number_of(slot.addr())].cells[slot.idx() as int] == Some(*value),
            final(self)@ == old(self)@.update(
                number_of(slot.addr()),
                old(self)@[number_of(slot.addr())].put(slot.idx() as nat, *final(value)),
            ),
            final(self).wf(),
    {
        let k: usize = slot.slab() / 64 - 1;
        let value = slot.get_mut(&mut self.slabs[k]);
        proof {
            assert forall|j: int| 0 <= j < after_borrow(self.slabs).len() implies (
            #[trigger] after_borrow(self.slabs)[j]).wf() by {
                if j != k {
                    assert(old(self).slabs[j].wf());
                }
            }
            assert forall|j: int| 0 <= j < after_borrow(*self)@.len() implies (
            #[trigger] after_borrow(*self)@[j]).wf() && after_borrow(*self)@[j].addr == addr_of(
                j,
            ) by {
                assert(old(self)@[j].wf() && old(self)@[j].addr == addr_of(j));
            }
        }
        value
    }

    /// Moves the value out and lets go of the cell. If its slab is sealed and
    /// this was the slab's last handle, the slab's heap part is given up.
    pub(crate) fn take(&mut self, slot: Slot<T>) -> (value: T)
        requires
            old(self).wf(),
            chain_filled(old(self)@, slot.addr(), slot.idx() as nat),
        ensures
            final(self).wf(),
            old(self)@[number_of(slot.addr())].cells[slot.idx() as int] == Some(value),
            final(self)@ == chain_let_go(old(self)@, slot.addr(), slot.idx() as nat),
    {
        let k: usize = slot.slab() / 64 - 1;
        let ghost idx = slot.idx() as nat;
        let value = slot.take(&mut self.slabs[k]);
        proof {
            assert(self@ =~= chain_let_go(old(self)@, old(self)@[k as int].addr, idx));
        }
        value
    }

    /// Drops the value in place and lets go of the cell. If its slab is
    /// sealed and this was the slab's last handle, the slab's heap part is
    /// given up.
    pub(crate) fn release(&mut self, slot: Slot<T>)
        requires
            old(self).wf(),
            chain_filled(old(self)@, slot.addr(), slot.idx() as nat),
        ensures
            final(self).wf(),
            final(self)@ == chain_let_go(old(self)@, slot.addr(), slot.idx() as nat),
    {
        let k: usize = slot.slab() / 64 - 1;
        let ghost idx = slot.idx() as nat;
        slot.release(&mut self.slabs[k]);
        proof {
            assert(self@ =~= chain_let_go(old(self)@, old(self)@[k as int].addr, idx));
        }
    }

    /// Get an unoccupied [`UninitSlot`] of the last slab if available.
    pub(crate) fn get_uninit_slot(&mut self) -> (slot: Option<UninitSlot<T>>)
        requires
            old(self).wf(),
            old(self)@.len() > 0,
        ensures
            final(self).wf(),
            final(self)@.len() == old(self)@.len(),
            ({
                let last = old(self)@.last();
                &&& last.sealed ==> final(self)@ == old(self)@
                &&& !last.sealed ==> final(self)@ == old(self)@.update(
                    old(self)@.len() - 1,
                    last.acquire(),
                )
                &&& slot is None <==> last.sealed || last.word == ALL_ONES
                &&& slot matches Some(s) ==> s.addr() == last.addr && s.idx() == first_clear(
                    last.word,
                ) && final(self)@.last().reserved(s.addr(), s.idx() as nat)
            }),
    {
        let k: usize = self.slabs.len() - 1;
        let slot = self.slabs[k].get_uninit_slot();
        proof {
            if old(self)@.last().sealed {
                assert(self@ =~= old(self)@);
            } else {
                assert(self@ =~= old(self)@.update(
                    old(self)@.len() - 1,
                    old(self)@.last().acquire(),
                ));
            }
        }
        slot
    }

    /// Initialize `slot`, which stands for a cell of the last slab, with
    /// `value`.
    pub(crate) fn insert(&mut self, slot: UninitSlot<T>, value: T) -> (filled: Slot<T>)
        requires
            old(self).wf(),
            old(self)@.len() > 0,
            old(self)@.last().reserved(slot.addr(), slot.idx() as nat),
        ensures
            final(self).wf(),
            final(self)@ == old(self)@.update(
                old(self)@.len() - 1,
                old(self)@.last().put(slot.idx() as nat, value),
            ),
            chain_filled(final(self)@, filled.addr(), filled.idx() as nat),
            filled.addr() == slot.addr(),
            filled.idx() == slot.idx(),
    {
        let k: usize = self.slabs.len() - 1;
        let filled = slot.insert(&mut self.slabs[k], value);
        proof {
            assert(self@ =~= old(self)@.update(
                old(self)@.len() - 1,
                old(self)@.last().put(slot.idx() as nat, value),
            ));
        }
        filled
    }

    /// Writes `value` into the reserved cell `idx` of the last slab.
    pub(crate) fn fill(&mut self, idx: usize, value: T) -> (slot: Slot<T>)
        requires
            old(self).wf(),
            old(self)@.len() > 0,
            old(self)@.last().reserved(old(self)@.last().addr, idx as nat),
        ensures
            final(self).wf(),
            final(self)@ == old(self)@.update(
                old(self)@.len() - 1,
                old(self)@.last().put(idx as nat, value),
            ),
            chain_filled(final(self)@, slot.addr(), slot.idx() as nat),
            slot.addr() == old(self)@.last().addr,
            slot.idx() == idx,
    {
        let k: usize = self.slabs.len() - 1;
        let slot = self.slabs[k].fill(idx, value);
        proof {
            assert(self@ =~= old(self)@.update(
                old(self)@.len() - 1,
                old(self)@.last().put(idx as nat, value),
            ));
        }
        slot
    }

    /// Seals the last slab.
    pub(crate) fn seal(&mut self)
        requires
            old(self).wf(),
            old(self)@.len() > 0,
            !old(self)@.last().sealed,
        ensures
            final(self).wf(),
            final(self)@ == old(self)@.update(old(self)@.len() - 1, old(self)@.last().seal()),
    {
        let k: usize = self.slabs.len() - 1;
        self.slabs[k].seal();
        proof {
            assert(self@ =~= old(self)@.update(old(self)@.len() - 1, old(self)@.last().seal()));
        }
    }

    /// Lets go of the cells of the last slab whose bits are in `mask`.
    pub(crate) fn flip(&mut self, mask: u64)
        requires
            old(self).wf(),
            old(self)@.len() > 0,
            mask != 0,
            held(mask).subset_of(old(self)@.last().handles),
            forall|i: nat| held(mask).contains(i) ==> old(self)@.last().cells[i as int] is None,
        ensures
            final(self).wf(),
            final(self)@ == old(self)@.update(
                old(self)@.len() - 1,
                old(self)@.last().toggle(mask),
            ),
    {
        let k: usize = self.slabs.len() - 1;
        self.slabs[k].flip(mask);
        proof {
            assert(self@ =~= old(self)@.update(
                old(self)@.len() - 1,
                old(self)@.last().toggle(mask),
            ));
        }
    }
}

} // verus!
