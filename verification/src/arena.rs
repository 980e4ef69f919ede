//! Allocators that grow slab by slab.
//!
//! An [`Arena64`] takes cells from its newest slab through the slab's
//! occupancy word. When that slab is full it seals it and goes on with a new
//! one; a sealed slab is given up with its last handle. A [`Bump64`] keeps the
//! word of its newest slab to itself and does not touch the slab's own word
//! until it is done with the slab.

use vstd::prelude::*;
use crate::bits::{ALL_ONES, bit, filled_from_bottom, first_clear, held, is_set, set_lowest_clear};
use crate::bits::{lemma_bit, lemma_bitwise, lemma_filled_from_bottom, lemma_first_clear,
    lemma_word_identities};
use crate::boxed::{Boxed64, Slot};
use crate::chain::{Chain, addr_of, chain_can_grow, chain_filled, chain_has, chain_held,
    chain_let_go, chain_wf, number_of};
use crate::slab::{SlabState, lemma_acquire, lemma_fresh, lemma_handles_in_range,
    lemma_put_then_vacate, lemma_seal, lemma_taken, lemma_toggle, lemma_toggle_cell, lemma_vacate};
use crate::tagged::lemma_aligned;

verus! {

/// The state of an arena: the slabs it has had, and at `head` the address of
/// the one it allocates from, or zero if it has none.
pub struct ArenaState<T> {
    pub head: usize,
    pub chain: Seq<SlabState<T>>,
}

impl<T> ArenaState<T> {
    /// An arena that has no slab yet.
    pub open spec fn empty() -> Self {
        ArenaState { head: 0, chain: Seq::empty() }
    }

    /// The head, if there is one, is the newest slab, and it is the only slab
    /// that is not sealed.
    pub open spec fn wf(self) -> bool {
        &&& chain_wf(self.chain)
        &&& self.head != 0 ==> self.chain.len() > 0 && self.head == addr_of(self.chain.len() - 1)
        &&& forall|k: int|
            0 <= k < self.chain.len() ==> (#[trigger] self.chain[k]).sealed == (addr_of(k)
                != self.head)
    }

    /// Whether one more slab can follow.
    pub open spec fn can_grow(self) -> bool {
        chain_can_grow(self.chain)
    }

    /// Cell `idx` of the slab at `addr` is held by a handle.
    pub open spec fn held(self, addr: usize, idx: nat) -> bool {
        chain_held(self.chain, addr, idx)
    }

    /// Cell `idx` of the slab at `addr` stores a value.
    pub open spec fn filled(self, addr: usize, idx: nat) -> bool {
        chain_filled(self.chain, addr, idx)
    }

    /// The value in cell `idx` of the slab at `addr`.
    pub open spec fn value(self, addr: usize, idx: nat) -> Option<T> {
        self.chain[number_of(addr)].cells[idx as int]
    }

    /// The head has a free cell.
    pub open spec fn ready(self) -> bool {
        self.head != 0 && self.chain.last().word != ALL_ONES
    }

    /// A new slab takes the place of the head, provided that `current` is the
    /// head; the slab that was the head is sealed. Otherwise nothing changes.
    pub open spec fn replace(self, current: usize) -> Self {
        if current == self.head {
            let before = if self.head != 0 {
                self.chain.update(self.chain.len() - 1, self.chain.last().seal())
            } else {
                self.chain
            };
            let addr = addr_of(self.chain.len() as int) as usize;
            ArenaState { head: addr, chain: before.push(SlabState::fresh(addr)) }
        } else {
            self
        }
    }

    /// The arena at the moment at which it takes the cell for the next value:
    /// as it is if the head has a free cell, and with a new head otherwise.
    pub open spec fn grown(self) -> Self {
        if self.ready() {
            self
        } else {
            self.replace(self.head)
        }
    }

    /// The index of the cell that the next value goes to.
    pub open spec fn next_idx(self) -> nat {
        first_clear(self.grown().chain.last().word)
    }

    /// The next value goes to the lowest free cell of the head.
    pub open spec fn allocate(self, value: T) -> Self {
        let grown = self.grown();
        ArenaState {
            head: grown.head,
            chain: grown.chain.update(
                grown.chain.len() - 1,
                grown.chain.last().acquire().put(self.next_idx(), value),
            ),
        }
    }

    /// The value of cell `idx` of the slab at `addr` leaves, and the cell is
    /// let go.
    pub open spec fn let_go(self, addr: usize, idx: nat) -> Self {
        ArenaState { head: self.head, chain: chain_let_go(self.chain, addr, idx) }
    }

    /// The head is sealed, and the arena has no head any more.
    pub open spec fn close(self) -> Self {
        if self.head != 0 {
            ArenaState {
                head: 0,
                chain: self.chain.update(self.chain.len() - 1, self.chain.last().seal()),
            }
        } else {
            self
        }
    }
}

/// Replacing the head keeps the arena well formed, and keeps every held cell
/// held and every value where it is. The new head, if there is one, has all
/// its cells free.
pub proof fn lemma_replace<T>(s: ArenaState<T>, current: usize)
    requires
        s.wf(),
        s.can_grow(),
    ensures
        s.replace(current).wf(),
        current == s.head ==> s.replace(current).ready(),
        forall|addr: usize, idx: nat| s.replace(current).held(addr, idx) == s.held(addr, idx),
        forall|addr: usize, idx: nat|
            s.held(addr, idx) ==> s.replace(current).value(addr, idx) == s.value(addr, idx),
{
    let r = s.replace(current);
    if current == s.head {
        let n = s.chain.len() as int;
        let addr = addr_of(n) as usize;
        lemma_aligned(addr);
        lemma_fresh::<T>(addr);
        if s.head != 0 {
            lemma_seal(s.chain.last());
        }
        assert forall|k: int| 0 <= k < r.chain.len() implies (#[trigger] r.chain[k]).sealed == (
        addr_of(k) != r.head) && r.chain[k].wf() && r.chain[k].addr == addr_of(k) by {
            if k < n {
                assert(s.chain[k].sealed == (addr_of(k) != s.head));
            }
        }
        assert forall|a: usize, idx: nat| r.held(a, idx) == s.held(a, idx) by {
            if chain_has(r.chain, a) && number_of(a) == n {
                assert(!r.chain[n].handles.contains(idx));
            }
        }
    }
}

/// An allocation keeps the arena well formed. The cell that it takes was not
/// held and is held afterwards, with the value in it; no other cell changes
/// hands, and no other value changes.
pub proof fn lemma_allocate<T>(s: ArenaState<T>, value: T)
    requires
        s.wf(),
        s.ready() || s.can_grow(),
    ensures
        s.allocate(value).wf(),
        !s.held(s.grown().head, s.next_idx()),
        s.allocate(value).held(s.grown().head, s.next_idx()),
        s.allocate(value).value(s.grown().head, s.next_idx()) == Some(value),
        forall|addr: usize, idx: nat|
            addr != s.grown().head || idx != s.next_idx() ==> s.allocate(value).held(addr, idx)
                == s.held(addr, idx),
        forall|addr: usize, idx: nat|
            s.held(addr, idx) ==> s.allocate(value).value(addr, idx) == s.value(addr, idx),
{
    let g = s.grown();
    if !s.ready() {
        lemma_replace(s, s.head);
    }
    let last = g.chain.len() - 1;
    let idx = s.next_idx();
    let a = s.allocate(value);
    lemma_acquire(g.chain[last]);
    lemma_put_then_vacate(g.chain[last].acquire(), idx, value);
    assert forall|k: int| 0 <= k < a.chain.len() implies (#[trigger] a.chain[k]).sealed == (addr_of(
        k,
    ) != a.head) && a.chain[k].wf() && a.chain[k].addr == addr_of(k) by {
        assert(g.chain[k].sealed == (addr_of(k) != g.head));
    }
    assert(number_of(g.head) == last);
    assert forall|addr: usize, i: nat| addr != g.head || i != idx implies a.held(addr, i) == s.held(
        addr,
        i,
    ) by {
        assert(g.held(addr, i) == s.held(addr, i));
    }
    assert forall|addr: usize, i: nat| s.held(addr, i) implies a.value(addr, i) == s.value(
        addr,
        i,
    ) by {
        assert(g.held(addr, i));
        assert(g.value(addr, i) == s.value(addr, i));
    }
}

/// Letting go of a cell that stores a value keeps the arena well formed. The
/// cell is not held afterwards; no other cell changes hands, and no other
/// value changes. The cell's slab is freed by it exactly when that slab is
/// sealed and this was its last cell held.
pub proof fn lemma_let_go<T>(s: ArenaState<T>, addr: usize, idx: nat)
    requires
        s.wf(),
        s.filled(addr, idx),
    ensures
        s.let_go(addr, idx).wf(),
        s.held(addr, idx),
        !s.let_go(addr, idx).held(addr, idx),
        forall|a: usize, i: nat|
            a != addr || i != idx ==> s.let_go(addr, idx).held(a, i) == s.held(a, i),
        forall|a: usize, i: nat|
            s.let_go(addr, idx).held(a, i) ==> s.let_go(addr, idx).value(a, i) == s.value(a, i),
        s.let_go(addr, idx).chain[number_of(addr)].freed() <==> s.chain[number_of(addr)].sealed
            && s.chain[number_of(addr)].handles == set![idx],
{
    let k = number_of(addr);
    let r = s.let_go(addr, idx);
    lemma_vacate(s.chain[k], idx);
    lemma_toggle_cell(s.chain[k].vacate(idx), idx);
    assert forall|j: int| 0 <= j < r.chain.len() implies (#[trigger] r.chain[j]).sealed == (addr_of(
        j,
    ) != r.head) && r.chain[j].wf() && r.chain[j].addr == addr_of(j) by {
        assert(s.chain[j].sealed == (addr_of(j) != s.head));
    }
}

/// Closing keeps the arena well formed, and keeps every held cell held and
/// every value where it is. No slab is live afterwards.
pub proof fn lemma_close<T>(s: ArenaState<T>)
    requires
        s.wf(),
    ensures
        s.close().wf(),
        forall|k: int| 0 <= k < s.close().chain.len() ==> (#[trigger] s.close().chain[k]).sealed,
        forall|addr: usize, idx: nat| s.close().held(addr, idx) == s.held(addr, idx),
        forall|addr: usize, idx: nat|
            s.held(addr, idx) ==> s.close().value(addr, idx) == s.value(addr, idx),
{
    let r = s.close();
    if s.head != 0 {
        lemma_seal(s.chain.last());
        assert forall|k: int| 0 <= k < r.chain.len() implies (#[trigger] r.chain[k]).sealed
            && r.chain[k].wf() && r.chain[k].addr == addr_of(k) by {
            assert(s.chain[k].sealed == (addr_of(k) != s.head));
        }
    } else {
        assert forall|k: int| 0 <= k < r.chain.len() implies (#[trigger] r.chain[k]).sealed by {
            assert(s.chain[k].sealed == (addr_of(k) != s.head));
        }
    }
}

/// Puts `new` into `word` if `word` holds `current`. Returns what `word` held
/// before: as `Ok` if `new` was put there, as `Err` if not.
fn compare_exchange(word: &mut usize, current: usize, new: usize) -> (outcome: Result<
    usize,
    usize,
>)
    ensures
        *old(word) == current ==> outcome == Ok::<usize, usize>(current) && *final(word) == new,
        *old(word) != current ==> outcome == Err::<usize, usize>(*old(word)) && *final(word)
            == *old(word),
{
    let before: usize = *word;
    if before == current {
        *word = new;
        Ok(before)
    } else {
        Err(before)
    }
}

/// An arena that grows by one slab of 64 cells at a time.
pub struct Arena64<T> {
    inner: usize,
    chain: Chain<T>,
}

impl<T> View for Arena64<T> {
    type V = ArenaState<T>;

    closed spec fn view(&self) -> ArenaState<T> {
        ArenaState { head: self.inner, chain: self.chain@ }
    }
}

impl<T> Default for Arena64<T> {
    fn default() -> (arena: Self)
        ensures
            arena.wf(),
            arena@ == ArenaState::<T>::empty(),
    {
        Self::new()
    }
}

impl<T> Arena64<T> {
    /// Every slab is well formed in itself.
    pub closed spec fn slabs_wf(&self) -> bool {
        self.chain.slabs_wf()
    }

    /// The arena is well formed.
    pub open spec fn wf(&self) -> bool {
        self@.wf() && self.slabs_wf()
    }

    /// An arena without a slab. The first allocation brings the first slab.
    pub fn new() -> (arena: Self)
        ensures
            arena.wf(),
            arena@ == ArenaState::<T>::empty(),
    {
        Arena64 { inner: 0, chain: Chain::new() }
    }

    /// Whether one more slab can follow.
    pub fn can_grow(&self) -> (yes: bool)
        ensures
            yes == self@.can_grow(),
    {
        self.chain.can_grow()
    }

    /// The number of slabs that the arena has had.
    pub fn slabs(&self) -> (n: usize)
        ensures
            n == self@.chain.len(),
    {
        self.chain.len()
    }

    /// Puts a new slab in the place of the head, provided that `current` is
    /// the head, and seals the slab that was the head. Returns the head as it
    /// is afterwards: the new slab, or the slab that had taken the place of
    /// `current` before.
    pub fn replace_inner(&mut self, current: usize) -> (head: usize)
        requires
            old(self).wf(),
            old(self)@.can_grow(),
        ensures
            final(self).wf(),
            final(self)@ == old(self)@.replace(current),
            head == final(self)@.head,
    {
        let addr: usize = self.chain.next_addr();
        let fresh: Boxed64<T> = Boxed64::at(addr);
        match compare_exchange(&mut self.inner, current, addr) {
            Ok(previous) => {
                if previous != 0 {
                    proof {
                        lemma_seal(old(self)@.chain.last());
                    }
                    self.chain.seal();
                }
                self.chain.push(fresh);
                proof {
                    assert forall|k: int| 0 <= k < self@.chain.len() implies (
                    #[trigger] self@.chain[k]).sealed == (addr_of(k) != self@.head) by {
                        if k < old(self)@.chain.len() {
                            assert(old(self)@.chain[k].sealed == (addr_of(k) != old(self)@.head));
                        }
                    }
                }
                addr
            },
            Err(head) => head,
        }
    }

    /// Allocate value into an unoccupied [`Slot`]: the lowest free cell of
    /// the head, or, where the head is full or missing, the first cell of a
    /// new head.
    pub fn allocate(&mut self, value: T) -> (slot: Slot<T>)
        requires
            old(self).wf(),
            old(self)@.ready() || old(self)@.can_grow(),
        ensures
            final(self).wf(),
            final(self)@ == old(self)@.allocate(value),
            slot.addr() == final(self)@.head,
            slot.idx() == old(self)@.next_idx(),
            slot.idx() <= old(self)@.grown().chain.last().handles.len(),
            final(self)@.filled(slot.addr(), slot.idx() as nat),
            final(self)@.value(slot.addr(), slot.idx() as nat) == Some(value),
            !old(self)@.held(slot.addr(), slot.idx() as nat),
    {
        let mut inner: usize = self.inner;
        loop
            invariant
                self.wf(),
                inner == self@.head,
                self@.grown() == old(self)@.grown(),
                self@.ready() || self@.can_grow(),
                self@ == old(self)@ || self@.ready() && old(self)@.chain.len() < self@.chain.len(),
            decreases
                    (if self@.ready() {
                        0int
                    } else {
                        1int
                    }),
        {
            if inner != 0 {
                proof {
                    lemma_acquire(self@.chain.last());
                }
                let ghost before = self@;
                if let Some(free) = self.chain.get_uninit_slot() {
                    let slot = self.chain.insert(free, value);
                    proof {
                        lemma_put_then_vacate(
                            before.chain.last().acquire(),
                            slot.idx() as nat,
                            value,
                        );
                        assert(before.ready());
                        assert(self@.chain =~= old(self)@.allocate(value).chain);
                    }
                    return slot;
                }
                proof {
                    assert(self@.chain =~= before.chain);
                }
            }
            inner = self.replace_inner(inner);
        }
    }

    /// Whether `slot` stands for a cell of this arena that holds a value.
    pub fn holds(&self, slot: &Slot<T>) -> (yes: bool)
        requires
            self.wf(),
        ensures
            yes == self@.filled(slot.addr(), slot.idx() as nat),
    {
        self.chain.holds(slot)
    }

    /// The value in the cell.
    pub fn get<'a>(&'a self, slot: &Slot<T>) -> (value: &'a T)
        requires
            self.wf(),
            self@.filled(slot.addr(), slot.idx() as nat),
        ensures
            self@.value(slot.addr(), slot.idx() as nat) == Some(*value),
    {
        self.chain.get(slot)
    }

    /// The value in the cell, to be changed in place.
    pub fn get_mut<'a>(&'a mut self, slot: &Slot<T>) -> (value: &'a mut T)
        requires
            old(self).wf(),
            old(self)@.filled(slot.addr(), slot.idx() as nat),
        ensures
            old(self)@.value(slot.addr(), slot.idx() as nat) == Some(*value),
            final(self)@.head == old(self)@.head,
            final(self)@.chain == old(self)@.chain.update(
                number_of(slot.addr()),
                old(self)@.chain[number_of(slot.addr())].put(slot.idx() as nat, *final(value)),
            ),
            final(self).wf(),
    {
        let value = self.chain.get_mut(slot);
        proof {
            assert forall|k: int| 0 <= k < after_borrow(*self)@.chain.len() implies (
            #[trigger] after_borrow(*self)@.chain[k]).sealed == (addr_of(k) != after_borrow(
                *self,
            )@.head) by {
                assert(old(self)@.chain[k].sealed == (addr_of(k) != old(self)@.head));
            }
        }
        value
    }

    /// Moves the value out and lets go of the cell. If its slab is sealed and
    /// this was the slab's last handle, the slab is freed.
    pub fn take(&mut self, slot: Slot<T>) -> (value: T)
        requires
            old(self).wf(),
            old(self)@.filled(slot.addr(), slot.idx() as nat),
        ensures
            final(self).wf(),
            old(self)@.value(slot.addr(), slot.idx() as nat) == Some(value),
            final(self)@ == old(self)@.let_go(slot.addr(), slot.idx() as nat),
    {
        self.chain.take(slot)
    }

    /// Drops the value in place and lets go of the cell. If its slab is
    /// sealed and this was the slab's last handle, the slab is freed.
    pub fn release(&mut self, slot: Slot<T>)
        requires
            old(self).wf(),
            old(self)@.filled(slot.addr(), slot.idx() as nat),
        ensures
            final(self).wf(),
            final(self)@ == old(self)@.let_go(slot.addr(), slot.idx() as nat),
    {
        self.chain.release(slot)
    }

    /// Ends the arena's use of its head: the head is sealed, so that its last
    /// handle frees it, or freed at once if no handle is out. The slabs before
    /// it were sealed when they were replaced. An allocation after this brings
    /// a new head.
    pub fn close(&mut self)
        requires
            old(self).wf(),
        ensures
            final(self).wf(),
            final(self)@ == old(self)@.close(),
    {
        if self.inner != 0 {
            proof {
                lemma_seal(self@.chain.last());
            }
            self.chain.seal();
            self.inner = 0;
        }
    }
}

/// The state of a bump allocator: the slabs it has had, at `head` the address
/// of the one it allocates from, or zero if it has none, and in `assigned` the
/// bits of the cells of the head that it has handed out.
///
/// Its slabs are sealed from the start. The allocator itself holds the cells
/// of the head that it has not handed out yet.
pub struct BumpState<T> {
    pub head: usize,
    pub assigned: u64,
    pub chain: Seq<SlabState<T>>,
}

impl<T> BumpState<T> {
    /// A bump allocator that has no slab yet.
    pub open spec fn empty() -> Self {
        BumpState { head: 0, assigned: 0, chain: Seq::empty() }
    }

    /// The head, if there is one, is the newest slab. Every slab is sealed.
    /// The cells of the head are assigned from the bottom, and those that are
    /// not assigned are held and raw.
    pub open spec fn wf(self) -> bool {
        &&& chain_wf(self.chain)
        &&& filled_from_bottom(self.assigned)
        &&& self.head != 0 ==> self.chain.len() > 0 && self.head == addr_of(self.chain.len() - 1)
        &&& forall|k: int| 0 <= k < self.chain.len() ==> (#[trigger] self.chain[k]).sealed
        &&& self.head != 0 ==> held(!self.assigned).subset_of(self.chain.last().handles)
        &&& self.head != 0 ==> forall|i: nat|
            held(!self.assigned).contains(i) ==> self.chain.last().cells[i as int] is None
    }

    /// Whether one more slab can follow.
    pub open spec fn can_grow(self) -> bool {
        chain_can_grow(self.chain)
    }

    /// Cell `idx` of the slab at `addr` is held by a handle, not by the
    /// allocator.
    pub open spec fn held(self, addr: usize, idx: nat) -> bool {
        chain_held(self.chain, addr, idx) && (addr == self.head ==> is_set(self.assigned, idx))
    }

    /// Cell `idx` of the slab at `addr` stores a value.
    pub open spec fn filled(self, addr: usize, idx: nat) -> bool {
        chain_filled(self.chain, addr, idx)
    }

    /// The value in cell `idx` of the slab at `addr`.
    pub open spec fn value(self, addr: usize, idx: nat) -> Option<T> {
        self.chain[number_of(addr)].cells[idx as int]
    }

    /// The head has a cell that is not assigned.
    pub open spec fn ready(self) -> bool {
        self.head != 0 && self.assigned != ALL_ONES
    }

    /// The allocator at the moment at which it assigns the cell for the next
    /// value: as it is if the head has a cell left, and with a new head, of
    /// which nothing is assigned, otherwise. The slab that was the head is
    /// left to its handles.
    pub open spec fn grown(self) -> Self {
        if self.ready() {
            self
        } else {
            let addr = addr_of(self.chain.len() as int) as usize;
            BumpState { head: addr, assigned: 0, chain: self.chain.push(SlabState::taken(addr)) }
        }
    }

    /// The index of the cell that the next value goes to.
    pub open spec fn next_idx(self) -> nat {
        first_clear(self.grown().assigned)
    }

    /// The next value goes to the lowest cell of the head that is not
    /// assigned. The slab's own word stays as it is.
    pub open spec fn allocate(self, value: T) -> Self {
        let grown = self.grown();
        BumpState {
            head: grown.head,
            assigned: grown.assigned | bit(self.next_idx()),
            chain: grown.chain.update(
                grown.chain.len() - 1,
                grown.chain.last().put(self.next_idx(), value),
            ),
        }
    }

    /// The value of cell `idx` of the slab at `addr` leaves, and the cell is
    /// let go.
    pub open spec fn let_go(self, addr: usize, idx: nat) -> Self {
        BumpState {
            head: self.head,
            assigned: self.assigned,
            chain: chain_let_go(self.chain, addr, idx),
        }
    }

    /// The allocator lets go of the cells of the head that it never assigned,
    /// and has no head any more. A head of which every cell is assigned is
    /// left as it is.
    pub open spec fn close(self) -> Self {
        if self.ready() {
            BumpState {
                head: 0,
                assigned: 0,
                chain: self.chain.update(
                    self.chain.len() - 1,
                    self.chain.last().toggle(self.assigned ^ ALL_ONES),
                ),
            }
        } else {
            BumpState { head: 0, assigned: 0, chain: self.chain }
        }
    }
}

/// An allocation keeps the bump allocator well formed. The cell that it
/// assigns was held by no handle and is held by one afterwards, with the value
/// in it; no other cell changes hands, and no other value changes.
pub proof fn lemma_bump_allocate<T>(s: BumpState<T>, value: T)
    requires
        s.wf(),
        s.ready() || s.can_grow(),
    ensures
        s.allocate(value).wf(),
        !s.held(s.grown().head, s.next_idx()),
        s.allocate(value).held(s.grown().head, s.next_idx()),
        s.allocate(value).value(s.grown().head, s.next_idx()) == Some(value),
        forall|addr: usize, idx: nat|
            addr != s.grown().head || idx != s.next_idx() ==> s.allocate(value).held(addr, idx)
                == s.held(addr, idx),
        forall|addr: usize, idx: nat|
            s.held(addr, idx) ==> s.allocate(value).value(addr, idx) == s.value(addr, idx),
{
    let g = s.grown();
    let last = g.chain.len() - 1;
    let idx = s.next_idx();
    let a = s.allocate(value);
    if !s.ready() {
        let addr = addr_of(s.chain.len() as int) as usize;
        lemma_aligned(addr);
        lemma_taken::<T>(addr);
        lemma_word_identities(0);
        lemma_bit(0);
        assert forall|k: int| 0 <= k < g.chain.len() implies (#[trigger] g.chain[k]).sealed
            && g.chain[k].wf() && g.chain[k].addr == addr_of(k) by {
            if k < s.chain.len() {
                assert(s.chain[k].sealed);
            }
        }
        assert forall|x: usize, i: nat| g.held(x, i) == s.held(x, i) by {
            if chain_has(g.chain, x) && number_of(x) == last {
                assert(!is_set(g.assigned, i));
            }
        }
    }
    lemma_filled_from_bottom(g.assigned);
    assert(g.wf());
    assert(number_of(g.head) == last);
    lemma_first_clear(g.assigned);
    lemma_bitwise(g.assigned, 0);
    lemma_bitwise(g.assigned, bit(idx));
    lemma_bitwise(g.assigned | bit(idx), 0);
    lemma_bit(idx);
    assert(held(!g.assigned).contains(idx));
    lemma_put_then_vacate(g.chain[last], idx, value);
    assert forall|k: int| 0 <= k < a.chain.len() implies (#[trigger] a.chain[k]).sealed
        && a.chain[k].wf() && a.chain[k].addr == addr_of(k) by {
        assert(g.chain[k].sealed);
    }
    assert forall|i: nat| held(!a.assigned).contains(i) implies a.chain.last().handles.contains(i)
        && a.chain.last().cells[i as int] is None by {
        assert(is_set(!a.assigned, i));
        assert(!is_set(g.assigned | bit(idx), i));
        assert(held(!g.assigned).contains(i));
    }
    assert forall|x: usize, i: nat| x != g.head || i != idx implies a.held(x, i) == s.held(x, i) by {
        assert(g.held(x, i) == s.held(x, i));
    }
    assert forall|x: usize, i: nat| s.held(x, i) implies a.value(x, i) == s.value(x, i) by {
        assert(g.held(x, i));
        assert(g.value(x, i) == s.value(x, i));
    }
}

/// A bump allocator hands out its cells in order, within a slab and from one
/// slab to the next: the tagged word of each allocation is the one right
/// after the tagged word of the allocation before it.
pub proof fn lemma_bump_order<T>(s: BumpState<T>, first: T)
    requires
        s.wf(),
        s.ready() || s.can_grow(),
        s.allocate(first).ready() || s.allocate(first).can_grow(),
    ensures
        s.allocate(first).grown().head + s.allocate(first).next_idx() == s.grown().head
            + s.next_idx() + 1,
        s.next_idx() < 64,
        s.allocate(first).next_idx() < 64,
{
    let g = s.grown();
    let a = s.allocate(first);
    lemma_bump_allocate(s, first);
    lemma_filled_from_bottom(g.assigned);
    lemma_first_clear(g.assigned);
    lemma_first_clear(a.assigned);
    lemma_first_clear(a.grown().assigned);
}

/// Letting go of a cell that stores a value keeps the bump allocator well
/// formed. The cell is held by no handle afterwards; no other cell changes
/// hands, and no other value changes. The cell's slab is freed by it exactly
/// when this was its last cell held: every cell of it had been assigned, and
/// every other handle had let go.
pub proof fn lemma_bump_let_go<T>(s: BumpState<T>, addr: usize, idx: nat)
    requires
        s.wf(),
        s.filled(addr, idx),
    ensures
        s.let_go(addr, idx).wf(),
        s.held(addr, idx),
        !s.let_go(addr, idx).held(addr, idx),
        forall|a: usize, i: nat|
            a != addr || i != idx ==> s.let_go(addr, idx).held(a, i) == s.held(a, i),
        forall|a: usize, i: nat|
            s.let_go(addr, idx).held(a, i) ==> s.let_go(addr, idx).value(a, i) == s.value(a, i),
        s.let_go(addr, idx).chain[number_of(addr)].freed() <==> s.chain[number_of(addr)].handles
            == set![idx],
{
    let k = number_of(addr);
    let r = s.let_go(addr, idx);
    assert(s.chain[k].sealed);
    lemma_vacate(s.chain[k], idx);
    lemma_toggle_cell(s.chain[k].vacate(idx), idx);
    assert forall|j: int| 0 <= j < r.chain.len() implies (#[trigger] r.chain[j]).sealed
        && r.chain[j].wf() && r.chain[j].addr == addr_of(j) by {
        assert(s.chain[j].sealed);
    }
    if addr == s.head {
        assert(!held(!s.assigned).contains(idx));
        lemma_bitwise(s.assigned, 0);
    }
}

/// Closing keeps the bump allocator well formed, and keeps every cell that a
/// handle holds held and every value where it is. The head is freed by it
/// exactly when it had a cell left to assign and no handle holds a cell of
/// it.
pub proof fn lemma_bump_close<T>(s: BumpState<T>)
    requires
        s.wf(),
    ensures
        s.close().wf(),
        forall|addr: usize, idx: nat| s.close().held(addr, idx) == s.held(addr, idx),
        forall|addr: usize, idx: nat|
            s.held(addr, idx) ==> s.close().value(addr, idx) == s.value(addr, idx),
        s.ready() ==> (s.close().chain.last().freed() <==> forall|idx: nat|
            !s.held(s.head, idx)),
{
    let r = s.close();
    lemma_word_identities(s.assigned);
    lemma_bitwise(s.assigned, 0);
    lemma_bit(0);
    lemma_filled_from_bottom(0);
    if s.ready() {
        let last = s.chain.len() - 1;
        lemma_toggle(s.chain[last], !s.assigned);
        assert(number_of(s.head) == last);
        assert forall|k: int| 0 <= k < r.chain.len() implies (#[trigger] r.chain[k]).sealed
            && r.chain[k].wf() && r.chain[k].addr == addr_of(k) by {
            assert(s.chain[k].sealed);
        }
        assert forall|addr: usize, idx: nat| r.held(addr, idx) == s.held(addr, idx) by {
            if chain_has(s.chain, addr) && number_of(addr) == last {
                assert(held(!s.assigned).contains(idx) == (idx < 64 && !is_set(s.assigned, idx)));
            }
        }
        if r.chain.last().freed() {
            assert forall|idx: nat| !s.held(s.head, idx) by {
                if s.chain[last].handles.contains(idx) {
                    assert(held(!s.assigned).contains(idx));
                }
            }
        }
        if forall|idx: nat| !s.held(s.head, idx) {
            assert forall|idx: nat| s.chain[last].handles.contains(idx) implies held(
                !s.assigned,
            ).contains(idx) by {
                assert(!s.held(s.head, idx));
            }
            assert(s.chain[last].handles =~= held(!s.assigned));
        }
    } else {
        assert forall|addr: usize, idx: nat| r.held(addr, idx) == s.held(addr, idx) by {
            if chain_has(s.chain, addr) && s.chain[number_of(addr)].handles.contains(idx) {
                lemma_handles_in_range(s.chain[number_of(addr)], idx);
            }
        }
    }
}

/// A bump allocator: one caller, cells handed out in order.
pub struct Bump64<T> {
    occupancy: u64,
    inner: usize,
    chain: Chain<T>,
}

impl<T> View for Bump64<T> {
    type V = BumpState<T>;

    closed spec fn view(&self) -> BumpState<T> {
        BumpState { head: self.inner, assigned: self.occupancy, chain: self.chain@ }
    }
}

impl<T> Default for Bump64<T> {
    fn default() -> (bump: Self)
        ensures
            bump.wf(),
            bump@ == BumpState::<T>::empty(),
    {
        Self::new()
    }
}

impl<T> Bump64<T> {
    /// Every slab is well formed in itself.
    pub closed spec fn slabs_wf(&self) -> bool {
        self.chain.slabs_wf()
    }

    /// The allocator is well formed.
    pub open spec fn wf(&self) -> bool {
        self@.wf() && self.slabs_wf()
    }

    /// A bump allocator without a slab. The first allocation brings the first
    /// slab.
    pub fn new() -> (bump: Self)
        ensures
            bump.wf(),
            bump@ == BumpState::<T>::empty(),
    {
        proof {
            lemma_filled_from_bottom(0);
        }
        Bump64 { occupancy: 0, inner: 0, chain: Chain::new() }
    }

    /// Whether one more slab can follow.
    pub fn can_grow(&self) -> (yes: bool)
        ensures
            yes == self@.can_grow(),
    {
        self.chain.can_grow()
    }

    /// The number of slabs that the allocator has had.
    pub fn slabs(&self) -> (n: usize)
        ensures
            n == self@.chain.len(),
    {
        self.chain.len()
    }

    /// Allocate value into the next [`Slot`]: the lowest cell of the head that
    /// is not assigned, or, where the head has none left or is missing, the
    /// first cell of a new head.
    pub fn allocate(&mut self, value: T) -> (slot: Slot<T>)
        requires
            old(self).wf(),
            old(self)@.ready() || old(self)@.can_grow(),
        ensures
            final(self).wf(),
            final(self)@ == old(self)@.allocate(value),
            slot.addr() == final(self)@.head,
            slot.idx() == old(self)@.next_idx(),
            final(self)@.filled(slot.addr(), slot.idx() as nat),
            final(self)@.value(slot.addr(), slot.idx() as nat) == Some(value),
            !old(self)@.held(slot.addr(), slot.idx() as nat),
    {
        loop
            invariant
                self.wf(),
                self@.grown() == old(self)@.grown(),
                self@.ready() || self@.can_grow(),
                self@ == old(self)@ || self@.ready() && old(self)@.chain.len() < self@.chain.len(),
            decreases
                    (if self@.ready() {
                        0int
                    } else {
                        1int
                    }),
        {
            if self.inner != 0 {
                let ghost before = self@;
                if let Some(idx) = set_lowest_clear(&mut self.occupancy) {
                    proof {
                        lemma_filled_from_bottom(before.assigned);
                        lemma_bitwise(before.assigned, 0);
                        lemma_bitwise(before.assigned, bit(idx as nat));
                        lemma_bitwise(self.occupancy, 0);
                        lemma_bit(idx as nat);
                        assert(held(!before.assigned).contains(idx as nat));
                    }
                    let slot = self.chain.fill(idx, value);
                    proof {
                        assert(self@.chain =~= old(self)@.allocate(value).chain);
                        assert forall|i: nat| held(!self@.assigned).contains(i) implies held(
                            !before.assigned,
                        ).contains(i) && i != idx by {
                            assert(is_set(!self@.assigned, i));
                            assert(!is_set(before.assigned | bit(idx as nat), i));
                        }
                    }
                    return slot;
                }
            }
            let addr: usize = self.chain.next_addr();
            self.chain.push(Boxed64::taken_at(addr));
            self.inner = addr;
            self.occupancy = 0;
            proof {
                lemma_word_identities(0);
                lemma_bit(0);
                lemma_filled_from_bottom(0);
            }
        }
    }

    /// Whether `slot` stands for a cell of this allocator that holds a value.
    pub fn holds(&self, slot: &Slot<T>) -> (yes: bool)
        requires
            self.wf(),
        ensures
            yes == self@.filled(slot.addr(), slot.idx() as nat),
    {
        self.chain.holds(slot)
    }

    /// The value in the cell.
    pub fn get<'a>(&'a self, slot: &Slot<T>) -> (value: &'a T)
        requires
            self.wf(),
            self@.filled(slot.addr(), slot.idx() as nat),
        ensures
            self@.value(slot.addr(), slot.idx() as nat) == Some(*value),
    {
        self.chain.get(slot)
    }

    /// The value in the cell, to be changed in place.
    pub fn get_mut<'a>(&'a mut self, slot: &Slot<T>) -> (value: &'a mut T)
        requires
            old(self).wf(),
            old(self)@.filled(slot.addr(), slot.idx() as nat),
        ensures
            old(self)@.value(slot.addr(), slot.idx() as nat) == Some(*value),
            final(self)@.head == old(self)@.head,
            final(self)@.assigned == old(self)@.assigned,
            final(self)@.chain == old(self)@.chain.update(
                number_of(slot.addr()),
                old(self)@.chain[number_of(slot.addr())].put(slot.idx() as nat, *final(value)),
            ),
            final(self).wf(),
    {
        let value = self.chain.get_mut(slot);
        proof {
            assert forall|k: int| 0 <= k < after_borrow(*self)@.chain.len() implies (
            #[trigger] after_borrow(*self)@.chain[k]).sealed by {
                assert(old(self)@.chain[k].sealed);
            }
        }
        value
    }

    /// Moves the value out and lets go of the cell. If every cell of its slab
    /// was assigned and this was the slab's last handle, the slab is freed.
    pub fn take(&mut self, slot: Slot<T>) -> (value: T)
        requires
            old(self).wf(),
            old(self)@.filled(slot.addr(), slot.idx() as nat),
        ensures
            final(self).wf(),
            old(self)@.value(slot.addr(), slot.idx() as nat) == Some(value),
            final(self)@ == old(self)@.let_go(slot.addr(), slot.idx() as nat),
    {
        proof {
            lemma_toggle_cell(
                self@.chain[number_of(slot.addr())].vacate(slot.idx() as nat),
                slot.idx() as nat,
            );
        }
        self.chain.take(slot)
    }

    /// Drops the value in place and lets go of the cell. If every cell of its
    /// slab was assigned and this was the slab's last handle, the slab is
    /// freed.
    pub fn release(&mut self, slot: Slot<T>)
        requires
            old(self).wf(),
            old(self)@.filled(slot.addr(), slot.idx() as nat),
        ensures
            final(self).wf(),
            final(self)@ == old(self)@.let_go(slot.addr(), slot.idx() as nat),
    {
        proof {
            lemma_toggle_cell(
                self@.chain[number_of(slot.addr())].vacate(slot.idx() as nat),
                slot.idx() as nat,
            );
        }
        self.chain.release(slot)
    }

    /// Ends the allocator's use of its head: it lets go of the cells that it
    /// never assigned. If the handles of the assigned cells have all let go
    /// before, the head is freed; otherwise its last handle frees it. A head
    /// of which every cell is assigned belongs to its handles already. An
    /// allocation after this brings a new head.
    pub fn close(&mut self)
        requires
            old(self).wf(),
        ensures
            final(self).wf(),
            final(self)@ == old(self)@.close(),
    {
        if self.inner != 0 && self.occupancy != ALL_ONES {
            // These bits were never assigned to.
            let unoccupied: u64 = self.occupancy ^ ALL_ONES;
            proof {
                lemma_word_identities(self.occupancy);
            }
            self.chain.flip(unoccupied);
        }
        self.inner = 0;
        self.occupancy = 0;
        proof {
            lemma_filled_from_bottom(0);
        }
    }
}

} // verus!
