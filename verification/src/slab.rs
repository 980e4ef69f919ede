//! A slab as a value: its occupancy word, its sixty-four cells, and the set
//! of cells that are held.
//!
//! Every allocator in this crate is viewed as one or more of these, and the
//! contracts of the allocators are written over the steps defined here. The
//! set of held cells changes only where a step says so: a cell is added where
//! a handle comes into being and removed where a handle ends. That the word
//! agrees with this set is part of being well formed, and the lemmas below
//! show that every step keeps it so.

use vstd::prelude::*;
use vstd::std_specs::bits::u64_trailing_zeros;
use crate::bits::{ALL_ONES, bit, count_ones, first_clear, held, is_set};
use crate::bits::{lemma_bit, lemma_bitwise, lemma_count_not, lemma_count_ones, lemma_fills,
    lemma_first_clear, lemma_first_clear_count, lemma_held_cell, lemma_held_toggle, lemma_lowest_set, lemma_word_ext,
    lemma_word_identities};
use crate::tagged::aligned;

verus! {

/// The cells that an occupancy word marks as held: those whose bits are set
/// while the slab is live, and those whose bits are clear once it is sealed.
pub open spec fn marked(word: u64, sealed: bool) -> Set<nat> {
    if sealed {
        held(!word)
    } else {
        held(word)
    }
}

/// The state of one slab.
pub struct SlabState<T> {
    /// The slab's address, under which its handles are tagged.
    pub addr: usize,
    /// The occupancy word.
    pub word: u64,
    /// The cells: `None` where the storage is raw, `Some` where it holds a
    /// value.
    pub cells: Seq<Option<T>>,
    /// Whether the slab was sealed.
    pub sealed: bool,
    /// The indices of the cells that are held: by a handle, by a tagged word
    /// that stands for one, or by an allocator that has not handed the cell
    /// out yet.
    pub handles: Set<nat>,
}

impl<T> SlabState<T> {
    /// A new slab at `addr`: nothing held, nothing stored.
    pub open spec fn fresh(addr: usize) -> Self {
        SlabState {
            addr,
            word: 0,
            cells: Seq::new(64, |i: int| None),
            sealed: false,
            handles: Set::empty(),
        }
    }

    /// A slab at `addr` that is sealed from the start, with every cell held
    /// and nothing stored: its allocator holds whatever it has not handed
    /// out.
    pub open spec fn taken(addr: usize) -> Self {
        SlabState {
            addr,
            word: 0,
            cells: Seq::new(64, |i: int| None),
            sealed: true,
            handles: Set::new(|i: nat| i < 64),
        }
    }

    /// The slab has its sixty-four cells at an aligned address, the held
    /// cells are the ones that the word marks, and only a held cell stores a
    /// value.
    pub open spec fn wf(self) -> bool {
        &&& aligned(self.addr)
        &&& self.cells.len() == 64
        &&& self.handles == marked(self.word, self.sealed)
        &&& forall|i: int|
            0 <= i < 64 && #[trigger] self.cells[i] is Some ==> self.handles.contains(i as nat)
    }

    /// The slab's memory is gone: it was sealed, and every cell has been let
    /// go since.
    pub open spec fn freed(self) -> bool {
        self.sealed && self.word == ALL_ONES
    }

    /// Cell `idx` of the slab at `addr` is held and its storage is raw: the
    /// state in which an uninitialised handle stands for it.
    pub open spec fn reserved(self, addr: usize, idx: nat) -> bool {
        &&& addr == self.addr
        &&& self.handles.contains(idx)
        &&& self.cells[idx as int] is None
    }

    /// Cell `idx` of the slab at `addr` stores a value: the state in which an
    /// initialised handle, or a tagged word, stands for it.
    pub open spec fn filled(self, addr: usize, idx: nat) -> bool {
        &&& addr == self.addr
        &&& idx < 64
        &&& self.cells[idx as int] is Some
    }

    /// How many more cells can be handed out.
    pub open spec fn capacity(self) -> nat {
        (64 - self.handles.len()) as nat
    }

    /// One round of claiming a cell from the view `seen` of the word: the
    /// lowest bit that is clear in `seen` is set in the word. If the word did
    /// not have that bit, its cell is now held. If `seen` is full, or the word
    /// had the bit already, nothing changes.
    pub open spec fn claim(self, seen: u64) -> Self {
        if seen == ALL_ONES || is_set(self.word, first_clear(seen)) {
            self
        } else {
            SlabState {
                word: self.word | bit(first_clear(seen)),
                handles: self.handles.insert(first_clear(seen)),
                ..self
            }
        }
    }

    /// The lowest free cell becomes held. On a full word nothing changes.
    pub open spec fn acquire(self) -> Self {
        self.claim(self.word)
    }

    /// A value is written into cell `idx`.
    pub open spec fn put(self, idx: nat, value: T) -> Self {
        SlabState { cells: self.cells.update(idx as int, Some(value)), ..self }
    }

    /// The value of cell `idx` leaves; its storage is raw again.
    pub open spec fn vacate(self, idx: nat) -> Self {
        SlabState { cells: self.cells.update(idx as int, None), ..self }
    }

    /// Cell `idx` is let go by clearing its bit.
    pub open spec fn release(self, idx: nat) -> Self {
        SlabState { word: self.word & !bit(idx), handles: self.handles.remove(idx), ..self }
    }

    /// The cells whose bits are in `mask` are let go by flipping their bits.
    pub open spec fn toggle(self, mask: u64) -> Self {
        SlabState {
            word: self.word ^ mask,
            handles: self.handles.difference(held(mask)),
            ..self
        }
    }

    /// The word is inverted and the slab is sealed from then on. No cell is
    /// let go by it.
    pub open spec fn seal(self) -> Self {
        SlabState { word: self.word ^ ALL_ONES, sealed: true, ..self }
    }
}

/// A new slab is well formed, has no cell held and room for sixty-four.
pub proof fn lemma_fresh<T>(addr: usize)
    requires
        aligned(addr),
    ensures
        SlabState::<T>::fresh(addr).wf(),
        SlabState::<T>::fresh(addr).capacity() == 64,
{
    lemma_bit(0);
    assert(marked(0, false) =~= Set::<nat>::empty());
}

/// A slab that starts out sealed and held is well formed, and not freed.
pub proof fn lemma_taken<T>(addr: usize)
    requires
        aligned(addr),
    ensures
        SlabState::<T>::taken(addr).wf(),
        !SlabState::<T>::taken(addr).freed(),
{
    lemma_bit(0);
    lemma_word_identities(0);
    assert(marked(0, true) =~= Set::new(|i: nat| i < 64));
}

/// In a well-formed slab, the number of held cells is the number of set bits
/// of the word while the slab is live, and the number of its clear bits once
/// the slab is sealed.
pub proof fn lemma_handles_counted<T>(s: SlabState<T>)
    requires
        s.wf(),
    ensures
        s.handles.finite(),
        s.handles.len() <= 64,
        !s.sealed ==> s.handles.len() == count_ones(s.word),
        s.sealed ==> s.handles.len() == 64 - count_ones(s.word),
{
    lemma_count_ones(s.word);
    lemma_count_ones(!s.word);
    lemma_count_not(s.word);
}

/// Once no cell is held any more, a live slab's word is back at zero and a
/// sealed slab is freed; and only then. No cell stores a value any more.
pub proof fn lemma_no_handles<T>(s: SlabState<T>)
    requires
        s.wf(),
    ensures
        !s.sealed ==> (s.handles.len() == 0 <==> s.word == 0),
        s.sealed ==> (s.handles.len() == 0 <==> s.freed()),
        s.handles.len() == 0 ==> forall|i: int| 0 <= i < 64 ==> s.cells[i] is None,
{
    lemma_handles_counted(s);
    lemma_count_ones(s.word);
    lemma_count_ones(!s.word);
    lemma_word_identities(s.word);
    if s.handles.len() == 0 {
        s.handles.lemma_len0_is_empty();
        assert forall|i: int| 0 <= i < 64 implies s.cells[i] is None by {
            assert(!s.handles.contains(i as nat));
        }
    }
}

/// A held cell is one of the sixty-four.
pub proof fn lemma_handles_in_range<T>(s: SlabState<T>, idx: nat)
    requires
        s.wf(),
        s.handles.contains(idx),
    ensures
        idx < 64,
{
}

/// A slab with a held cell is not freed.
pub proof fn lemma_held_not_freed<T>(s: SlabState<T>, idx: nat)
    requires
        s.wf(),
        s.handles.contains(idx),
    ensures
        !s.freed(),
{
    lemma_word_identities(s.word);
    lemma_bit(0);
}

/// One round of claiming a cell on a live slab, from any view of the word,
/// however old. The slab stays well formed. Either the round has claimed a
/// cell that was not held, which is then held and raw, or the slab is as it
/// was.
pub proof fn lemma_claim<T>(s: SlabState<T>, seen: u64)
    requires
        s.wf(),
        !s.sealed,
    ensures
        s.claim(seen).wf(),
        s.claim(seen) != s ==> {
            let idx = first_clear(seen);
            &&& idx < 64
            &&& !s.handles.contains(idx)
            &&& s.claim(seen).handles == s.handles.insert(idx)
            &&& s.claim(seen).reserved(s.addr, idx)
            &&& s.claim(seen).capacity() == s.capacity() - 1
        },
{
    let idx = first_clear(seen);
    lemma_first_clear(seen);
    if s.claim(seen) != s {
        lemma_held_cell(s.word, idx);
        lemma_handles_counted(s);
        lemma_count_ones(s.word | bit(idx));
    }
}

/// The slab after one round of claiming for each view in `views`, in that
/// order.
pub open spec fn after_rounds<T>(s: SlabState<T>, views: Seq<u64>) -> SlabState<T>
    decreases views.len(),
{
    if views.len() == 0 {
        s
    } else {
        after_rounds(s, views.drop_last()).claim(views.last())
    }
}

/// How many of these rounds claim a cell.
pub open spec fn rounds_won<T>(s: SlabState<T>, views: Seq<u64>) -> nat
    decreases views.len(),
{
    if views.len() == 0 {
        0
    } else {
        let before = after_rounds(s, views.drop_last());
        rounds_won(s, views.drop_last()) + if before.claim(views.last()) != before {
            1nat
        } else {
            0nat
        }
    }
}

/// However the rounds of several callers fall one after another, and
/// whatever each of them has seen of the word: the slab stays well formed,
/// every cell that was held stays held, and the cells held grow by exactly
/// one for each round that claims a cell. So no two rounds claim the same
/// cell, and none claims a cell that was held.
pub proof fn lemma_rounds<T>(s: SlabState<T>, views: Seq<u64>)
    requires
        s.wf(),
        !s.sealed,
    ensures
        after_rounds(s, views).wf(),
        !after_rounds(s, views).sealed,
        after_rounds(s, views).cells == s.cells,
        s.handles.subset_of(after_rounds(s, views).handles),
        after_rounds(s, views).handles.len() == s.handles.len() + rounds_won(s, views),
    decreases views.len(),
{
    if views.len() > 0 {
        let before = after_rounds(s, views.drop_last());
        lemma_rounds(s, views.drop_last());
        lemma_claim(before, views.last());
        lemma_handles_counted(before);
        lemma_handles_counted(before.claim(views.last()));
    }
}

/// A live slab hands out its lowest free cell, and fails exactly when its
/// capacity is used up: with sixty-four cells held.
pub proof fn lemma_acquire<T>(s: SlabState<T>)
    requires
        s.wf(),
        !s.sealed,
    ensures
        s.acquire().wf(),
        s.word == ALL_ONES <==> s.capacity() == 0,
        s.word == ALL_ONES <==> s.handles.len() == 64,
        s.word == ALL_ONES <==> s.acquire() == s,
        s.word != ALL_ONES ==> {
            let idx = first_clear(s.word);
            &&& idx < 64
            &&& idx <= s.handles.len()
            &&& !s.handles.contains(idx)
            &&& forall|j: nat| j < idx ==> s.handles.contains(j)
            &&& s.acquire().word == s.word | bit(idx)
            &&& s.acquire().handles == s.handles.insert(idx)
            &&& s.acquire().reserved(s.addr, idx)
            &&& s.acquire().capacity() == s.capacity() - 1
        },
{
    lemma_claim(s, s.word);
    lemma_handles_counted(s);
    lemma_count_ones(s.word);
    lemma_first_clear(s.word);
    lemma_first_clear_count(s.word);
    if s.word != ALL_ONES {
        assert(s.acquire().handles.contains(first_clear(s.word)));
    }
}

/// Writing a value into a reserved cell makes it a filled cell that stores
/// exactly that value; moving the value out again leaves the slab as it was.
pub proof fn lemma_put_then_vacate<T>(s: SlabState<T>, idx: nat, value: T)
    requires
        s.wf(),
        s.reserved(s.addr, idx),
    ensures
        s.put(idx, value).wf(),
        s.put(idx, value).filled(s.addr, idx),
        s.put(idx, value).cells[idx as int] == Some(value),
        s.put(idx, value).handles == s.handles,
        s.put(idx, value).vacate(idx) == s,
{
    assert(s.put(idx, value).vacate(idx).cells =~= s.cells);
}

/// Moving the value out of a filled cell leaves the cell held and raw.
pub proof fn lemma_vacate<T>(s: SlabState<T>, idx: nat)
    requires
        s.wf(),
        s.filled(s.addr, idx),
    ensures
        s.vacate(idx).wf(),
        s.vacate(idx).reserved(s.addr, idx),
        s.vacate(idx).handles == s.handles,
{
}

/// Clearing the bit of a held cell whose storage is raw keeps a live slab
/// well formed and gives back room for one. Flipping that bit does the same.
pub proof fn lemma_release<T>(s: SlabState<T>, idx: nat)
    requires
        s.wf(),
        !s.sealed,
        s.reserved(s.addr, idx),
    ensures
        s.release(idx).wf(),
        s.release(idx).capacity() == s.capacity() + 1,
        s.release(idx) == s.toggle(bit(idx)),
{
    lemma_held_cell(s.word, idx);
    lemma_handles_counted(s);
    lemma_count_ones(s.word & !bit(idx));
    lemma_bitwise(s.word, bit(idx));
    lemma_bitwise(s.word, !bit(idx));
    lemma_bitwise(bit(idx), 0);
    lemma_bit(idx);
    lemma_word_ext(s.word & !bit(idx), s.word ^ bit(idx));
    assert(held(bit(idx)) =~= set![idx]);
    assert(s.handles.remove(idx) =~= s.handles.difference(held(bit(idx))));
}

/// Flipping the bits of held cells whose storage is raw keeps the slab well
/// formed, whether it is live or sealed. The slab is freed by it exactly when
/// it is sealed and these were the last cells held; and, unless a live slab
/// is given an empty mask, exactly when the word before the flip was the
/// complement of the mask.
pub proof fn lemma_toggle<T>(s: SlabState<T>, mask: u64)
    requires
        s.wf(),
        held(mask).subset_of(s.handles),
        forall|i: nat| held(mask).contains(i) ==> s.cells[i as int] is None,
    ensures
        s.toggle(mask).wf(),
        s.toggle(mask).freed() <==> s.sealed && s.handles == held(mask),
        s.sealed || mask != 0 ==> (s.toggle(mask).freed() <==> s.word == !mask),
{
    lemma_held_toggle(s.word, mask);
    let t = s.toggle(mask);
    assert forall|i: int| 0 <= i < 64 && #[trigger] t.cells[i] is Some implies t.handles.contains(
        i as nat,
    ) by {
        assert(s.handles.contains(i as nat));
        assert(!held(mask).contains(i as nat));
    }
    lemma_no_handles(t);
    lemma_handles_counted(t);
    lemma_fills(s.word, mask);
    if s.sealed {
        if t.freed() {
            t.handles.lemma_len0_is_empty();
            assert forall|i: nat| s.handles.contains(i) implies held(mask).contains(i) by {
                assert(!t.handles.contains(i));
            }
            assert(s.handles =~= held(mask));
        }
        if s.handles == held(mask) {
            assert(t.handles =~= Set::empty());
        }
    } else if mask != 0 {
        lemma_lowest_set(mask);
        lemma_bitwise(mask, 0);
        let j = u64_trailing_zeros(mask) as nat;
        assert(held(mask).contains(j));
        assert(is_set(s.word, j) && !is_set(!mask, j));
    }
}

/// Flipping the bit of one held cell whose storage is raw takes that cell out
/// of the held ones. The slab is freed by it exactly when the word before the
/// flip had every bit set but this one: then the slab was sealed and this was
/// the last cell held.
pub proof fn lemma_toggle_cell<T>(s: SlabState<T>, idx: nat)
    requires
        s.wf(),
        s.reserved(s.addr, idx),
    ensures
        s.toggle(bit(idx)).wf(),
        s.toggle(bit(idx)).handles == s.handles.remove(idx),
        s.toggle(bit(idx)).freed() <==> s.word == !bit(idx),
        s.toggle(bit(idx)).freed() <==> s.sealed && s.handles == set![idx],
        s.toggle(bit(idx)).freed() <==> s.sealed && s.handles.len() == 1,
{
    lemma_bit(idx);
    assert(held(bit(idx)) =~= set![idx]);
    lemma_toggle(s, bit(idx));
    assert(s.handles.difference(set![idx]) =~= s.handles.remove(idx));
    lemma_handles_counted(s);
    if s.handles.len() == 1 {
        s.handles.remove(idx).lemma_len0_is_empty();
        assert(s.handles =~= set![idx]);
    }
}

/// Sealing keeps a slab well formed, and keeps every held cell and every
/// value. It frees the slab at once exactly when no cell is held.
pub proof fn lemma_seal<T>(s: SlabState<T>)
    requires
        s.wf(),
        !s.sealed,
    ensures
        s.seal().wf(),
        s.seal().freed() <==> s.word == 0,
        s.seal().freed() <==> s.handles.len() == 0,
{
    lemma_word_identities(s.word);
    lemma_no_handles(s);
}

} // verus!
