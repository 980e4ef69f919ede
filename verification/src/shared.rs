//! The words that threads share: a slab's occupancy word and an arena's head.
//!
//! Each function here is one atomic step on a word together with what is
//! decided from the value that the step found. What another thread does
//! between two steps is not known here, so a contract speaks only of what
//! follows from the caller's own arguments.

use vstd::prelude::*;
use core::sync::atomic::{AtomicU64, AtomicUsize, Ordering};
use crossbeam_utils::atomic::AtomicConsume;
use crate::bits::{ALL_ONES, CELLS, bit_index, cell_bit, fills, first_clear, is_set,
    lowest_clear_bit, won};
use crate::bits::lemma_first_clear;

verus! {

/// An occupancy word that several threads work on.
pub struct Occupancy {
    word: AtomicU64,
}

/// How one round of claiming a cell ended.
pub enum Round {
    /// The cell with this index is the caller's.
    Claimed(usize),
    /// Another thread had the cell already. The word as it was found, which
    /// holds the bit of that cell, is the view to try again from.
    Lost(u64),
    /// The view had no clear bit. The word was not touched.
    Saturated,
}

impl Occupancy {
    /// A word in which no cell is held.
    pub fn new() -> Self {
        Occupancy { word: AtomicU64::new(0) }
    }

    /// Reads the word, after every release that came before.
    pub fn load(&self) -> u64 {
        self.word.load(Ordering::Acquire)
    }

    /// One round of claiming a cell: picks the lowest bit that is clear in
    /// `seen`, sets it in the word, and looks whether it was clear there too.
    pub fn claim(&self, seen: u64) -> (round: Round)
        ensures
            round is Saturated <==> seen == ALL_ONES,
            round matches Round::Claimed(idx) ==> idx == first_clear(seen) && idx < CELLS,
            round matches Round::Lost(next) ==> is_set(next, first_clear(seen)),
    {
        let found: u64 = lowest_clear_bit(seen);
        if found == 0 {
            Round::Saturated
        } else {
            proof {
                lemma_first_clear(seen);
            }
            let before: u64 = self.word.fetch_or(found, Ordering::AcqRel);
            if won(before, found) {
                Round::Claimed(bit_index(found))
            } else {
                Round::Lost(before)
            }
        }
    }

    /// Clears the bit of cell `idx`: the release of a cell of a slab that is
    /// never sealed.
    pub fn release(&self, idx: usize)
        requires
            idx < CELLS,
    {
        self.word.fetch_and(!cell_bit(idx), Ordering::Release);
    }

    /// Flips the bits of `mask`: the release of the cells of a slab that may
    /// be sealed. Returns whether the word is full by it, in which case the
    /// slab was sealed, these were its last cells and the caller frees it.
    pub fn toggle(&self, mask: u64) -> bool {
        fills(self.word.fetch_xor(mask, Ordering::AcqRel), mask)
    }

    /// Inverts the word: the seal. Returns whether no cell was held, in which
    /// case the caller frees the slab; otherwise the last release does.
    pub fn seal(&self) -> bool {
        fills(self.word.fetch_xor(ALL_ONES, Ordering::AcqRel), ALL_ONES)
    }
}

/// The address of the slab that an arena allocates from, where threads share
/// it. Zero stands for no slab.
pub struct Head {
    addr: AtomicUsize,
}

impl Head {
    /// A head that names no slab.
    pub fn new() -> Self {
        Head { addr: AtomicUsize::new(0) }
    }

    /// Reads the head. What is then read through the address comes after the
    /// writes that came before the head was set.
    pub fn load(&self) -> usize {
        load_consume(&self.addr)
    }

    /// Puts `fresh` in the place of `current`, if `current` is still the head.
    /// `Ok` holds the head that was replaced, which is `current`; `Err` holds
    /// the head that had taken its place before, and `fresh` was not put
    /// there.
    pub fn exchange(&self, current: usize, fresh: usize) -> (outcome: Result<usize, usize>)
        ensures
            outcome matches Ok(previous) ==> previous == current,
    {
        match self.addr.compare_exchange(current, fresh, Ordering::AcqRel, Ordering::Acquire) {
            Ok(_) => Ok(current),
            Err(head) => Err(head),
        }
    }
}

/// `AtomicConsume::load_consume` of crossbeam-utils, on an `AtomicUsize`: it
/// hands back the value that it loads from `word`. Which value that is lies
/// with the threads that store to `word`, so nothing is claimed of it.
#[verifier::external_body]
fn load_consume(word: &AtomicUsize) -> usize {
    word.load_consume()
}

} // verus!
