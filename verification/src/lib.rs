//! Fixed-width slab allocators over a 64-bit occupancy word.
//!
//! A slab has 64 cells. Bit `i` of its occupancy word records whether cell `i`
//! is held. A handle to a cell can pass through a single machine word: the
//! slab's address, whose low six bits are zero, with the cell index in those
//! bits.
//!
//! - [`bits`] computes on the occupancy word, and [`tagged`] on tagged words.
//! - [`slab`] says what a slab is as a value and which steps it takes, and
//!   shows that every step keeps the word and the set of held cells in
//!   agreement.
//! - [`heapless`], [`boxed`] and [`arena`] are the allocators, for a single
//!   caller: a slab is changed through `&mut`, and a handle is a token that is
//!   given back to its slab by name. Their contracts say exactly which step
//!   each operation takes.
//! - [`shared`] holds the atomic steps on the words that threads share.

pub mod arena;
pub mod bits;
pub mod boxed;
pub mod chain;
pub mod heapless;
pub mod shared;
pub mod slab;
pub mod tagged;
