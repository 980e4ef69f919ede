//! The occupancy word: sixty-four bits, one per cell.
//!
//! Everything the slabs decide is decided on this word. The functions here
//! compute on it, and the lemmas say what the bitwise operators do to the set
//! of indices whose bits are set.

use vstd::prelude::*;
use vstd::std_specs::bits::{axiom_u64_trailing_zeros, u64_trailing_zeros};

verus! {

/// Number of cells in a slab.
pub const CELLS: usize = 64;

/// The occupancy word of a slab in which every bit is set.
pub const ALL_ONES: u64 = 0xffff_ffff_ffff_ffff;

/// The word with only bit `idx` set.
pub open spec fn bit(idx: nat) -> u64 {
    1u64 << idx
}

/// Whether bit `idx` of `word` is set. No index from 64 on is.
pub open spec fn is_set(word: u64, idx: nat) -> bool {
    idx < 64 && word & bit(idx) != 0
}

/// The indices of the bits that are set in `word`.
pub open spec fn held(word: u64) -> Set<nat> {
    Set::new(|idx: nat| is_set(word, idx))
}

/// The least index from `from` on whose bit is clear in `word`, or 64 if
/// there is none.
pub open spec fn first_clear_from(word: u64, from: nat) -> nat
    decreases 64 - from,
{
    if from < 64 && is_set(word, from) {
        first_clear_from(word, from + 1)
    } else if from < 64 {
        from
    } else {
        64
    }
}

/// The least index whose bit is clear in `word`, or 64 if every bit is set.
pub open spec fn first_clear(word: u64) -> nat {
    first_clear_from(word, 0)
}

/// The lowest clear bit of `word`, alone in a word; zero if `word` has none.
pub open spec fn lowest_clear(word: u64) -> u64 {
    if word == ALL_ONES {
        0
    } else {
        bit(first_clear(word))
    }
}

/// Whether `word` is filled from the bottom: every set bit lies below the
/// lowest clear bit.
pub open spec fn filled_from_bottom(word: u64) -> bool {
    forall|j: nat| is_set(word, j) ==> j < first_clear(word)
}

/// How many of the bits below `n` are set in `word`.
pub open spec fn count_below(word: u64, n: nat) -> nat
    decreases n,
{
    if n == 0 {
        0
    } else {
        count_below(word, (n - 1) as nat) + if is_set(word, (n - 1) as nat) {
            1nat
        } else {
            0nat
        }
    }
}

/// How many bits are set in `word`.
pub open spec fn count_ones(word: u64) -> nat {
    count_below(word, 64)
}

proof fn lemma_bitwise_at(x: u64, y: u64, a: u64, b: u64)
    by (bit_vector)
    requires
        a < 64,
        b < 64,
    ensures
        ((x | y) & (1u64 << b) != 0) == (x & (1u64 << b) != 0 || y & (1u64 << b) != 0),
        ((x & y) & (1u64 << b) != 0) == (x & (1u64 << b) != 0 && y & (1u64 << b) != 0),
        ((x ^ y) & (1u64 << b) != 0) == ((x & (1u64 << b) != 0) != (y & (1u64 << b) != 0)),
        ((!x) & (1u64 << b) != 0) == (x & (1u64 << b) == 0),
        ((1u64 << a) & (1u64 << b) != 0) == (a == b),
        ((x >> b) & 1 == 1) == (x & (1u64 << b) != 0),
        ((x >> b) & 1 == 0) == (x & (1u64 << b) == 0),
        0u64 & (1u64 << b) == 0,
        0xffff_ffff_ffff_ffffu64 & (1u64 << b) != 0,
{
}

/// The bitwise operators, bit by bit.
pub proof fn lemma_bitwise(x: u64, y: u64)
    ensures
        forall|j: nat| #[trigger] is_set(x | y, j) == (is_set(x, j) || is_set(y, j)),
        forall|j: nat| #[trigger] is_set(x & y, j) == (is_set(x, j) && is_set(y, j)),
        forall|j: nat| #[trigger] is_set(x ^ y, j) == (is_set(x, j) != is_set(y, j)),
        forall|j: nat| j < 64 ==> #[trigger] is_set(!x, j) == !is_set(x, j),
{
    assert forall|j: nat| #[trigger] is_set(x | y, j) == (is_set(x, j) || is_set(y, j)) by {
        if j < 64 {
            lemma_bitwise_at(x, y, 0, j as u64);
        }
    }
    assert forall|j: nat| #[trigger] is_set(x & y, j) == (is_set(x, j) && is_set(y, j)) by {
        if j < 64 {
            lemma_bitwise_at(x, y, 0, j as u64);
        }
    }
    assert forall|j: nat| #[trigger] is_set(x ^ y, j) == (is_set(x, j) != is_set(y, j)) by {
        if j < 64 {
            lemma_bitwise_at(x, y, 0, j as u64);
        }
    }
    assert forall|j: nat| j < 64 implies #[trigger] is_set(!x, j) == !is_set(x, j) by {
        lemma_bitwise_at(x, y, 0, j as u64);
    }
}

/// A single bit, the empty word and the full word, bit by bit.
pub proof fn lemma_bit(idx: nat)
    requires
        idx < 64,
    ensures
        forall|j: nat| #[trigger] is_set(bit(idx), j) == (j == idx),
        forall|j: nat| !#[trigger] is_set(0, j),
        forall|j: nat| j < 64 ==> #[trigger] is_set(ALL_ONES, j),
        bit(idx) != 0,
{
    assert forall|j: nat| #[trigger] is_set(bit(idx), j) == (j == idx) by {
        if j < 64 {
            lemma_bitwise_at(0, 0, idx as u64, j as u64);
        }
    }
    assert forall|j: nat| !#[trigger] is_set(0, j) by {
        if j < 64 {
            lemma_bitwise_at(0, 0, 0, j as u64);
        }
    }
    assert forall|j: nat| j < 64 implies #[trigger] is_set(ALL_ONES, j) by {
        lemma_bitwise_at(0, 0, 0, j as u64);
    }
    assert(is_set(bit(idx), idx));
}

proof fn lemma_xor_zero(x: u64, y: u64)
    by (bit_vector)
    ensures
        x ^ y == 0 ==> x == y,
        !x == 0 ==> x == 0xffff_ffff_ffff_ffffu64,
        !x & 0 == 0,
        !0xffff_ffff_ffff_ffffu64 == 0,
        x | 0 == x,
        x ^ 0 == x,
        x ^ 0xffff_ffff_ffff_ffffu64 == !x,
        !!x == x,
{
}

/// The empty word changes nothing, the full word inverts, and inverting twice
/// gives the word back.
pub proof fn lemma_word_identities(x: u64)
    ensures
        x | 0 == x,
        x ^ 0 == x,
        x ^ ALL_ONES == !x,
        !!x == x,
        !ALL_ONES == 0,
        !x == 0 <==> x == ALL_ONES,
        !x == ALL_ONES <==> x == 0,
{
    lemma_xor_zero(x, 0);
    lemma_xor_zero(!x, 0);
}

/// A nonzero word has a lowest set bit.
pub proof fn lemma_lowest_set(word: u64)
    requires
        word != 0,
    ensures
        u64_trailing_zeros(word) < 64,
        is_set(word, u64_trailing_zeros(word) as nat),
        forall|j: nat| j < u64_trailing_zeros(word) ==> !is_set(word, j),
{
    axiom_u64_trailing_zeros(word);
    let t = u64_trailing_zeros(word);
    lemma_bitwise_at(word, 0, 0, t as u64);
    assert forall|j: nat| j < t implies !is_set(word, j) by {
        assert((word >> (j as u64)) & 1u64 == 0u64);
        lemma_bitwise_at(word, 0, 0, j as u64);
    }
}

/// Two words with the same bits set are the same word.
pub proof fn lemma_word_ext(x: u64, y: u64)
    requires
        forall|j: nat| j < 64 ==> is_set(x, j) == is_set(y, j),
    ensures
        x == y,
{
    if x ^ y != 0 {
        lemma_lowest_set(x ^ y);
        lemma_bitwise(x, y);
        let t = u64_trailing_zeros(x ^ y) as nat;
        assert(is_set(x ^ y, t));
        assert(is_set(x, t) == is_set(y, t));
    }
    lemma_xor_zero(x, y);
}

proof fn lemma_isolate(word: u64, next: u64, t: u64, j: u64)
    by (bit_vector)
    requires
        word != 0xffff_ffff_ffff_ffffu64,
        next == word + 1,
    ensures
        !word & next != 0,
        t < 64 && (!word & next) & (1u64 << t) != 0 ==> !word & next == 1u64 << t && word & (1u64
            << t) == 0,
        j < t && t < 64 && (!word & next) & (1u64 << t) != 0 ==> word & (1u64 << j) != 0,
{
}

proof fn lemma_first_clear_from(word: u64, from: nat)
    requires
        from <= 64,
    ensures
        from <= first_clear_from(word, from) <= 64,
        first_clear_from(word, from) < 64 ==> !is_set(word, first_clear_from(word, from)),
        forall|j: nat| from <= j < first_clear_from(word, from) ==> is_set(word, j),
    decreases 64 - from,
{
    if from < 64 && is_set(word, from) {
        lemma_first_clear_from(word, from + 1);
    }
}

/// What `first_clear` picks: a clear bit with every lower bit set, and 64
/// exactly for the full word.
pub proof fn lemma_first_clear(word: u64)
    ensures
        first_clear(word) <= 64,
        first_clear(word) < 64 ==> !is_set(word, first_clear(word)),
        forall|j: nat| j < first_clear(word) ==> is_set(word, j),
        first_clear(word) == 64 <==> word == ALL_ONES,
{
    lemma_first_clear_from(word, 0);
    lemma_bit(0);
    if first_clear(word) == 64 {
        lemma_word_ext(word, ALL_ONES);
    }
}

/// A clear bit with every lower bit set is the one `first_clear` picks.
pub proof fn lemma_first_clear_is(word: u64, idx: nat)
    requires
        idx < 64,
        !is_set(word, idx),
        forall|j: nat| j < idx ==> is_set(word, j),
    ensures
        first_clear(word) == idx,
{
    lemma_first_clear(word);
}

/// The empty word is filled from the bottom, and a word that is filled from
/// the bottom stays so when its lowest clear bit is set: the lowest clear bit
/// is then the next one.
pub proof fn lemma_filled_from_bottom(word: u64)
    ensures
        filled_from_bottom(0),
        first_clear(0) == 0,
        filled_from_bottom(word) && word != ALL_ONES ==> filled_from_bottom(
            word | bit(first_clear(word)),
        ) && first_clear(word | bit(first_clear(word))) == first_clear(word) + 1,
{
    lemma_bit(0);
    lemma_first_clear(0);
    if filled_from_bottom(word) && word != ALL_ONES {
        let low = first_clear(word);
        let next = word | bit(low);
        lemma_first_clear(word);
        lemma_first_clear(next);
        lemma_bit(low);
        lemma_bitwise(word, bit(low));
        if low + 1 < 64 {
            assert(!is_set(next, low + 1));
            assert forall|j: nat| j < low + 1 implies is_set(next, j) by {
                if j < low {
                    assert(is_set(word, j));
                }
            }
            lemma_first_clear_is(next, low + 1);
        } else {
            assert forall|j: nat| j < 64 implies is_set(next, j) == is_set(ALL_ONES, j) by {
                if j < low {
                    assert(is_set(word, j));
                }
            }
            lemma_word_ext(next, ALL_ONES);
        }
    }
}

/// The lowest clear bit, as the word arithmetic finds it.
pub proof fn lemma_lowest_clear(word: u64)
    ensures
        !word & word.wrapping_add(1) == lowest_clear(word),
        lowest_clear(word) == 0 <==> word == ALL_ONES,
{
    if word == ALL_ONES {
        lemma_xor_zero(word, 0);
    } else {
        let next = (word + 1) as u64;
        let found = !word & next;
        lemma_isolate(word, next, 0, 0);
        lemma_lowest_set(found);
        let t = u64_trailing_zeros(found) as nat;
        lemma_isolate(word, next, t as u64, 0);
        assert forall|j: nat| j < t implies is_set(word, j) by {
            lemma_isolate(word, next, t as u64, j as u64);
        }
        lemma_first_clear_is(word, t);
        lemma_bit(t);
    }
}

/// The set bits below `n`, as a set.
spec fn held_below(word: u64, n: nat) -> Set<nat> {
    Set::new(|idx: nat| idx < n && is_set(word, idx))
}

proof fn lemma_count_below(word: u64, n: nat)
    requires
        n <= 64,
    ensures
        held_below(word, n).finite(),
        held_below(word, n).len() == count_below(word, n),
        count_below(word, n) <= n,
        count_below(word, n) == n ==> forall|j: nat| j < n ==> is_set(word, j),
        (forall|j: nat| j < n ==> is_set(word, j)) ==> count_below(word, n) == n,
    decreases n,
{
    if n == 0 {
        assert(held_below(word, n) =~= Set::empty());
    } else {
        let m = (n - 1) as nat;
        lemma_count_below(word, m);
        if is_set(word, m) {
            assert(held_below(word, n) =~= held_below(word, m).insert(m));
        } else {
            assert(held_below(word, n) =~= held_below(word, m));
        }
    }
}

/// The number of set bits is the size of the set of their indices; the empty
/// word and the full word are the two ends.
pub proof fn lemma_count_ones(word: u64)
    ensures
        held(word).finite(),
        held(word).len() == count_ones(word),
        count_ones(word) <= 64,
        count_ones(word) == 0 <==> word == 0,
        count_ones(word) == 64 <==> word == ALL_ONES,
{
    lemma_count_below(word, 64);
    assert(held(word) =~= held_below(word, 64));
    lemma_bit(0);
    if count_ones(word) == 0 {
        held(word).lemma_len0_is_empty();
        assert forall|j: nat| j < 64 implies is_set(word, j) == is_set(0, j) by {
            assert(!held(word).contains(j));
        }
        lemma_word_ext(word, 0);
    }
    if word == 0 {
        assert(held(word) =~= Set::empty());
    }
    if count_ones(word) == 64 {
        lemma_word_ext(word, ALL_ONES);
    }
}

proof fn lemma_count_below_grows(word: u64, m: nat, n: nat)
    requires
        m <= n,
    ensures
        count_below(word, m) <= count_below(word, n),
    decreases n,
{
    if m < n {
        lemma_count_below_grows(word, m, (n - 1) as nat);
    }
}

/// The bits below the lowest clear bit are all set, so there are at least as
/// many set bits as its index says.
pub proof fn lemma_first_clear_count(word: u64)
    ensures
        first_clear(word) <= count_ones(word),
{
    lemma_first_clear(word);
    lemma_count_below(word, first_clear(word));
    lemma_count_below_grows(word, first_clear(word), 64);
}

proof fn lemma_count_below_not(word: u64, n: nat)
    requires
        n <= 64,
    ensures
        count_below(word, n) + count_below(!word, n) == n,
    decreases n,
{
    if n > 0 {
        lemma_count_below_not(word, (n - 1) as nat);
        lemma_bitwise(word, 0);
    }
}

/// The inverted word has the other bits set.
pub proof fn lemma_count_not(word: u64)
    ensures
        count_ones(word) + count_ones(!word) == 64,
{
    lemma_count_below_not(word, 64);
}

/// Flipping bits that are all set clears them; flipping bits that are all
/// clear sets them. Either way the other bits stay.
pub proof fn lemma_held_toggle(word: u64, mask: u64)
    ensures
        held(mask).subset_of(held(word)) ==> held(word ^ mask) == held(word).difference(
            held(mask),
        ),
        held(mask).subset_of(held(!word)) ==> held(!(word ^ mask)) == held(!word).difference(
            held(mask),
        ),
{
    lemma_bitwise(word, mask);
    lemma_bitwise(word ^ mask, 0);
    if held(mask).subset_of(held(word)) {
        assert forall|j: nat| is_set(mask, j) implies is_set(word, j) by {
            assert(held(mask).contains(j));
            assert(held(word).contains(j));
        }
        assert(held(word ^ mask) =~= held(word).difference(held(mask)));
    }
    if held(mask).subset_of(held(!word)) {
        assert forall|j: nat| is_set(mask, j) implies is_set(!word, j) by {
            assert(held(mask).contains(j));
            assert(held(!word).contains(j));
        }
        assert(held(!(word ^ mask)) =~= held(!word).difference(held(mask)));
    }
}

/// Setting, clearing and toggling the bit of one cell adds its index to the
/// set of held indices, removes it, or moves it across.
pub proof fn lemma_held_cell(word: u64, idx: nat)
    requires
        idx < 64,
    ensures
        held(word | bit(idx)) == held(word).insert(idx),
        held(word & !bit(idx)) == held(word).remove(idx),
        held(word ^ bit(idx)) == if is_set(word, idx) {
            held(word).remove(idx)
        } else {
            held(word).insert(idx)
        },
{
    lemma_bit(idx);
    lemma_bitwise(word, bit(idx));
    lemma_bitwise(word, !bit(idx));
    lemma_bitwise(bit(idx), 0);
    assert(held(word | bit(idx)) =~= held(word).insert(idx));
    assert(held(word & !bit(idx)) =~= held(word).remove(idx));
    if is_set(word, idx) {
        assert(held(word ^ bit(idx)) =~= held(word).remove(idx));
    } else {
        assert(held(word ^ bit(idx)) =~= held(word).insert(idx));
    }
}

/// The bit of cell `idx`.
pub fn cell_bit(idx: usize) -> (mask: u64)
    requires
        idx < CELLS,
    ensures
        mask == bit(idx as nat),
{
    1u64 << idx
}

/// The lowest clear bit of `word`, alone in a word; zero if every bit of
/// `word` is set.
pub fn lowest_clear_bit(word: u64) -> (found: u64)
    ensures
        found == lowest_clear(word),
        found == 0 <==> word == ALL_ONES,
{
    proof {
        lemma_lowest_clear(word);
    }
    !word & word.wrapping_add(1)
}

/// The index of the lowest set bit of `word`, or 64 for the empty word.
pub fn bit_index(word: u64) -> (idx: usize)
    ensures
        idx <= CELLS,
        idx == CELLS <==> word == 0,
        idx < CELLS ==> is_set(word, idx as nat),
        forall|j: nat| j < idx ==> !is_set(word, j),
        forall|k: nat| k < 64 && word == bit(k) ==> idx == k,
{
    proof {
        axiom_u64_trailing_zeros(word);
        if word != 0 {
            lemma_lowest_set(word);
        } else {
            lemma_bit(0);
        }
        assert forall|k: nat| k < 64 && word == bit(k) implies u64_trailing_zeros(word) == k by {
            lemma_bit(k);
        }
    }
    word.trailing_zeros() as usize
}

/// Sets the lowest clear bit of `word` and returns its index. If every bit is
/// set, `word` stays as it is and there is no index.
pub fn set_lowest_clear(word: &mut u64) -> (idx: Option<usize>)
    ensures
        idx is None <==> *old(word) == ALL_ONES,
        idx is None ==> *final(word) == *old(word),
        idx matches Some(i) ==> i == first_clear(*old(word)) && i < CELLS && !is_set(
            *old(word),
            i as nat,
        ) && *final(word) == *old(word) | bit(i as nat) && held(*final(word)) == held(
            *old(word),
        ).insert(i as nat),
        idx matches Some(i) ==> forall|j: nat| j < i ==> is_set(*old(word), j),
{
    let found: u64 = lowest_clear_bit(*word);
    if found != 0 {
        let idx: usize = bit_index(found);
        proof {
            lemma_first_clear(*word);
            lemma_held_cell(*word, first_clear(*word));
        }
        *word = *word | found;
        Some(idx)
    } else {
        None
    }
}

/// Whether an attempt to set the single bit `found` came first: the word
/// before the attempt did not have it.
pub fn won(before: u64, found: u64) -> (yes: bool)
    ensures
        yes == (before & found == 0),
        forall|k: nat| k < 64 && found == bit(k) ==> yes == !is_set(before, k),
{
    before & found == 0
}

/// Whether flipping the bits of `mask` in the word `before` made it the full
/// word.
pub fn fills(before: u64, mask: u64) -> (yes: bool)
    ensures
        yes == (before ^ mask == ALL_ONES),
{
    proof {
        lemma_fills(before, mask);
    }
    before == !mask
}

proof fn lemma_fills_bits(before: u64, mask: u64)
    by (bit_vector)
    ensures
        (before == !mask) == (before ^ mask == 0xffff_ffff_ffff_ffffu64),
{
}

/// A flip fills the word exactly when the word was the complement of the
/// mask.
pub proof fn lemma_fills(before: u64, mask: u64)
    ensures
        before == !mask <==> before ^ mask == ALL_ONES,
{
    lemma_fills_bits(before, mask);
}

} // verus!
