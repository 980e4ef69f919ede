use arena64::shared::{Head, Occupancy, Round};

fn claimed(round: Round) -> usize {
    match round {
        Round::Claimed(idx) => idx,
        Round::Lost(_) => panic!("lost"),
        Round::Saturated => panic!("saturated"),
    }
}

#[test]
fn shared_word_starts_empty() {
    let word = Occupancy::new();
    assert_eq!(word.load(), 0);
}

#[test]
fn shared_claims_come_lowest_first() {
    let word = Occupancy::new();
    for expected in 0..64 {
        let seen = word.load();
        assert_eq!(claimed(word.claim(seen)), expected);
    }
    assert_eq!(word.load(), u64::MAX);
    assert!(matches!(word.claim(word.load()), Round::Saturated));
    assert_eq!(word.load(), u64::MAX);
}

#[test]
fn shared_claim_from_an_old_view_is_lost() {
    let word = Occupancy::new();
    let old = word.load();
    assert_eq!(claimed(word.claim(old)), 0);
    assert_eq!(claimed(word.claim(word.load())), 1);
    match word.claim(old) {
        Round::Lost(next) => {
            assert_eq!(next, 0b11);
            assert_eq!(word.load(), 0b11);
            assert_eq!(claimed(word.claim(next)), 2);
        }
        _ => panic!("the cell was taken"),
    }
    assert_eq!(word.load(), 0b111);
}

#[test]
fn shared_saturated_view_leaves_the_word() {
    let word = Occupancy::new();
    assert!(matches!(word.claim(u64::MAX), Round::Saturated));
    assert_eq!(word.load(), 0);
}

#[test]
fn shared_release_clears_one_bit() {
    let word = Occupancy::new();
    for _ in 0..5 {
        claimed(word.claim(word.load()));
    }
    word.release(2);
    assert_eq!(word.load(), 0b11011);
    assert_eq!(claimed(word.claim(word.load())), 2);
    word.release(0);
    word.release(63);
    assert_eq!(word.load(), 0b11110);
}

#[test]
fn shared_toggle_on_a_live_word_releases() {
    let word = Occupancy::new();
    for _ in 0..3 {
        claimed(word.claim(word.load()));
    }
    assert!(!word.toggle(0b010));
    assert_eq!(word.load(), 0b101);
    assert!(!word.toggle(0b100));
    assert!(!word.toggle(0b001));
    assert_eq!(word.load(), 0);
}

#[test]
fn shared_seal_without_cells_frees() {
    let word = Occupancy::new();
    assert!(word.seal());
    assert_eq!(word.load(), u64::MAX);
}

#[test]
fn shared_last_toggle_after_seal_frees() {
    let word = Occupancy::new();
    for _ in 0..3 {
        claimed(word.claim(word.load()));
    }
    assert!(!word.seal());
    assert_eq!(word.load(), !0b111);
    assert!(!word.toggle(0b001));
    assert!(!word.toggle(0b100));
    assert_eq!(word.load(), !0b010);
    assert!(word.toggle(0b010));
    assert_eq!(word.load(), u64::MAX);
}

#[test]
fn shared_bulk_toggle_of_cells_never_handed_out() {
    let word = Occupancy::new();
    let assigned: u64 = 0b1111;
    assert!(!word.toggle(0b0001));
    assert!(!word.toggle(0b0100));
    assert!(!word.toggle(assigned ^ u64::MAX));
    assert_eq!(word.load(), !0b1010);
    assert!(!word.toggle(0b1000));
    assert!(word.toggle(0b0010));

    let done = Occupancy::new();
    assert!(!done.toggle(0b01));
    assert!(!done.toggle(0b10));
    assert!(done.toggle(0b11 ^ u64::MAX));
}

#[test]
fn shared_head_exchange() {
    let head = Head::new();
    assert_eq!(head.load(), 0);
    assert_eq!(head.exchange(0, 64), Ok(0));
    assert_eq!(head.load(), 64);
    assert_eq!(head.exchange(0, 128), Err(64));
    assert_eq!(head.load(), 64);
    assert_eq!(head.exchange(64, 128), Ok(64));
    assert_eq!(head.load(), 128);
}
