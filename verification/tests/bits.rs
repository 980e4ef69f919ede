use arena64::bits::{
    bit_index, cell_bit, fills, lowest_clear_bit, set_lowest_clear, won, ALL_ONES, CELLS,
};
use arena64::tagged::{cell_idx, pack, slab_addr, FIRST_ADDR, IDX, IDX_MASK};

#[test]
fn lowest_clear_bit_values() {
    assert_eq!(lowest_clear_bit(0), 1);
    assert_eq!(lowest_clear_bit(1), 2);
    assert_eq!(lowest_clear_bit(0b1011), 0b0100);
    assert_eq!(lowest_clear_bit(0b0110), 1);
    assert_eq!(lowest_clear_bit(u64::MAX >> 1), 1 << 63);
    assert_eq!(lowest_clear_bit(!(1 << 40)), 1 << 40);
    assert_eq!(lowest_clear_bit(u64::MAX), 0);
    assert_eq!(ALL_ONES, u64::MAX);
}

#[test]
fn bit_index_values() {
    assert_eq!(bit_index(0), 64);
    assert_eq!(bit_index(1), 0);
    assert_eq!(bit_index(0b1000), 3);
    assert_eq!(bit_index(0b1010_0000), 5);
    assert_eq!(bit_index(1 << 63), 63);
    assert_eq!(CELLS, 64);
}

#[test]
fn cell_bit_values() {
    assert_eq!(cell_bit(0), 1);
    assert_eq!(cell_bit(6), 64);
    assert_eq!(cell_bit(63), 1 << 63);
    for idx in 0..64 {
        assert_eq!(bit_index(cell_bit(idx)), idx);
    }
}

#[test]
fn tagged_word_values() {
    assert_eq!(IDX, 63);
    assert_eq!(IDX_MASK, !63);
    assert_eq!(FIRST_ADDR, 64);
    assert_eq!(pack(0x1000, 5), 0x1005);
    assert_eq!(pack(64, 63), 127);
    assert_eq!(slab_addr(0x1005), 0x1000);
    assert_eq!(cell_idx(0x1005), 5);
    assert_eq!(slab_addr(127), 64);
    assert_eq!(cell_idx(127), 63);
    assert_eq!(slab_addr(usize::MAX), usize::MAX - 63);
    assert_eq!(cell_idx(usize::MAX), 63);
}

#[test]
fn tagged_word_round_trips() {
    for addr in [0usize, 64, 128, 0x7fc0, usize::MAX - 63] {
        for idx in 0..64 {
            let raw = pack(addr, idx);
            assert_eq!(raw, addr + idx);
            assert_eq!(slab_addr(raw), addr);
            assert_eq!(cell_idx(raw), idx);
        }
    }
}

#[test]
fn won_and_fills_values() {
    assert!(won(0, 1));
    assert!(won(0b1011, 0b0100));
    assert!(!won(0b1111, 0b0100));
    assert!(fills(!1, 1));
    assert!(fills(0, u64::MAX));
    assert!(fills(u64::MAX, 0));
    assert!(fills(0x00ff, !0x00ff));
    assert!(!fills(0, 1));
    assert!(!fills(1, u64::MAX));
    assert!(!fills(!1, 2));
}

#[test]
fn set_lowest_clear_values() {
    let mut word: u64 = 0b1011;
    assert_eq!(set_lowest_clear(&mut word), Some(2));
    assert_eq!(word, 0b1111);
    assert_eq!(set_lowest_clear(&mut word), Some(4));
    assert_eq!(word, 0b1_1111);
    let mut full: u64 = u64::MAX;
    assert_eq!(set_lowest_clear(&mut full), None);
    assert_eq!(full, u64::MAX);
    let mut last: u64 = u64::MAX >> 1;
    assert_eq!(set_lowest_clear(&mut last), Some(63));
    assert_eq!(last, u64::MAX);
    let mut empty: u64 = 0;
    for expected in 0..64 {
        assert_eq!(set_lowest_clear(&mut empty), Some(expected));
        assert_eq!(empty.count_ones() as usize, expected + 1);
    }
    assert_eq!(set_lowest_clear(&mut empty), None);
}
