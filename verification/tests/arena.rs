use arena64::arena::{Arena64, Bump64};
use arena64::boxed::Slot;

#[test]
fn arena64_capacity_grows() {
    let mut arena = Arena64::new();

    let slots: Vec<Slot<u32>> = (0..4096).map(|i| arena.allocate(i)).collect();

    let values: Vec<u32> = slots.iter().map(|slot| *arena.get(slot)).collect();
    assert_eq!(values, (0..4096).collect::<Vec<u32>>())
}

#[test]
fn bump64_capacity_grows() {
    let mut arena = Bump64::new();

    let slots: Vec<Slot<u32>> = (0..4096).map(|i| arena.allocate(i)).collect();

    let values: Vec<u32> = slots.iter().map(|slot| *arena.get(slot)).collect();
    assert_eq!(values, (0..4096).collect::<Vec<u32>>())
}

#[test]
fn arena_cells_are_distinct() {
    let mut arena: Arena64<u32> = Arena64::new();
    let mut seen = std::collections::HashSet::new();
    for i in 0..4096u32 {
        assert!(arena.can_grow());
        let slot = arena.allocate(i);
        assert!(arena.holds(&slot));
        assert!(seen.insert(slot.into_raw()));
    }
    assert_eq!(seen.len(), 4096);
    assert_eq!(arena.slabs(), 64);
    let mut words: Vec<usize> = seen.into_iter().collect();
    words.sort();
    assert_eq!(words, (64..64 + 4096).collect::<Vec<usize>>());
}

#[test]
fn arena_starts_without_a_slab() {
    let mut arena: Arena64<u8> = Arena64::new();
    assert_eq!(arena.slabs(), 0);
    let slot = arena.allocate(7);
    assert_eq!(arena.slabs(), 1);
    assert_eq!(slot.slab(), 64);
    assert_eq!(slot.index(), 0);
    assert_eq!(arena.take(slot), 7);
}

#[test]
fn arena_reuses_a_cell_of_its_head() {
    let mut arena: Arena64<u32> = Arena64::new();
    let a = arena.allocate(1);
    let b = arena.allocate(2);
    assert_eq!((a.index(), b.index()), (0, 1));
    arena.release(a);
    let c = arena.allocate(3);
    assert_eq!((c.slab(), c.index()), (64, 0));
    assert_eq!(*arena.get(&c), 3);
    assert_eq!(*arena.get(&b), 2);
    assert_eq!(arena.slabs(), 1);
}

#[test]
fn arena_full_head_is_replaced_and_not_used_again() {
    let mut arena: Arena64<u32> = Arena64::new();
    let mut first: Vec<Slot<u32>> = (0..64).map(|i| arena.allocate(i)).collect();
    assert_eq!(arena.slabs(), 1);
    let next = arena.allocate(64);
    assert_eq!(arena.slabs(), 2);
    assert_eq!((next.slab(), next.index()), (128, 0));
    let gone = first.remove(0);
    arena.release(gone);
    let after = arena.allocate(65);
    assert_eq!((after.slab(), after.index()), (128, 1));
    for slot in first {
        assert!(arena.holds(&slot));
        arena.release(slot);
    }
    assert_eq!(arena.take(next), 64);
    assert_eq!(arena.take(after), 65);
}

#[test]
fn arena_replace_inner_needs_the_head() {
    let mut arena: Arena64<u32> = Arena64::new();
    assert_eq!(arena.replace_inner(64), 0);
    assert_eq!(arena.slabs(), 0);
    assert_eq!(arena.replace_inner(0), 64);
    assert_eq!(arena.slabs(), 1);
    assert_eq!(arena.replace_inner(0), 64);
    assert_eq!(arena.slabs(), 1);
    assert_eq!(arena.replace_inner(64), 128);
    assert_eq!(arena.slabs(), 2);
    let slot = arena.allocate(5);
    assert_eq!((slot.slab(), slot.index()), (128, 0));
}

#[test]
fn arena_take_and_swap() {
    let mut arena: Arena64<String> = Arena64::new();
    let slot = arena.allocate(String::from("a"));
    assert_eq!(std::mem::replace(arena.get_mut(&slot), String::from("b")), "a");
    assert_eq!(arena.get(&slot), "b");
    let raw = slot.into_raw();
    assert!(arena.holds(&Slot::from_raw(raw)));
    assert_eq!(arena.take(Slot::from_raw(raw)), "b");
    assert!(!arena.holds(&Slot::from_raw(raw)));
}

#[test]
fn arena_closed_keeps_its_values() {
    let mut arena: Arena64<u32> = Arena64::new();
    let slots: Vec<Slot<u32>> = (0..100).map(|i| arena.allocate(i)).collect();
    arena.close();
    for (i, slot) in slots.into_iter().enumerate() {
        assert!(arena.holds(&slot));
        assert_eq!(arena.take(slot), i as u32);
    }
    let slot = arena.allocate(1000);
    assert_eq!((slot.slab(), slot.index()), (192, 0));
    assert_eq!(arena.slabs(), 3);
}

#[test]
fn bump_hands_out_cells_in_order() {
    let mut bump: Bump64<u32> = Bump64::new();
    assert_eq!(bump.slabs(), 0);
    let mut words: Vec<usize> = Vec::new();
    for i in 0..200u32 {
        assert!(bump.can_grow());
        let slot = bump.allocate(i);
        assert!(bump.holds(&slot));
        assert_eq!(*bump.get(&slot), i);
        words.push(slot.into_raw());
    }
    assert_eq!(words, (64..264).collect::<Vec<usize>>());
    assert_eq!(bump.slabs(), 4);
}

#[test]
fn bump_does_not_reuse_a_cell() {
    let mut bump: Bump64<u32> = Bump64::new();
    let a = bump.allocate(1);
    let b = bump.allocate(2);
    bump.release(a);
    let c = bump.allocate(3);
    assert_eq!((b.index(), c.index()), (1, 2));
    assert_eq!(bump.take(c), 3);
    assert_eq!(std::mem::replace(bump.get_mut(&b), 9), 2);
    assert_eq!(bump.take(b), 9);
}

#[test]
fn bump_closed_keeps_its_values() {
    let mut bump: Bump64<u32> = Bump64::new();
    let slots: Vec<Slot<u32>> = (0..70).map(|i| bump.allocate(i)).collect();
    bump.close();
    for (i, slot) in slots.into_iter().enumerate() {
        assert!(bump.holds(&slot));
        assert_eq!(bump.take(slot), i as u32);
    }
    let slot = bump.allocate(7);
    assert_eq!((slot.slab(), slot.index()), (192, 0));
}

#[test]
fn bump_full_slab() {
    let mut bump: Bump64<u32> = Bump64::new();
    let slots: Vec<Slot<u32>> = (0..64).map(|i| bump.allocate(i)).collect();
    bump.close();
    for slot in slots {
        bump.release(slot);
    }
    assert_eq!(bump.slabs(), 1);
}

#[test]
fn arena_and_bump_by_default() {
    let mut arena: Arena64<u8> = Arena64::default();
    let mut bump: Bump64<u8> = Bump64::default();
    assert_eq!((arena.slabs(), bump.slabs()), (0, 0));
    let a = arena.allocate(1);
    let b = bump.allocate(2);
    assert_eq!((a.into_raw(), b.into_raw()), (64, 64));
}

#[test]
fn arena_sealed_slab_is_freed_by_its_last_handle() {
    let mut arena: Arena64<u32> = Arena64::new();
    let first: Vec<Slot<u32>> = (0..64).map(|i| arena.allocate(i)).collect();
    let next = arena.allocate(64);
    let mut left = first.len();
    for slot in first {
        assert!(arena.holds(&slot));
        let raw = slot.into_raw();
        arena.release(Slot::from_raw(raw));
        left -= 1;
        assert!(!arena.holds(&Slot::from_raw(raw)));
    }
    assert_eq!(left, 0);
    assert_eq!(*arena.get(&next), 64);
}

#[test]
fn arena_and_bump_change_a_value_in_place() {
    let mut arena: Arena64<Vec<u8>> = Arena64::new();
    let slot = arena.allocate(vec![1]);
    arena.get_mut(&slot).push(2);
    assert_eq!(arena.get(&slot), &vec![1, 2]);
    assert_eq!(arena.take(slot), vec![1, 2]);

    let mut bump: Bump64<u32> = Bump64::new();
    let slot = bump.allocate(5);
    *bump.get_mut(&slot) += 1;
    assert_eq!(bump.take(slot), 6);
}
