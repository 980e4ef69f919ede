use arena64::boxed::{Boxed64, Slot, UninitSlot};
use std::cell::Cell;
use std::rc::Rc;

fn fill_boxed(slab: &mut Boxed64<usize>) -> Vec<Slot<usize>> {
    let mut uninit: Vec<UninitSlot<usize>> = Vec::new();
    for _ in 0..64 {
        if let Some(slot) = slab.get_uninit_slot() {
            uninit.push(slot);
        }
    }
    assert_eq!(uninit.len(), 64);
    assert!(slab.get_uninit_slot().is_none());
    let mut slots: Vec<Slot<usize>> = Vec::new();
    for (i, slot) in uninit.into_iter().enumerate() {
        assert!(slab.reserves(&slot));
        slots.push(slot.insert(slab, i));
    }
    slots
}

fn boxed_values(slab: &Boxed64<usize>, slots: &Vec<Slot<usize>>) -> Vec<usize> {
    slots
        .iter()
        .map(|slot| {
            assert!(slab.holds(slot));
            *slot.get(slab)
        })
        .collect()
}

/// Counts how often a value of it was dropped.
struct DropCounter {
    drops: Rc<Cell<usize>>,
}

impl Drop for DropCounter {
    fn drop(&mut self) {
        self.drops.set(self.drops.get() + 1);
    }
}

#[test]
fn boxed_fixed64_allocs_64() {
    let mut slab = Boxed64::new();

    let slots = fill_boxed(&mut slab);

    assert_eq!(boxed_values(&slab, &slots), (0..64).collect::<Vec<usize>>());
}

#[test]
fn boxed_fixed64_converts_into_and_from_raw_pointer() {
    let mut slab = Boxed64::new();

    let slots = fill_boxed(&mut slab);

    let pointers: Vec<usize> = slots.into_iter().map(|slot| slot.into_raw()).collect();

    let slots: Vec<Slot<usize>> = pointers.into_iter().map(Slot::from_raw).collect();

    assert_eq!(slab.occupancy(), Some(u64::MAX));
    assert_eq!(boxed_values(&slab, &slots), (0..64).collect::<Vec<usize>>());

    for slot in slots {
        assert!(slab.holds(&slot));
        slot.release(&mut slab);
    }

    assert_eq!(slab.occupancy(), Some(0));
}

#[test]
fn drops_after_last_slot() {
    let mut slab = Boxed64::new();

    let slots = fill_boxed(&mut slab);

    assert_eq!(slab.occupancy(), Some(u64::MAX));

    slab.seal();

    assert_eq!(boxed_values(&slab, &slots), (0..64).collect::<Vec<usize>>());
    for slot in slots {
        assert!(!slab.is_freed());
        slot.release(&mut slab);
    }
    assert!(slab.is_freed());
}

#[test]
fn boxed_tagged_words_carry_address_and_index() {
    let mut slab = Boxed64::new();
    let slots = fill_boxed(&mut slab);
    let pointers: Vec<usize> = slots.into_iter().map(|slot| slot.into_raw()).collect();
    assert_eq!(pointers, (64..128).collect::<Vec<usize>>());
}

#[test]
fn boxed_round_trip_in_another_order() {
    let mut slab = Boxed64::new();
    let slots = fill_boxed(&mut slab);

    let mut pointers: Vec<usize> = slots.into_iter().map(|slot| slot.into_raw()).collect();
    pointers.reverse();
    pointers.swap(3, 40);
    let slots: Vec<Slot<usize>> = pointers.into_iter().map(Slot::from_raw).collect();

    assert_eq!(slab.occupancy(), Some(u64::MAX));
    let mut expected: Vec<usize> = (0..64).rev().collect();
    expected.swap(3, 40);
    assert_eq!(boxed_values(&slab, &slots), expected);

    for slot in slots {
        slot.release(&mut slab);
    }
    assert_eq!(slab.occupancy(), Some(0));
    assert!(!slab.is_freed());
}

#[test]
fn boxed_sealed_without_handles_is_freed_at_once() {
    let mut slab: Boxed64<usize> = Boxed64::new();
    assert!(!slab.is_sealed());
    slab.seal();
    assert!(slab.is_sealed());
    assert!(slab.is_freed());
    assert_eq!(slab.occupancy(), None);
    assert!(slab.get_uninit_slot().is_none());
    slab.seal();
    assert!(slab.is_freed());
}

#[test]
fn boxed_sealed_slab_hands_out_nothing() {
    let mut slab: Boxed64<usize> = Boxed64::new();
    let slot = slab.get_uninit_slot().unwrap();
    slab.seal();
    assert_eq!(slab.occupancy(), Some(!1));
    assert!(slab.get_uninit_slot().is_none());
    assert_eq!(slab.occupancy(), Some(!1));
    assert!(slab.reserves(&slot));
    slot.release(&mut slab);
    assert!(slab.is_freed());
}

#[test]
fn boxed_seal_inverts_the_word() {
    let mut slab: Boxed64<usize> = Boxed64::new();
    let a = slab.get_uninit_slot().unwrap().insert(&mut slab, 10);
    let b = slab.get_uninit_slot().unwrap().insert(&mut slab, 11);
    let c = slab.get_uninit_slot().unwrap().insert(&mut slab, 12);
    assert_eq!(slab.occupancy(), Some(0b111));
    b.release(&mut slab);
    assert_eq!(slab.occupancy(), Some(0b101));
    slab.seal();
    assert_eq!(slab.occupancy(), Some(!0b101));
    assert_eq!(*a.get(&slab), 10);
    assert_eq!(a.take(&mut slab), 10);
    assert_eq!(slab.occupancy(), Some(!0b100));
    assert!(!slab.is_freed());
    assert_eq!(c.take(&mut slab), 12);
    assert!(slab.is_freed());
}

#[test]
fn boxed_last_handle_frees_in_any_order() {
    let mut slab = Boxed64::new();
    let mut slots = fill_boxed(&mut slab);
    slab.seal();
    assert_eq!(slab.occupancy(), Some(0));
    let last = slots.swap_remove(17);
    slots.reverse();
    for slot in slots {
        slot.release(&mut slab);
        assert!(!slab.is_freed());
    }
    assert_eq!(slab.occupancy(), Some(!(1 << 17)));
    assert_eq!(*last.get(&slab), 17);
    last.release(&mut slab);
    assert!(slab.is_freed());
}

#[test]
fn boxed_released_cell_is_handed_out_again() {
    let mut slab = Boxed64::new();
    let mut slots = fill_boxed(&mut slab);
    let slot = slots.remove(5);
    assert_eq!(slot.index(), 5);
    slot.release(&mut slab);
    assert_eq!(slab.occupancy(), Some(!(1 << 5)));
    let again = slab.get_uninit_slot().unwrap();
    assert_eq!(again.index(), 5);
    assert!(slab.get_uninit_slot().is_none());
    again.release(&mut slab);
    assert_eq!(slab.occupancy(), Some(!(1 << 5)));
}

#[test]
fn boxed_take_hands_back_the_value_without_dropping_it() {
    let drops = Rc::new(Cell::new(0));
    let mut slab: Boxed64<DropCounter> = Boxed64::new();
    let slot = slab
        .get_uninit_slot()
        .unwrap()
        .insert(&mut slab, DropCounter { drops: drops.clone() });
    let value = slot.take(&mut slab);
    assert_eq!(drops.get(), 0);
    assert_eq!(slab.occupancy(), Some(0));
    drop(value);
    assert_eq!(drops.get(), 1);
}

#[test]
fn boxed_release_drops_the_value_once() {
    let drops = Rc::new(Cell::new(0));
    let mut slab: Boxed64<DropCounter> = Boxed64::new();
    let slot = slab
        .get_uninit_slot()
        .unwrap()
        .insert(&mut slab, DropCounter { drops: drops.clone() });
    assert_eq!(drops.get(), 0);
    slot.release(&mut slab);
    assert_eq!(drops.get(), 1);
    drop(slab);
    assert_eq!(drops.get(), 1);
}

#[test]
fn boxed_value_is_swapped() {
    let mut slab: Boxed64<String> = Boxed64::new();
    let slot = slab.get_uninit_slot().unwrap().insert(&mut slab, String::from("one"));
    assert_eq!(std::mem::replace(slot.get_mut(&mut slab), String::from("two")), "one");
    assert_eq!(slot.get(&slab), "two");
    assert_eq!(slot.take(&mut slab), "two");
}

#[test]
fn boxed_handle_of_an_empty_cell_is_not_held() {
    let mut slab: Boxed64<usize> = Boxed64::new();
    let slot = slab.get_uninit_slot().unwrap().insert(&mut slab, 1);
    let raw = slot.into_raw();
    assert!(slab.holds(&Slot::from_raw(raw)));
    assert!(!slab.holds(&Slot::from_raw(raw + 1)));
    assert!(!slab.holds(&Slot::from_raw(raw + 64)));
    Slot::from_raw(raw).release(&mut slab);
    assert!(!slab.holds(&Slot::from_raw(raw)));
}

#[test]
fn boxed_slab_at_an_address() {
    let mut slab: Boxed64<u8> = Boxed64::at(0x4000);
    let slot = slab.get_uninit_slot().unwrap().insert(&mut slab, 9);
    assert_eq!(slot.slab(), 0x4000);
    let raw = slot.into_raw();
    assert_eq!(raw, 0x4000);
    let other: Boxed64<u8> = Boxed64::default();
    assert!(!other.holds(&Slot::from_raw(raw)));
    assert!(slab.holds(&Slot::from_raw(raw)));
    assert_eq!(Slot::from_raw(raw).take(&mut slab), 9);
    assert_eq!(other.occupancy(), Some(0));
}

#[test]
fn boxed_value_changes_in_place() {
    let mut slab: Boxed64<String> = Boxed64::new();
    let slot = slab.get_uninit_slot().unwrap().insert(&mut slab, String::from("a"));
    slot.get_mut(&mut slab).push('b');
    assert_eq!(slot.get(&slab), "ab");
    slab.seal();
    slot.get_mut(&mut slab).push('c');
    assert_eq!(slot.take(&mut slab), "abc");
    assert!(slab.is_freed());
}
