use arena64::heapless::{Fixed64, Slot, UninitSlot};

fn fill(slab: &mut Fixed64<usize>) -> Vec<Slot<usize>> {
    let mut uninit: Vec<UninitSlot<usize>> = Vec::new();
    for _ in 0..64 {
        if let Some(slot) = slab.get_uninit_slot() {
            uninit.push(slot);
        }
    }
    assert_eq!(uninit.len(), 64);
    assert!(slab.get_uninit_slot().is_none());
    let mut slots: Vec<Slot<usize>> = Vec::new();
    for (i, slot) in uninit.into_iter().enumerate() {
        assert!(slab.reserves(&slot));
        slots.push(slot.insert(slab, i));
    }
    slots
}

fn values(slab: &Fixed64<usize>, slots: &Vec<Slot<usize>>) -> Vec<usize> {
    slots
        .iter()
        .map(|slot| {
            assert!(slab.holds(slot));
            *slot.get(slab)
        })
        .collect()
}

#[test]
fn heapless_fixed64_allocs_64() {
    let mut slab = Fixed64::new();

    let slots = fill(&mut slab);

    assert_eq!(values(&slab, &slots), (0..64).collect::<Vec<usize>>());
}

#[test]
fn heapless_fixed64_converts_into_and_from_raw_pointer() {
    let mut slab = Fixed64::new();

    let slots = fill(&mut slab);

    let pointers: Vec<usize> = slots.into_iter().map(|slot| slot.into_raw()).collect();

    let slots: Vec<Slot<usize>> = pointers.into_iter().map(Slot::from_raw).collect();

    assert_eq!(slab.occupancy(), u64::MAX);
    assert_eq!(values(&slab, &slots), (0..64).collect::<Vec<usize>>());

    for slot in slots {
        assert!(slab.holds(&slot));
        slot.release(&mut slab);
    }

    assert_eq!(slab.occupancy(), 0);
}

#[test]
fn heapless_saturation_and_release() {
    let mut slab: Fixed64<usize> = Fixed64::new();
    assert_eq!(slab.occupancy(), 0);
    let mut uninit: Vec<UninitSlot<usize>> = Vec::new();
    for i in 0..64 {
        let slot = slab.get_uninit_slot().unwrap();
        assert_eq!(slot.index(), i);
        assert_eq!(slab.occupancy().count_ones() as usize, i + 1);
        uninit.push(slot);
    }
    assert!(slab.get_uninit_slot().is_none());
    assert_eq!(slab.occupancy(), u64::MAX);

    let one = uninit.remove(9);
    one.release(&mut slab);
    assert_eq!(slab.occupancy(), !(1 << 9));
    let again = slab.get_uninit_slot().unwrap();
    assert_eq!(again.index(), 9);
    assert!(slab.get_uninit_slot().is_none());
    uninit.push(again);

    let slots: Vec<Slot<usize>> = uninit
        .into_iter()
        .enumerate()
        .map(|(i, slot)| slot.insert(&mut slab, i))
        .collect();
    for slot in slots {
        slot.release(&mut slab);
    }
    assert_eq!(slab.occupancy(), 0);
}

#[test]
fn heapless_lowest_free_cell_comes_first() {
    let mut slab: Fixed64<u8> = Fixed64::new();
    let a = slab.get_uninit_slot().unwrap();
    let b = slab.get_uninit_slot().unwrap();
    let c = slab.get_uninit_slot().unwrap();
    assert_eq!((a.index(), b.index(), c.index()), (0, 1, 2));
    assert_eq!(slab.occupancy(), 0b111);
    a.release(&mut slab);
    assert_eq!(slab.occupancy(), 0b110);
    let d = slab.get_uninit_slot().unwrap();
    assert_eq!(d.index(), 0);
    b.release(&mut slab);
    c.release(&mut slab);
    d.release(&mut slab);
    assert_eq!(slab.occupancy(), 0);
}

#[test]
fn heapless_take_hands_back_the_value() {
    let mut slab: Fixed64<String> = Fixed64::new();
    let slot = slab.get_uninit_slot().unwrap().insert(&mut slab, String::from("kept"));
    assert_eq!(slab.occupancy(), 1);
    assert_eq!(slot.get(&slab), "kept");
    assert_eq!(std::mem::replace(slot.get_mut(&mut slab), String::from("new")), "kept");
    assert_eq!(slot.take(&mut slab), "new");
    assert_eq!(slab.occupancy(), 0);
}

#[test]
fn heapless_take_does_not_drop_the_value() {
    struct Probe(std::rc::Rc<std::cell::Cell<usize>>);
    impl Drop for Probe {
        fn drop(&mut self) {
            self.0.set(self.0.get() + 1);
        }
    }
    let drops = std::rc::Rc::new(std::cell::Cell::new(0));
    let mut slab: Fixed64<Probe> = Fixed64::new();
    let taken = slab.get_uninit_slot().unwrap().insert(&mut slab, Probe(drops.clone()));
    let released = slab.get_uninit_slot().unwrap().insert(&mut slab, Probe(drops.clone()));
    let value = taken.take(&mut slab);
    assert_eq!(drops.get(), 0);
    released.release(&mut slab);
    assert_eq!(drops.get(), 1);
    drop(value);
    assert_eq!(drops.get(), 2);
    assert_eq!(slab.occupancy(), 0);
}

#[test]
fn heapless_tagged_word_round_trip() {
    let mut slab: Fixed64<usize> = Fixed64::new();
    let mut slots = fill(&mut slab);
    let slot = slots.remove(37);
    let raw = slot.into_raw();
    assert_eq!(raw, 64 | 37);
    assert_eq!(raw & 63, 37);
    assert_eq!(raw & !63, 64);
    let back: Slot<usize> = Slot::from_raw(raw);
    assert_eq!(back.index(), 37);
    assert!(slab.holds(&back));
    assert_eq!(*back.get(&slab), 37);
    assert_eq!(back.into_raw(), raw);
}

#[test]
fn heapless_handle_checks() {
    let mut slab: Fixed64<usize> = Fixed64::new();
    let uninit = slab.get_uninit_slot().unwrap();
    assert!(slab.reserves(&uninit));
    let slot = uninit.insert(&mut slab, 3);
    assert!(slab.holds(&slot));
    let raw = slot.into_raw();
    assert!(!slab.holds(&Slot::from_raw(raw + 1)));
    assert!(!slab.holds(&Slot::from_raw(raw + 64)));
    Slot::from_raw(raw).release(&mut slab);
    assert!(!slab.holds(&Slot::from_raw(raw)));
}

#[test]
fn heapless_by_default() {
    let mut slab: Fixed64<u8> = Fixed64::default();
    assert_eq!(slab.occupancy(), 0);
    let slot = slab.get_uninit_slot().unwrap();
    assert_eq!(slot.index(), 0);
    slot.release(&mut slab);
    assert_eq!(slab.occupancy(), 0);
}

#[test]
fn heapless_value_changes_in_place() {
    let mut slab: Fixed64<u64> = Fixed64::new();
    let slot = slab.get_uninit_slot().unwrap().insert(&mut slab, 40);
    *slot.get_mut(&mut slab) += 2;
    assert_eq!(*slot.get(&slab), 42);
    assert_eq!(slot.take(&mut slab), 42);
}

#[test]
fn heapless_slabs_at_their_addresses() {
    let mut low: Fixed64<u8> = Fixed64::at(0x40);
    let mut high: Fixed64<u8> = Fixed64::at(0x1000);
    let a = low.get_uninit_slot().unwrap().insert(&mut low, 1);
    let b = high.get_uninit_slot().unwrap().insert(&mut high, 2);
    assert!(low.holds(&a) && !high.holds(&a));
    assert!(high.holds(&b) && !low.holds(&b));
    let raw = b.into_raw();
    assert_eq!(raw, 0x1000);
    assert_eq!(Slot::from_raw(raw).take(&mut high), 2);
    assert_eq!(a.take(&mut low), 1);
}
