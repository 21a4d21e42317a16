use object_system::slotmap::SlotMap;

#[test]
fn test_slotmap_add() {
    let mut map = SlotMap::new();
    let id = map.add(1);
    assert_eq!(map.get(id), Some(&1));
}

#[test]
fn test_slotmap_remove() {
    let mut map = SlotMap::new();
    let id = map.add(1);
    assert_eq!(map.remove(id), Some(1));
    assert_eq!(map.get(id), None);
}

#[test]
fn test_slotmap_complex_1() {
    let mut map = SlotMap::new();
    let id1 = map.add(1);
    let id2 = map.add(2);
    let id3 = map.add(3);

    assert_eq!(map.get(id1), Some(&1));
    assert_eq!(map.get(id2), Some(&2));
    assert_eq!(map.get(id3), Some(&3));

    assert_eq!(map.remove(id1), Some(1));
    assert_eq!(map.remove(id2), Some(2));

    let id4 = map.add(4);
    let id5 = map.add(5);

    assert_eq!(map.get(id4), Some(&4));
    assert_eq!(map.get(id5), Some(&5));

    assert_eq!(map.remove(id4), Some(4));

    let id6 = map.add(6);
    let id7 = map.add(7);
    let id8 = map.add(8);

    assert_eq!(map.get(id6), Some(&6));
    assert_eq!(map.get(id7), Some(&7));
    assert_eq!(map.get(id8), Some(&8));

    assert_eq!(map.get(id1), None);
    assert_eq!(map.get(id2), None);
    assert_eq!(map.get(id3), Some(&3));
    assert_eq!(map.get(id4), None);
    assert_eq!(map.get(id5), Some(&5));
    assert_eq!(map.get(id6), Some(&6));
    assert_eq!(map.get(id7), Some(&7));
    assert_eq!(map.get(id8), Some(&8));

    assert_eq!(map.remove(id7), Some(7));
    assert_eq!(map.remove(id3), Some(3));
    assert_eq!(map.remove(id6), Some(6));
    assert_eq!(map.remove(id8), Some(8));

    assert_eq!(map.get(id1), None);
    assert_eq!(map.get(id2), None);
    assert_eq!(map.get(id3), None);
    assert_eq!(map.get(id4), None);
    assert_eq!(map.get(id5), Some(&5));
    assert_eq!(map.get(id6), None);
    assert_eq!(map.get(id7), None);
    assert_eq!(map.get(id8), None);
}

#[test]
fn stale_id_does_not_resolve_while_its_slot_is_free() {
    let mut map = SlotMap::new();
    let a = map.add(1);
    let b = map.add(2);
    let c = map.add(3);
    assert_eq!(map.remove(a), Some(1));
    assert_eq!(map.remove(b), Some(2));
    // Slot 0 is reused; slot 1 is still free and b is stale.
    let d = map.add(4);
    assert_eq!(d.index(), 0);
    assert_eq!(d.generation(), 2);
    assert_eq!(map.get(b), None);
    assert_eq!(map.remove(b), None);
    assert_eq!(map.get(d), Some(&4));
    assert_eq!(map.get(c), Some(&3));
    assert_eq!(map.len(), 2);
}
