use instanced_renderer::{InstanceError, InstanceGroup, InstanceRaw, ModelHandle, INSTANCE_SIZE};

fn rec(tag: u8) -> InstanceRaw {
    InstanceRaw { bytes: [tag; INSTANCE_SIZE] }
}

fn add_ok(g: &mut InstanceGroup, r: InstanceRaw) -> u16 {
    g.add(r).expect("group has room").0
}

#[test]
fn new_group_is_empty() {
    let g = InstanceGroup::new_empty(ModelHandle(4), 5);
    assert_eq!(g.len(), 0);
    assert_eq!(g.max_instances(), 5);
    assert_eq!(g.model_handle(), ModelHandle(4));
    assert_eq!(g.buffer_size(), 5 * 112);
    for s in 0..6u16 {
        assert_eq!(g.get(s), None);
        assert_eq!(g.position(s), None);
    }
}

#[test]
fn add_assigns_fresh_slots_in_order() {
    let mut g = InstanceGroup::new_empty(ModelHandle(0), 3);
    assert_eq!(add_ok(&mut g, rec(1)), 0);
    assert_eq!(add_ok(&mut g, rec(2)), 1);
    assert_eq!(add_ok(&mut g, rec(3)), 2);
    assert_eq!(g.len(), 3);
    assert_eq!(g.get(0), Some(rec(1)));
    assert_eq!(g.get(1), Some(rec(2)));
    assert_eq!(g.get(2), Some(rec(3)));
    assert_eq!(g.position(2), Some(2));
}

#[test]
fn add_write_targets_new_dense_position() {
    let mut g = InstanceGroup::new_empty(ModelHandle(0), 4);
    add_ok(&mut g, rec(1));
    let (slot, w) = g.add(rec(9)).unwrap();
    assert_eq!(slot, 1);
    assert_eq!(w.first, 1);
    assert_eq!(w.records, vec![rec(9)]);
    assert_eq!(w.byte_offset(), 112);
    assert_eq!(w.bytes(), vec![9u8; INSTANCE_SIZE]);
}

#[test]
fn capacity_boundary_add_fails_without_change() {
    let mut g = InstanceGroup::new_empty(ModelHandle(0), 2);
    add_ok(&mut g, rec(1));
    add_ok(&mut g, rec(2));
    assert_eq!(g.add(rec(3)).unwrap_err(), InstanceError::CapacityExceeded);
    assert_eq!(g.len(), 2);
    assert_eq!(g.get(0), Some(rec(1)));
    assert_eq!(g.get(1), Some(rec(2)));
}

#[test]
fn zero_capacity_group_rejects_add() {
    let mut g = InstanceGroup::new_empty(ModelHandle(0), 0);
    assert_eq!(g.add(rec(1)).unwrap_err(), InstanceError::CapacityExceeded);
    assert_eq!(g.len(), 0);
}

#[test]
fn round_trip_add_then_update() {
    let mut g = InstanceGroup::new_empty(ModelHandle(0), 3);
    let a = add_ok(&mut g, rec(1));
    let b = add_ok(&mut g, rec(2));
    assert_eq!(g.get(b), Some(rec(2)));
    let w = g.update(b, rec(7)).unwrap();
    assert_eq!(w.first, 1);
    assert_eq!(w.records, vec![rec(7)]);
    assert_eq!(g.get(b), Some(rec(7)));
    assert_eq!(g.get(a), Some(rec(1)));
    assert_eq!(g.position(a), Some(0));
    assert_eq!(g.position(b), Some(1));
    assert_eq!(g.len(), 2);
}

#[test]
fn update_of_dead_slot_is_invalid() {
    let mut g = InstanceGroup::new_empty(ModelHandle(0), 3);
    let a = add_ok(&mut g, rec(1));
    assert_eq!(g.update(1, rec(5)).unwrap_err(), InstanceError::InvalidHandle);
    assert_eq!(g.update(40, rec(5)).unwrap_err(), InstanceError::InvalidHandle);
    g.remove(a).unwrap();
    assert_eq!(g.update(a, rec(5)).unwrap_err(), InstanceError::InvalidHandle);
    assert_eq!(g.len(), 0);
}

#[test]
fn remove_twice_is_invalid() {
    let mut g = InstanceGroup::new_empty(ModelHandle(0), 3);
    let a = add_ok(&mut g, rec(1));
    add_ok(&mut g, rec(2));
    assert!(g.remove(a).is_ok());
    assert_eq!(g.remove(a).unwrap_err(), InstanceError::InvalidHandle);
    assert_eq!(g.remove(3).unwrap_err(), InstanceError::InvalidHandle);
    assert_eq!(g.len(), 1);
}

#[test]
fn slot_reuse_is_lifo() {
    let mut g = InstanceGroup::new_empty(ModelHandle(0), 4);
    for t in 0..4u8 {
        add_ok(&mut g, rec(t));
    }
    g.remove(1).unwrap();
    g.remove(3).unwrap();
    assert_eq!(add_ok(&mut g, rec(10)), 3);
    assert_eq!(add_ok(&mut g, rec(11)), 1);
    assert_eq!(g.add(rec(12)).unwrap_err(), InstanceError::CapacityExceeded);
    assert_eq!(g.get(3), Some(rec(10)));
    assert_eq!(g.get(1), Some(rec(11)));
}

#[test]
fn fresh_slots_after_free_list_drained() {
    let mut g = InstanceGroup::new_empty(ModelHandle(0), 4);
    add_ok(&mut g, rec(0));
    add_ok(&mut g, rec(1));
    g.remove(0).unwrap();
    assert_eq!(add_ok(&mut g, rec(2)), 0);
    assert_eq!(add_ok(&mut g, rec(3)), 2);
    assert_eq!(add_ok(&mut g, rec(4)), 3);
}

#[test]
fn swap_remove_moves_only_last() {
    let mut g = InstanceGroup::new_empty(ModelHandle(0), 4);
    for t in 0..4u8 {
        add_ok(&mut g, rec(t));
    }
    let w = g.remove(1).unwrap();
    assert_eq!(w.first, 1);
    assert_eq!(w.records, vec![rec(3)]);
    assert_eq!(w.byte_offset(), 112);
    assert_eq!(g.len(), 3);
    assert_eq!(g.position(3), Some(1));
    assert_eq!(g.get(3), Some(rec(3)));
    assert_eq!(g.position(0), Some(0));
    assert_eq!(g.position(2), Some(2));
    assert_eq!(g.get(0), Some(rec(0)));
    assert_eq!(g.get(2), Some(rec(2)));
    assert_eq!(g.get(1), None);
}

#[test]
fn remove_last_writes_nothing() {
    let mut g = InstanceGroup::new_empty(ModelHandle(0), 3);
    add_ok(&mut g, rec(1));
    let b = add_ok(&mut g, rec(2));
    let w = g.remove(b).unwrap();
    assert_eq!(w.first, 1);
    assert!(w.records.is_empty());
    assert!(w.bytes().is_empty());
    assert_eq!(g.get(0), Some(rec(1)));
}

#[test]
fn bulk_set_replaces_live_set() {
    let mut g = InstanceGroup::new_empty(ModelHandle(0), 4);
    for t in 0..4u8 {
        add_ok(&mut g, rec(t));
    }
    g.remove(2).unwrap();
    let w = g.bulk_set(&[rec(20), rec(21)]).unwrap();
    assert_eq!(w.first, 0);
    assert_eq!(w.records, vec![rec(20), rec(21)]);
    let mut expected = vec![20u8; INSTANCE_SIZE];
    expected.extend(vec![21u8; INSTANCE_SIZE]);
    assert_eq!(w.bytes(), expected);
    assert_eq!(g.len(), 2);
    assert_eq!(g.get(0), Some(rec(20)));
    assert_eq!(g.get(1), Some(rec(21)));
    assert_eq!(g.position(1), Some(1));
    assert_eq!(g.get(2), None);
    assert_eq!(g.get(3), None);
    assert_eq!(add_ok(&mut g, rec(22)), 2);
    assert_eq!(add_ok(&mut g, rec(23)), 3);
}

#[test]
fn bulk_set_over_capacity_keeps_prior_set() {
    let mut g = InstanceGroup::new_empty(ModelHandle(0), 2);
    add_ok(&mut g, rec(1));
    let err = g.bulk_set(&[rec(5), rec(6), rec(7)]).unwrap_err();
    assert_eq!(err, InstanceError::CapacityExceeded);
    assert_eq!(g.len(), 1);
    assert_eq!(g.get(0), Some(rec(1)));
    assert_eq!(add_ok(&mut g, rec(2)), 1);
}

#[test]
fn bulk_set_empty_and_full() {
    let mut g = InstanceGroup::new_empty(ModelHandle(0), 2);
    add_ok(&mut g, rec(1));
    let w = g.bulk_set(&[]).unwrap();
    assert!(w.records.is_empty());
    assert_eq!(g.len(), 0);
    assert_eq!(g.get(0), None);
    g.bulk_set(&[rec(3), rec(4)]).unwrap();
    assert_eq!(g.len(), 2);
    assert_eq!(g.add(rec(5)).unwrap_err(), InstanceError::CapacityExceeded);
}
