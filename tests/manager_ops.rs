use instanced_renderer::{
    BufferWrite, InstanceError, InstanceHandle, InstanceManager, InstanceRaw, ModelHandle, RenderError,
    INSTANCE_SIZE,
};

fn rec(tag: u8) -> InstanceRaw {
    InstanceRaw { bytes: [tag; INSTANCE_SIZE] }
}

fn manager_with(model: u16, capacity: u16) -> InstanceManager {
    let mut m = InstanceManager::new();
    m.add_instance_group(ModelHandle(model), capacity).unwrap();
    m
}

/// Copies a write into a byte buffer standing in for the GPU buffer.
fn apply(gpu: &mut [u8], w: &BufferWrite) {
    let start = w.byte_offset() as usize;
    let bytes = w.bytes();
    gpu[start..start + bytes.len()].copy_from_slice(&bytes);
}

#[test]
fn scenario_a_capacity_three() {
    let model = ModelHandle(0);
    let mut m = manager_with(0, 3);
    let (ha, _) = m.add_instance(model, rec(b'A')).unwrap();
    let (hb, _) = m.add_instance(model, rec(b'B')).unwrap();
    let (hc, _) = m.add_instance(model, rec(b'C')).unwrap();
    assert_eq!(m.add_instance(model, rec(b'D')).unwrap_err(), InstanceError::CapacityExceeded);
    m.delete_instance(hb).unwrap();
    let (hd, _) = m.add_instance(model, rec(b'D')).unwrap();
    // D takes the slot id that B released.
    assert_eq!(hd, hb);
    assert_eq!(m.get_instance(ha), Some(rec(b'A')));
    assert_eq!(m.get_instance(hc), Some(rec(b'C')));
    assert_eq!(m.get_instance(hd), Some(rec(b'D')));
    // C filled B's dense position; D was appended after it.
    assert_eq!(m.instance_position(hc), Some(1));
    assert_eq!(m.instance_position(hd), Some(2));
}

#[test]
fn scenario_b_handle_survives_relocation() {
    let model = ModelHandle(0);
    let mut m = manager_with(0, 2);
    let (ha, _) = m.add_instance(model, rec(b'A')).unwrap();
    let (hb, _) = m.add_instance(model, rec(b'B')).unwrap();
    assert_eq!(ha, InstanceHandle(model, 0));
    assert_eq!(hb, InstanceHandle(model, 1));
    assert_eq!(m.instance_position(hb), Some(1));
    m.delete_instance(ha).unwrap();
    assert_eq!(m.instance_position(hb), Some(0));
    assert_eq!(m.get_instance(hb), Some(rec(b'B')));
    assert_eq!(m.get_instance(ha), None);
}

#[test]
fn scenario_c_update_with_unknown_model() {
    let mut m = manager_with(0, 2);
    let (h, _) = m.add_instance(ModelHandle(0), rec(1)).unwrap();
    let stray = InstanceHandle(ModelHandle(5), 0);
    assert_eq!(m.update_instance(stray, rec(9)).unwrap_err(), InstanceError::UnregisteredModel);
    assert_eq!(m.get_instance(h), Some(rec(1)));
    assert_eq!(m.draw_list(), vec![(ModelHandle(0), 1)]);
    let dead = InstanceHandle(ModelHandle(0), 1);
    assert_eq!(m.update_instance(dead, rec(9)).unwrap_err(), InstanceError::InvalidHandle);
    assert_eq!(m.get_instance(h), Some(rec(1)));
}

#[test]
fn unregistered_model_errors() {
    let mut m = manager_with(1, 2);
    let stray = ModelHandle(0);
    assert_eq!(m.add_instance(stray, rec(1)).unwrap_err(), InstanceError::UnregisteredModel);
    assert_eq!(m.set_from_slice(stray, &[rec(1)]).unwrap_err(), InstanceError::UnregisteredModel);
    assert_eq!(m.clear_instances(ModelHandle(7)).unwrap_err(), InstanceError::UnregisteredModel);
    let h = InstanceHandle(ModelHandle(9), 0);
    assert_eq!(m.delete_instance(h).unwrap_err(), InstanceError::UnregisteredModel);
    assert_eq!(m.get_instance(h), None);
    assert!(m.instance_group(stray).is_none());
    assert!(m.draw_list().is_empty());
}

#[test]
fn register_twice_is_refused() {
    let mut m = manager_with(2, 3);
    m.add_instance(ModelHandle(2), rec(1)).unwrap();
    assert_eq!(m.add_instance_group(ModelHandle(2), 8).unwrap_err(), InstanceError::AlreadyRegistered);
    let g = m.instance_group(ModelHandle(2)).unwrap();
    assert_eq!(g.max_instances(), 3);
    assert_eq!(g.len(), 1);
}

#[test]
fn models_are_independent() {
    let mut m = InstanceManager::new();
    m.add_instance_group(ModelHandle(0), 1).unwrap();
    m.add_instance_group(ModelHandle(3), 2).unwrap();
    let (h0, _) = m.add_instance(ModelHandle(0), rec(1)).unwrap();
    let (h3, _) = m.add_instance(ModelHandle(3), rec(2)).unwrap();
    assert_eq!(h0, InstanceHandle(ModelHandle(0), 0));
    assert_eq!(h3, InstanceHandle(ModelHandle(3), 0));
    assert_eq!(m.add_instance(ModelHandle(0), rec(3)).unwrap_err(), InstanceError::CapacityExceeded);
    m.add_instance(ModelHandle(3), rec(4)).unwrap();
    assert_eq!(m.draw_list(), vec![(ModelHandle(0), 1), (ModelHandle(3), 2)]);
    m.delete_instance(h0).unwrap();
    assert_eq!(m.draw_list(), vec![(ModelHandle(3), 2)]);
    assert_eq!(m.get_instance(h3), Some(rec(2)));
}

#[test]
fn set_from_slice_and_clear() {
    let model = ModelHandle(0);
    let mut m = manager_with(0, 3);
    m.add_instance(model, rec(1)).unwrap();
    let err = m.set_from_slice(model, &[rec(1), rec(2), rec(3), rec(4)]).unwrap_err();
    assert_eq!(err, InstanceError::CapacityExceeded);
    assert_eq!(m.get_instance(InstanceHandle(model, 0)), Some(rec(1)));
    let w = m.set_from_slice(model, &[rec(5), rec(6), rec(7)]).unwrap();
    assert_eq!(w.first, 0);
    assert_eq!(w.records.len(), 3);
    assert_eq!(m.get_instance(InstanceHandle(model, 2)), Some(rec(7)));
    assert_eq!(m.draw_list(), vec![(model, 3)]);
    let w = m.clear_instances(model).unwrap();
    assert!(w.records.is_empty());
    assert!(m.draw_list().is_empty());
    assert_eq!(m.get_instance(InstanceHandle(model, 0)), None);
    let (h, _) = m.add_instance(model, rec(8)).unwrap();
    assert_eq!(h, InstanceHandle(model, 0));
}

#[test]
fn gpu_buffer_mirrors_live_records() {
    let model = ModelHandle(0);
    let capacity: u16 = 5;
    let mut m = manager_with(0, capacity);
    let size = m.instance_group(model).unwrap().buffer_size() as usize;
    assert_eq!(size, 5 * INSTANCE_SIZE);
    let mut gpu = vec![0u8; size];
    let mut handles = Vec::new();
    for t in 1..=5u8 {
        let (h, w) = m.add_instance(model, rec(t)).unwrap();
        apply(&mut gpu, &w);
        handles.push(h);
    }
    apply(&mut gpu, &m.delete_instance(handles[1]).unwrap());
    apply(&mut gpu, &m.update_instance(handles[4], rec(50)).unwrap());
    apply(&mut gpu, &m.delete_instance(handles[0]).unwrap());
    let (h, w) = m.add_instance(model, rec(60)).unwrap();
    apply(&mut gpu, &w);
    assert_eq!(h, handles[0]);
    let live = m.instance_group(model).unwrap().len() as usize;
    assert_eq!(live, 4);
    let mut expected = vec![Vec::new(); live];
    for h in [handles[0], handles[2], handles[3], handles[4]] {
        let pos = m.instance_position(h).unwrap() as usize;
        expected[pos] = m.get_instance(h).unwrap().bytes.to_vec();
    }
    assert_eq!(gpu[..live * INSTANCE_SIZE].to_vec(), expected.concat());
}

#[test]
fn render_errors_compare() {
    assert_ne!(RenderError::Timeout, RenderError::OutOfMemory);
}

#[test]
fn add_from_slice_uses_free_slots_first() {
    let model = ModelHandle(0);
    let mut m = manager_with(0, 4);
    let (ha, _) = m.add_instance(model, rec(1)).unwrap();
    let (hb, _) = m.add_instance(model, rec(2)).unwrap();
    m.delete_instance(ha).unwrap();
    let (hs, ws) = m.add_from_slice(model, &[rec(10), rec(11), rec(12)]).unwrap();
    assert_eq!(hs, vec![InstanceHandle(model, 0), InstanceHandle(model, 2), InstanceHandle(model, 3)]);
    assert_eq!(ws.len(), 3);
    assert_eq!(ws[0].first, 1);
    assert_eq!(ws[2].first, 3);
    assert_eq!(m.get_instance(hb), Some(rec(2)));
    assert_eq!(m.get_instance(hs[0]), Some(rec(10)));
    assert_eq!(m.get_instance(hs[2]), Some(rec(12)));
    assert_eq!(m.draw_list(), vec![(model, 4)]);
}

#[test]
fn add_from_slice_over_capacity_changes_nothing() {
    let model = ModelHandle(0);
    let mut m = manager_with(0, 2);
    let (ha, _) = m.add_instance(model, rec(1)).unwrap();
    let err = m.add_from_slice(model, &[rec(2), rec(3)]).unwrap_err();
    assert_eq!(err, InstanceError::CapacityExceeded);
    assert_eq!(m.draw_list(), vec![(model, 1)]);
    assert_eq!(m.get_instance(ha), Some(rec(1)));
    let err = m.add_from_slice(ModelHandle(1), &[rec(2)]).unwrap_err();
    assert_eq!(err, InstanceError::UnregisteredModel);
}
