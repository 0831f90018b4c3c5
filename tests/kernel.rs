use wasm_engine::memory::WASMInstance;
use wasm_engine::simulation::{
    SignalDescriptor, SimulationError, SlotSnapshot, WASMSignalState, WASMSimulation,
};

fn desc(width: u64, reset: u64) -> SignalDescriptor {
    SignalDescriptor { width, reset }
}

#[test]
fn clock_scenario() {
    let mut k = WASMSimulation::new();
    let clk: u64 = 100;
    let p: u64 = 1;
    assert_eq!(k.get_signal(clk, desc(1, 0)), Ok(0));
    k.set_slot(0, 1);
    let mut changed = Vec::new();
    let mut woken = Vec::new();
    assert!(!k.commit(&mut changed, &mut woken));
    assert_eq!(changed, vec![0]);
    assert_eq!(k.get_slot(0).curr, 1);

    let mut changed = Vec::new();
    assert!(k.commit(&mut changed, &mut woken));
    assert!(changed.is_empty());
    assert_eq!(k.get_slot(0).curr, 1);

    assert_eq!(k.add_trigger(p, clk, desc(1, 0), Some(1)), Ok(()));
    k.set_slot(0, 0);
    let mut woken = Vec::new();
    k.commit(&mut Vec::new(), &mut woken);
    assert_eq!(k.get_slot(0).curr, 0);
    assert!(woken.is_empty());

    k.set_slot(0, 1);
    k.commit(&mut Vec::new(), &mut woken);
    assert_eq!(k.get_slot(0).curr, 1);
    assert_eq!(woken, vec![p]);
}

#[test]
fn last_write_wins() {
    let mut k = WASMSimulation::new();
    k.get_signal(5, desc(8, 0)).unwrap();
    k.set_slot(0, 3);
    k.update_slot(0, 9);
    k.set_slot(0, 4);
    k.update_slot(0, 7);
    assert_eq!(k.get_slot(0).next, 7);
    k.commit(&mut Vec::new(), &mut Vec::new());
    assert_eq!(k.get_slot(0), SlotSnapshot { width: 8, curr: 7, next: 7 });
}

#[test]
fn update_with_same_value_does_not_mark_pending() {
    let mut k = WASMSimulation::new();
    k.get_signal(5, desc(8, 2)).unwrap();
    k.update_slot(0, 2);
    let mut changed = Vec::new();
    assert!(k.commit(&mut changed, &mut Vec::new()));
    assert!(changed.is_empty());
}

#[test]
fn set_with_same_value_marks_pending_without_change() {
    let mut k = WASMSimulation::new();
    k.get_signal(5, desc(8, 2)).unwrap();
    k.set_slot(0, 2);
    let mut changed = Vec::new();
    // pending, but curr already equals next: nothing changes
    assert!(k.commit(&mut changed, &mut Vec::new()));
    assert!(changed.is_empty());
}

#[test]
fn commit_is_monotone() {
    let mut k = WASMSimulation::new();
    k.get_signal(1, desc(4, 0)).unwrap();
    k.get_signal(2, desc(4, 0)).unwrap();
    k.set_slot(1, 5);
    let mut changed = Vec::new();
    assert!(!k.commit(&mut changed, &mut Vec::new()));
    assert_eq!(changed, vec![1]);
    assert_eq!(k.get_slot(1).curr, 5);
    let mut changed = Vec::new();
    assert!(k.commit(&mut changed, &mut Vec::new()));
    assert!(changed.is_empty());
}

#[test]
fn any_trigger_fires_on_every_change() {
    let mut k = WASMSimulation::new();
    k.add_trigger(9, 1, desc(8, 0), None).unwrap();
    for v in [3u64, 4, 200] {
        k.set_slot(0, v);
        let mut woken = Vec::new();
        k.commit(&mut Vec::new(), &mut woken);
        assert_eq!(woken, vec![9]);
    }
}

#[test]
fn value_trigger_fires_only_on_its_value() {
    let mut k = WASMSimulation::new();
    k.add_trigger(9, 1, desc(8, 0), Some(4)).unwrap();
    k.set_slot(0, 3);
    let mut woken = Vec::new();
    k.commit(&mut Vec::new(), &mut woken);
    assert!(woken.is_empty());
    k.set_slot(0, 4);
    k.commit(&mut Vec::new(), &mut woken);
    assert_eq!(woken, vec![9]);
    // level-triggered: the waiter stays and fires again
    k.set_slot(0, 0);
    k.commit(&mut Vec::new(), &mut Vec::new());
    k.set_slot(0, 4);
    let mut woken = Vec::new();
    k.commit(&mut Vec::new(), &mut woken);
    assert_eq!(woken, vec![9]);
}

#[test]
fn waiters_fire_in_registration_order() {
    let mut k = WASMSimulation::new();
    k.add_trigger(30, 1, desc(8, 0), None).unwrap();
    k.add_trigger(10, 1, desc(8, 0), Some(6)).unwrap();
    k.add_trigger(20, 1, desc(8, 0), Some(7)).unwrap();
    k.set_slot(0, 6);
    let mut woken = Vec::new();
    k.commit(&mut Vec::new(), &mut woken);
    assert_eq!(woken, vec![30, 10]);
}

#[test]
fn duplicate_trigger_is_refused() {
    let mut k = WASMSimulation::new();
    assert_eq!(k.add_trigger(1, 2, desc(1, 0), Some(1)), Ok(()));
    assert_eq!(k.add_trigger(1, 2, desc(1, 0), Some(1)), Err(SimulationError::DuplicateTrigger));
    assert_eq!(k.add_trigger(1, 2, desc(1, 0), None), Ok(()));
    assert_eq!(k.add_trigger(1, 2, desc(1, 0), None), Err(SimulationError::DuplicateTrigger));
    assert_eq!(k.add_trigger(2, 2, desc(1, 0), None), Ok(()));
}

#[test]
fn replaced_trigger_uses_new_value() {
    let mut k = WASMSimulation::new();
    k.add_trigger(1, 2, desc(4, 0), Some(3)).unwrap();
    k.add_trigger(1, 2, desc(4, 0), Some(5)).unwrap();
    k.set_slot(0, 3);
    let mut woken = Vec::new();
    k.commit(&mut Vec::new(), &mut woken);
    assert!(woken.is_empty());
    k.set_slot(0, 5);
    k.commit(&mut Vec::new(), &mut woken);
    assert_eq!(woken, vec![1]);
}

#[test]
fn removed_trigger_no_longer_fires() {
    let mut k = WASMSimulation::new();
    k.add_trigger(1, 2, desc(4, 0), None).unwrap();
    assert!(k.remove_trigger(1, 2));
    assert!(!k.remove_trigger(1, 2));
    assert!(!k.remove_trigger(1, 77));
    k.set_slot(0, 3);
    let mut woken = Vec::new();
    k.commit(&mut Vec::new(), &mut woken);
    assert!(woken.is_empty());
    assert_eq!(k.len(), 1);
}

#[test]
fn registration_is_idempotent() {
    let mut k = WASMSimulation::new();
    assert_eq!(k.get_signal(42, desc(8, 17)), Ok(0));
    assert_eq!(k.get_signal(43, desc(2, 1)), Ok(1));
    assert_eq!(k.get_signal(42, desc(16, 999)), Ok(0));
    assert_eq!(k.get_slot(0), SlotSnapshot { width: 8, curr: 17, next: 17 });
    assert_eq!(k.len(), 2);
}

#[test]
fn too_wide_signal_is_refused() {
    let mut k = WASMSimulation::new();
    assert_eq!(k.get_signal(1, desc(65, 0)), Err(SimulationError::UnsupportedWidth));
    assert_eq!(k.len(), 0);
    assert_eq!(k.add_trigger(1, 1, desc(100, 0), None), Err(SimulationError::UnsupportedWidth));
    assert_eq!(k.get_signal(1, desc(64, 0)), Ok(0));
}

#[test]
fn writes_are_truncated_to_width() {
    let mut k = WASMSimulation::new();
    k.get_signal(1, desc(4, 0xff)).unwrap();
    k.get_signal(2, desc(64, u64::MAX)).unwrap();
    assert_eq!(k.get_slot(0).curr, 0xf);
    assert_eq!(k.get_slot(1).curr, u64::MAX);
    k.set_slot(0, 0x1234);
    assert_eq!(k.get_slot(0).next, 0x4);
    k.set_slot(1, 0x8000_0000_0000_0001);
    assert_eq!(k.get_slot(1).next, 0x8000_0000_0000_0001);
}

#[test]
fn update_compares_the_unmasked_value() {
    let mut k = WASMSimulation::new();
    k.get_signal(1, desc(1, 1)).unwrap();
    // next holds 1; 3 differs from it, is written as 1 and marks pending
    k.update_slot(0, 3);
    assert_eq!(k.get_slot(0).next, 1);
    let mut changed = Vec::new();
    assert!(k.commit(&mut changed, &mut Vec::new()));
}

#[test]
fn commit_applies_all_pending_slots() {
    let mut k = WASMSimulation::new();
    for s in 0..4u64 {
        k.get_signal(s, desc(8, 0)).unwrap();
    }
    k.set_slot(3, 1);
    k.set_slot(0, 2);
    k.set_slot(2, 0);
    let mut changed = Vec::new();
    assert!(!k.commit(&mut changed, &mut Vec::new()));
    changed.sort();
    assert_eq!(changed, vec![0, 3]);
    assert_eq!(k.get_slot(0).curr, 2);
    assert_eq!(k.get_slot(3).curr, 1);
    assert_eq!(k.get_slot(1).curr, 0);
}

#[test]
fn slot_on_an_arena_that_already_holds_its_words() {
    let mut arena = WASMInstance::new();
    arena.grow_to(10);
    arena.write(9, 77, 64);
    let slot = WASMSignalState::new(&mut arena, 1, 5, desc(4, 0x1f)).unwrap();
    assert_eq!(arena.len(), 10);
    assert_eq!((slot.curr.offset, slot.next.offset), (2, 3));
    assert_eq!((arena.read(2), arena.read(3)), (0xf, 0xf));
    assert_eq!(arena.read(9), 77);
    // a slot past the end grows the arena
    let far = WASMSignalState::new(&mut arena, 7, 6, desc(8, 3)).unwrap();
    assert_eq!(arena.len(), 16);
    assert_eq!(far.curr.get(&arena), 3);
    assert!(matches!(
        WASMSignalState::new(&mut arena, 8, 7, desc(65, 0)),
        Err(SimulationError::UnsupportedWidth)
    ));
    assert_eq!(arena.len(), 16);
}

#[test]
fn slot_set_update_commit() {
    let mut arena = WASMInstance::new();
    let mut slot = WASMSignalState::new(&mut arena, 0, 1, desc(8, 0)).unwrap();
    slot.waiters.push((4, Some(9)));
    slot.waiters.push((5, None));
    assert!(slot.set(&mut arena, 0));
    assert!(!slot.update(&mut arena, 0));
    assert!(slot.update(&mut arena, 0x109));
    assert_eq!(slot.next.get(&arena), 9);
    let mut woken = Vec::new();
    assert!(slot.commit(&mut arena, &mut woken));
    assert_eq!(slot.curr.get(&arena), 9);
    assert_eq!(woken, vec![4, 5]);
    assert!(!slot.commit(&mut arena, &mut woken));
    assert_eq!(woken, vec![4, 5]);
    slot.set(&mut arena, 2);
    let mut woken = Vec::new();
    assert!(slot.commit(&mut arena, &mut woken));
    assert_eq!(woken, vec![5]);
}
