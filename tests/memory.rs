use wasm_engine::config::{Backend, OptLevel, Profiler, WASMConfig, DEFAULT_MAX_STACK};
use wasm_engine::memory::{mask_of_width, WASMInstance, WASMValue};

#[test]
fn masks_by_width() {
    assert_eq!(mask_of_width(0), 0);
    assert_eq!(mask_of_width(1), 1);
    assert_eq!(mask_of_width(8), 0xff);
    assert_eq!(mask_of_width(63), u64::MAX >> 1);
    assert_eq!(mask_of_width(64), u64::MAX);
}

#[test]
fn cell_truncates_on_write() {
    let mut arena = WASMInstance::new();
    let cell = WASMValue::new(&mut arena, 3, 2, 0xff);
    assert_eq!(arena.len(), 3);
    assert_eq!(arena.read(0), 0);
    assert_eq!(cell.get(&arena), 7);
    cell.set(&mut arena, 10);
    assert_eq!(cell.get(&arena), 2);
}

#[test]
fn arena_write_and_grow() {
    let mut arena = WASMInstance::new();
    arena.grow_to(2);
    arena.write(1, 0x1ff, 8);
    assert_eq!(arena.read(1), 0xff);
    arena.grow_to(1);
    assert_eq!(arena.len(), 2);
}

#[test]
fn config_defaults() {
    let c = WASMConfig::default();
    assert_eq!(c.backend, Backend::WINCH);
    assert_eq!(c.opt_level, OptLevel::SPEED);
    assert_eq!(c.profiler, Profiler::NONE);
    assert_eq!(c.max_stack, 524288);
    assert_eq!(DEFAULT_MAX_STACK, 524288);
    assert!(!c.coredump_on_trap);
    assert!(!c.inlining);
    assert!(c.cache_path.is_none());
}

#[test]
fn config_new_keeps_values() {
    let c = WASMConfig::new(
        Backend::CRANELIFT,
        OptLevel::SPEED_AND_SIZE,
        Profiler::PERFMAP,
        1024,
        true,
        true,
        Some("cache".to_string()),
    );
    assert_eq!(c.backend, Backend::CRANELIFT);
    assert_eq!(c.opt_level, OptLevel::SPEED_AND_SIZE);
    assert_eq!(c.profiler, Profiler::PERFMAP);
    assert_eq!(c.max_stack, 1024);
    assert!(c.coredump_on_trap && c.inlining);
    assert_eq!(c.cache_path.as_deref(), Some("cache"));
}
