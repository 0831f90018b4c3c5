//! Settings for the sandbox engine. The library holds them as plain values;
//! the embedding hands them to the engine unchanged.
use vstd::prelude::*;

verus! {

/// Code generator that compiles process bodies.
#[allow(non_camel_case_types)]
#[derive(Clone, Copy, Debug, PartialEq, Eq, Structural)]
pub enum Backend {
    WINCH,
    CRANELIFT,
}

/// How hard the code generator optimises.
#[allow(non_camel_case_types)]
#[derive(Clone, Copy, Debug, PartialEq, Eq, Structural)]
pub enum OptLevel {
    NONE,
    SPEED,
    SPEED_AND_SIZE,
}

/// Which profiling output the engine emits.
#[allow(non_camel_case_types)]
#[derive(Clone, Copy, Debug, PartialEq, Eq, Structural)]
pub enum Profiler {
    NONE,
    JITDUMP,
    PERFMAP,
}

/// Default cap on a process body's stack, in bytes (512 KiB).
pub const DEFAULT_MAX_STACK: usize = 524288;

/// Engine settings: code generator, optimisation level, profiler, stack
/// cap in bytes, core dumps on traps, inlining across functions, and an
/// optional directory for the compiled-code cache.
#[derive(Clone, Debug)]
pub struct WASMConfig {
    pub backend: Backend,
    pub opt_level: OptLevel,
    pub profiler: Profiler,
    pub max_stack: usize,
    pub coredump_on_trap: bool,
    pub inlining: bool,
    pub cache_path: Option<String>,
}

impl WASMConfig {
    /// Settings made of the given values.
    pub fn new(
        backend: Backend,
        opt_level: OptLevel,
        profiler: Profiler,
        max_stack: usize,
        coredump_on_trap: bool,
        inlining: bool,
        cache_path: Option<String>,
    ) -> (r: Self)
        ensures
            r.backend == backend,
            r.opt_level == opt_level,
            r.profiler == profiler,
            r.max_stack == max_stack,
            r.coredump_on_trap == coredump_on_trap,
            r.inlining == inlining,
            r.cache_path == cache_path,
    {
        WASMConfig { backend, opt_level, profiler, max_stack, coredump_on_trap, inlining, cache_path }
    }
}

impl Default for WASMConfig {
    /// Winch, optimised for speed, no profiler, a 512 KiB stack, no core
    /// dumps, no inlining and no cache.
    fn default() -> (r: Self)
        ensures
            r.backend == Backend::WINCH,
            r.opt_level == OptLevel::SPEED,
            r.profiler == Profiler::NONE,
            r.max_stack == DEFAULT_MAX_STACK,
            !r.coredump_on_trap,
            !r.inlining,
            r.cache_path is None,
    {
        WASMConfig {
            backend: Backend::WINCH,
            opt_level: OptLevel::SPEED,
            profiler: Profiler::NONE,
            max_stack: DEFAULT_MAX_STACK,
            coredump_on_trap: false,
            inlining: false,
            cache_path: None,
        }
    }
}

} // verus!
