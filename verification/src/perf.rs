//! Plain data carried by the execution-profiling scaffolding: per-call
//! activation records of the specialized executor and its counters.

use vstd::prelude::*;

verus! {

/// A lightweight activation record used by specialized execution paths.
#[derive(Clone, Copy, PartialEq, Eq, Debug)]
pub struct CallFrame {
    pub return_address: usize,
    pub local_base: usize,
    pub function_address: usize,
}

/// Counters over the specialized instruction paths.
#[derive(Clone, Copy, PartialEq, Eq, Debug)]
pub struct PerformanceCounters {
    pub fast_arithmetic_ops: u64,
    pub optimized_loops: u64,
    pub tail_calls: u64,
    pub simd_operations: u64,
    pub bulk_operations: u64,
    pub inlined_calls: u64,
    pub predicted_branches: u64,
    pub branch_mispredictions: u64,
}

impl Default for PerformanceCounters {
    /// All counters start at zero.
    fn default() -> (r: PerformanceCounters)
        ensures
            r == (PerformanceCounters {
                fast_arithmetic_ops: 0,
                optimized_loops: 0,
                tail_calls: 0,
                simd_operations: 0,
                bulk_operations: 0,
                inlined_calls: 0,
                predicted_branches: 0,
                branch_mispredictions: 0,
            }),
    {
        PerformanceCounters {
            fast_arithmetic_ops: 0,
            optimized_loops: 0,
            tail_calls: 0,
            simd_operations: 0,
            bulk_operations: 0,
            inlined_calls: 0,
            predicted_branches: 0,
            branch_mispredictions: 0,
        }
    }
}

/// Configuration of the memory-management layer.
#[derive(Clone, Copy, PartialEq, Eq, Debug)]
pub struct MemoryConfig {
    pub enable_interning: bool,
    pub enable_gc: bool,
    pub enable_pooling: bool,
    pub enable_layout_optimization: bool,
    pub gc_threshold: usize,
    pub intern_threshold: usize,
    pub pool_initial_size: usize,
    pub pool_max_size: usize,
}

/// Statistics of the value-interning layer.
#[derive(Clone, Copy, PartialEq, Eq, Debug)]
pub struct InternerStats {
    pub integers_interned: usize,
    pub floats_interned: usize,
    pub strings_interned: usize,
    pub total_interned: usize,
    pub memory_saved: usize,
}

} // verus!
