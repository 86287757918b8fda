use vstd::prelude::*;

verus! {

/// How much memory the rewriter may use.
#[derive(Debug, Copy, Clone, PartialEq, Eq, Structural)]
pub struct MemorySettings {
    /// The size of the buffer allocated for parsing at the start.
    pub preallocated_parsing_buffer_size: usize,
    /// The most memory the rewriter may use.
    pub max_allowed_memory_usage: usize,
}

impl Default for MemorySettings {
    /// A buffer of 1024 bytes to start with, and no limit.
    fn default() -> (r: MemorySettings)
        ensures
            r.preallocated_parsing_buffer_size == 1024,
            r.max_allowed_memory_usage == usize::MAX,
    {
        MemorySettings { preallocated_parsing_buffer_size: 1024, max_allowed_memory_usage: usize::MAX }
    }
}

} // verus!
