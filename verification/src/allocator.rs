//! The name of the host's memory allocator.

use vstd::prelude::*;

verus! {

/// Stands for the allocator of the host runtime. The type holds no state
/// and does no work here: the binding layer wraps it to route the
/// process's allocations through the host.
#[derive(Debug, Clone, Copy, PartialEq, Eq)]
pub struct PyMemAllocator;

} // verus!
