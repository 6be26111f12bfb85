use vstd::prelude::*;

verus! {

/// Why an operation of this crate failed.
#[derive(Clone, Copy, Debug, PartialEq, Eq, Structural)]
pub enum Error {
    /// A caller-supplied value does not denote anything usable.
    InvalidArgument,
    /// An address belongs to no known module.
    ModuleNotFound,
    /// Part of the addressed memory is not mapped.
    MemoryData,
    /// The memory layer failed in a way that cannot be recovered from.
    MemoryFatal,
}

} // verus!
