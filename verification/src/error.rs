use vstd::prelude::*;

verus! {

/// Error kinds of the orchestration core.
///
/// Build-time errors carry the offending edge name; memory errors of the
/// virtual-address substrate get one variant each.
#[derive(Debug, Clone, PartialEq, Eq)]
pub enum Error {
    /// No compatible device is present.
    NoDevice,
    /// A tensor's element kind differs from the container entry's; carries the
    /// edge name.
    DTypeMismatch(String),
    /// A tensor's concrete shape differs from the container entry's; carries
    /// the edge name with the expected and actual shapes.
    ShapeMismatch(String, Vec<usize>, Vec<usize>),
    /// The same source pointer was registered twice with different lengths.
    PlannerAliasLenMismatch,
    /// A size or offset is not a multiple of the allocation granularity.
    InvalidAlignment,
    /// A map request overlaps a range that is already mapped.
    MapConflict,
    /// An address range touched by a copy or an unmap is not currently mapped.
    NotMapped,
    /// A graph holds a node kind that replay does not cover.
    InvalidLaunchConfig,
    /// A kernel name was not found among the module's symbols.
    SymbolNotFound(String),
}

} // verus!
