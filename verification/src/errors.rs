use vstd::prelude::*;

verus! {

/// The recoverable errors that graph operations report.
///
/// Label-not-found is split in two ways on purpose: safe lookups report it
/// through an empty `Option`, shortest-path queries through
/// `UnknownLabelError`, while indexed accessors treat an unknown label as a
/// caller error and demand a known label up front.
#[derive(Debug, Clone, Copy, PartialEq, Eq, Structural)]
pub enum GraphError {
    /// A bulk row replacement supplied a vector whose length does not match
    /// the label count; the row is left unchanged.
    InvalidVecSizeError,
    /// A shortest-path endpoint is not a label of the graph.
    UnknownLabelError,
    /// The end label is not reachable from the start label.
    NoPathError,
}

} // verus!
