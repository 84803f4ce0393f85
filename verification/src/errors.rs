//! The error values that node and edge registration can report.

use vstd::prelude::*;

verus! {

/// A recoverable registration failure, carrying the offending key for
/// diagnostics.
///
/// `DuplicateNode` reports an attempt to register a key (or, at the core
/// layer, an identifier) that is already present. `UnknownNode` reports an
/// edge endpoint that was never registered.
#[derive(Debug, PartialEq, Eq)]
pub enum GraphError<K> {
    DuplicateNode(K),
    UnknownNode(K),
}

} // verus!
