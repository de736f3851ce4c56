//! The formats a graph is read and written in.

use vstd::prelude::*;

verus! {

/// A serialization format of the graph.
#[allow(clippy::upper_case_acronyms)]
#[derive(Clone, Copy, Debug, PartialEq, Eq)]
pub enum Format {
    TOML,
    JSON,
}

} // verus!
