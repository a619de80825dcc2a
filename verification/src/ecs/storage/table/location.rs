use vstd::prelude::*;

verus! {

/// Where a row lives inside one archetype: its chunk and its row in that chunk.
#[derive(Debug, Clone, Copy, PartialEq, Eq, Structural)]
pub struct TableRowLocation {
    pub chunk: usize,
    pub row: usize,
}

} // verus!
