use vstd::prelude::*;

verus! {

/// Where a datum lives: which content table holds it and at which entry of that table.
#[derive(Clone, Copy, Debug, PartialEq, Eq, Structural)]
pub struct ContentAddress {
    pub table: usize,
    pub entry: usize,
}

} // verus!
