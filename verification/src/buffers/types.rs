//! Commands that copy bytes into a GPU buffer.
use vstd::prelude::*;

verus! {

/// Copy `data` into a GPU buffer at byte `offset`.
#[derive(Debug)]
pub struct WriteCommand {
    pub offset: usize,
    pub data: Vec<u8>,
}

} // verus!
