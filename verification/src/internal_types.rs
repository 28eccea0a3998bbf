//! Messages passed inside the engine.
use vstd::prelude::*;

use crate::arena::ArenaId;
use crate::types::Texture;

verus! {

/// Copy `data` into a GPU buffer starting at byte `start`.
pub struct WriteCommand {
    pub start: usize,
    pub data: Vec<u8>,
}

/// Something that happened outside the frame loop.
#[derive(Debug)]
pub enum EngineEvent {
    /// The pixels of a texture finished loading.
    ImageLoaded { texture_id: ArenaId<Texture>, width: u32, height: u32, data: Vec<u8> },
}

} // verus!
