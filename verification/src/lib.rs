//! The verified core of a small game engine: a slot arena, byte buffers,
//! render-pass recording and the bookkeeping around them.
pub mod arena;
pub mod buffer;
pub mod buffers;
pub mod camera;
pub mod debug;
pub mod draw_queue;
pub mod experiment;
pub mod gui;
pub mod hardware;
pub mod input;
pub mod internal_types;
pub mod math;
pub mod mesh_draws;
pub mod node_manager;
pub mod scene_graph;
pub mod spatial_grid;
pub mod types;
pub mod utility;

pub use arena::{Arena, ArenaId, ArenaIntoIterator, ArenaIterMut, ArenaIterator};
