//! A queue of draw requests, each naming a mesh and the node it is drawn at,
//! and the buffer ranges one draw reads.
use vstd::prelude::*;

verus! {

/// Draw mesh `mesh_id` at node `node_id`.
#[derive(Debug, Clone, Copy, PartialEq, Eq, Structural)]
pub struct DrawCmd {
    pub mesh_id: usize,
    pub node_id: usize,
}

/// Draw requests in the order they were made.
pub struct DrawQueue {
    pub queue: Vec<DrawCmd>,
}

impl DrawQueue {
    /// An empty queue.
    pub fn new() -> (q: Self)
        ensures
            q.queue@ == Seq::<DrawCmd>::empty(),
    {
        DrawQueue { queue: Vec::new() }
    }

    /// Requests a draw of `mesh_id` at `node_id`, after all earlier ones.
    pub fn draw(&mut self, mesh_id: usize, node_id: usize)
        ensures
            final(self).queue@ == old(self).queue@.push(DrawCmd { mesh_id, node_id }),
    {
        self.queue.push(DrawCmd { mesh_id, node_id });
    }
}

/// Where one draw finds its data: byte ranges in the position, index and
/// normal buffers, and the instances and indices it covers.
#[derive(Debug)]
pub struct DrawInstruction {
    pub position_range: std::ops::Range<u64>,
    pub index_range: std::ops::Range<u64>,
    pub normal_range: std::ops::Range<u64>,
    pub instances_range: std::ops::Range<u32>,
    pub indices_range: std::ops::Range<u32>,
}

impl Default for DrawInstruction {
    /// An instruction whose ranges are all empty and start at zero.
    fn default() -> (d: Self)
        ensures
            d.position_range == (0u64..0u64),
            d.index_range == (0u64..0u64),
            d.normal_range == (0u64..0u64),
            d.instances_range == (0u32..0u32),
            d.indices_range == (0u32..0u32),
    {
        DrawInstruction {
            position_range: 0..0,
            index_range: 0..0,
            normal_range: 0..0,
            instances_range: 0..0,
            indices_range: 0..0,
        }
    }
}

} // verus!
