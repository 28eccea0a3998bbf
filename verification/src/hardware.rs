//! Hardware-independent records of GPU work: byte buffers and the render
//! passes that bind them and draw.
use std::ops::Range;
use vstd::prelude::*;

use crate::arena::ArenaId;
use crate::buffer::{overwrite, write_at};
use crate::types::Texture;

verus! {

/// Names a GPU buffer.
#[derive(Debug, Clone, Copy, PartialEq, Eq, Structural)]
pub struct BufferHandle {
    pub id: u32,
}

/// Names a render pipeline.
pub struct PipelineHandle {
    pub id: u32,
}

/// A drawing surface.
pub struct Surface {}

/// Names a texture.
pub struct TextureHandle {
    pub id: u32,
}

/// A compiled render pipeline.
#[derive(Debug)]
pub struct Pipeline {}

/// The capacity of `v`: how many bytes it can hold without reallocating.
/// Std's documentation states that it is at least the length and that a
/// vector never allocates more than `isize::MAX` bytes; the value itself
/// depends on the allocator and is left open.
#[verifier::external_body]
pub(crate) fn byte_capacity(v: &Vec<u8>) -> (r: u64)
    ensures
        r >= v@.len(),
        r <= isize::MAX,
{
    v.capacity() as u64
}

/// A copy of `v`.
pub(crate) fn copy_bytes(v: &Vec<u8>) -> (r: Vec<u8>)
    ensures
        r@ == v@,
{
    let mut r: Vec<u8> = Vec::new();
    let mut i: usize = 0;
    while i < v.len()
        invariant
            0 <= i <= v@.len(),
            r@ == v@.subrange(0, i as int),
        decreases v@.len() - i,
    {
        r.push(v[i]);
        i = i + 1;
        proof {
            assert(r@ =~= v@.subrange(0, i as int));
        }
    }
    proof {
        assert(r@ =~= v@);
    }
    r
}

/// The bytes staged for a GPU buffer and the position of the next write.
#[derive(Debug)]
pub struct Buffer {
    id: u32,
    data: Vec<u8>,
    offset: u64,
}

impl Buffer {
    /// The buffer's id.
    pub closed spec fn id(&self) -> u32 {
        self.id
    }

    /// The staged bytes.
    pub closed spec fn data(&self) -> Seq<u8> {
        self.data@
    }

    /// Where the next write starts.
    pub closed spec fn offset(&self) -> nat {
        self.offset as nat
    }

    /// An empty buffer with id `id`.
    pub fn new(id: u32) -> (b: Self)
        ensures
            b.id() == id,
            b.data() == Seq::<u8>::empty(),
            b.offset() == 0,
            b.offset() <= b.data().len(),
    {
        Buffer { id, data: Vec::new(), offset: 0 }
    }

    /// The slice `range` of this buffer.
    pub fn slice(&self, range: Range<u64>) -> (s: BufferSlice)
        ensures
            s.buffer_id() == self.id(),
            s.range() == range,
    {
        BufferSlice { buffer_id: self.id, range }
    }

    /// The slice covering all staged bytes.
    pub fn full(&self) -> (s: BufferSlice)
        ensures
            s.buffer_id() == self.id(),
            s.range().start == 0,
            s.range().end == self.data().len(),
    {
        BufferSlice { buffer_id: self.id, range: 0..self.data.len() as u64 }
    }

    /// Starts writing from the front again; the staged bytes stay.
    pub fn begin(&mut self)
        ensures
            final(self).offset() == 0,
            final(self).data() == old(self).data(),
            final(self).id() == old(self).id(),
            final(self).offset() <= final(self).data().len(),
    {
        self.offset = 0;
    }

    /// Writes `data` at the current position, growing the buffer with zeros
    /// as needed, and moves the position past it.
    pub fn write(&mut self, data: &[u8])
        requires
            old(self).offset() + data@.len() <= usize::MAX,
        ensures
            final(self).data() == overwrite(old(self).data(), old(self).offset() as int, data@),
            final(self).offset() == old(self).offset() + data@.len(),
            final(self).id() == old(self).id(),
            final(self).offset() <= final(self).data().len(),
    {
        let at = self.offset as usize;
        write_at(&mut self.data, at, data);
        self.offset = (at + data.len()) as u64;
    }

    /// The number of staged bytes.
    pub fn len(&self) -> (r: u64)
        ensures
            r == self.data().len(),
    {
        self.data.len() as u64
    }

    /// How many bytes the buffer can hold without reallocating; at least
    /// its length, at most `isize::MAX`.
    pub fn capacity(&self) -> (r: u64)
        ensures
            r >= self.data().len(),
            r <= isize::MAX,
    {
        byte_capacity(&self.data)
    }
}

impl Clone for Buffer {
    fn clone(&self) -> (r: Self)
        ensures
            r.id() == self.id(),
            r.data() == self.data(),
            r.offset() == self.offset(),
    {
        Buffer { id: self.id, data: copy_bytes(&self.data), offset: self.offset }
    }
}

/// A range of bytes of a buffer.
#[derive(Debug)]
pub struct BufferSlice {
    buffer_id: u32,
    range: Range<u64>,
}

impl BufferSlice {
    /// The id of the buffer sliced.
    pub closed spec fn buffer_id(&self) -> u32 {
        self.buffer_id
    }

    /// The bytes covered.
    pub closed spec fn range(&self) -> Range<u64> {
        self.range
    }
}

impl Clone for BufferSlice {
    fn clone(&self) -> (r: Self)
        ensures
            r == *self,
    {
        BufferSlice { buffer_id: self.buffer_id, range: self.range.start..self.range.end }
    }
}

/// `a` and `b` are the same buffer: same id, bytes and position.
pub open spec fn same_buffer(a: Buffer, b: Buffer) -> bool {
    &&& a.id() == b.id()
    &&& a.data() == b.data()
    &&& a.offset() == b.offset()
}

/// `a` and `b` bind the same buffers to the same slots, in the same order.
pub open spec fn same_bindings(a: Seq<(u32, Buffer)>, b: Seq<(u32, Buffer)>) -> bool {
    &&& a.len() == b.len()
    &&& forall|k: int| 0 <= k < a.len() ==> (#[trigger] a[k]).0 == b[k].0 && same_buffer(a[k].1, b[k].1)
}

fn copy_slices(v: &Vec<(u32, BufferSlice)>) -> (r: Vec<(u32, BufferSlice)>)
    ensures
        r@ == v@,
{
    let mut r: Vec<(u32, BufferSlice)> = Vec::new();
    let mut i: usize = 0;
    while i < v.len()
        invariant
            0 <= i <= v@.len(),
            r@ == v@.subrange(0, i as int),
        decreases v@.len() - i,
    {
        let e = &v[i];
        r.push((e.0, e.1.clone()));
        i = i + 1;
        proof {
            assert(r@ =~= v@.subrange(0, i as int));
        }
    }
    proof {
        assert(r@ =~= v@);
    }
    r
}

fn copy_bindings(v: &Vec<(u32, Buffer)>) -> (r: Vec<(u32, Buffer)>)
    ensures
        same_bindings(r@, v@),
{
    let mut r: Vec<(u32, Buffer)> = Vec::new();
    let mut i: usize = 0;
    while i < v.len()
        invariant
            0 <= i <= v@.len(),
            same_bindings(r@, v@.subrange(0, i as int)),
        decreases v@.len() - i,
    {
        let e = &v[i];
        r.push((e.0, e.1.clone()));
        i = i + 1;
    }
    proof {
        assert(v@.subrange(0, v@.len() as int) =~= v@);
    }
    r
}

fn copy_slice_opt(v: &Option<BufferSlice>) -> (r: Option<BufferSlice>)
    ensures
        r == *v,
{
    match v {
        Some(s) => Some(s.clone()),
        None => None,
    }
}

fn copy_range_opt(v: &Option<Range<u32>>) -> (r: Option<Range<u32>>)
    ensures
        r == *v,
{
    match v {
        Some(x) => Some(x.start..x.end),
        None => None,
    }
}

/// A list of render passes to be executed in order.
pub struct RenderEncoder {
    pub passes: Vec<RenderPass>,
}

impl RenderEncoder {
    /// An encoder with no passes.
    pub fn new() -> (e: Self)
        ensures
            e.passes@ == Seq::<RenderPass>::empty(),
    {
        RenderEncoder { passes: Vec::new() }
    }

    /// Appends an empty render pass and returns it for recording.
    pub fn begin_render_pass(&mut self) -> (p: &mut RenderPass)
        ensures
            p.is_empty(),
            final(self).passes@ == old(self).passes@.push(*final(p)),
    {
        let render_pass = RenderPass::default();
        self.passes.push(render_pass);
        let last = self.passes.len() - 1;
        &mut self.passes[last]
    }
}

/// What a pass binds and draws. Each draw records a [`Subpass`] holding the
/// bindings in force at that moment.
pub struct RenderPass {
    pub subpasses: Vec<Subpass>,
    pub vertex_buffers: Vec<(u32, BufferSlice)>,
    pub index_buffer: Option<BufferSlice>,
    pub pipeline: Option<ArenaId<Pipeline>>,
    pub buffers: Vec<(u32, Buffer)>,
    pub textures: Vec<(u32, ArenaId<Texture>)>,
    pub indices: Option<Range<u32>>,
    pub instances: Option<Range<u32>>,
}

impl RenderPass {
    /// Nothing bound, nothing drawn.
    pub open spec fn is_empty(&self) -> bool {
        &&& self.subpasses@.len() == 0
        &&& self.vertex_buffers@.len() == 0
        &&& self.index_buffer is None
        &&& self.pipeline is None
        &&& self.buffers@.len() == 0
        &&& self.textures@.len() == 0
        &&& self.indices is None
        &&& self.instances is None
    }

    /// Binds `buffer` to `slot`.
    pub fn bind_buffer(&mut self, slot: u32, buffer: Buffer)
        ensures
            final(self).buffers@ == old(self).buffers@.push((slot, buffer)),
            final(self).subpasses@ == old(self).subpasses@,
            final(self).vertex_buffers@ == old(self).vertex_buffers@,
            final(self).index_buffer == old(self).index_buffer,
            final(self).pipeline == old(self).pipeline,
            final(self).textures@ == old(self).textures@,
            final(self).indices == old(self).indices,
            final(self).instances == old(self).instances,
    {
        self.buffers.push((slot, buffer));
    }

    /// Binds `texture` to `slot`.
    pub fn bind_texture(&mut self, slot: u32, texture: ArenaId<Texture>)
        ensures
            final(self).textures@ == old(self).textures@.push((slot, texture)),
            final(self).subpasses@ == old(self).subpasses@,
            final(self).vertex_buffers@ == old(self).vertex_buffers@,
            final(self).index_buffer == old(self).index_buffer,
            final(self).pipeline == old(self).pipeline,
            final(self).buffers@ == old(self).buffers@,
            final(self).indices == old(self).indices,
            final(self).instances == old(self).instances,
    {
        self.textures.push((slot, texture));
    }

    /// Binds `buffer` as vertex buffer `slot`.
    pub fn set_vertex_buffer(&mut self, slot: u32, buffer: BufferSlice)
        ensures
            final(self).vertex_buffers@ == old(self).vertex_buffers@.push((slot, buffer)),
            final(self).subpasses@ == old(self).subpasses@,
            final(self).index_buffer == old(self).index_buffer,
            final(self).pipeline == old(self).pipeline,
            final(self).buffers@ == old(self).buffers@,
            final(self).textures@ == old(self).textures@,
            final(self).indices == old(self).indices,
            final(self).instances == old(self).instances,
    {
        self.vertex_buffers.push((slot, buffer));
    }

    /// Makes `buffer` the index buffer.
    pub fn set_index_buffer(&mut self, buffer: BufferSlice)
        ensures
            final(self).index_buffer == Some(buffer),
            final(self).subpasses@ == old(self).subpasses@,
            final(self).vertex_buffers@ == old(self).vertex_buffers@,
            final(self).pipeline == old(self).pipeline,
            final(self).buffers@ == old(self).buffers@,
            final(self).textures@ == old(self).textures@,
            final(self).indices == old(self).indices,
            final(self).instances == old(self).instances,
    {
        self.index_buffer = Some(buffer);
    }

    /// Records a draw of `indices` for `instances` with the current bindings.
    pub fn draw_indexed(&mut self, indices: Range<u32>, instances: Range<u32>)
        ensures
            final(self).indices == Some(indices),
            final(self).instances == Some(instances),
            final(self).vertex_buffers@ == old(self).vertex_buffers@,
            final(self).index_buffer == old(self).index_buffer,
            final(self).pipeline == old(self).pipeline,
            final(self).buffers@ == old(self).buffers@,
            final(self).textures@ == old(self).textures@,
            final(self).subpasses@.len() == old(self).subpasses@.len() + 1,
            final(self).subpasses@.drop_last() == old(self).subpasses@,
            final(self).subpasses@.last().records(old(self).vertex_buffers@, old(self).index_buffer,
                old(self).pipeline, old(self).buffers@, Some(indices), Some(instances)),
    {
        let sub_indices = Some(indices.start..indices.end);
        let sub_instances = Some(instances.start..instances.end);
        self.indices = Some(indices);
        self.instances = Some(instances);
        let subpass = Subpass {
            vertex_buffers: copy_slices(&self.vertex_buffers),
            index_buffer: copy_slice_opt(&self.index_buffer),
            pipeline: self.pipeline,
            buffers: copy_bindings(&self.buffers),
            indices: sub_indices,
            instances: sub_instances,
        };
        self.subpasses.push(subpass);
        proof {
            assert(self.subpasses@.drop_last() =~= old(self).subpasses@);
        }
    }

    /// Selects `pipeline` for the following draws.
    pub fn set_pipeline(&mut self, pipeline: ArenaId<Pipeline>)
        ensures
            final(self).pipeline == Some(pipeline),
            final(self).subpasses@ == old(self).subpasses@,
            final(self).vertex_buffers@ == old(self).vertex_buffers@,
            final(self).index_buffer == old(self).index_buffer,
            final(self).buffers@ == old(self).buffers@,
            final(self).textures@ == old(self).textures@,
            final(self).indices == old(self).indices,
            final(self).instances == old(self).instances,
    {
        self.pipeline = Some(pipeline);
    }
}

impl Default for RenderPass {
    fn default() -> (p: Self)
        ensures
            p.is_empty(),
    {
        RenderPass {
            subpasses: Vec::new(),
            vertex_buffers: Vec::new(),
            index_buffer: None,
            pipeline: None,
            buffers: Vec::new(),
            textures: Vec::new(),
            indices: None,
            instances: None,
        }
    }
}

/// One recorded draw with the bindings it used.
pub struct Subpass {
    pub vertex_buffers: Vec<(u32, BufferSlice)>,
    pub index_buffer: Option<BufferSlice>,
    pub pipeline: Option<ArenaId<Pipeline>>,
    pub buffers: Vec<(u32, Buffer)>,
    pub indices: Option<Range<u32>>,
    pub instances: Option<Range<u32>>,
}

impl Subpass {
    /// This draw used exactly the given bindings and ranges.
    pub open spec fn records(
        &self,
        vertex_buffers: Seq<(u32, BufferSlice)>,
        index_buffer: Option<BufferSlice>,
        pipeline: Option<ArenaId<Pipeline>>,
        buffers: Seq<(u32, Buffer)>,
        indices: Option<Range<u32>>,
        instances: Option<Range<u32>>,
    ) -> bool {
        &&& self.vertex_buffers@ == vertex_buffers
        &&& self.index_buffer == index_buffer
        &&& self.pipeline == pipeline
        &&& same_bindings(self.buffers@, buffers)
        &&& self.indices == indices
        &&& self.instances == instances
    }
}

} // verus!
