//! The draw calls of a mesh primitive: which primitives are drawn, the byte
//! ranges their data takes in the shared buffers, and the instances of the
//! primitive in each scene.
use std::ops::Range;
use vstd::prelude::*;

use crate::buffer::{law_consecutive_writes, law_overwrite_reads_back, overwrite, Buffer};
use crate::hardware::{BufferHandle, TextureHandle};
use crate::types::PrimitiveTopology;

verus! {

/// The bytes of one primitive of a mesh, as the GPU takes them, with the
/// number of vertices and of indices they hold.
pub struct PrimitiveBytes {
    pub topology: PrimitiveTopology,
    pub vertex_count: usize,
    pub index_count: usize,
    pub vertices: Vec<u8>,
    pub normals: Vec<u8>,
    pub indices: Vec<u8>,
    pub tex_coords: Vec<u8>,
}

/// The buffers that all meshes share.
pub struct MeshBuffers {
    pub vertices: Buffer,
    pub normals: Buffer,
    pub indices: Buffer,
    pub tex_coords: Buffer,
}

/// One draw: the byte ranges of the primitive's data, the instances drawn
/// and the indices used.
pub struct DrawCall {
    pub texture: Option<TextureHandle>,
    pub vertices: Range<u64>,
    pub indices: Range<u64>,
    pub normals: Range<u64>,
    pub tex_coords: Range<u64>,
    pub instances: Range<u32>,
    pub indices_range: Range<u32>,
}

/// A buffer as plain values: its handle, its staged bytes and where the
/// next write starts.
pub type BufferModel = (BufferHandle, Seq<u8>, int);

/// The plain values of `b`.
pub open spec fn model(b: Buffer) -> BufferModel {
    (b.handle(), b.data(), b.offset() as int)
}

/// What writing `bytes` makes of the buffer `m`.
pub open spec fn model_write(m: BufferModel, bytes: Seq<u8>) -> BufferModel {
    (m.0, overwrite(m.1, m.2, bytes), m.2 + bytes.len())
}

/// The plain values of buffers listed by scene.
pub open spec fn models(s: Seq<(usize, Buffer)>) -> Seq<(usize, BufferModel)> {
    s.map_values(|e: (usize, Buffer)| (e.0, model(e.1)))
}

/// The draw calls listed by scene, as sequences.
pub open spec fn calls_view(s: Seq<(usize, Vec<DrawCall>)>) -> Seq<(usize, Seq<DrawCall>)> {
    s.map_values(|e: (usize, Vec<DrawCall>)| (e.0, e.1@))
}

/// The instances of a primitive as plain values: the scene of each node, if
/// it has one, and the bytes of its instance.
pub open spec fn instances_view(s: Seq<(Option<usize>, Vec<u8>)>) -> Seq<(Option<usize>, Seq<u8>)> {
    s.map_values(|e: (Option<usize>, Vec<u8>)| (e.0, e.1@))
}

/// The last position of key `k` in `s`.
pub open spec fn key_index<V>(s: Seq<(usize, V)>, k: usize) -> Option<int>
    decreases s.len(),
{
    if s.len() == 0 {
        None
    } else if s.last().0 == k {
        Some(s.len() - 1)
    } else {
        key_index(s.drop_last(), k)
    }
}

/// Only triangle lists with vertices and indices are drawn.
pub open spec fn is_drawn(p: PrimitiveBytes) -> bool {
    p.topology == PrimitiveTopology::TriangleList && p.vertex_count > 0 && p.index_count > 0
}

/// The texture coordinates written for `p`: its own, or a zero pair of
/// `f32`s (eight zero bytes) per vertex when it has none.
pub open spec fn tex_bytes(p: PrimitiveBytes) -> Seq<u8> {
    if p.tex_coords@.len() > 0 {
        p.tex_coords@
    } else {
        Seq::new((8 * p.vertex_count) as nat, |i: int| 0u8)
    }
}

/// A primitive that is drawn is a triangle list: strips, lines and points
/// are never drawn.
pub proof fn law_only_triangle_lists_drawn(p: PrimitiveBytes)
    ensures
        is_drawn(p) ==> p.topology == PrimitiveTopology::TriangleList,
        p.topology != PrimitiveTopology::TriangleList ==> !is_drawn(p),
{
}

/// A primitive with texture coordinates of its own has exactly those
/// written; one without has eight zero bytes written per vertex.
pub proof fn law_tex_bytes(p: PrimitiveBytes)
    ensures
        p.tex_coords@.len() > 0 ==> tex_bytes(p) == p.tex_coords@,
        p.tex_coords@.len() == 0 ==> tex_bytes(p).len() == 8 * p.vertex_count && forall|i: int|
            0 <= i < tex_bytes(p).len() ==> #[trigger] tex_bytes(p)[i] == 0u8,
{
}

/// The instance number a buffer of `len` bytes has reached, in instances
/// of `size` bytes, with the length taken as a `u32`.
pub open spec fn instance_at(len: nat, size: u32) -> u32 {
    ((len as u32) / size) as u32
}

/// One instance written: into the buffer of its scene, whose range of
/// instances for this primitive starts at the first one and ends after the
/// last; an instance without a scene is skipped.
pub open spec fn instance_step(
    st: (Seq<(usize, BufferModel)>, Seq<(usize, (u32, u32))>),
    inst: (Option<usize>, Seq<u8>),
    size: u32,
) -> (Seq<(usize, BufferModel)>, Seq<(usize, (u32, u32))>) {
    match inst.0 {
        None => st,
        Some(s) => match key_index(st.0, s) {
            None => st,
            Some(i) => {
                let m = st.0[i].1;
                let m2 = model_write(m, inst.1);
                let start = instance_at(m.1.len(), size);
                let end = instance_at(m2.1.len(), size);
                let cps = match key_index(st.1, s) {
                    Some(j) => st.1.update(j, (s, (st.1[j].1.0, end))),
                    None => st.1.push((s, (start, end))),
                };
                (st.0.update(i, (s, m2)), cps)
            },
        },
    }
}

/// The first `k` instances written, from the scene buffers `bufs` and no
/// instance ranges.
pub open spec fn instances_written(
    bufs: Seq<(usize, BufferModel)>,
    insts: Seq<(Option<usize>, Seq<u8>)>,
    size: u32,
    k: int,
) -> (Seq<(usize, BufferModel)>, Seq<(usize, (u32, u32))>)
    decreases k,
{
    if k <= 0 {
        (bufs, Seq::empty())
    } else {
        instance_step(instances_written(bufs, insts, size, k - 1), insts[k - 1], size)
    }
}

/// The bytes of the first `k` instances.
pub open spec fn instance_bytes(insts: Seq<(Option<usize>, Seq<u8>)>, k: int) -> int
    decreases k,
{
    if k <= 0 {
        0
    } else {
        instance_bytes(insts, k - 1) + insts[k - 1].1.len()
    }
}

/// The draw call of a primitive whose data takes the ranges `v`, `i`, `n`,
/// `t`, for the instances `inst`, with `count` indices.
pub open spec fn call_of(v: (u64, u64), i: (u64, u64), n: (u64, u64), t: (u64, u64), inst: (u32, u32), count: u32) -> DrawCall {
    DrawCall {
        texture: None,
        vertices: v.0..v.1,
        indices: i.0..i.1,
        normals: n.0..n.1,
        tex_coords: t.0..t.1,
        instances: inst.0..inst.1,
        indices_range: 0..count,
    }
}

/// `calls` with `c` added to the calls of scene `s`.
pub open spec fn add_call(calls: Seq<(usize, Seq<DrawCall>)>, s: usize, c: DrawCall) -> Seq<(usize, Seq<DrawCall>)> {
    match key_index(calls, s) {
        Some(j) => calls.update(j, (s, calls[j].1.push(c))),
        None => calls.push((s, seq![c])),
    }
}

/// `calls` with one draw call added per scene of `cps`, in order, each for
/// the scene's range of instances.
pub open spec fn calls_added(
    calls: Seq<(usize, Seq<DrawCall>)>,
    cps: Seq<(usize, (u32, u32))>,
    v: (u64, u64),
    i: (u64, u64),
    n: (u64, u64),
    t: (u64, u64),
    count: u32,
    k: int,
) -> Seq<(usize, Seq<DrawCall>)>
    decreases k,
{
    if k <= 0 {
        calls
    } else {
        let prev = calls_added(calls, cps, v, i, n, t, count, k - 1);
        add_call(prev, cps[k - 1].0, call_of(v, i, n, t, cps[k - 1].1, count))
    }
}

/// The range that appending `bytes` at the write position of `m` gives,
/// measured by lengths before and after.
pub open spec fn len_range(m: BufferModel, bytes: Seq<u8>) -> (u64, u64) {
    (m.1.len() as u64, model_write(m, bytes).1.len() as u64)
}

/// The last position of key `k` in `s`.
fn find_key<V>(s: &Vec<(usize, V)>, k: usize) -> (r: Option<usize>)
    ensures
        match r {
            Some(i) => key_index(s@, k) == Some(i as int),
            None => key_index(s@, k) is None,
        },
{
    let mut i = s.len();
    proof {
        assert(s@.subrange(0, i as int) =~= s@);
    }
    while i > 0
        invariant
            i <= s@.len(),
            key_index(s@, k) == key_index(s@.subrange(0, i as int), k),
        decreases i,
    {
        proof {
            let sub = s@.subrange(0, i as int);
            assert(sub.last() == s@[i - 1]);
            assert(sub.drop_last() =~= s@.subrange(0, i - 1));
        }
        if s[i - 1].0 == k {
            return Some(i - 1);
        }
        i = i - 1;
    }
    None
}


/// Where key `k` is found, it is there.
proof fn lemma_key_index<V>(s: Seq<(usize, V)>, k: usize)
    ensures
        key_index(s, k) matches Some(i) ==> 0 <= i < s.len() && s[i].0 == k,
    decreases s.len(),
{
    if s.len() > 0 {
        lemma_key_index(s.drop_last(), k);
    }
}

/// Where two lists have the same keys, a key is found at the same place.
proof fn lemma_key_index_same_keys<V, W>(a: Seq<(usize, V)>, b: Seq<(usize, W)>, k: usize)
    requires
        a.len() == b.len(),
        forall|i: int| 0 <= i < a.len() ==> (#[trigger] a[i]).0 == b[i].0,
    ensures
        key_index(a, k) == key_index(b, k),
    decreases a.len(),
{
    if a.len() > 0 {
        assert(a.last().0 == b.last().0);
        lemma_key_index_same_keys(a.drop_last(), b.drop_last(), k);
    }
}

/// The bytes of the first `k` instances that belong to scene `s`, in order.
pub open spec fn scene_bytes(insts: Seq<(Option<usize>, Seq<u8>)>, s: usize, k: int) -> Seq<u8>
    decreases k,
{
    if k <= 0 {
        Seq::empty()
    } else {
        scene_bytes(insts, s, k - 1) + if insts[k - 1].0 == Some(s) {
            insts[k - 1].1
        } else {
            Seq::<u8>::empty()
        }
    }
}

/// One of the first `k` instances belongs to scene `s`.
pub open spec fn scene_reached(insts: Seq<(Option<usize>, Seq<u8>)>, s: usize, k: int) -> bool
    decreases k,
{
    if k <= 0 {
        false
    } else {
        scene_reached(insts, s, k - 1) || insts[k - 1].0 == Some(s)
    }
}

/// Adding an entry with another key, or changing one with another key,
/// leaves where a key is found.
proof fn lemma_key_index_other<V>(s: Seq<(usize, V)>, k: usize, j: int, e: (usize, V))
    requires
        e.0 != k,
        j == s.len() || (0 <= j < s.len() && s[j].0 == e.0),
    ensures
        key_index(if j == s.len() { s.push(e) } else { s.update(j, e) }, k) == key_index(s, k),
{
    if j == s.len() {
        assert(s.push(e).drop_last() =~= s);
    } else {
        lemma_key_index_same_keys(s.update(j, e), s, k);
    }
}

/// Writing nothing at a position within the bytes changes nothing.
proof fn lemma_write_nothing(m: BufferModel)
    requires
        0 <= m.2 <= m.1.len(),
    ensures
        model_write(m, Seq::empty()) == m,
{
    assert(overwrite(m.1, m.2, Seq::empty()) =~= m.1);
}

/// What the instances make of one scene's buffer: a scene buffer (the last
/// one listed for its scene) gets the bytes of that scene's instances
/// written in order, the scene's range of instances runs from the instance
/// number its buffer had reached before them to the one it reached after
/// them, and a scene no instance belongs to gets no range.
pub proof fn law_instances_by_scene(
    bufs: Seq<(usize, BufferModel)>,
    insts: Seq<(Option<usize>, Seq<u8>)>,
    size: u32,
    k: int,
    i: int,
)
    requires
        0 <= k <= insts.len(),
        0 <= i < bufs.len(),
        key_index(bufs, bufs[i].0) == Some(i),
        0 <= bufs[i].1.2 <= bufs[i].1.1.len(),
    ensures
        ({
            let st = instances_written(bufs, insts, size, k);
            let key = bufs[i].0;
            &&& st.0.len() == bufs.len()
            &&& forall|x: int| 0 <= x < bufs.len() ==> (#[trigger] st.0[x]).0 == bufs[x].0
            &&& st.0[i].1 == model_write(bufs[i].1, scene_bytes(insts, key, k))
            &&& scene_reached(insts, key, k) ==> (key_index(st.1, key) matches Some(j) && st.1[j].1 == (
                instance_at(bufs[i].1.1.len(), size),
                instance_at(st.0[i].1.1.len(), size),
            ))
            &&& !scene_reached(insts, key, k) ==> key_index(st.1, key) is None
        }),
    decreases k,
{
    let key = bufs[i].0;
    if k <= 0 {
        lemma_write_nothing(bufs[i].1);
    } else {
        law_instances_by_scene(bufs, insts, size, k - 1, i);
        let prev = instances_written(bufs, insts, size, k - 1);
        let inst = insts[k - 1];
        let b = bufs[i].1;
        let a = scene_bytes(insts, key, k - 1);
        if !scene_reached(insts, key, k - 1) {
            lemma_not_reached_no_bytes(insts, key, k - 1);
        }
        match inst.0 {
            None => {
                assert(scene_bytes(insts, key, k) =~= a);
            },
            Some(s) => {
                lemma_key_index_same_keys(prev.0, bufs, s);
                lemma_key_index(prev.0, s);
                lemma_key_index(prev.1, s);
                lemma_key_index(prev.1, key);
                match key_index(prev.0, s) {
                    None => {
                        if s == key {
                            lemma_key_index_same_keys(prev.0, bufs, key);
                        }
                        assert(scene_bytes(insts, key, k) =~= a + if s == key { inst.1 } else { Seq::empty() });
                    },
                    Some(i2) => {
                        let m = prev.0[i2].1;
                        let m2 = model_write(m, inst.1);
                        if s == key {
                            lemma_key_index_same_keys(prev.0, bufs, key);
                            assert(i2 == i);
                            law_consecutive_writes(b.1, b.2, a, inst.1);
                            assert(scene_bytes(insts, key, k) == a + inst.1);
                            assert(model_write(model_write(b, a), inst.1) == model_write(b, a + inst.1));
                            let st = instances_written(bufs, insts, size, k);
                            assert(st.0[i].1 == m2);
                            if !scene_reached(insts, key, k - 1) {
                                assert(a =~= Seq::<u8>::empty());
                                lemma_write_nothing(b);
                                assert(m == b);
                                assert(key_index(prev.1, key) is None);
                                assert(st.1 == prev.1.push((key, (instance_at(m.1.len(), size), instance_at(m2.1.len(), size)))));
                                assert(st.1.push((key, (0u32, 0u32))).drop_last() =~= st.1);
                                assert(key_index(st.1, key) == Some(prev.1.len() as int));
                            } else {
                                let j = key_index(prev.1, key)->0;
                                let e = (key, (prev.1[j].1.0, instance_at(m2.1.len(), size)));
                                assert(st.1 == prev.1.update(j, e));
                                lemma_key_index_same_keys(prev.1.update(j, e), prev.1, key);
                                assert(key_index(st.1, key) == Some(j));
                                assert(st.1[j] == e);
                            }
                        } else {
                            assert(i2 != i);
                            assert(scene_bytes(insts, key, k) =~= a);
                            let cps = prev.1;
                            match key_index(cps, s) {
                                Some(j) => {
                                    lemma_key_index_other(cps, key, j, (s, (cps[j].1.0, instance_at(m2.1.len(), size))));
                                    if key_index(cps, key) is Some {
                                        assert(key_index(cps, key)->0 != j);
                                    }
                                },
                                None => {
                                    lemma_key_index_other(
                                        cps,
                                        key,
                                        cps.len() as int,
                                        (s, (instance_at(m.1.len(), size), instance_at(m2.1.len(), size))),
                                    );
                                },
                            }
                        }
                    },
                }
            },
        }
    }
}

/// A scene no instance belongs to gets no bytes.
proof fn lemma_not_reached_no_bytes(insts: Seq<(Option<usize>, Seq<u8>)>, s: usize, k: int)
    requires
        !scene_reached(insts, s, k),
    ensures
        scene_bytes(insts, s, k) == Seq::<u8>::empty(),
    decreases k,
{
    if k > 0 {
        lemma_not_reached_no_bytes(insts, s, k - 1);
        assert(scene_bytes(insts, s, k) =~= Seq::<u8>::empty());
    }
}

/// Records the draw of primitive `prim`: a triangle list with vertices and
/// indices has its vertices, normals, indices and texture coordinates
/// written to the shared buffers, each instance with a scene written to
/// that scene's buffer, and one draw call added per scene reached, in the
/// order the scenes are first reached, for the range of instances it got.
/// Other primitives change nothing.
pub fn record_primitive(
    bufs: &mut MeshBuffers,
    prim: &PrimitiveBytes,
    instances: &Vec<(Option<usize>, Vec<u8>)>,
    instance_size: u32,
    scene_bufs: &mut Vec<(usize, Buffer)>,
    calls: &mut Vec<(usize, Vec<DrawCall>)>,
)
    requires
        instance_size > 0,
        forall|k: int|
            0 <= k < instances@.len() ==> ((#[trigger] instances@[k]).0 matches Some(s) ==> key_index(
                models(old(scene_bufs)@),
                s,
            ) is Some),
        8 * prim.vertex_count <= usize::MAX,
        old(bufs).vertices.offset() + prim.vertices@.len() <= usize::MAX,
        old(bufs).normals.offset() + prim.normals@.len() <= usize::MAX,
        old(bufs).indices.offset() + prim.indices@.len() <= usize::MAX,
        old(bufs).tex_coords.offset() + tex_bytes(*prim).len() <= usize::MAX,
        forall|i: int|
            0 <= i < old(scene_bufs)@.len() ==> (#[trigger] old(scene_bufs)@[i]).1.offset() + instance_bytes(
                instances_view(instances@),
                instances@.len() as int,
            ) <= usize::MAX,
    ensures
        !(prim.topology == PrimitiveTopology::TriangleList) ==> {
            &&& model(final(bufs).vertices) == model(old(bufs).vertices)
            &&& model(final(bufs).normals) == model(old(bufs).normals)
            &&& model(final(bufs).indices) == model(old(bufs).indices)
            &&& model(final(bufs).tex_coords) == model(old(bufs).tex_coords)
            &&& models(final(scene_bufs)@) == models(old(scene_bufs)@)
            &&& calls_view(final(calls)@) == calls_view(old(calls)@)
        },
        prim.topology == PrimitiveTopology::TriangleList && prim.vertex_count > 0 && prim.index_count > 0 ==> {
            let at = old(bufs).tex_coords.offset() as int;
            &&& prim.tex_coords@.len() > 0 ==> final(bufs).tex_coords.data().subrange(at, at + prim.tex_coords@.len())
                == prim.tex_coords@
            &&& prim.tex_coords@.len() == 0 ==> final(bufs).tex_coords.data().subrange(at, at + 8 * prim.vertex_count)
                == Seq::new((8 * prim.vertex_count) as nat, |i: int| 0u8)
        },
        !is_drawn(*prim) ==> {
            &&& model(final(bufs).vertices) == model(old(bufs).vertices)
            &&& model(final(bufs).normals) == model(old(bufs).normals)
            &&& model(final(bufs).indices) == model(old(bufs).indices)
            &&& model(final(bufs).tex_coords) == model(old(bufs).tex_coords)
            &&& models(final(scene_bufs)@) == models(old(scene_bufs)@)
            &&& calls_view(final(calls)@) == calls_view(old(calls)@)
        },
        is_drawn(*prim) ==> {
            let v = len_range(model(old(bufs).vertices), prim.vertices@);
            let n = len_range(model(old(bufs).normals), prim.normals@);
            let ix = len_range(model(old(bufs).indices), prim.indices@);
            let t = len_range(model(old(bufs).tex_coords), tex_bytes(*prim));
            let st = instances_written(
                models(old(scene_bufs)@),
                instances_view(instances@),
                instance_size,
                instances@.len() as int,
            );
            &&& model(final(bufs).vertices) == model_write(model(old(bufs).vertices), prim.vertices@)
            &&& model(final(bufs).normals) == model_write(model(old(bufs).normals), prim.normals@)
            &&& model(final(bufs).indices) == model_write(model(old(bufs).indices), prim.indices@)
            &&& model(final(bufs).tex_coords) == model_write(model(old(bufs).tex_coords), tex_bytes(*prim))
            &&& models(final(scene_bufs)@) == st.0
            &&& calls_view(final(calls)@) == calls_added(
                calls_view(old(calls)@),
                st.1,
                v,
                ix,
                n,
                t,
                #[verifier::truncate] (prim.index_count as u32),
                st.1.len() as int,
            )
        },
        is_drawn(*prim) ==> forall|i: int|
            0 <= i < old(scene_bufs)@.len() && key_index(models(old(scene_bufs)@), old(scene_bufs)@[i].0) == Some(i)
                && (#[trigger] old(scene_bufs)@[i]).1.offset() <= old(scene_bufs)@[i].1.data().len() ==> {
                let key = old(scene_bufs)@[i].0;
                let st = instances_written(
                    models(old(scene_bufs)@),
                    instances_view(instances@),
                    instance_size,
                    instances@.len() as int,
                );
                &&& final(scene_bufs)@[i].0 == key
                &&& model(final(scene_bufs)@[i].1) == model_write(
                    model(old(scene_bufs)@[i].1),
                    scene_bytes(instances_view(instances@), key, instances@.len() as int),
                )
                &&& scene_reached(instances_view(instances@), key, instances@.len() as int) ==> (key_index(st.1, key) matches Some(j)
                    && st.1[j].1 == (
                    instance_at(old(scene_bufs)@[i].1.data().len(), instance_size),
                    instance_at(final(scene_bufs)@[i].1.data().len(), instance_size),
                ))
            },
{
    if !(prim.topology == PrimitiveTopology::TriangleList) || prim.vertex_count == 0 || prim.index_count == 0 {
        return;
    }
    let ghost insts = instances_view(instances@);
    let ghost old_models = models(scene_bufs@);
    let vertices_start = bufs.vertices.len();
    bufs.vertices.write(prim.vertices.as_slice());
    let vertices_end = bufs.vertices.len();
    let normals_start = bufs.normals.len();
    bufs.normals.write(prim.normals.as_slice());
    let normals_end = bufs.normals.len();
    let indices_start = bufs.indices.len();
    bufs.indices.write(prim.indices.as_slice());
    let indices_end = bufs.indices.len();
    let tex_coords_start = bufs.tex_coords.len();
    if prim.tex_coords.len() > 0 {
        bufs.tex_coords.write(prim.tex_coords.as_slice());
    } else {
        let n = 8 * prim.vertex_count;
        let mut zeros: Vec<u8> = Vec::new();
        let mut z: usize = 0;
        while z < n
            invariant
                0 <= z <= n,
                zeros@ == Seq::new(z as nat, |i: int| 0u8),
            decreases n - z,
        {
            zeros.push(0u8);
            z = z + 1;
            proof {
                assert(zeros@ =~= Seq::new(z as nat, |i: int| 0u8));
            }
        }
        proof {
            assert(zeros@ =~= tex_bytes(*prim));
        }
        bufs.tex_coords.write(zeros.as_slice());
    }
    let tex_coords_end = bufs.tex_coords.len();
    let mut ranges: Vec<(usize, (u32, u32))> = Vec::new();
    let mut k: usize = 0;
    proof {
        lemma_instance_bytes_grow(insts, 0, instances@.len() as int);
    }
    while k < instances.len()
        invariant
            0 <= k <= instances@.len(),
            insts == instances_view(instances@),
            instance_size > 0,
            old_models == models(old(scene_bufs)@),
            forall|k2: int|
                0 <= k2 < instances@.len() ==> ((#[trigger] instances@[k2]).0 matches Some(s) ==> key_index(
                    old_models,
                    s,
                ) is Some),
            forall|i: int|
                0 <= i < old_models.len() ==> (#[trigger] old_models[i]).1.2 + instance_bytes(
                    insts,
                    instances@.len() as int,
                ) <= usize::MAX,
            (models(scene_bufs@), ranges@) == instances_written(old_models, insts, instance_size, k as int),
            models(scene_bufs@).len() == old_models.len(),
            forall|i: int| 0 <= i < old_models.len() ==> (#[trigger] models(scene_bufs@)[i]).0 == old_models[i].0,
            forall|i: int|
                0 <= i < old_models.len() ==> (#[trigger] models(scene_bufs@)[i]).1.2 <= old_models[i].1.2
                    + instance_bytes(insts, k as int),
            instance_bytes(insts, k as int) <= instance_bytes(insts, instances@.len() as int),
        decreases instances@.len() - k,
    {
        let ghost before = models(scene_bufs@);
        let ghost ranges_before = ranges@;
        proof {
            lemma_instance_bytes_grow(insts, k as int + 1, instances@.len() as int);
            assert(insts[k as int] == (instances@[k as int].0, instances@[k as int].1@));
        }
        match instances[k].0 {
            None => {},
            Some(s) => {
                proof {
                    lemma_key_index_same_keys(models(scene_bufs@), old_models, s);
                    lemma_key_index(models(scene_bufs@), s);
                }
                proof {
                    lemma_key_index_same_keys(scene_bufs@, models(scene_bufs@), s);
                }
                match find_key(scene_bufs, s) {
                    Some(i) => {
                        proof {
                            assert(before[i as int].1.2 <= old_models[i as int].1.2 + instance_bytes(insts, k as int));
                            assert(scene_bufs@[i as int].1.offset() == before[i as int].1.2);
                        }
                        let start = (#[verifier::truncate] (scene_bufs[i].1.len() as u32)) / instance_size;
                        let entry = &mut scene_bufs[i];
                        entry.1.write(instances[k].1.as_slice());
                        let end = (#[verifier::truncate] (scene_bufs[i].1.len() as u32)) / instance_size;
                        proof {
                            assert(models(scene_bufs@) =~= before.update(
                                i as int,
                                (s, model_write(before[i as int].1, insts[k as int].1)),
                            ));
                        }
                        proof {
                            lemma_key_index(ranges@, s);
                        }
                        match find_key(&ranges, s) {
                            Some(j) => {
                                let first = ranges[j].1.0;
                                ranges.set(j, (s, (first, end)));
                            },
                            None => {
                                ranges.push((s, (start, end)));
                            },
                        }
                    },
                    None => {},
                }
            },
        }
        proof {
            assert forall|i: int| 0 <= i < old_models.len() implies (#[trigger] models(scene_bufs@)[i]).1.2
                <= old_models[i].1.2 + instance_bytes(insts, k + 1) by {
                assert(before[i].1.2 <= old_models[i].1.2 + instance_bytes(insts, k as int));
            }
        }
        k = k + 1;
    }
    let count = #[verifier::truncate] (prim.index_count as u32);
    let ghost v = (vertices_start, vertices_end);
    let ghost n = (normals_start, normals_end);
    let ghost ix = (indices_start, indices_end);
    let ghost t = (tex_coords_start, tex_coords_end);
    let ghost cps = ranges@;
    let ghost old_calls = calls_view(calls@);
    let mut c: usize = 0;
    while c < ranges.len()
        invariant
            0 <= c <= cps.len(),
            cps == ranges@,
            v == (vertices_start, vertices_end),
            n == (normals_start, normals_end),
            ix == (indices_start, indices_end),
            t == (tex_coords_start, tex_coords_end),
            count == prim.index_count as u32,
            calls_view(calls@) == calls_added(old_calls, cps, v, ix, n, t, count, c as int),
        decreases cps.len() - c,
    {
        let s = ranges[c].0;
        let a = ranges[c].1.0;
        let b = ranges[c].1.1;
        let call = DrawCall {
            texture: None,
            vertices: vertices_start..vertices_end,
            indices: indices_start..indices_end,
            normals: normals_start..normals_end,
            tex_coords: tex_coords_start..tex_coords_end,
            instances: a..b,
            indices_range: 0..count,
        };
        let ghost before = calls_view(calls@);
        proof {
            assert(cps[c as int].1 == (a, b));
            assert(call == call_of(v, ix, n, t, (a, b), count));
        }
        proof {
            lemma_key_index_same_keys(calls@, calls_view(calls@), s);
        }
        match find_key(calls, s) {
            Some(j) => {
                proof {
                    lemma_key_index(before, s);
                }
                let entry = &mut calls[j];
                entry.1.push(call);
                proof {
                    assert(calls_view(calls@) =~= before.update(j as int, (s, before[j as int].1.push(call))));
                }
            },
            None => {
                let mut list: Vec<DrawCall> = Vec::new();
                list.push(call);
                calls.push((s, list));
                proof {
                    assert(calls_view(calls@) =~= before.push((s, seq![call])));
                }
            },
        }
        c = c + 1;
    }
    proof {
        let nk = instances@.len() as int;
        assert forall|i: int|
            0 <= i < old(scene_bufs)@.len() && key_index(models(old(scene_bufs)@), old(scene_bufs)@[i].0) == Some(i)
                && (#[trigger] old(scene_bufs)@[i]).1.offset() <= old(scene_bufs)@[i].1.data().len() implies {
                let key = old(scene_bufs)@[i].0;
                let st = instances_written(old_models, insts, instance_size, nk);
                &&& scene_bufs@[i].0 == key
                &&& model(scene_bufs@[i].1) == model_write(model(old(scene_bufs)@[i].1), scene_bytes(insts, key, nk))
                &&& scene_reached(insts, key, nk) ==> (key_index(st.1, key) matches Some(j) && st.1[j].1 == (
                    instance_at(old(scene_bufs)@[i].1.data().len(), instance_size),
                    instance_at(scene_bufs@[i].1.data().len(), instance_size),
                ))
            } by {
            assert(old_models[i] == (old(scene_bufs)@[i].0, model(old(scene_bufs)@[i].1)));
            law_instances_by_scene(old_models, insts, instance_size, nk, i);
            assert(models(scene_bufs@)[i] == (scene_bufs@[i].0, model(scene_bufs@[i].1)));
        }
        law_overwrite_reads_back(old(bufs).tex_coords.data(), old(bufs).tex_coords.offset() as int, tex_bytes(*prim));
    }
}

/// The bytes of more instances are no fewer.
proof fn lemma_instance_bytes_grow(insts: Seq<(Option<usize>, Seq<u8>)>, k: int, m: int)
    requires
        0 <= k <= m,
    ensures
        instance_bytes(insts, k) <= instance_bytes(insts, m),
    decreases m - k,
{
    if k < m {
        lemma_instance_bytes_grow(insts, k, m - 1);
    }
}

} // verus!
