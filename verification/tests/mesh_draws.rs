use pgecore::buffer::Buffer;
use pgecore::hardware::BufferHandle;
use pgecore::mesh_draws::{record_primitive, DrawCall, MeshBuffers, PrimitiveBytes};
use pgecore::types::PrimitiveTopology;

fn buffers() -> MeshBuffers {
    MeshBuffers {
        vertices: Buffer::new(BufferHandle { id: 0 }),
        normals: Buffer::new(BufferHandle { id: 1 }),
        indices: Buffer::new(BufferHandle { id: 2 }),
        tex_coords: Buffer::new(BufferHandle { id: 3 }),
    }
}

fn triangle(tex: bool) -> PrimitiveBytes {
    PrimitiveBytes {
        topology: PrimitiveTopology::TriangleList,
        vertex_count: 3,
        index_count: 3,
        vertices: vec![1; 36],
        normals: vec![2; 36],
        indices: vec![3; 6],
        tex_coords: if tex { vec![4; 24] } else { vec![] },
    }
}

fn ranges(c: &DrawCall) -> (std::ops::Range<u64>, std::ops::Range<u64>, std::ops::Range<u64>, std::ops::Range<u64>, std::ops::Range<u32>, std::ops::Range<u32>) {
    (c.vertices.clone(), c.indices.clone(), c.normals.clone(), c.tex_coords.clone(), c.instances.clone(), c.indices_range.clone())
}

#[test]
fn primitive_instances_get_one_call_per_scene() {
    let mut bufs = buffers();
    let mut scene_bufs = vec![(7usize, Buffer::new(BufferHandle { id: 10 })), (9usize, Buffer::new(BufferHandle { id: 11 }))];
    let mut calls: Vec<(usize, Vec<DrawCall>)> = Vec::new();
    // Two nodes in scene 7, one in scene 9, one without a scene.
    let instances = vec![(Some(7), vec![0u8; 64]), (Some(9), vec![0u8; 64]), (None, vec![0u8; 64]), (Some(7), vec![0u8; 64])];
    record_primitive(&mut bufs, &triangle(false), &instances, 64, &mut scene_bufs, &mut calls);
    assert_eq!(bufs.vertices.len(), 36);
    assert_eq!(bufs.tex_coords.len(), 24);
    assert_eq!(scene_bufs[0].1.len(), 128);
    assert_eq!(scene_bufs[1].1.len(), 64);
    assert_eq!(calls.len(), 2);
    assert_eq!(calls[0].0, 7);
    assert_eq!(ranges(&calls[0].1[0]), (0..36, 0..6, 0..36, 0..24, 0..2, 0..3));
    assert_eq!(calls[1].0, 9);
    assert_eq!(calls[1].1[0].instances, 0..1);

    // A second primitive follows the first in every buffer.
    record_primitive(&mut bufs, &triangle(true), &instances[..2].to_vec(), 64, &mut scene_bufs, &mut calls);
    assert_eq!(calls[0].1.len(), 2);
    assert_eq!(ranges(&calls[0].1[1]), (36..72, 6..12, 36..72, 24..48, 2..3, 0..3));
    assert_eq!(calls[1].1[1].instances, 1..2);
}

#[test]
fn primitives_that_are_not_drawn_change_nothing() {
    let mut bufs = buffers();
    let mut scene_bufs = vec![(7usize, Buffer::new(BufferHandle { id: 10 }))];
    let mut calls: Vec<(usize, Vec<DrawCall>)> = Vec::new();
    let instances = vec![(Some(7), vec![0u8; 64])];
    let mut lines = triangle(true);
    lines.topology = PrimitiveTopology::LineList;
    record_primitive(&mut bufs, &lines, &instances, 64, &mut scene_bufs, &mut calls);
    let mut empty = triangle(true);
    empty.index_count = 0;
    empty.indices = vec![];
    record_primitive(&mut bufs, &empty, &instances, 64, &mut scene_bufs, &mut calls);
    assert_eq!(bufs.vertices.len(), 0);
    assert_eq!(scene_bufs[0].1.len(), 0);
    assert!(calls.is_empty());
}
