use pgecore::buffer;
use pgecore::buffers::grouped_buffer::GroupedBuffer;
use pgecore::hardware;
use pgecore::hardware::BufferHandle;

fn instance_bytes(position: [f32; 3]) -> Vec<u8> {
    position.iter().flat_map(|v| v.to_ne_bytes()).collect()
}

#[test]
fn test_mesh_with_two_instances() {
    let mesh_one_id = 0;
    let mesh_two_id = 1;

    let mut buffer = GroupedBuffer::new();

    let range = buffer.store(mesh_one_id, 1, &instance_bytes([1.0, 2.0, 3.0]));
    assert_eq!(range, 0..12);
    let range = buffer.store(mesh_one_id, 2, &instance_bytes([4.0, 5.0, 6.0]));
    assert_eq!(range, 0..24);
    let range = buffer.store(mesh_two_id, 1, &instance_bytes([7.0, 8.0, 9.0]));
    assert_eq!(range, 24..36);
    let range = buffer.store(mesh_two_id, 2, &instance_bytes([10.0, 11.0, 12.0]));
    assert_eq!(range, 24..48);
}

#[test]
fn grouped_buffer_overwrites_in_place_and_reports_changes() {
    let mut buffer = GroupedBuffer::new();
    assert_eq!(buffer.store(3, 1, &[1, 2]), 0..2);
    assert_eq!(buffer.store(4, 1, &[3, 4]), 2..4);
    let cmds = buffer.generate_write_commands();
    assert_eq!(cmds.len(), 2);
    assert_eq!((cmds[0].offset, cmds[0].data.clone()), (0, vec![1, 2]));
    assert_eq!((cmds[1].offset, cmds[1].data.clone()), (2, vec![3, 4]));
    assert!(buffer.generate_write_commands().is_empty());

    // storing an item again rewrites its bytes where they were
    assert_eq!(buffer.store(3, 1, &[9, 8]), 0..2);
    assert_eq!(buffer.store(3, 1, &[7, 6]), 0..2);
    let cmds = buffer.generate_write_commands();
    assert_eq!(cmds.len(), 1);
    assert_eq!((cmds[0].offset, cmds[0].data.clone()), (0, vec![7, 6]));
}

#[test]
fn grouped_buffer_remove_zeroes_bytes() {
    let mut buffer = GroupedBuffer::new();
    buffer.store(0, 1, &[5, 5, 5]);
    buffer.store(0, 2, &[6, 6]);
    buffer.generate_write_commands();
    buffer.remove(0, 1);
    buffer.remove(0, 9);
    let cmds = buffer.generate_write_commands();
    assert_eq!(cmds.len(), 1);
    assert_eq!((cmds[0].offset, cmds[0].data.clone()), (0, vec![0, 0, 0]));
    // the group now spans only its remaining item
    assert_eq!(buffer.store(0, 2, &[1, 1]), 3..5);
    // a re-added item goes to the end
    assert_eq!(buffer.store(0, 1, &[2, 2, 2]), 3..8);
}

#[test]
fn buffer_writes_from_position_and_grows() {
    let mut b = buffer::Buffer::new(BufferHandle { id: 7 });
    b.write(&[1, 2, 3]);
    b.write(&[4]);
    assert_eq!(b.len(), 4);
    assert_eq!(b.full().range, 0..4);
    assert_eq!(b.full().handle, BufferHandle { id: 7 });
    b.begin();
    b.write(&[9, 9]);
    assert_eq!(b.len(), 4);
    assert!(b.capacity() >= 4);
    let s = b.slice(1..3);
    assert_eq!(s.range, 1..3);
    let c = b.clone();
    assert_eq!(c.len(), 4);
}

#[test]
fn hardware_buffer_writes_from_position_and_grows() {
    let mut b = hardware::Buffer::new(3);
    b.write(&[1, 2, 3, 4, 5]);
    b.begin();
    b.write(&[7]);
    assert_eq!(b.len(), 5);
    b.write(&[1, 1, 1, 1, 1, 1]);
    assert_eq!(b.len(), 7);
    assert!(b.capacity() >= 7);
    let _ = b.full();
    let _ = b.slice(0..2);
}

#[test]
fn grouped_buffer_can_store_keeps_item_sizes() {
    let mut b = GroupedBuffer::new();
    assert!(b.can_store(1, 1, 12));
    b.store(1, 1, &[7u8; 12]);
    assert!(b.can_store(1, 1, 12));
    assert!(!b.can_store(1, 1, 8));
    assert!(b.can_store(1, 2, 8));
    assert!(!b.can_store(2, 1, u32::MAX as usize));
}

#[test]
fn buffer_flush_hands_over_bytes_and_rewinds() {
    let mut b = buffer::Buffer::new(BufferHandle { id: 2 });
    b.write(&[1, 2, 3]);
    assert_eq!(b.flush(), vec![1, 2, 3]);
    b.write(&[9]);
    assert_eq!(b.flush(), vec![9, 2, 3]);
    assert_eq!(b.len(), 3);
}
