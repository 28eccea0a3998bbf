use pgecore::arena::{Arena, ArenaId};
use pgecore::camera::{camera_view, Camera, CameraView};
use pgecore::debug::ChangePrinter;
use pgecore::draw_queue::{DrawCmd, DrawInstruction, DrawQueue};
use pgecore::experiment;
use pgecore::gui::{mouse_area, window, Layout, Window};
use pgecore::hardware::{Buffer, BufferHandle, Pipeline, RenderEncoder};
use pgecore::input::InputHandler;
use pgecore::node_manager::NodeManager;
use pgecore::types::{
    FontHandle, KeyboardKey, MeshMode, NodeParent, PhycisObjectType, PrimitiveTopology, Scene, Texture,
};
use pgecore::scene_graph::{apply_clone_plan, clone_node_plan, in_parent_loop, node_scene};
use pgecore::utility::topo_sort_nodes;

#[derive(Debug)]
struct Node;

#[test]
fn topo_sort_nodes_test() {
    let mut scenes = Arena::new();
    let scene_id = scenes.insert(Scene::default());

    let parent1: ArenaId<Node> = ArenaId::new(0);
    let parent2: ArenaId<Node> = ArenaId::new(1);
    let child1: ArenaId<Node> = ArenaId::new(2);
    let child2: ArenaId<Node> = ArenaId::new(3);
    let child3: ArenaId<Node> = ArenaId::new(4);
    let nodes = vec![
        (parent1, NodeParent::Orphan),
        (parent2, NodeParent::Scene(scene_id)),
        (child1, NodeParent::Node(parent1)),
        (child2, NodeParent::Node(parent2)),
        (child3, NodeParent::Node(child1)),
    ];

    let mut sorted_nodes = Vec::new();
    topo_sort_nodes(&nodes, &mut sorted_nodes);
    assert_eq!(sorted_nodes, vec![parent2, child2, parent1, child1, child3]);
}

#[test]
fn topo_sort_skips_nodes_not_hanging_from_a_root_and_keeps_prefix() {
    let a: ArenaId<Node> = ArenaId::new(0);
    let b: ArenaId<Node> = ArenaId::new(1);
    let c: ArenaId<Node> = ArenaId::new(2);
    let d: ArenaId<Node> = ArenaId::new(7);
    // b and c hang from each other; d hangs from a node that is not listed
    let nodes = vec![
        (a, NodeParent::Orphan),
        (b, NodeParent::Node(c)),
        (c, NodeParent::Node(b)),
        (d, NodeParent::Node(ArenaId::new(9))),
    ];
    let mut sorted = vec![ArenaId::new(42)];
    topo_sort_nodes(&nodes, &mut sorted);
    assert_eq!(sorted, vec![ArenaId::new(42), a]);
}

#[test]
fn node_manager_reuses_slots_of_deleted_nodes() {
    let mut m: NodeManager<&str> = NodeManager::new();
    m.upsert_node(10, "a");
    m.upsert_node(20, "b");
    m.upsert_node(10, "a2");
    m.delete_node(10);
    m.delete_node(99);
    m.upsert_node(30, "c");
    let recs: Vec<(usize, &str)> = m.changed_records().into_iter().map(|(i, r)| (i, *r)).collect();
    assert_eq!(recs, vec![(0, "c"), (1, "b"), (0, "c"), (0, "c")]);
    m.upsert_node(40, "d");
    let last = *m.changed_records().last().unwrap();
    assert_eq!((last.0, *last.1), (2, "d"));
}

#[test]
fn change_printer_reports_only_changes() {
    let mut p = ChangePrinter::new();
    assert!(p.print(3, "x".to_string()));
    assert!(!p.print(0, "x".to_string()));
    assert!(p.print(0, "y".to_string()));
    assert!(!p.print(0, "y".to_string()));
    assert!(p.print(1, "z".to_string()));
}

#[test]
fn draw_queue_keeps_request_order() {
    let mut q = DrawQueue::new();
    q.draw(1, 2);
    q.draw(3, 4);
    assert_eq!(q.queue, vec![DrawCmd { mesh_id: 1, node_id: 2 }, DrawCmd { mesh_id: 3, node_id: 4 }]);
}

#[test]
fn render_pass_records_bindings_per_draw() {
    let mut enc = RenderEncoder::new();
    let pass = enc.begin_render_pass();
    let mut b = Buffer::new(5);
    b.write(&[1, 2, 3]);
    pass.set_vertex_buffer(0, b.full());
    pass.set_index_buffer(b.slice(0..2));
    pass.bind_buffer(1, b.clone());
    pass.set_pipeline(ArenaId::<Pipeline>::new(3));
    pass.bind_texture(2, ArenaId::<Texture>::new(4));
    pass.draw_indexed(0..6, 0..1);
    pass.set_vertex_buffer(1, b.slice(1..2));
    pass.draw_indexed(0..3, 1..2);
    assert_eq!(pass.subpasses.len(), 2);
    assert_eq!(pass.subpasses[0].vertex_buffers.len(), 1);
    assert_eq!(pass.subpasses[1].vertex_buffers.len(), 2);
    assert_eq!(pass.subpasses[1].indices, Some(0..3));
    assert_eq!(pass.subpasses[1].instances, Some(1..2));
    assert_eq!(pass.subpasses[0].buffers.len(), 1);
    assert_eq!(pass.subpasses[0].pipeline, Some(ArenaId::new(3)));
    assert_eq!(pass.textures.len(), 1);
    assert_eq!(enc.passes.len(), 1);
    let _ = enc.begin_render_pass();
    assert_eq!(enc.passes.len(), 2);
    assert!(enc.passes[1].subpasses.is_empty());
}

#[test]
fn small_types_and_constructors() {
    let t = Texture::new("img.png");
    assert_eq!(t.source, "img.png");
    assert_eq!(t.name, "");
    assert_eq!(FontHandle::new(4).id, 4);
    assert!(Scene::new().name.is_none());
    assert_eq!(PhycisObjectType::default(), PhycisObjectType::Inert);
    assert_eq!(Layout::default(), Layout::Stack);
    assert_eq!(KeyboardKey::W, KeyboardKey::W);
    let _ = InputHandler::new();
    let v: CameraView = camera_view();
    v.set_size(10, 20);
    v.set_loc(1, 2);
    let mut clicked = 0;
    mouse_area().on_clicked(|| clicked += 1);
    assert_eq!(clicked, 1);
    let buf = experiment::Buffer::new();
    buf.write(vec![1, 2]);
    let op = experiment::buffer();
    let _ = op.dot(experiment::buffer()).max(experiment::buffer()).normilize();
    let _ = experiment::max(experiment::buffer(), experiment::buffer());
    let _ = experiment::uniform();
    let _ = BufferHandle { id: 1 };
}

#[test]
fn test_fragment() {
    let point_lights = experiment::buffer();
    let normal = experiment::buffer();
    let world_position: experiment::Input<[u8; 12]> = experiment::input();
    let _ = world_position;
    let light_direction = (point_lights - experiment::buffer()).normilize();
    let _diffuse = experiment::max(normal.dot(light_direction), experiment::buffer());
}

#[test]
fn draw_instruction_defaults_to_empty_ranges() {
    let d = DrawInstruction::default();
    assert_eq!(d.position_range, 0..0);
    assert_eq!(d.index_range, 0..0);
    assert_eq!(d.normal_range, 0..0);
    assert_eq!(d.instances_range, 0..0);
    assert_eq!(d.indices_range, 0..0);
}

// 0 hangs from nothing, 1 and 2 from 0, 3 from 2, 4 from 1; 5 hangs from a
// scene and is not below 0.
fn sample_graph() -> Vec<(ArenaId<Node>, NodeParent<Node>)> {
    let mut scenes = Arena::new();
    let scene_id = scenes.insert(Scene::default());
    let id = |i: usize| -> ArenaId<Node> { ArenaId::new(i) };
    vec![
        (id(0), NodeParent::Orphan),
        (id(1), NodeParent::Node(id(0))),
        (id(2), NodeParent::Node(id(0))),
        (id(3), NodeParent::Node(id(2))),
        (id(4), NodeParent::Node(id(1))),
        (id(5), NodeParent::Scene(scene_id)),
    ]
}

#[test]
fn clone_plan_copies_subtree_last_child_first() {
    let nodes = sample_graph();
    let plan = clone_node_plan(&nodes, ArenaId::new(0));
    let got: Vec<(usize, Option<usize>)> = plan.iter().map(|(id, p)| (id.index(), *p)).collect();
    // The root, then its children in listing order; then the subtree of the
    // last child (2 with 3) before that of the first (1 with 4).
    assert_eq!(got, vec![(0, None), (1, Some(0)), (2, Some(0)), (3, Some(2)), (4, Some(1))]);
}

#[test]
fn clone_plan_of_a_leaf_is_the_leaf_alone() {
    let nodes = sample_graph();
    let plan = clone_node_plan(&nodes, ArenaId::new(3));
    let got: Vec<(usize, Option<usize>)> = plan.iter().map(|(id, p)| (id.index(), *p)).collect();
    assert_eq!(got, vec![(3, None)]);
}

#[test]
fn parent_loops_are_detected() {
    let nodes = sample_graph();
    assert!(!in_parent_loop(&nodes, ArenaId::new(0)));
    assert!(!in_parent_loop(&nodes, ArenaId::new(3)));
    let id = |i: usize| -> ArenaId<Node> { ArenaId::new(i) };
    let looped = vec![
        (id(0), NodeParent::Node(id(2))),
        (id(1), NodeParent::Node(id(0))),
        (id(2), NodeParent::Node(id(1))),
        (id(3), NodeParent::Node(id(1))),
    ];
    assert!(in_parent_loop(&looped, id(0)));
    assert!(in_parent_loop(&looped, id(2)));
    // 3 hangs from the loop but is not on it.
    assert!(!in_parent_loop(&looped, id(3)));
}

#[test]
fn camera_and_view() {
    let c = Camera::new();
    let _ = c.clone();
    let _v: CameraView = camera_view().set_camera(c);
}

#[test]
fn arena_default_is_empty() {
    let a: Arena<u8> = Arena::default();
    assert_eq!(a.len(), 0);
}

#[test]
fn primitive_topology_from_gltf_mode() {
    assert_eq!(PrimitiveTopology::from_mode(MeshMode::Points), PrimitiveTopology::PointList);
    assert_eq!(PrimitiveTopology::from_mode(MeshMode::Lines), PrimitiveTopology::LineList);
    assert_eq!(PrimitiveTopology::from_mode(MeshMode::LineStrip), PrimitiveTopology::LineStrip);
    assert_eq!(PrimitiveTopology::from_mode(MeshMode::Triangles), PrimitiveTopology::TriangleList);
    assert_eq!(PrimitiveTopology::from_mode(MeshMode::TriangleStrip), PrimitiveTopology::TriangleStrip);
}

#[test]
fn window_builders_set_one_field_each() {
    struct Ui;
    let w: Window<Ui> = window();
    assert_eq!(w.title, "");
    assert_eq!((w.width, w.height), (800, 600));
    assert!(w.ui.is_none());
    assert!(!w.lock_cursor);
    let w = w.title("main").ui(ArenaId::new(3)).lock_cursor(true);
    assert_eq!(w.title, "main");
    assert_eq!(w.ui.map(|id| id.index()), Some(3));
    assert!(w.lock_cursor);
    assert_eq!((w.width, w.height), (800, 600));
    let d: Window<Ui> = Window::default();
    assert_eq!((d.width, d.height), (0, 0));
}

#[test]
fn node_scene_follows_parents_up_to_a_scene() {
    let nodes = sample_graph();
    // 5 hangs from the scene; 0..4 hang from a node that hangs from nothing.
    assert_eq!(node_scene(&nodes, ArenaId::new(5)).map(|s| s.index()), Some(0));
    assert!(node_scene(&nodes, ArenaId::new(3)).is_none());
    let mut scenes = Arena::new();
    let s = scenes.insert(Scene::default());
    let id = |i: usize| -> ArenaId<Node> { ArenaId::new(i) };
    let chain = vec![(id(0), NodeParent::Scene(s)), (id(1), NodeParent::Node(id(0))), (id(2), NodeParent::Node(id(1)))];
    assert_eq!(node_scene(&chain, id(2)).map(|s| s.index()), Some(s.index()));
    let looped = vec![(id(0), NodeParent::Node(id(1))), (id(1), NodeParent::Node(id(0)))];
    assert!(node_scene(&looped, id(0)).is_none());
}

#[derive(Debug, Clone)]
struct GraphNode {
    parent: NodeParent<GraphNode>,
    tag: u32,
}

#[test]
fn apply_clone_plan_copies_subtree_into_freed_then_new_slots() {
    let mut nodes: Arena<GraphNode> = Arena::new();
    let root = nodes.insert(GraphNode { parent: NodeParent::Orphan, tag: 0 });
    let a = nodes.insert(GraphNode { parent: NodeParent::Node(root), tag: 1 });
    let gone = nodes.insert(GraphNode { parent: NodeParent::Orphan, tag: 9 });
    let _b = nodes.insert(GraphNode { parent: NodeParent::Node(a), tag: 2 });
    nodes.remove(&gone);
    let links: Vec<(ArenaId<GraphNode>, NodeParent<GraphNode>)> =
        nodes.iter().collect().into_iter().map(|(id, n)| (id, n.parent)).collect();
    let plan = clone_node_plan(&links, root);
    let copies = apply_clone_plan(&mut nodes, &plan, |mut n: GraphNode, p| {
        n.parent = p;
        n
    });
    // The freed slot 2 is filled first, then slots 4 and 5 are added.
    let slots: Vec<usize> = copies.iter().map(|c| c.index()).collect();
    assert_eq!(slots, vec![2, 4, 5]);
    let tag_and_parent = |i: usize| {
        let n = nodes.get(&ArenaId::new(i)).unwrap();
        let p = match n.parent {
            NodeParent::Node(q) => Some(q.index()),
            _ => None,
        };
        (n.tag, p)
    };
    assert_eq!(tag_and_parent(2), (0, None));
    assert_eq!(tag_and_parent(4), (1, Some(2)));
    assert_eq!(tag_and_parent(5), (2, Some(4)));
    assert_eq!(tag_and_parent(1), (1, Some(0)));
}
