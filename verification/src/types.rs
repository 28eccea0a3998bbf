//! Plain engine types: input events, scene records, textures and fonts.
use vstd::prelude::*;

use crate::arena::ArenaId;

verus! {

/// A mouse button.
#[derive(Debug, Clone, Copy, PartialEq, Eq, Structural)]
pub enum MouseButton {
    Left,
    Right,
    Middle,
}

/// A keyboard key the engine reacts to; every other key is `Unknow`.
#[derive(Debug, Clone, Copy, PartialEq, Eq, Structural)]
pub enum KeyboardKey {
    Up,
    Down,
    Left,
    Right,
    W,
    A,
    S,
    D,
    F,
    G,
    Space,
    ShiftLeft,
    Unknow,
}

/// Whether a key went down or up.
#[derive(Debug, Clone, Copy, PartialEq, Eq, Structural)]
pub enum KeyAction {
    Pressed,
    Released,
}

/// A key going down or up.
#[derive(Debug, Clone, Copy, PartialEq, Eq, Structural)]
pub struct KeyboardEvent {
    pub key: KeyboardKey,
    pub action: KeyAction,
}

/// Something the physics step reports.
pub enum PhycicsEvent {
    Collision { id: usize },
}

/// Whether a body moves.
pub enum PhysicsType {
    Static,
    Dynamic,
}

/// How a node takes part in physics.
#[derive(Debug, Clone, Copy, PartialEq, Eq, Structural)]
pub enum PhycisObjectType {
    Static,
    Dynamic,
    /// Takes no part in physics.
    Inert,
}

impl Default for PhycisObjectType {
    /// Nodes take no part in physics unless told otherwise.
    fn default() -> (t: Self)
        ensures
            t == PhycisObjectType::Inert,
    {
        PhycisObjectType::Inert
    }
}

/// Marks node ids.
pub struct NodeId;

/// What a node hangs from: another node, a scene, or nothing.
#[derive(Debug)]
pub enum NodeParent<N> {
    Node(ArenaId<N>),
    Scene(ArenaId<Scene>),
    Orphan,
}

impl<N> Clone for NodeParent<N> {
    fn clone(&self) -> (r: Self)
        ensures
            r == *self,
    {
        match self {
            NodeParent::Node(id) => NodeParent::Node(*id),
            NodeParent::Scene(id) => NodeParent::Scene(*id),
            NodeParent::Orphan => NodeParent::Orphan,
        }
    }
}

impl<N> Copy for NodeParent<N> {}

impl<N> Default for NodeParent<N> {
    /// A node hangs from nothing unless told otherwise.
    fn default() -> (p: Self)
        ensures
            p is Orphan,
    {
        NodeParent::Orphan
    }
}

/// How the vertices of a primitive form shapes.
#[derive(Debug, Clone, Copy, PartialEq, Eq, Structural)]
pub enum PrimitiveTopology {
    PointList,
    LineList,
    LineStrip,
    TriangleList,
    TriangleStrip,
}

/// How a glTF file joins the vertices of a primitive: the seven modes that
/// the format defines.
#[derive(Debug, Clone, Copy, PartialEq, Eq, Structural)]
pub enum MeshMode {
    Points,
    Lines,
    LineLoop,
    LineStrip,
    Triangles,
    TriangleStrip,
    TriangleFan,
}

impl PrimitiveTopology {
    /// The topology that draws a primitive of glTF mode `mode`. Line loops
    /// and triangle fans have none.
    pub fn from_mode(mode: MeshMode) -> (t: Self)
        requires
            mode != MeshMode::LineLoop,
            mode != MeshMode::TriangleFan,
        ensures
            t == match mode {
                MeshMode::Points => PrimitiveTopology::PointList,
                MeshMode::Lines => PrimitiveTopology::LineList,
                MeshMode::LineStrip => PrimitiveTopology::LineStrip,
                MeshMode::Triangles => PrimitiveTopology::TriangleList,
                _ => PrimitiveTopology::TriangleStrip,
            },
    {
        match mode {
            MeshMode::Points => PrimitiveTopology::PointList,
            MeshMode::Lines => PrimitiveTopology::LineList,
            MeshMode::LineStrip => PrimitiveTopology::LineStrip,
            MeshMode::Triangles => PrimitiveTopology::TriangleList,
            _ => PrimitiveTopology::TriangleStrip,
        }
    }
}

/// Marks mesh ids.
#[derive(Debug, Clone)]
pub struct MeshId;

/// The scenes of a loaded asset.
pub struct Asset {
    ascenes: Vec<Scene>,
}

/// A scene that nodes can hang from.
#[derive(Debug, Clone)]
pub struct Scene {
    pub name: Option<String>,
}

impl Scene {
    /// A scene without a name.
    pub fn new() -> (s: Self)
        ensures
            s.name is None,
    {
        Scene { name: None }
    }
}

impl Default for Scene {
    /// A scene without a name.
    fn default() -> (s: Self)
        ensures
            s.name is None,
    {
        Scene::new()
    }
}

/// An animation channel and the sampler it reads.
pub struct Channel {
    pub sampler: usize,
}

/// How an animation moves between keyframes.
#[derive(Debug, Clone, Copy, PartialEq, Eq, Structural)]
pub enum Interpolation {
    Linear,
    Stepm,
    Cubicspline,
}

/// Where an animation sampler reads its times and values, and how it
/// interpolates.
pub struct Sampler {
    pub input: usize,
    pub output: usize,
    pub interpolation: Interpolation,
}

/// An image that a mesh can be drawn with.
#[derive(Debug)]
pub struct Texture {
    pub name: String,
    /// Where the image is loaded from.
    pub source: String,
}

impl Texture {
    /// A texture loaded from `path`, with an empty name.
    pub fn new(path: &str) -> (t: Self)
        ensures
            t.name@ == Seq::<char>::empty(),
            t.source@ == path@,
    {
        Texture { name: String::new(), source: path.to_owned() }
    }
}

impl Clone for Texture {
    fn clone(&self) -> (t: Self)
        ensures
            t.name@ == self.name@,
            t.source@ == self.source@,
    {
        Texture { name: self.name.clone(), source: self.source.clone() }
    }
}

/// Names a loaded font.
#[derive(Debug, Clone, Copy, PartialEq, Eq, Structural)]
pub struct FontHandle {
    pub id: usize,
}

impl FontHandle {
    /// The font with id `id`.
    pub fn new(id: usize) -> (f: Self)
        ensures
            f.id == id,
    {
        FontHandle { id }
    }
}

} // verus!
