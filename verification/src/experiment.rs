//! An experiment in describing shader computations as lazy operations.
use vstd::prelude::*;

verus! {

/// A GPU buffer in the lazy-operation experiment.
pub struct Buffer {}

impl Buffer {
    /// A new buffer.
    pub fn new() -> (b: Self)
        ensures
            b == (Buffer {}),
    {
        Buffer {}
    }

    /// Accepts `data`; the experiment stores nothing.
    pub fn write(&self, data: Vec<u8>) {
    }
}

/// A shader value that is computed later.
pub struct LazyOP {}

impl LazyOP {
    /// The dot product of `self` and `b`, as a new lazy value.
    pub fn dot(&self, b: LazyOP) -> (r: LazyOP)
        ensures
            r == (LazyOP {}),
    {
        LazyOP {}
    }

    /// The larger of `self` and `b`, as a new lazy value.
    pub fn max(&self, b: LazyOP) -> (r: LazyOP)
        ensures
            r == (LazyOP {}),
    {
        LazyOP {}
    }

    /// `self` scaled to unit length, as a new lazy value.
    pub fn normilize(&self) -> (r: LazyOP)
        ensures
            r == (LazyOP {}),
    {
        LazyOP {}
    }
}

/// The difference of two lazy values, as a new lazy value.
impl std::ops::Sub for LazyOP {
    type Output = LazyOP;

    fn sub(self, rhs: LazyOP) -> (r: LazyOP) {
        LazyOP {}
    }
}

impl vstd::std_specs::ops::SubSpecImpl for LazyOP {
    open spec fn obeys_sub_spec() -> bool {
        true
    }

    open spec fn sub_req(self, rhs: LazyOP) -> bool {
        true
    }

    open spec fn sub_spec(self, rhs: LazyOP) -> LazyOP {
        LazyOP {}
    }
}

/// A buffer read in a shader, as a lazy value.
pub fn buffer() -> (r: LazyOP)
    ensures
        r == (LazyOP {}),
{
    LazyOP {}
}

/// The larger of `a` and `b`, as a lazy value.
pub fn max(a: LazyOP, b: LazyOP) -> (r: LazyOP)
    ensures
        r == (LazyOP {}),
{
    LazyOP {}
}

/// A shader input of type `T`.
pub struct Input<T> {
    pub _t: std::marker::PhantomData<T>,
}

/// The shader input of type `T`.
pub fn input<T>() -> (i: Input<T>)
    ensures
        i == (Input::<T> { _t: std::marker::PhantomData }),
{
    Input::<T> { _t: std::marker::PhantomData }
}

/// A shader uniform.
pub struct Uniform {}

/// A new uniform.
pub fn uniform() -> (u: Uniform)
    ensures
        u == (Uniform {}),
{
    Uniform {}
}

} // verus!
