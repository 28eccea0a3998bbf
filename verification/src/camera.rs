//! A camera and the view that shows it.
use vstd::prelude::*;

verus! {

/// A camera. It keeps no state of its own: moving or turning it yields a
/// new camera.
pub struct Camera {}

impl Camera {
    /// A new camera.
    pub fn new() -> (c: Camera)
        ensures
            c == (Camera {}),
    {
        Camera {}
    }
}

impl Clone for Camera {
    fn clone(&self) -> (c: Camera)
        ensures
            c == *self,
    {
        Camera {}
    }
}

/// A view showing a camera's picture.
pub struct CameraView {}

impl CameraView {
    /// A new view.
    pub fn new() -> (v: CameraView)
        ensures
            v == (CameraView {}),
    {
        CameraView {}
    }

    /// A view showing `camera`. The view keeps no camera: it is a new view.
    pub fn set_camera(&self, camera: Camera) -> (v: CameraView)
        ensures
            v == (CameraView {}),
    {
        CameraView {}
    }

    /// Sets the view's size in pixels. The view keeps no size: nothing
    /// changes.
    pub fn set_size(&self, width: usize, height: usize) {
    }

    /// Sets the view's position in pixels. The view keeps no position:
    /// nothing changes.
    pub fn set_loc(&self, x: usize, y: usize) {
    }
}

/// A new camera view.
pub fn camera_view() -> (v: CameraView)
    ensures
        v == (CameraView {}),
{
    CameraView::new()
}

} // verus!
