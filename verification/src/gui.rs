//! User-interface building blocks that hold no geometry.
use vstd::prelude::*;

use crate::arena::ArenaId;

verus! {

/// An area that reacts to mouse clicks.
pub struct MouseArea {}

impl MouseArea {
    /// Runs `f`, the click handler, once.
    pub fn on_clicked<F>(&self, f: F) where F: FnMut()
        requires
            call_requires(f, ()),
        ensures
            call_ensures(f, (), ()),
    {
        let mut f = f;
        f();
    }
}

/// A new mouse area.
pub fn mouse_area() -> (m: MouseArea)
    ensures
        m == (MouseArea {}),
{
    MouseArea {}
}

/// How an element places its children.
#[derive(Debug, Clone, Copy, PartialEq, Eq, Structural)]
pub enum Layout {
    Horizontal,
    Vertical,
    Stack,
}

impl Default for Layout {
    /// Children are stacked unless told otherwise.
    fn default() -> (l: Self)
        ensures
            l == Layout::Stack,
    {
        Layout::Stack
    }
}

/// A window: its title, its size in pixels, the user interface it shows
/// (an element of type `U`), and whether it keeps the cursor.
#[derive(Debug)]
pub struct Window<U> {
    pub title: String,
    pub width: u32,
    pub height: u32,
    pub ui: Option<ArenaId<U>>,
    pub lock_cursor: bool,
}

impl<U> Window<U> {
    /// An untitled 800 by 600 window showing nothing, cursor free.
    pub fn new() -> (w: Self)
        ensures
            w.title@ == Seq::<char>::empty(),
            w.width == 800,
            w.height == 600,
            w.ui is None,
            !w.lock_cursor,
    {
        Window { title: String::new(), width: 800, height: 600, ui: None, lock_cursor: false }
    }

    /// The window with title `title`.
    pub fn title(self, title: &str) -> (w: Self)
        ensures
            w.title@ == title@,
            w.width == self.width,
            w.height == self.height,
            w.ui == self.ui,
            w.lock_cursor == self.lock_cursor,
    {
        Window { title: title.to_owned(), ..self }
    }

    /// The window showing the user interface `ui`.
    pub fn ui(self, ui: ArenaId<U>) -> (w: Self)
        ensures
            w.title == self.title,
            w.width == self.width,
            w.height == self.height,
            w.ui == Some(ui),
            w.lock_cursor == self.lock_cursor,
    {
        Window { ui: Some(ui), ..self }
    }

    /// The window keeping the cursor when `lock` holds.
    pub fn lock_cursor(self, lock: bool) -> (w: Self)
        ensures
            w.title == self.title,
            w.width == self.width,
            w.height == self.height,
            w.ui == self.ui,
            w.lock_cursor == lock,
    {
        Window { lock_cursor: lock, ..self }
    }
}

impl<U> Clone for Window<U> {
    fn clone(&self) -> (w: Self)
        ensures
            w.title@ == self.title@,
            w.width == self.width,
            w.height == self.height,
            w.ui == self.ui,
            w.lock_cursor == self.lock_cursor,
    {
        Window {
            title: self.title.clone(),
            width: self.width,
            height: self.height,
            ui: match &self.ui {
                Some(id) => Some(*id),
                None => None,
            },
            lock_cursor: self.lock_cursor,
        }
    }
}

impl<U> Default for Window<U> {
    /// An untitled window of no size showing nothing, cursor free.
    fn default() -> (w: Self)
        ensures
            w.title@ == Seq::<char>::empty(),
            w.width == 0,
            w.height == 0,
            w.ui is None,
            !w.lock_cursor,
    {
        Window { title: String::new(), width: 0, height: 0, ui: None, lock_cursor: false }
    }
}

/// A new window, as [`Window::new`] makes it.
pub fn window<U>() -> (w: Window<U>)
    ensures
        w.title@ == Seq::<char>::empty(),
        w.width == 800,
        w.height == 600,
        w.ui is None,
        !w.lock_cursor,
{
    Window::new()
}

} // verus!
