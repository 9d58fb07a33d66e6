use vstd::prelude::*;

use crate::object::Object;
use crate::ui::Cap;

verus! {

/// A bounding box representing the area that a widget may occupy. A
/// bounding box always describes a rectangular area. The origin [x=0,
/// y=0] is typically assumed to reside in the upper left corner of the
/// screen, but it is really up to the individual [`Renderer`] to make
/// do with whatever is provided.
#[derive(Clone, Copy, Debug, Default, Eq, Hash, PartialEq)]
pub struct BBox {
    /// The x-coordinate of the bounding box.
    pub x: u16,
    /// The y-coordinate of the bounding box.
    pub y: u16,
    /// The width of the bounding box.
    pub w: u16,
    /// The height of the bounding box.
    pub h: u16,
}

impl BBox {
    /// Whether the bounding box covers no area at all.
    pub open spec fn is_empty(self) -> bool {
        self.w == 0 || self.h == 0
    }
}

/// A call made while rendering a [`Ui`][crate::Ui], as recorded in the
/// trace that rendering returns; [`Ui::made`][crate::Ui::made] ties each
/// entry to the call it stands for, its arguments and its result.
pub enum RenderCall {
    /// [`Renderer::renderable_area`] returned this bounding box.
    Area(BBox),
    /// [`Renderer::pre_render`] was invoked.
    PreRender,
    /// The widget with the given index was rendered within the first
    /// bounding box, and its rendering returned the second one.
    Render(usize, BBox, BBox),
    /// Rendering of the widget with the given index and all its children
    /// concluded; the widget had been rendered within the given box.
    RenderDone(usize, BBox),
    /// [`Renderer::post_render`] was invoked.
    PostRender,
}

/// An abstraction for objects used for rendering widgets.
///
/// The object being rendered is handed in as an [`Object`], which
/// identifies the widget by its [`Id`][crate::Id].
pub trait Renderer {
    /// Retrieve the bounding box of the renderable area (typically the
    /// screen).
    fn renderable_area(&self) -> BBox;

    /// Perform some pre-render step.
    fn pre_render(&self) {
    }

    /// Render an object, returning the bounding box that its children
    /// may occupy.
    fn render(&self, object: &dyn Object, cap: &dyn Cap, bbox: BBox) -> BBox;

    /// A method invoked once rendering of a widget and all its children
    /// concluded.
    fn render_done(&self, object: &dyn Object, cap: &dyn Cap, bbox: BBox) {
    }

    /// Perform some post-render step.
    fn post_render(&self) {
    }
}

} // verus!
