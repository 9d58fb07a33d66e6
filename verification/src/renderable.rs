use vstd::prelude::*;

use crate::object::Object;
use crate::renderer::BBox;
use crate::renderer::Renderer;
use crate::ui::Cap;

verus! {

/// A trait representing a renderable object.
pub trait Renderable: Object {
    /// Render the renderable object.
    ///
    /// This method should just forward the call to the given
    /// [`Renderer`], supplying the actual widget. The renderer is advised
    /// to honor the given [`BBox`] and is free to inquire additional
    /// state using the supplied [`Cap`]. The returned bounding box is the
    /// one available to the object's children.
    fn render(&self, cap: &dyn Cap, renderer: &dyn Renderer, bbox: BBox) -> BBox;

    /// A method invoked once rendering of the object and all its children
    /// concluded.
    fn render_done(&self, cap: &dyn Cap, renderer: &dyn Renderer, bbox: BBox) {
    }
}

impl<T: Renderable + ?Sized> Renderable for Box<T> {
    /// Render the boxed object: the result is what its rendering returns.
    fn render(&self, cap: &dyn Cap, renderer: &dyn Renderer, bbox: BBox) -> (r: BBox)
        ensures
            call_ensures(T::render, (&**self, cap, renderer, bbox), r),
    {
        (**self).render(cap, renderer, bbox)
    }

    fn render_done(&self, cap: &dyn Cap, renderer: &dyn Renderer, bbox: BBox) {
        (**self).render_done(cap, renderer, bbox)
    }
}

impl<T: Renderable + ?Sized> Renderable for std::rc::Rc<T> {
    /// Render the shared object: the result is what its rendering returns.
    fn render(&self, cap: &dyn Cap, renderer: &dyn Renderer, bbox: BBox) -> (r: BBox)
        ensures
            call_ensures(T::render, (&**self, cap, renderer, bbox), r),
    {
        (**self).render(cap, renderer, bbox)
    }

    fn render_done(&self, cap: &dyn Cap, renderer: &dyn Renderer, bbox: BBox) {
        (**self).render_done(cap, renderer, bbox)
    }
}

} // verus!
