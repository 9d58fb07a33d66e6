use vstd::prelude::*;

use crate::ui::Id;

verus! {

/// An `Object` represents a first-class entity in a UI.
pub trait Object {
    /// Retrieve this object's [`Id`].
    fn id(&self) -> Id;
}

impl<T: Object + ?Sized> Object for Box<T> {
    /// The `Id` of the boxed object.
    fn id(&self) -> (r: Id)
        ensures
            call_ensures(T::id, (&**self,), r),
    {
        (**self).id()
    }
}

impl<T: Object + ?Sized> Object for std::rc::Rc<T> {
    /// The `Id` of the shared object.
    fn id(&self) -> (r: Id)
        ensures
            call_ensures(T::id, (&**self,), r),
    {
        (**self).id()
    }
}

} // verus!
