use vstd::prelude::*;

use crate::mergeable::Mergeable;
use crate::ui::Id;

verus! {

/// An event that the `Ui` can process.
#[derive(Debug, PartialEq)]
pub enum UiEvent<E> {
    /// An `Event` that can be handled by a `Handleable`.
    Event(E),
    /// A request to quit the application has been made.
    Quit,
}

/// A convenience conversion from `Event` to `UiEvent`.
impl<E> From<E> for UiEvent<E> {
    fn from(event: E) -> (r: Self) {
        UiEvent::Event(event)
    }
}

impl<E> vstd::std_specs::convert::FromSpecImpl<E> for UiEvent<E> {
    open spec fn obeys_from_spec() -> bool {
        true
    }

    open spec fn from_spec(v: E) -> Self {
        UiEvent::Event(v)
    }
}

/// The next step in handling an event.
#[derive(Debug, PartialEq)]
pub enum Step<E> {
    /// Hand the event to the widget with the given `Id`.
    Deliver(Id, E),
    /// Handling concluded; what is left of the event, if anything, is
    /// returned unhandled.
    Done(Option<UiEvent<E>>),
}

/// Combine what is left unhandled of an event with the event emitted by
/// event hooks: a request to quit is kept as is, two events are merged,
/// and a single event is kept.
pub fn merge_unhandled<E: Mergeable>(unhandled: Option<UiEvent<E>>, hook_event: Option<E>) -> (r:
    Option<UiEvent<E>>)
    ensures
        match (unhandled, hook_event) {
            (None, None) => r is None,
            (None, Some(e)) => r == Some(UiEvent::Event(e)),
            (Some(UiEvent::Quit), _) => r == Some(UiEvent::<E>::Quit),
            (Some(UiEvent::Event(e)), None) => r == Some(UiEvent::Event(e)),
            (Some(UiEvent::Event(a)), Some(b)) => r matches Some(UiEvent::Event(x)) && call_ensures(
                E::merge_with,
                (a, b),
                x,
            ),
        },
{
    match unhandled {
        None => match hook_event {
            Some(e) => Some(UiEvent::Event(e)),
            None => None,
        },
        Some(UiEvent::Quit) => Some(UiEvent::Quit),
        Some(UiEvent::Event(e1)) => match hook_event {
            Some(e2) => Some(UiEvent::Event(e1.merge_with(e2))),
            None => Some(UiEvent::Event(e1)),
        },
    }
}

} // verus!
