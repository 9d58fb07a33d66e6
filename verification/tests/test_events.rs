use gui::BBox;
use gui::Cap;
use gui::Id;
use gui::MutCap;
use gui::Object;
use gui::Renderable;
use gui::Renderer;
use gui::merge_optional;
use gui::merge_unhandled;
use gui::Mergeable;
use gui::Step;
use gui::Ui;
use gui::UiEvent;

#[derive(Clone, Copy, Debug, PartialEq)]
enum Event {
    Key(char),
}

type HookFn = fn(Option<&Event>) -> Option<Event>;

#[derive(Debug)]
struct TestWidget {
    id: Id,
}

impl Object for TestWidget {
    fn id(&self) -> Id {
        self.id
    }
}

impl Renderable for TestWidget {
    fn render(&self, cap: &dyn Cap, renderer: &dyn Renderer, bbox: BBox) -> BBox {
        renderer.render(self, cap, bbox)
    }
}

fn emitting_event_hook(event: Option<&Event>) -> Option<Event> {
    if let Some(event) = event {
        assert_eq!(event, &Event::Key('y'));
        Some(Event::Key('z'))
    } else {
        None
    }
}

/// Check that `MutCap::hook_events` behaves as expected.
#[test]
fn hook_events_return_value() {
    let (mut ui, r) = Ui::<TestWidget, (), HookFn>::new(|| (), |id, _cap| TestWidget { id });
    let w = ui.add_ui_widget(r, || (), |id, _cap| TestWidget { id });

    assert!(ui.hook_events(w, None).is_none());
    assert!(ui.hook_events(r, None).is_none());
    assert!(ui.hook_events(w, Some(emitting_event_hook)).is_none());
    assert!(ui.hook_events(r, None).is_none());
    assert!(ui.hook_events(r, Some(emitting_event_hook)).is_none());
    assert!(ui.hook_events(w, Some(emitting_event_hook)).is_some());
    assert!(ui.hook_events(r, Some(emitting_event_hook)).is_some());
    assert!(ui.hook_events(w, None).is_some());
}

#[derive(Clone, Copy, Debug, PartialEq)]
struct Count(u64);

impl Mergeable for Count {
    fn merge_with(self, other: Self) -> Self {
        Count(self.0 + other.0)
    }
}

type CountUi = Ui<TestWidget, (), ()>;

fn count_ui() -> (CountUi, Id, Id, Id) {
    let (mut ui, r) = Ui::new(|| (), |id, _cap| TestWidget { id });
    let c = ui.add_ui_widget(r, || (), |id, _cap| TestWidget { id });
    let w = ui.add_ui_widget(c, || (), |id, _cap| TestWidget { id });
    (ui, r, c, w)
}

#[test]
fn events_go_to_the_focused_widget_first() {
    let (mut ui, _r, _c, w) = count_ui();
    ui.focus(w);
    assert_eq!(ui.first_step(UiEvent::Event(Count(1))), Step::Deliver(w, Count(1)));
}

#[test]
fn events_are_returned_without_focus() {
    let (ui, _r, _c, _w) = count_ui();
    assert_eq!(
        ui.first_step(UiEvent::Event(Count(1))),
        Step::Done(Some(UiEvent::Event(Count(1))))
    );
}

#[test]
fn quit_is_returned_right_away() {
    let (mut ui, _r, _c, w) = count_ui();
    ui.focus(w);
    assert_eq!(ui.first_step(UiEvent::<Count>::Quit), Step::Done(Some(UiEvent::Quit)));
}

#[test]
fn unhandled_events_bubble_up_to_the_root() {
    let (ui, r, c, w) = count_ui();
    assert_eq!(ui.next_step(w, Some(Count(2))), Step::Deliver(c, Count(2)));
    assert_eq!(ui.next_step(c, Some(Count(3))), Step::Deliver(r, Count(3)));
    assert_eq!(
        ui.next_step(r, Some(Count(4))),
        Step::Done(Some(UiEvent::Event(Count(4))))
    );
}

#[test]
fn handled_events_stop() {
    let (ui, _r, c, _w) = count_ui();
    assert_eq!(ui.next_step::<Count>(c, None), Step::Done(None));
}

#[test]
fn event_converts_into_ui_event() {
    let event: UiEvent<Count> = Count(5).into();
    assert_eq!(event, UiEvent::Event(Count(5)));
}

#[test]
fn optional_values_merge() {
    assert_eq!(merge_optional(Some(Count(1)), Some(Count(2))), Some(Count(3)));
    assert_eq!(merge_optional(Some(Count(1)), None), Some(Count(1)));
    assert_eq!(merge_optional(None, Some(Count(2))), Some(Count(2)));
    assert_eq!(merge_optional::<Count>(None, None), None);
}

#[test]
fn hook_events_merge_with_unhandled_ones() {
    assert_eq!(
        merge_unhandled(Some(UiEvent::Event(Count(1))), Some(Count(2))),
        Some(UiEvent::Event(Count(3)))
    );
    assert_eq!(merge_unhandled(None, Some(Count(2))), Some(UiEvent::Event(Count(2))));
    assert_eq!(
        merge_unhandled(Some(UiEvent::Event(Count(1))), None),
        Some(UiEvent::Event(Count(1)))
    );
    assert_eq!(merge_unhandled(Some(UiEvent::Quit), Some(Count(2))), Some(UiEvent::Quit));
    assert_eq!(merge_unhandled::<Count>(None, None), None);
}

#[test]
fn hooked_widgets_come_in_creation_order() {
    fn hook(_: Option<&Event>) -> Option<Event> {
        None
    }
    let (mut ui, r) = Ui::<TestWidget, (), HookFn>::new(|| (), |id, _cap| TestWidget { id });
    let a = ui.add_ui_widget(r, || (), |id, _cap| TestWidget { id });
    let b = ui.add_ui_widget(r, || (), |id, _cap| TestWidget { id });
    let _ = ui.hook_events(b, Some(hook));
    let _ = ui.hook_events(r, Some(hook));
    let _ = ui.hook_events(a, Some(hook));
    assert_eq!(ui.hooked_widgets(), vec![r, a, b]);
    let _ = ui.hook_events(a, None);
    assert_eq!(ui.hooked_widgets(), vec![r, b]);
    assert!(ui.event_hook(a).is_none());
    assert!(ui.event_hook(b).is_some());
}

#[test]
fn lookup_and_validate() {
    let (ui, r, _c, w) = count_ui();
    assert_eq!(ui.lookup(w).unwrap().id, w);
    assert_eq!(ui.lookup(r).unwrap().id, r);
    assert!(ui.validate(w));
    let (other, _, _, _) = count_ui();
    let (mut big, root) = Ui::<TestWidget, (), ()>::new(|| (), |id, _cap| TestWidget { id });
    let mut last = root;
    for _ in 0..5 {
        last = big.add_ui_widget(root, || (), |id, _cap| TestWidget { id });
    }
    assert!(!other.validate(last));
}

/// Route an event through the `Ui` the way `handle` does, with `handler`
/// standing in for each widget's event handler.
fn route<F>(ui: &CountUi, event: Count, handler: F) -> Option<UiEvent<Count>>
where
    F: Fn(Id, Count) -> Option<Count>,
{
    let mut step = ui.first_step(UiEvent::Event(event));
    loop {
        match step {
            Step::Deliver(id, event) => step = ui.next_step(id, handler(id, event)),
            Step::Done(unhandled) => return unhandled,
        }
    }
}

#[test]
fn events_bubble_up_when_unhandled() {
    let (mut ui, _r, _c, w) = count_ui();
    ui.focus(w);
    // An unhandled event should just be returned after every widget
    // forwarded it.
    let result = route(&ui, Count(7), |_, event| Some(event));
    assert_eq!(result, Some(UiEvent::Event(Count(7))));
}

#[test]
fn targeted_event_returned_on_no_focus() {
    let (mut ui, _r, _c, w) = count_ui();
    ui.focus(w);
    ui.hide_widget(w);
    let result = route(&ui, Count(7), |_, _| None);
    assert_eq!(result, Some(UiEvent::Event(Count(7))));
}

#[test]
fn event_propagation() {
    let (mut ui, _r, _c, w) = count_ui();
    // We focus the innermost widget, which means that the event will
    // travel through the widget and all its parents.
    ui.focus(w);
    let result = route(&ui, Count(42), |_, event| Some(Count(event.0 + 1)));
    // We expect three increments, one from each of the widgets.
    assert_eq!(result, Some(UiEvent::Event(Count(45))));
}

#[test]
fn handled_event_goes_no_further() {
    let (mut ui, r, c, w) = count_ui();
    ui.focus(w);
    let result = route(&ui, Count(1), |id, event| {
        assert_ne!(id, r);
        if id == c {
            None
        } else {
            Some(event)
        }
    });
    assert_eq!(result, None);
}

#[test]
fn hook_emitted_events() {
    let (mut ui, _r, _c, w) = count_ui();
    ui.focus(w);
    // The widget handles the event while the hook emits one of its own.
    let unhandled = route(&ui, Count(1), |_, _| None);
    let result = merge_unhandled(unhandled, Some(Count(9)));
    assert_eq!(result, Some(UiEvent::Event(Count(9))));
}

#[test]
fn hooks_are_invoked_for_ordinary_events_only() {
    fn hook(_: Option<&Event>) -> Option<Event> {
        None
    }
    let (mut ui, r) = Ui::<TestWidget, (), HookFn>::new(|| (), |id, _cap| TestWidget { id });
    let w = ui.add_ui_widget(r, || (), |id, _cap| TestWidget { id });
    let _ = ui.hook_events(w, Some(hook));
    let event = UiEvent::Event(Event::Key('x'));
    let hooked = ui.hooks_to_invoke(&event);
    assert_eq!(hooked, vec![w]);
    // A hook installed while the event is handled is not invoked for it.
    let _ = ui.hook_events(r, Some(hook));
    assert_eq!(hooked, vec![w]);
    assert_eq!(ui.hooks_to_invoke(&event), vec![r, w]);
    assert!(ui.hooks_to_invoke(&UiEvent::<Event>::Quit).is_empty());
}
