use std::cell::Cell;

use gui::BBox;
use gui::Cap;
use gui::Id;
use gui::MutCap;
use gui::Object;
use gui::Renderable;
use gui::Renderer;
use gui::Ui;

/// An event type used for testing purposes.
#[derive(Clone, Copy, Debug, PartialEq)]
enum Event {
    Key(char),
}

type HookFn = fn(Option<&Event>) -> Option<Event>;

#[derive(Debug)]
struct TestWidget {
    id: Id,
}

impl TestWidget {
    fn new(id: Id) -> Self {
        Self { id }
    }
}

impl Object for TestWidget {
    fn id(&self) -> Id {
        self.id
    }
}

impl Renderable for TestWidget {
    fn render(&self, cap: &dyn Cap, renderer: &dyn Renderer, bbox: BBox) -> BBox {
        renderer.render(self, cap, bbox)
    }

    fn render_done(&self, cap: &dyn Cap, renderer: &dyn Renderer, bbox: BBox) {
        renderer.render_done(self, cap, bbox)
    }
}

#[derive(Debug)]
struct MovingWidget {
    id: Id,
    _name: String,
}

impl Object for MovingWidget {
    fn id(&self) -> Id {
        self.id
    }
}

impl Renderable for MovingWidget {
    fn render(&self, cap: &dyn Cap, renderer: &dyn Renderer, bbox: BBox) -> BBox {
        renderer.render(self, cap, bbox)
    }
}

type TestUi = Ui<Box<dyn Renderable>, (), HookFn>;

fn new_ui() -> (TestUi, Id) {
    Ui::new(|| (), |id, _cap| Box::new(TestWidget::new(id)) as Box<dyn Renderable>)
}

fn add(ui: &mut TestUi, parent: Id) -> Id {
    ui.add_ui_widget(parent, || (), |id, _cap| Box::new(TestWidget::new(id)) as Box<dyn Renderable>)
}

fn children(ui: &TestUi, id: Id) -> Vec<Id> {
    ui.children(id).cloned().collect::<Vec<_>>()
}

#[test]
fn correct_ids() {
    let (mut ui, root) = new_ui();
    let w1 = add(&mut ui, root);
    let w2 = add(&mut ui, root);
    // And a container.
    let c1 = add(&mut ui, root);
    // And a widget to the container.
    let w3 = add(&mut ui, c1);
    // And another container for deeper nesting.
    let c2 = add(&mut ui, c1);
    // And the last widget.
    let w4 = add(&mut ui, c2);

    assert_eq!(ui.parent_id(root), None);
    assert_eq!(ui.parent_id(w1).unwrap(), root);
    assert_eq!(ui.parent_id(w2).unwrap(), root);
    assert_eq!(ui.parent_id(c1).unwrap(), root);
    assert_eq!(ui.parent_id(w3).unwrap(), c1);
    assert_eq!(ui.parent_id(w4).unwrap(), c2);
}

#[test]
fn debug_format() {
    let (ui, _) = Ui::<TestWidget, (), HookFn>::new(|| (), |id, _cap| TestWidget::new(id));

    let string = format!("{:?}", ui);
    assert!(string.starts_with("Ui { "), "{}", string);
    assert!(string.ends_with(" }"));
}

#[test]
fn creation_order_is_child_order() {
    let (mut ui, root) = new_ui();
    let w1 = add(&mut ui, root);
    let w11 = add(&mut ui, w1);
    let w12 = add(&mut ui, w1);
    let w2 = add(&mut ui, root);
    let w21 = add(&mut ui, w2);

    let mut it = ui.children(root);
    assert_eq!(*it.next().unwrap(), w1);
    assert_eq!(*it.next().unwrap(), w2);
    assert!(it.next().is_none());

    let mut it = ui.children(w1);
    assert_eq!(*it.next().unwrap(), w11);
    assert_eq!(*it.next().unwrap(), w12);
    assert!(it.next().is_none());

    let mut it = ui.children(w11);
    assert!(it.next().is_none());

    let mut it = ui.children(w2);
    assert_eq!(*it.next().unwrap(), w21);
    assert!(it.next().is_none());
}

#[test]
fn visibility_fun() {
    let (mut ui, root) = new_ui();
    let w1 = add(&mut ui, root);
    let w2 = add(&mut ui, root);
    let w3 = add(&mut ui, w2);

    assert!(ui.is_visible(root));
    assert!(ui.is_visible(w1));
    assert!(ui.is_visible(w2));
    assert!(ui.is_visible(w3));
    assert!(ui.is_displayed(root));
    assert!(ui.is_displayed(w1));
    assert!(ui.is_displayed(w2));
    assert!(ui.is_displayed(w3));

    ui.hide_widget(root);
    assert!(!ui.is_visible(root));
    assert!(ui.is_visible(w1));
    assert!(ui.is_visible(w2));
    assert!(ui.is_visible(w3));
    assert!(!ui.is_displayed(root));
    assert!(!ui.is_displayed(w1));
    assert!(!ui.is_displayed(w2));
    assert!(!ui.is_displayed(w3));

    ui.hide_widget(w2);
    assert!(!ui.is_visible(root));
    assert!(ui.is_visible(w1));
    assert!(!ui.is_visible(w2));
    assert!(ui.is_visible(w3));
    assert!(!ui.is_displayed(root));
    assert!(!ui.is_displayed(w1));
    assert!(!ui.is_displayed(w2));
    assert!(!ui.is_displayed(w3));

    ui.hide_widget(w1);
    assert!(!ui.is_visible(root));
    assert!(!ui.is_visible(w1));
    assert!(!ui.is_visible(w2));
    assert!(ui.is_visible(w3));
    assert!(!ui.is_displayed(root));
    assert!(!ui.is_displayed(w1));
    assert!(!ui.is_displayed(w2));
    assert!(!ui.is_displayed(w3));

    ui.show(w3);
    assert!(ui.is_visible(root));
    assert!(!ui.is_visible(w1));
    assert!(ui.is_visible(w2));
    assert!(ui.is_visible(w3));
    assert!(ui.is_displayed(root));
    assert!(!ui.is_displayed(w1));
    assert!(ui.is_displayed(w2));
    assert!(ui.is_displayed(w3));
}

#[test]
fn no_initial_focus() {
    let (mut ui, root) = new_ui();

    // No widget has the input focus by default.
    assert!(ui.focused().is_none());

    let _ = add(&mut ui, root);
    assert!(ui.focused().is_none());
}

#[test]
fn focus_widget() {
    let (mut ui, root) = new_ui();
    let widget = add(&mut ui, root);

    ui.focus(widget);
    assert!(ui.is_focused(widget));
}

#[test]
fn focus_makes_widget_visible() {
    let (mut ui, root) = new_ui();
    let widget = add(&mut ui, root);

    ui.hide_widget(root);
    ui.hide_widget(widget);

    assert!(!ui.is_visible(root));
    assert!(!ui.is_visible(widget));

    // Focusing the widget should make it and all its parents visible
    // again.
    ui.focus(widget);
    assert!(ui.is_displayed(widget));
}

#[test]
fn focus_changes_child_order() {
    let (mut ui, root) = new_ui();
    let w1 = add(&mut ui, root);
    let w11 = add(&mut ui, w1);
    let w2 = add(&mut ui, root);
    let w21 = add(&mut ui, w2);
    let w22 = add(&mut ui, w2);
    let w23 = add(&mut ui, w2);

    ui.focus(w1);
    {
        let mut it = ui.children(root);
        assert_eq!(*it.next().unwrap(), w1);
        assert_eq!(*it.next().unwrap(), w2);
        assert!(it.next().is_none());
    }

    ui.focus(w22);
    {
        let mut it = ui.children(root);
        assert_eq!(*it.next().unwrap(), w2);
        assert_eq!(*it.next().unwrap(), w1);
        assert!(it.next().is_none());

        let mut it = ui.children(w2);
        assert_eq!(*it.next().unwrap(), w22);
        assert_eq!(*it.next().unwrap(), w21);
        assert_eq!(*it.next().unwrap(), w23);
        assert!(it.next().is_none());
    }

    ui.focus(w11);
    {
        let mut it = ui.children(root);
        assert_eq!(*it.next().unwrap(), w1);
        assert_eq!(*it.next().unwrap(), w2);
        assert!(it.next().is_none());

        let mut it = ui.children(w1);
        assert_eq!(*it.next().unwrap(), w11);
        assert!(it.next().is_none());
    }
}

/// Check that hiding as well as showing a widget preserves its order in
/// the parent's array of children.
#[test]
fn hide_and_show_preserve_order() {
    let (mut ui, root) = new_ui();
    let w1 = add(&mut ui, root);
    let w2 = add(&mut ui, root);
    let w3 = add(&mut ui, root);

    let before = children(&ui, root);

    // By default all widgets are visible. Make sure that issuing a show
    // does not change the order of children. It should be a no-op.
    ui.show(w2);
    let after = children(&ui, root);
    assert_eq!(before, after);

    ui.show(w3);
    let after = children(&ui, root);
    assert_eq!(before, after);

    ui.hide_widget(w2);
    let after = children(&ui, root);
    assert_eq!(before, after);

    ui.hide_widget(w2);
    let after = children(&ui, root);
    assert_eq!(before, after);

    ui.hide_widget(w1);
    let after = children(&ui, root);
    assert_eq!(before, after);
}

// This test case illustrates how to create a widget that takes
// ownership of some data during its construction.
#[test]
fn moving_widget_creation() {
    let (mut ui, root) = new_ui();
    let name = String::from("moved");
    let _ = ui.add_ui_widget(
        root,
        || (),
        move |id, _cap| Box::new(MovingWidget { id, _name: name }) as Box<dyn Renderable>,
    );
}

/// A widget that creates a child widget of its own while being
/// constructed.
#[derive(Debug)]
struct CreatingWidget {
    id: Id,
}

impl Object for CreatingWidget {
    fn id(&self) -> Id {
        self.id
    }
}

impl Renderable for CreatingWidget {
    fn render(&self, cap: &dyn Cap, renderer: &dyn Renderer, bbox: BBox) -> BBox {
        renderer.render(self, cap, bbox)
    }
}

impl CreatingWidget {
    fn new(id: Id, cap: &mut TestUi) -> Self {
        let child = cap.add_ui_widget(id, || (), |id, _cap| Box::new(TestWidget::new(id)) as Box<dyn Renderable>);
        cap.focus(child);
        Self { id }
    }
}

#[test]
fn widget_created_while_constructing_parent() {
    let (mut ui, root) = new_ui();
    let creator = ui.add_ui_widget(root, || (), |id, cap| Box::new(CreatingWidget::new(id, cap)) as Box<dyn Renderable>);
    let kids = children(&ui, creator);
    assert_eq!(kids.len(), 1);
    assert_eq!(ui.parent_id(kids[0]), Some(creator));
    assert!(ui.is_focused(kids[0]));
    assert_eq!(children(&ui, root), vec![creator]);
}

#[test]
fn ids_are_distinct_and_root_is_first() {
    let (mut ui, root) = new_ui();
    assert_eq!(ui.root_id(), root);
    let w1 = add(&mut ui, root);
    let w2 = add(&mut ui, root);
    assert_ne!(w1, w2);
    assert_ne!(w1, root);
    assert_ne!(w2, root);
}

#[test]
fn hiding_focused_widget_drops_focus() {
    let (mut ui, root) = new_ui();
    let w = add(&mut ui, root);
    ui.focus(w);
    assert_eq!(ui.focused(), Some(w));
    ui.hide_widget(w);
    assert_eq!(ui.focused(), None);
    assert!(!ui.is_focused(w));
}

#[test]
fn hiding_other_widget_keeps_focus() {
    let (mut ui, root) = new_ui();
    let w1 = add(&mut ui, root);
    let w2 = add(&mut ui, root);
    ui.focus(w1);
    ui.hide_widget(w2);
    assert_eq!(ui.focused(), Some(w1));
}

#[test]
fn focusing_twice_changes_nothing() {
    let (mut ui, root) = new_ui();
    let w1 = add(&mut ui, root);
    let w2 = add(&mut ui, root);
    let w21 = add(&mut ui, w2);
    let _w22 = add(&mut ui, w2);
    ui.focus(w21);
    let root_kids = children(&ui, root);
    let w2_kids = children(&ui, w2);
    ui.focus(w21);
    assert_eq!(children(&ui, root), root_kids);
    assert_eq!(children(&ui, w2), w2_kids);
    assert_eq!(root_kids, vec![w2, w1]);
}

#[test]
fn widget_data_is_stored_per_widget() {
    let (mut ui, root) = Ui::<TestWidget, u32, HookFn>::new(|| 7, |id, _cap| TestWidget::new(id));
    let w = ui.add_ui_widget(root, || 9, |id, _cap| TestWidget::new(id));
    assert_eq!(*ui.data(root), 7);
    assert_eq!(*ui.data(w), 9);
    *ui.data_mut(w) = 10;
    assert_eq!(*ui.data(w), 10);
    assert_eq!(*ui.data(root), 7);
}

#[test]
fn hook_is_returned_on_replacement() {
    fn hook1(_: Option<&Event>) -> Option<Event> {
        Some(Event::Key('a'))
    }
    let (mut ui, root) = new_ui();
    assert!(ui.hook_events(root, Some(hook1 as HookFn)).is_none());
    let prev = ui.hook_events(root, None).unwrap();
    assert_eq!(prev(None), Some(Event::Key('a')));
}

#[test]
fn renderer_counts() {
    struct Counter {
        count: Cell<u64>,
    }
    impl Renderer for Counter {
        fn renderable_area(&self) -> BBox {
            BBox { x: 0, y: 0, w: 1, h: 1 }
        }
        fn render(&self, _object: &dyn Object, _cap: &dyn Cap, bbox: BBox) -> BBox {
            self.count.set(self.count.get() + 1);
            bbox
        }
    }
    let (mut ui, root) = new_ui();
    let w = add(&mut ui, root);
    let _ = add(&mut ui, w);
    let counter = Counter { count: Cell::new(0) };
    ui.render(&counter);
    assert_eq!(counter.count.get(), 3);
}
