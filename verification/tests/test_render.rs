use std::cell::Cell;

use gui::BBox;
use gui::Cap;
use gui::Id;
use gui::MutCap;
use gui::Object;
use gui::Renderable;
use gui::Renderer;
use gui::Ui;

#[derive(Debug)]
struct TestWidget {
    id: Id,
}

impl TestWidget {
    fn new(id: Id) -> Self {
        Self { id }
    }
}

impl Object for TestWidget {
    fn id(&self) -> Id {
        self.id
    }
}

impl Renderable for TestWidget {
    fn render(&self, cap: &dyn Cap, renderer: &dyn Renderer, bbox: BBox) -> BBox {
        renderer.render(self, cap, bbox)
    }

    fn render_done(&self, cap: &dyn Cap, renderer: &dyn Renderer, bbox: BBox) {
        renderer.render_done(self, cap, bbox)
    }
}

type TestUi = Ui<Box<dyn Renderable>, (), ()>;

fn new_ui() -> (TestUi, Id) {
    Ui::new(|| (), |id, _cap| Box::new(TestWidget::new(id)) as Box<dyn Renderable>)
}

fn add(ui: &mut TestUi, parent: Id) -> Id {
    ui.add_ui_widget(parent, || (), |id, _cap| Box::new(TestWidget::new(id)) as Box<dyn Renderable>)
}

#[derive(Debug)]
struct CountingRenderer {
    pre_render_count: Cell<u64>,
    post_render_count: Cell<u64>,
    total_render_count: Cell<u64>,
    total_render_done_count: Cell<u64>,
}

impl CountingRenderer {
    fn new() -> Self {
        Self {
            pre_render_count: Cell::new(0),
            post_render_count: Cell::new(0),
            total_render_count: Cell::new(0),
            total_render_done_count: Cell::new(0),
        }
    }
}

impl Renderer for CountingRenderer {
    fn renderable_area(&self) -> BBox {
        BBox {
            x: 0,
            y: 0,
            w: 10,
            h: 10,
        }
    }

    fn pre_render(&self) {
        self.pre_render_count.set(self.pre_render_count.get() + 1);
    }

    fn render(&self, _object: &dyn Object, _cap: &dyn Cap, bbox: BBox) -> BBox {
        self.total_render_count.set(self.total_render_count.get() + 1);
        bbox
    }

    fn render_done(&self, _object: &dyn Object, _cap: &dyn Cap, _bbox: BBox) {
        assert!(self.total_render_done_count.get() < self.total_render_count.get());
        self.total_render_done_count.set(self.total_render_done_count.get() + 1);
    }

    fn post_render(&self) {
        self.post_render_count.set(self.post_render_count.get() + 1);
    }
}

#[test]
fn render_is_called_for_each_widget() {
    let renderer = CountingRenderer::new();
    let (mut ui, root) = new_ui();
    let _ = add(&mut ui, root);
    let _ = add(&mut ui, root);

    ui.render(&renderer);

    assert_eq!(renderer.pre_render_count.get(), 1);
    assert_eq!(renderer.post_render_count.get(), 1);
    assert_eq!(renderer.total_render_count.get(), 3);
    assert_eq!(renderer.total_render_done_count.get(), 3);
}

#[test]
fn render_honors_visibility_flag() {
    let renderer = CountingRenderer::new();
    let (mut ui, root) = new_ui();
    let w1 = add(&mut ui, root);
    let w2 = add(&mut ui, root);
    let _ = add(&mut ui, w2);

    ui.hide_widget(w1);
    ui.render(&renderer);

    assert_eq!(renderer.pre_render_count.get(), 1);
    assert_eq!(renderer.post_render_count.get(), 1);
    assert_eq!(renderer.total_render_count.get(), 3);
    assert_eq!(renderer.total_render_done_count.get(), 3);

    // Hiding `w2` should make two widgets invisible.
    ui.hide_widget(w2);
    ui.render(&renderer);

    assert_eq!(renderer.pre_render_count.get(), 2);
    assert_eq!(renderer.post_render_count.get(), 2);
    assert_eq!(renderer.total_render_count.get(), 4);
    assert_eq!(renderer.total_render_done_count.get(), 4);

    ui.show(w1);
    ui.render(&renderer);

    assert_eq!(renderer.pre_render_count.get(), 3);
    assert_eq!(renderer.post_render_count.get(), 3);
    assert_eq!(renderer.total_render_count.get(), 6);
    assert_eq!(renderer.total_render_done_count.get(), 6);

    // Showing `w2` should make itself and its child visible again.
    ui.show(w2);
    ui.render(&renderer);

    assert_eq!(renderer.pre_render_count.get(), 4);
    assert_eq!(renderer.post_render_count.get(), 4);
    assert_eq!(renderer.total_render_count.get(), 10);
    assert_eq!(renderer.total_render_done_count.get(), 10);
}

#[derive(Debug)]
struct TestNoBBoxWidget {
    id: Id,
}

impl Renderable for TestNoBBoxWidget {
    fn render(&self, cap: &dyn Cap, renderer: &dyn Renderer, bbox: BBox) -> BBox {
        let bbox = BBox {
            x: bbox.x,
            y: bbox.y,
            w: 0,
            h: bbox.h,
        };
        renderer.render(self, cap, bbox)
    }

    fn render_done(&self, cap: &dyn Cap, renderer: &dyn Renderer, bbox: BBox) {
        renderer.render_done(self, cap, bbox)
    }
}

impl Object for TestNoBBoxWidget {
    fn id(&self) -> Id {
        self.id
    }
}

/// Check that a widget won't receive a [`Renderable::render`] call if
/// its parent reported an empty `BBox`.
#[test]
fn render_is_omitted_for_empty_bbox() {
    let renderer = CountingRenderer::new();
    let (mut ui, root) = new_ui();
    let no_bbox = ui.add_ui_widget(root, || (), |id, _cap| Box::new(TestNoBBoxWidget { id }) as Box<dyn Renderable>);
    let _ = add(&mut ui, no_bbox);

    ui.render(&renderer);

    assert_eq!(renderer.pre_render_count.get(), 1);
    assert_eq!(renderer.post_render_count.get(), 1);
    assert_eq!(renderer.total_render_count.get(), 2);
    assert_eq!(renderer.total_render_done_count.get(), 2);
}

#[derive(Debug)]
struct BBoxRenderer {
    valid_bbox_count: Cell<u64>,
    root: Cell<Option<Id>>,
    container: Cell<Option<Id>>,
    widget: Cell<Option<Id>>,
}

impl BBoxRenderer {
    fn new() -> Self {
        Self {
            valid_bbox_count: Cell::new(0),
            root: Cell::new(None),
            container: Cell::new(None),
            widget: Cell::new(None),
        }
    }

    fn check_bbox(&self, id: Id, bbox: BBox) {
        let mut expected = self.renderable_area();

        if id == self.container.get().unwrap() {
            expected.w -= 10;
        } else if id == self.widget.get().unwrap() {
            expected.w -= 10;
            expected.h -= 10;
        }

        if bbox == expected {
            self.valid_bbox_count.set(self.valid_bbox_count.get() + 1);
        }
    }
}

impl Renderer for BBoxRenderer {
    fn renderable_area(&self) -> BBox {
        BBox {
            x: 0,
            y: 10,
            w: 100,
            h: 40,
        }
    }

    fn render(&self, object: &dyn Object, _cap: &dyn Cap, mut bbox: BBox) -> BBox {
        let id = object.id();
        let () = self.check_bbox(id, bbox);

        if id == self.root.get().unwrap() {
            bbox.w -= 10
        } else if id == self.container.get().unwrap() {
            bbox.h -= 10
        }
        bbox
    }

    fn render_done(&self, object: &dyn Object, _cap: &dyn Cap, bbox: BBox) {
        let () = self.check_bbox(object.id(), bbox);
    }
}

#[test]
fn bounding_box_is_properly_sized() {
    let renderer = BBoxRenderer::new();
    let (mut ui, root) = new_ui();
    let cont = add(&mut ui, root);
    let widget = add(&mut ui, cont);

    renderer.root.set(Some(root));
    renderer.container.set(Some(cont));
    renderer.widget.set(Some(widget));

    ui.render(&renderer);

    assert_eq!(renderer.valid_bbox_count.get(), 6)
}

/// Records the order in which widgets are rendered.
struct OrderRenderer {
    order: std::cell::RefCell<Vec<Id>>,
}

impl Renderer for OrderRenderer {
    fn renderable_area(&self) -> BBox {
        BBox { x: 0, y: 0, w: 5, h: 5 }
    }

    fn render(&self, object: &dyn Object, _cap: &dyn Cap, bbox: BBox) -> BBox {
        self.order.borrow_mut().push(object.id());
        bbox
    }
}

#[test]
fn children_are_rendered_from_lowest_to_highest() {
    let (mut ui, root) = new_ui();
    let w1 = add(&mut ui, root);
    let w2 = add(&mut ui, root);
    let w11 = add(&mut ui, w1);
    let renderer = OrderRenderer { order: std::cell::RefCell::new(Vec::new()) };
    ui.render(&renderer);
    assert_eq!(*renderer.order.borrow(), vec![root, w2, w1, w11]);
}
