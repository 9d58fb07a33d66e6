use vstd::prelude::*;

use crate::event::Step;
use crate::model::hooked_wf;
use crate::model::lemma_displayed_same;
use crate::model::lemma_hooked_update;
use crate::model::lemma_not_displayed_below;
use crate::model::lemma_parent_iff_child;
use crate::model::lemma_raised_displayed;
use crate::model::lemma_raised_frame;
use crate::model::lemma_focus_permutes_children;
use crate::model::lemma_focus_keeps_sibling_order;
use crate::model::lemma_focus_raises_ancestors;
use crate::model::lemma_show_sets_ancestors;
use crate::model::lemma_raised_top;
use crate::model::lemma_shown;
use crate::model::lemma_to_front;
use crate::model::lemma_tree_wf_permute;
use crate::model::lemma_ancestry_same;
use crate::model::to_front;
use crate::model::UiView;
use crate::event::UiEvent;
use crate::object::Object;
use crate::renderable::Renderable;
use crate::renderer::BBox;
use crate::renderer::RenderCall;
use crate::model::lemma_renders_children_append;
use crate::renderer::Renderer;

verus! {

/// An `Id` uniquely representing a widget.
#[derive(Clone, Copy, Debug, PartialEq, Eq, Hash, Structural)]
pub struct Id {
    idx: usize,
}

impl View for Id {
    type V = usize;

    /// The position of the widget in the order of creation.
    closed spec fn view(&self) -> usize {
        self.idx
    }
}

impl Id {
    fn new(idx: usize) -> (r: Id)
        ensures
            r@ == idx,
    {
        Id { idx }
    }
}

/// Two identifiers are the same exactly when they name the same widget.
pub broadcast proof fn lemma_id_view_injective(a: Id, b: Id)
    ensures
        #[trigger] a@ == #[trigger] b@ ==> a == b,
{
}

/// This type contains data that is common to all widgets.
#[derive(Debug)]
struct WidgetData<W, H> {
    /// The index of the parent widget; `None` only for the root widget.
    parent_idx: Option<usize>,
    /// All the children that have this widget as a parent, in z-order
    /// from highest to lowest.
    children: Vec<Id>,
    /// An optional event hook that may be registered for the widget.
    event_hook: Option<H>,
    /// Flag indicating the widget's visibility state.
    visible: bool,
    /// The widget itself; `None` while it is still being constructed.
    widget: Option<W>,
}

/// A `Ui` is a container for related widgets.
///
/// `W` is the type of the widget objects, `D` that of the data associated
/// with each widget and `H` that of event hooks.
#[derive(Debug)]
pub struct Ui<W, D, H> {
    widgets: Vec<WidgetData<W, H>>,
    /// The data associated with each widget.
    data: Vec<D>,
    /// The indices of all widgets with a registered event hook, sorted.
    hooked: Vec<usize>,
    focused: Option<usize>,
}

impl<W, D, H> View for Ui<W, D, H> {
    type V = UiView<W, D, H>;

    closed spec fn view(&self) -> UiView<W, D, H> {
        UiView {
            parents: Seq::new(self.widgets@.len(), |i: int| self.widgets@[i].parent_idx),
            children: Seq::new(
                self.widgets@.len(),
                |i: int| self.widgets@[i].children@.map_values(|id: Id| id@),
            ),
            visible: Seq::new(self.widgets@.len(), |i: int| self.widgets@[i].visible),
            widgets: Seq::new(self.widgets@.len(), |i: int| self.widgets@[i].widget),
            data: self.data@,
            hooks: Seq::new(self.widgets@.len(), |i: int| self.widgets@[i].event_hook),
            focused: self.focused,
        }
    }
}

impl<W, D, H> Ui<W, D, H> {
    /// The invariant of a `Ui`.
    pub closed spec fn wf(&self) -> bool {
        &&& self.tree_ok()
        &&& self@.focus_wf()
    }

    /// The invariant without the focus part, which is broken while
    /// focusing a widget.
    closed spec fn tree_ok(&self) -> bool {
        &&& self.data@.len() == self.widgets@.len()
        &&& self@.tree_wf()
        &&& hooked_wf(self.hooked@, self@.hooks)
    }

    /// How a `Ui` may change while a widget constructor runs: it stays
    /// well formed, widgets are only ever added, parents never change,
    /// constructed widgets stay as they are and new widgets are complete.
    pub open spec fn grows(before: Self, after: Self) -> bool {
        &&& after.wf()
        &&& before@.len() <= after@.len()
        &&& forall|i: int| 0 <= i < before@.len() ==> after@.parents[i] == before@.parents[i]
        &&& forall|i: int|
            0 <= i < before@.len() && (#[trigger] before@.widgets[i]) is Some
                ==> after@.widgets[i] == before@.widgets[i]
        &&& forall|i: int| before@.len() <= i < after@.len() ==> (#[trigger] after@.widgets[i]) is Some
    }

    /// The state of a `Ui` handed to the constructor of widget `id`: well
    /// formed, with `id` the most recently created widget, registered under
    /// `parent` (as its last child), without children and not constructed
    /// yet.
    pub open spec fn under_construction(u: Self, id: Id, parent: Option<usize>) -> bool {
        &&& u.wf()
        &&& id@ + 1 == u@.len()
        &&& u@.parents[id@ as int] == parent
        &&& u@.children[id@ as int] == Seq::<usize>::empty()
        &&& u@.widgets[id@ as int] is None
        &&& (parent matches Some(p) ==> u@.children[p as int].len() > 0
            && u@.children[p as int].last() == id@)
    }

    /// Whether every widget has been fully constructed.
    pub open spec fn complete(&self) -> bool {
        forall|i: int| 0 <= i < self@.len() ==> (#[trigger] self@.widgets[i]) is Some
    }

    proof fn lemma_view_len(&self)
        requires
            self.data@.len() == self.widgets@.len(),
        ensures
            self@.len() == self.widgets@.len(),
            self@.children.len() == self.widgets@.len(),
            self@.visible.len() == self.widgets@.len(),
            self@.widgets.len() == self.widgets@.len(),
            self@.data.len() == self.widgets@.len(),
            self@.hooks.len() == self.widgets@.len(),
    {
    }

    /// Replacing the entry of widget `i`, and nothing else, changes the
    /// model at `i` alone, and only in the fields that changed.
    proof fn lemma_view_update_entry(before: Self, after: Self, i: int)
        requires
            before.widgets@.len() == after.widgets@.len(),
            0 <= i < before.widgets@.len(),
            forall|j: int| 0 <= j < before.widgets@.len() && j != i ==> after.widgets@[j] == before.widgets@[j],
            after.data@ == before.data@,
            after.focused == before.focused,
        ensures
            after@.parents == before@.parents.update(i, after.widgets@[i].parent_idx),
            after@.children == before@.children.update(
                i,
                after.widgets@[i].children@.map_values(|id: Id| id@),
            ),
            after@.visible == before@.visible.update(i, after.widgets@[i].visible),
            after@.widgets == before@.widgets.update(i, after.widgets@[i].widget),
            after@.hooks == before@.hooks.update(i, after.widgets@[i].event_hook),
            after@.data == before@.data,
            after@.focused == before@.focused,
            after.widgets@[i].parent_idx == before.widgets@[i].parent_idx ==> after@.parents
                == before@.parents,
            after.widgets@[i].children == before.widgets@[i].children ==> after@.children
                == before@.children,
            after.widgets@[i].visible == before.widgets@[i].visible ==> after@.visible
                == before@.visible,
            after.widgets@[i].widget == before.widgets@[i].widget ==> after@.widgets
                == before@.widgets,
            after.widgets@[i].event_hook == before.widgets@[i].event_hook ==> after@.hooks
                == before@.hooks,
    {
        assert(after@.parents =~= before@.parents.update(i, after.widgets@[i].parent_idx));
        assert(after@.children =~= before@.children.update(
            i,
            after.widgets@[i].children@.map_values(|id: Id| id@),
        ));
        assert(after@.visible =~= before@.visible.update(i, after.widgets@[i].visible));
        assert(after@.widgets =~= before@.widgets.update(i, after.widgets@[i].widget));
        assert(after@.hooks =~= before@.hooks.update(i, after.widgets@[i].event_hook));
        assert(before@.parents.update(i, before.widgets@[i].parent_idx) =~= before@.parents);
        assert(before@.children.update(i, before.widgets@[i].children@.map_values(|id: Id| id@))
            =~= before@.children);
        assert(before@.visible.update(i, before.widgets@[i].visible) =~= before@.visible);
        assert(before@.widgets.update(i, before.widgets@[i].widget) =~= before@.widgets);
        assert(before@.hooks.update(i, before.widgets@[i].event_hook) =~= before@.hooks);
    }

    /// Register a new widget slot with the given parent and data; the
    /// widget object itself is filled in later.
    fn reserve(&mut self, parent_idx: Option<usize>, data: D) -> (id: Id)
        requires
            match parent_idx {
                Some(p) => old(self).wf() && p < old(self)@.len(),
                None => old(self).widgets@.len() == 0 && old(self).data@.len() == 0
                    && old(self).hooked@.len() == 0 && old(self).focused is None,
            },
        ensures
            final(self).wf(),
            id@ == old(self)@.len(),
            final(self)@ == old(self)@.add_child(parent_idx, data, None),
            final(self)@.focused == old(self)@.focused,
            final(self)@.len() == old(self)@.len() + 1,
            forall|i: int| 0 <= i < old(self)@.len() ==> #[trigger] final(self)@.parents[i] == old(self)@.parents[i],
            final(self)@.parents[id@ as int] == parent_idx,
            final(self)@.children[id@ as int] == Seq::<usize>::empty(),
    {
        broadcast use lemma_id_view_injective;
        let ghost old_view = self@;
        let idx = self.widgets.len();
        let id = Id::new(idx);
        self.widgets.push(
            WidgetData {
                parent_idx,
                children: Vec::new(),
                event_hook: None,
                visible: true,
                widget: None,
            },
        );
        self.data.push(data);
        if let Some(p) = parent_idx {
            self.widgets[p].children.push(id);
        }
        proof {
            let expect = old_view.add_child(parent_idx, data, None);
            assert(self@.parents =~= expect.parents);
            assert(self@.visible =~= expect.visible);
            assert(self@.widgets =~= expect.widgets);
            assert(self@.data =~= expect.data);
            assert(self@.hooks =~= expect.hooks);
            assert forall|i: int| 0 <= i < self@.len() implies #[trigger] self@.children[i]
                =~= expect.children[i] by {
                if parent_idx == Some(i as usize) {
                    assert(self.widgets@[i].children@ =~= old(self).widgets@[i].children@.push(id));
                }
            }
            assert(self@.children =~= expect.children);
            assert(self@ == expect);
            self.lemma_wf_after_add(old_view, parent_idx, data);
        }
        id
    }

    proof fn lemma_wf_after_add(&self, old_view: UiView<W, D, H>, parent_idx: Option<usize>, data: D)
        requires
            self@ == old_view.add_child(parent_idx, data, None),
            match parent_idx {
                Some(p) => old_view.wf() && p < old_view.len(),
                None => old_view.len() == 0 && old_view.focused is None,
            },
            self.widgets@.len() == self@.len(),
            self.data@.len() == self@.len(),
            hooked_wf(self.hooked@, old_view.hooks),
            self.hooked@.len() == 0 || old_view.len() > 0,
        ensures
            self.wf(),
    {
        let v = self@;
        let n = old_view.len();
        assert(v.len() == n + 1);
        assert(self.widgets.len() == self.widgets@.len());
        self.lemma_view_len();
        assert forall|p: int, k: int| 0 <= p < v.len() && 0 <= k < v.children[p].len() implies {
            let c = #[trigger] v.children[p][k];
            &&& c < v.len()
            &&& v.parents[c as int] == Some(p as usize)
        } by {
            if p < n {
                if k < old_view.children[p].len() {
                    assert(v.children[p][k] == old_view.children[p][k]);
                    let c = old_view.children[p][k];
                    assert(c < n && old_view.parents[c as int] == Some(p as usize));
                    assert(v.parents[c as int] == old_view.parents[c as int]);
                    assert(v.children[p][k] < v.len());
                    assert(v.parents[v.children[p][k] as int] == Some(p as usize));
                } else {
                    assert(parent_idx == Some(p as usize));
                    assert(v.children[p][k] == n as usize);
                    assert(v.parents[n as int] == parent_idx);
                }
            } else {
                assert(v.children[p].len() == 0);
            }
        }
        assert forall|p: int| 0 <= p < v.len() implies (#[trigger] v.children[p]).no_duplicates() by {
            if p < n && parent_idx == Some(p as usize) {
                let s = old_view.children[p];
                assert forall|k: int| 0 <= k < s.len() implies s[k] != n as usize by {
                    assert(s[k] < n);
                }
            }
        }
        assert forall|c: int| 0 < c < v.len() implies #[trigger] v.children[v.parents[c]->0 as int].contains(
            c as usize,
        ) by {
            let p = v.parents[c]->0 as int;
            if c < n {
                assert(old_view.children[p].contains(c as usize));
                let k = choose|k: int| 0 <= k < old_view.children[p].len() && old_view.children[p][k] == c as usize;
                assert(v.children[p][k] == c as usize);
            } else {
                assert(v.children[p].last() == c as usize);
            }
        }
        assert forall|i: int| 0 <= i < v.hooks.len() && (#[trigger] v.hooks[i]) is Some implies self.hooked@.contains(i as usize) by {
            assert(old_view.hooks[i] is Some);
        }
        assert(v.tree_wf());
        if let Some(f) = v.focused {
            if let Some(p) = v.parents[f as int] {
                assert(old_view.children[p as int].len() > 0);
                assert(v.children[p as int][0] == old_view.children[p as int][0]);
            }
        }
    }
}

impl<W, D, H> Ui<W, D, H> {
    /// Fill in the widget object of a reserved widget slot.
    fn install(&mut self, id: Id, widget: W)
        requires
            old(self).wf(),
            id@ < old(self)@.len(),
        ensures
            final(self).wf(),
            final(self)@ == (UiView {
                widgets: old(self)@.widgets.update(id@ as int, Some(widget)),
                ..old(self)@
            }),
    {
        let ghost before = *self;
        self.widgets[id.idx].widget = Some(widget);
        proof {
            Self::lemma_view_update_entry(before, *self, id@ as int);
        }
    }

    /// Create a new `Ui` instance containing one widget that acts as the
    /// root widget.
    ///
    /// The data of the root widget is created first, then the widget
    /// itself, which gets to see the `Ui` under construction and may
    /// already add child widgets to it.
    pub fn new<DF, WF>(new_data: DF, new_root_widget: WF) -> (r: (Self, Id)) where
        DF: FnOnce() -> D,
        WF: FnOnce(Id, &mut Self) -> W,
        W: Object,

        requires
            call_requires(new_data, ()),
            forall|id: Id, u: &mut Self, w: W, r: Id|
                #[trigger] call_ensures(new_root_widget, (id, u), w) && #[trigger] call_ensures(
                    W::id,
                    (&w,),
                    r,
                ) ==> r == id,
            forall|id: Id, u: &mut Self|
                Self::under_construction(*u, id, None) ==> #[trigger] call_requires(
                    new_root_widget,
                    (id, u),
                ),
            forall|id: Id, u: &mut Self, w: W|
                #[trigger] call_ensures(new_root_widget, (id, u), w) && Self::under_construction(
                    *u,
                    id,
                    None,
                ) ==> Self::grows(*u, *final(u)),
        ensures
            r.0.wf(),
            r.0.complete(),
            r.1@ == 0,
            r.0@.parents[0] is None,
            exists|d: D, u: &mut Self, w: W|
                {
                    &&& #[trigger] call_ensures(new_data, (), d)
                    &&& (*u)@ == UiView::<W, D, H>::with_root(d, None)
                    &&& Self::under_construction(*u, r.1, None)
                    &&& #[trigger] call_ensures(new_root_widget, (r.1, u), w)
                    &&& r.0@ == (UiView { widgets: (*final(u))@.widgets.update(0, Some(w)), ..(*final(u))@ })
                },
            (forall|id: Id, u: &mut Self, w: W|
                #[trigger] call_ensures(new_root_widget, (id, u), w) ==> *final(u) == *u) ==> {
                &&& r.0@ == UiView::<W, D, H>::with_root(r.0@.data[0], r.0@.widgets[0])
                &&& call_ensures(new_data, (), r.0@.data[0])
            },
    {
        let mut ui = Ui { widgets: Vec::new(), data: Vec::new(), hooked: Vec::new(), focused: None };
        let data = new_data();
        proof {
            assert(ui@.parents =~= Seq::empty());
            assert(ui@.children =~= Seq::empty());
            assert(ui@.visible =~= Seq::empty());
            assert(ui@.widgets =~= Seq::empty());
            assert(ui@.data =~= Seq::empty());
            assert(ui@.hooks =~= Seq::empty());
        }
        let id = ui.reserve(None, data);
        let ghost reserved = ui;
        proof {
            assert(reserved@ =~= UiView::<W, D, H>::with_root(data, None));
        }
        let widget = new_root_widget(id, &mut ui);
        ui.install(id, widget);
        proof {
            assert forall|i: int| 0 <= i < ui@.len() implies (#[trigger] ui@.widgets[i]) is Some by {
                if i > 0 {
                    assert(reserved@.len() <= i);
                }
            }
            let installed = UiView { widgets: reserved@.widgets.update(0, Some(widget)), ..reserved@ };
            assert(installed =~= UiView::<W, D, H>::with_root(data, Some(widget)));
        }
        (ui, id)
    }

    /// Add a widget to the `Ui`.
    ///
    /// The data of the new widget is created first, then the widget is
    /// registered as the last child of `parent`, and then the widget
    /// object is created; its constructor gets to see the `Ui` and may
    /// add child widgets of its own.
    pub fn add_ui_widget<DF, WF>(&mut self, parent: Id, new_data: DF, new_widget: WF) -> (id: Id) where
        DF: FnOnce() -> D,
        WF: FnOnce(Id, &mut Self) -> W,
        W: Object,

        requires
            old(self).wf(),
            parent@ < old(self)@.len(),
            call_requires(new_data, ()),
            forall|id: Id, u: &mut Self, w: W, r: Id|
                #[trigger] call_ensures(new_widget, (id, u), w) && #[trigger] call_ensures(
                    W::id,
                    (&w,),
                    r,
                ) ==> r == id,
            forall|id: Id, u: &mut Self|
                Self::under_construction(*u, id, Some(parent@)) ==> #[trigger] call_requires(
                    new_widget,
                    (id, u),
                ),
            forall|id: Id, u: &mut Self, w: W|
                #[trigger] call_ensures(new_widget, (id, u), w) && Self::under_construction(
                    *u,
                    id,
                    Some(parent@),
                ) ==> Self::grows(*u, *final(u)),
        ensures
            id@ == old(self)@.len(),
            exists|d: D, u: &mut Self, w: W|
                {
                    &&& #[trigger] call_ensures(new_data, (), d)
                    &&& (*u)@ == old(self)@.add_child(Some(parent@), d, None)
                    &&& (*u)@.focused == old(self)@.focused
                    &&& Self::under_construction(*u, id, Some(parent@))
                    &&& #[trigger] call_ensures(new_widget, (id, u), w)
                    &&& final(self)@ == (UiView {
                        widgets: (*final(u))@.widgets.update(id@ as int, Some(w)),
                        ..(*final(u))@
                    })
                },
            Self::grows(*old(self), *final(self)),
            final(self)@.parents[id@ as int] == Some(parent@),
            final(self)@.children[parent@ as int].contains(id@),
            old(self).complete() ==> final(self).complete(),
            (forall|id: Id, u: &mut Self, w: W|
                #[trigger] call_ensures(new_widget, (id, u), w) ==> *final(u) == *u) ==> {
                &&& final(self)@ == old(self)@.add_child(
                    Some(parent@),
                    final(self)@.data[id@ as int],
                    final(self)@.widgets[id@ as int],
                )
                &&& final(self)@.focused == old(self)@.focused
                &&& call_ensures(new_data, (), final(self)@.data[id@ as int])
            },
    {
        let data = new_data();
        let id = self.reserve(Some(parent.idx), data);
        let ghost reserved = *self;
        let widget = new_widget(id, self);
        self.install(id, widget);
        proof {
            assert forall|i: int| 0 <= i < old(self)@.len() && (#[trigger] old(self)@.widgets[i]) is Some
                implies self@.widgets[i] == old(self)@.widgets[i] by {
                assert(reserved@.widgets[i] == old(self)@.widgets[i]);
            }
            assert forall|i: int| old(self)@.len() <= i < self@.len() implies (#[trigger] self@.widgets[i]) is Some by {
                if i > id@ {
                    assert(reserved@.len() <= i);
                }
            }
            if old(self).complete() {
                assert forall|i: int| 0 <= i < self@.len() implies (#[trigger] self@.widgets[i]) is Some by {
                    if i < old(self)@.len() {
                        assert(old(self)@.widgets[i] is Some);
                    }
                }
            }
            let installed = UiView {
                widgets: reserved@.widgets.update(id@ as int, Some(widget)),
                ..reserved@
            };
            assert(installed =~= old(self)@.add_child(Some(parent@), data, Some(widget)));
            lemma_parent_iff_child(self@, parent@ as int, id@ as int);
        }
        id
    }
}

/// A capability allowing for various widget related operations.
pub trait Cap {
    /// Whether the capability is in a consistent state and `widget` names
    /// one of its widgets.
    spec fn has_widget(&self, widget: Id) -> bool;

    /// Retrieve an iterator over the children. Iteration happens in
    /// z-order, from highest to lowest.
    fn children(&self, widget: Id) -> std::slice::Iter<'_, Id>
        requires
            self.has_widget(widget),
    ;

    /// Retrieve the `Id` of the root widget.
    fn root_id(&self) -> Id;

    /// Retrieve the parent of the given widget.
    fn parent_id(&self, widget: Id) -> Option<Id>
        requires
            self.has_widget(widget),
    ;

    /// Check whether a widget has its visibility flag set.
    ///
    /// Note that a return value of `true` does not necessary mean that
    /// the widget is actually visible. A widget is only visible if all
    /// its parents have the visibility flag set, too. The `is_displayed`
    /// method can be used to check for actual visibility.
    fn is_visible(&self, widget: Id) -> bool
        requires
            self.has_widget(widget),
    ;

    /// Check whether a widget is actually being displayed.
    ///
    /// This method checks whether the referenced widget is actually being
    /// displayed, that is, whether its own as well as its parents'
    /// visibility flags are all set.
    fn is_displayed(&self, widget: Id) -> bool
        requires
            self.has_widget(widget),
    ;

    /// Retrieve the currently focused widget.
    fn focused(&self) -> Option<Id>;

    /// Check whether the widget with the given `Id` is focused.
    fn is_focused(&self, widget: Id) -> bool
        requires
            self.has_widget(widget),
    ;
}

/// A mutable capability allowing for various widget related operations.
pub trait MutCap: Cap {
    /// The type of event hooks that can be installed.
    type Hook;

    /// Show a widget, i.e., set its and its parents' visibility flag.
    fn show(&mut self, widget: Id)
        requires
            old(self).has_widget(widget),
    ;

    /// Hide a widget, i.e., unset its visibility flag.
    ///
    /// This method makes sure that widget referenced is no longer
    /// displayed. If the widget has children, all those children will
    /// also be hidden.
    fn hide_widget(&mut self, widget: Id)
        requires
            old(self).has_widget(widget),
    ;

    /// Focus a widget.
    ///
    /// The focused widget is the one receiving certain types of events
    /// (such as key events) first but may also be rendered in a different
    /// color or be otherwise highlighted. Note that being focused implies
    /// being visible. This invariant is enforced internally.
    fn focus(&mut self, widget: Id)
        requires
            old(self).has_widget(widget),
    ;

    /// Install or remove an event hook handler.
    ///
    /// A widget may only register one handler and subsequent requests
    /// will overwrite the previously installed one. The method returns
    /// the handler that was previously installed, if any.
    fn hook_events(&mut self, widget: Id, hook_fn: Option<Self::Hook>) -> Option<Self::Hook>
        requires
            old(self).has_widget(widget),
    ;
}

impl<W, D, H> Ui<W, D, H> {
    /// Check whether the widget at `idx` is actually being displayed.
    fn displayed_idx(&self, idx: usize) -> (r: bool)
        requires
            self.wf(),
            idx < self@.len(),
        ensures
            r == self@.displayed(idx as int),
        decreases idx,
    {
        proof {
            self.lemma_view_len();
        }
        let data = &self.widgets[idx];
        if !data.visible {
            return false;
        }
        match data.parent_idx {
            None => true,
            Some(p) => {
                assert(self@.parents[idx as int] == Some(p));
                self.displayed_idx(p)
            },
        }
    }

    /// Retrieve a reference to a widget's data.
    pub fn data(&self, widget: Id) -> (r: &D)
        requires
            self.wf(),
            widget@ < self@.len(),
        ensures
            *r == self@.data[widget@ as int],
    {
        &self.data[widget.idx]
    }

    /// Retrieve a mutable reference to a widget's data.
    pub fn data_mut(&mut self, widget: Id) -> (r: &mut D)
        requires
            old(self).wf(),
            widget@ < old(self)@.len(),
        ensures
            *r == old(self)@.data[widget@ as int],
            final(self)@ == (UiView {
                data: old(self)@.data.update(widget@ as int, *final(r)),
                ..old(self)@
            }),
            final(self).wf(),
    {
        &mut self.data[widget.idx]
    }
}

impl<W, D, H> Cap for Ui<W, D, H> {
    open spec fn has_widget(&self, widget: Id) -> bool {
        self.wf() && widget@ < self@.len()
    }

    fn children(&self, widget: Id) -> (r: std::slice::Iter<'_, Id>)
        ensures
            vstd::std_specs::iter::IteratorSpec::remaining(&r).unref().map_values(|id: Id| id@) == self@.children[widget@ as int],
    {
        let r = self.widgets[widget.idx].children.iter();
        proof {
            broadcast use vstd::std_specs::slice::axiom_spec_slice_iter;
            assert(vstd::std_specs::iter::IteratorSpec::remaining(&r).unref().map_values(|id: Id| id@) =~= self@.children[widget@ as int]);
        }
        r
    }

    fn root_id(&self) -> (r: Id)
        ensures
            r@ == 0,
    {
        Id::new(0)
    }

    fn parent_id(&self, widget: Id) -> (r: Option<Id>)
        ensures
            r matches Some(p) ==> self@.parents[widget@ as int] == Some(p@),
            r is None ==> self@.parents[widget@ as int] is None,
    {
        match self.widgets[widget.idx].parent_idx {
            Some(p) => Some(Id::new(p)),
            None => None,
        }
    }

    fn is_visible(&self, widget: Id) -> (r: bool)
        ensures
            r == self@.visible[widget@ as int],
    {
        self.widgets[widget.idx].visible
    }

    fn is_displayed(&self, widget: Id) -> (r: bool)
        ensures
            r == self@.displayed(widget@ as int),
    {
        self.displayed_idx(widget.idx)
    }

    fn focused(&self) -> (r: Option<Id>)
        ensures
            r matches Some(f) ==> self@.focused == Some(f@),
            r is None ==> self@.focused is None,
    {
        match self.focused {
            Some(f) => Some(Id::new(f)),
            None => None,
        }
    }

    fn is_focused(&self, widget: Id) -> (r: bool)
        ensures
            r == (self@.focused == Some(widget@)),
    {
        match self.focused {
            Some(f) => f == widget.idx,
            None => false,
        }
    }
}

/// The capability handed to a widget while a [`Ui`] is rendered: it
/// answers every query as the `Ui` itself does. Its ghost `step` is the
/// position, in the trace that rendering returns, of the call that it is
/// handed to, so that each entry of the trace stands for the call made at
/// that point of the rendering and no other.
pub struct RenderCap<'a, W, D, H> {
    /// The `Ui` being rendered.
    pub ui: &'a Ui<W, D, H>,
    /// The position of the call in the rendering trace.
    pub step: Ghost<int>,
}

impl<'a, W, D, H> Cap for RenderCap<'a, W, D, H> {
    open spec fn has_widget(&self, widget: Id) -> bool {
        self.ui.has_widget(widget)
    }

    fn children(&self, widget: Id) -> (r: std::slice::Iter<'_, Id>)
        ensures
            vstd::std_specs::iter::IteratorSpec::remaining(&r).unref().map_values(|id: Id| id@) == self.ui@.children[widget@ as int],
    {
        self.ui.children(widget)
    }

    fn root_id(&self) -> (r: Id)
        ensures
            r@ == 0,
    {
        self.ui.root_id()
    }

    fn parent_id(&self, widget: Id) -> (r: Option<Id>)
        ensures
            r matches Some(p) ==> self.ui@.parents[widget@ as int] == Some(p@),
            r is None ==> self.ui@.parents[widget@ as int] is None,
    {
        self.ui.parent_id(widget)
    }

    fn is_visible(&self, widget: Id) -> (r: bool)
        ensures
            r == self.ui@.visible[widget@ as int],
    {
        self.ui.is_visible(widget)
    }

    fn is_displayed(&self, widget: Id) -> (r: bool)
        ensures
            r == self.ui@.displayed(widget@ as int),
    {
        self.ui.is_displayed(widget)
    }

    fn focused(&self) -> (r: Option<Id>)
        ensures
            r matches Some(f) ==> self.ui@.focused == Some(f@),
            r is None ==> self.ui@.focused is None,
    {
        self.ui.focused()
    }

    fn is_focused(&self, widget: Id) -> (r: bool)
        ensures
            r == (self.ui@.focused == Some(widget@)),
    {
        self.ui.is_focused(widget)
    }
}

impl<W, D, H> Ui<W, D, H> {
    /// Set the visibility flag of the widget at `idx`.
    fn set_visible(&mut self, idx: usize, visible: bool)
        requires
            old(self).tree_ok(),
            idx < old(self)@.len(),
        ensures
            final(self).tree_ok(),
            final(self)@ == (UiView { visible: old(self)@.visible.update(idx as int, visible), ..old(self)@ }),
            final(self).focused == old(self).focused,
    {
        let ghost before = *self;
        self.widgets[idx].visible = visible;
        proof {
            Self::lemma_view_update_entry(before, *self, idx as int);
        }
    }

    /// Find the position of the widget at `idx` in the list of children of
    /// its parent `parent_idx`.
    fn child_position(&self, parent_idx: usize, idx: usize) -> (k: usize)
        requires
            self.tree_ok(),
            idx < self@.len(),
            self@.parents[idx as int] == Some(parent_idx),
        ensures
            k < self@.children[parent_idx as int].len(),
            self@.children[parent_idx as int][k as int] == idx,
            k == self@.children[parent_idx as int].index_of(idx),
    {
        proof {
            self.lemma_view_len();
        }
        let ghost s = self@.children[parent_idx as int];
        assert(idx > 0);
        assert(s.contains(idx));
        let children = &self.widgets[parent_idx].children;
        let mut k: usize = 0;
        while k < children.len()
            invariant
                0 <= k <= children@.len(),
                s == children@.map_values(|id: Id| id@),
                s == self@.children[parent_idx as int],
                s.contains(idx),
                s.no_duplicates(),
                forall|j: int| 0 <= j < k ==> s[j] != idx,
            decreases children@.len() - k,
        {
            if children[k].idx == idx {
                proof {
                    assert(s[k as int] == children@[k as int]@);
                    let j = s.index_of(idx);
                    assert(s[j] == idx);
                    assert(j == k);
                }
                return k;
            }
            k = k + 1;
        }
        proof {
            let j = choose|j: int| 0 <= j < s.len() && s[j] == idx;
            assert(s[j] != idx);
        }
        0
    }

    /// Check whether the widget at `idx` is the top-most child of its
    /// parent; the root widget always is.
    fn is_top_most_child(&self, idx: usize) -> (r: bool)
        requires
            self.tree_ok(),
            idx < self@.len(),
        ensures
            r == (self@.parents[idx as int] matches Some(p) ==> self@.children[p as int][0] == idx),
    {
        proof {
            self.lemma_view_len();
        }
        match self.widgets[idx].parent_idx {
            Some(p) => {
                proof {
                    assert(self@.children[p as int].contains(idx));
                }
                self.widgets[p].children[0].idx == idx
            },
            None => true,
        }
    }

    /// Move the widget at `idx` to the front of its parent's list of
    /// children.
    fn reorder(&mut self, idx: usize)
        requires
            old(self).tree_ok(),
            idx < old(self)@.len(),
        ensures
            final(self).tree_ok(),
            final(self).focused == old(self).focused,
            final(self)@ == match old(self)@.parents[idx as int] {
                Some(p) => UiView {
                    children: old(self)@.children.update(
                        p as int,
                        to_front(old(self)@.children[p as int], idx),
                    ),
                    ..old(self)@
                },
                None => old(self)@,
            },
    {
        proof {
            self.lemma_view_len();
        }
        if let Some(p) = self.widgets[idx].parent_idx {
            let ghost old_view = self@;
            let ghost before = *self;
            let k = self.child_position(p, idx);
            let id = self.widgets[p].children.remove(k);
            self.widgets[p].children.insert(0, id);
            proof {
                let s = old_view.children[p as int];
                let t = to_front(s, idx);
                assert(s.contains(idx));
                lemma_to_front(s, idx);
                Self::lemma_view_update_entry(before, *self, p as int);
                assert(self@.children[p as int] =~= t);
                lemma_tree_wf_permute(old_view, p as int, t);
            }
        }
    }

    /// Reorder the widget at `idx` as the top-most child of its parent,
    /// unless it is already.
    fn reorder_as_focused(&mut self, idx: usize)
        requires
            old(self).tree_ok(),
            idx < old(self)@.len(),
        ensures
            final(self).tree_ok(),
            final(self).focused == old(self).focused,
            final(self)@ == match old(self)@.parents[idx as int] {
                Some(p) => UiView {
                    children: old(self)@.children.update(
                        p as int,
                        to_front(old(self)@.children[p as int], idx),
                    ),
                    ..old(self)@
                },
                None => old(self)@,
            },
    {
        if !self.is_top_most_child(idx) {
            self.reorder(idx);
        } else {
            proof {
                if let Some(p) = self@.parents[idx as int] {
                    let s = self@.children[p as int];
                    assert(s.contains(idx));
                    lemma_to_front(s, idx);
                    assert(self@.children.update(p as int, to_front(s, idx)) =~= self@.children);
                }
            }
        }
    }

    /// Make the widget at `idx` and all its ancestors the top-most child
    /// of their parents and set their visibility flags.
    fn raise_idx(&mut self, idx: usize)
        requires
            old(self).tree_ok(),
            idx < old(self)@.len(),
        ensures
            final(self).tree_ok(),
            final(self).focused == old(self).focused,
            final(self)@ == old(self)@.raised(idx as int),
        decreases idx,
    {
        proof {
            self.lemma_view_len();
        }
        let ghost old_view = self@;
        self.reorder_as_focused(idx);
        self.set_visible(idx, true);
        proof {
            assert(self@ =~= old_view.raise_step(idx as int));
        }
        if let Some(p) = self.widgets[idx].parent_idx {
            assert(p < idx);
            self.raise_idx(p);
        }
    }

    /// Set the visibility flags of the widget at `idx` and all its
    /// ancestors.
    fn show_idx(&mut self, idx: usize)
        requires
            old(self).tree_ok(),
            idx < old(self)@.len(),
        ensures
            final(self).tree_ok(),
            final(self).focused == old(self).focused,
            final(self)@ == old(self)@.shown(idx as int),
        decreases idx,
    {
        proof {
            self.lemma_view_len();
        }
        self.set_visible(idx, true);
        if let Some(p) = self.widgets[idx].parent_idx {
            assert(p < idx);
            self.show_idx(p);
        }
    }
}

impl<W, D, H> MutCap for Ui<W, D, H> {
    type Hook = H;

    fn show(&mut self, widget: Id)
        ensures
            final(self).wf(),
            final(self)@ == old(self)@.shown(widget@ as int),
            final(self)@.children == old(self)@.children,
            final(self)@.parents == old(self)@.parents,
            final(self)@.widgets == old(self)@.widgets,
            final(self)@.data == old(self)@.data,
            final(self)@.hooks == old(self)@.hooks,
            final(self)@.focused == old(self)@.focused,
            final(self)@.displayed(widget@ as int),
            forall|a: int|
                0 <= a < old(self)@.len() && #[trigger] old(self)@.is_ancestor_or_self(widget@ as int, a)
                    ==> final(self)@.visible[a],
            forall|j: int|
                0 <= j < old(self)@.len() && !old(self)@.is_ancestor_or_self(widget@ as int, j)
                    ==> #[trigger] final(self)@.visible[j] == old(self)@.visible[j],
    {
        let ghost old_view = self@;
        self.show_idx(widget.idx);
        proof {
            lemma_shown(old_view, widget@ as int);
            lemma_show_sets_ancestors(old_view, widget@ as int);
        }
    }

    fn hide_widget(&mut self, widget: Id)
        ensures
            final(self).wf(),
            final(self)@ == old(self)@.hidden(widget@ as int),
            final(self)@.children == old(self)@.children,
            final(self)@.parents == old(self)@.parents,
            final(self)@.widgets == old(self)@.widgets,
            final(self)@.data == old(self)@.data,
            final(self)@.hooks == old(self)@.hooks,
            final(self)@.visible == old(self)@.visible.update(widget@ as int, false),
            old(self)@.focused != Some(widget@) ==> final(self)@.focused == old(self)@.focused,
            old(self)@.focused == Some(widget@) ==> final(self)@.focused is None,
            forall|d: int|
                0 <= d < final(self)@.len() && old(self)@.is_ancestor_or_self(d, widget@ as int)
                    ==> !#[trigger] final(self)@.displayed(d),
    {
        let ghost old_view = self@;
        if self.is_focused(widget) {
            self.focused = None;
        }
        self.set_visible(widget.idx, false);
        proof {
            assert(self@ =~= old_view.hidden(widget@ as int));
            assert forall|d: int|
                0 <= d < self@.len() && old_view.is_ancestor_or_self(d, widget@ as int)
                implies !#[trigger] self@.displayed(d) by {
                assert(self@.is_ancestor_or_self(d, widget@ as int) == old_view.is_ancestor_or_self(d, widget@ as int)) by {
                    lemma_ancestry_same(old_view, self@, d, widget@ as int);
                }
                lemma_not_displayed_below(self@, widget@ as int, d);
            }
        }
    }

    fn focus(&mut self, widget: Id)
        ensures
            final(self).wf(),
            final(self)@ == old(self)@.focused_on(widget@ as int),
            final(self)@.displayed(widget@ as int),
            final(self)@.parents == old(self)@.parents,
            final(self)@.widgets == old(self)@.widgets,
            final(self)@.data == old(self)@.data,
            final(self)@.hooks == old(self)@.hooks,
            final(self)@.focused == Some(widget@),
            forall|a: int|
                0 <= a < old(self)@.len() && #[trigger] old(self)@.is_ancestor_or_self(widget@ as int, a)
                    ==> {
                    &&& final(self)@.visible[a]
                    &&& old(self)@.parents[a] matches Some(q) ==> final(self)@.children[q as int].len() > 0
                        && final(self)@.children[q as int][0] == a as usize
                },
            forall|j: int|
                0 <= j < old(self)@.len() && !old(self)@.is_ancestor_or_self(widget@ as int, j)
                    ==> #[trigger] final(self)@.visible[j] == old(self)@.visible[j],
            old(self)@.parents[widget@ as int] matches Some(p) ==> final(self)@.children[p as int]
                == seq![widget@] + old(self)@.children[p as int].remove(
                old(self)@.children[p as int].index_of(widget@),
            ),
            forall|p: int, c: usize|
                0 <= p < final(self)@.len() ==> (#[trigger] final(self)@.children[p].contains(c)
                    <==> old(self)@.children[p].contains(c)),
    {
        let ghost old_view = self@;
        proof {
            lemma_raised_frame(old_view, widget@ as int);
            lemma_focus_permutes_children(old_view, widget@ as int);
            if old_view.parents[widget@ as int] is Some {
                lemma_focus_keeps_sibling_order(old_view, widget@ as int);
            }
            lemma_focus_raises_ancestors(old_view, widget@ as int);
        }
        self.raise_idx(widget.idx);
        self.focused = Some(widget.idx);
        proof {
            lemma_raised_top(old_view, widget@ as int);
            lemma_raised_displayed(old_view, widget@ as int);
            assert(self@ =~= old_view.focused_on(widget@ as int));
            lemma_displayed_same(old_view.raised(widget@ as int), self@, widget@ as int);
        }
    }

    fn hook_events(&mut self, widget: Id, hook_fn: Option<H>) -> (r: Option<H>)
        ensures
            final(self).wf(),
            r == old(self)@.hooks[widget@ as int],
            final(self)@ == (UiView { hooks: old(self)@.hooks.update(widget@ as int, hook_fn), ..old(self)@ }),
    {
        proof {
            self.lemma_view_len();
        }
        let ghost old_view = self@;
        let ghost old_hooked = self.hooked@;
        let idx = widget.idx;
        let result = self.search_hooked(idx);
        if hook_fn.is_some() {
            if let Err(i) = result {
                self.hooked.insert(i, idx);
            }
        } else {
            if let Ok(i) = result {
                let _ = self.hooked.remove(i);
            }
        }
        let ghost before = *self;
        let prev = self.widgets[idx].event_hook.take();
        self.widgets[idx].event_hook = hook_fn;
        proof {
            Self::lemma_view_update_entry(before, *self, idx as int);
            lemma_hooked_update(old_hooked, old_view.hooks, idx, hook_fn, result, self.hooked@);
        }
        prev
    }
}

impl<W, D, H> Ui<W, D, H> {
    /// Search the sorted list of hooked widgets for `idx`: its position
    /// if it is there, else the position where it belongs.
    fn search_hooked(&self, idx: usize) -> (r: Result<usize, usize>)
        requires
            forall|i: int, j: int| 0 <= i < j < self.hooked@.len() ==> self.hooked@[i] < self.hooked@[j],
        ensures
            match r {
                Ok(i) => i < self.hooked@.len() && self.hooked@[i as int] == idx,
                Err(i) => i <= self.hooked@.len() && (forall|j: int| 0 <= j < i ==> self.hooked@[j] < idx)
                    && (forall|j: int| i <= j < self.hooked@.len() ==> self.hooked@[j] > idx),
            },
    {
        let mut lo: usize = 0;
        let mut hi: usize = self.hooked.len();
        while lo < hi
            invariant
                0 <= lo <= hi <= self.hooked@.len(),
                forall|i: int, j: int| 0 <= i < j < self.hooked@.len() ==> self.hooked@[i] < self.hooked@[j],
                forall|j: int| 0 <= j < lo ==> self.hooked@[j] < idx,
                forall|j: int| hi <= j < self.hooked@.len() ==> self.hooked@[j] > idx,
            decreases hi - lo,
        {
            let mid = lo + (hi - lo) / 2;
            let v = self.hooked[mid];
            if v == idx {
                return Ok(mid);
            } else if v < idx {
                lo = mid + 1;
            } else {
                hi = mid;
            }
        }
        Err(lo)
    }
}

impl<W: Renderable, D, H> Ui<W, D, H> {
    /// Whether the recorded call `e` was made at position `step` of a
    /// rendering with `renderer`: each entry stands for a call of the
    /// renderer or of the rendered widget with exactly the recorded
    /// arguments, which returned the recorded result. A widget's call is
    /// handed a [`RenderCap`] that carries `step`, so that the entries of
    /// a trace stand for the widgets' calls in the order they were made.
    pub open spec fn made<R: Renderer>(&self, renderer: &R, e: RenderCall, step: int) -> bool {
        match e {
            RenderCall::Area(area) => call_ensures(
                R::renderable_area,
                (renderer,),
                area,
            ),
            RenderCall::PreRender => call_ensures(R::pre_render, (renderer,), ()),
            RenderCall::Render(i, bbox, out) => 0 <= i < self@.len() && call_ensures(
                W::render,
                (&self@.widgets[i as int]->0, &RenderCap { ui: self, step: Ghost(step) }, renderer, bbox),
                out,
            ),
            RenderCall::RenderDone(i, bbox) => 0 <= i < self@.len() && call_ensures(
                W::render_done,
                (&self@.widgets[i as int]->0, &RenderCap { ui: self, step: Ghost(step) }, renderer, bbox),
                (),
            ),
            RenderCall::PostRender => call_ensures(R::post_render, (renderer,), ()),
        }
    }

    /// Render the `Ui` with the given `Renderer`.
    ///
    /// Widgets are rendered recursively starting at the root: a widget
    /// without its visibility flag set is skipped together with all its
    /// children; a visible widget is rendered, then its children from the
    /// lowest to the highest in z-order within the bounding box that the
    /// widget's rendering returned (unless that box is empty), and then
    /// the widget is told that its rendering is done.
    ///
    /// The returned ghost trace records the calls made, in their order.
    pub fn render<R: Renderer>(&self, renderer: &R) -> (trace: Ghost<Seq<RenderCall>>)
        requires
            self.wf(),
            self.complete(),
        ensures
            self@.rendering(trace@),
            forall|k: int| 0 <= k < trace@.len() ==> self.made(renderer, #[trigger] trace@[k], k),
    {
        let bbox = renderer.renderable_area();
        renderer.pre_render();
        let t = self.render_all(0, renderer, bbox, Ghost(2));
        renderer.post_render();
        let ghost trace = seq![RenderCall::Area(bbox), RenderCall::PreRender] + t@ + seq![
            RenderCall::PostRender,
        ];
        proof {
            assert(trace.subrange(2, trace.len() - 1) =~= t@);
            assert forall|k: int| 0 <= k < trace.len() implies self.made(renderer, #[trigger] trace[k], k) by {
                if 2 <= k < trace.len() - 1 {
                    assert(trace[k] == t@[k - 2]);
                }
            }
        }
        Ghost(trace)
    }

    /// Recursively render the widget at `idx` and its children; the calls
    /// made are recorded from position `start` of the rendering trace on.
    fn render_all<R: Renderer>(&self, idx: usize, renderer: &R, bbox: BBox, start: Ghost<int>) -> (trace: Ghost<
        Seq<RenderCall>,
    >)
        requires
            self.wf(),
            self.complete(),
            idx < self@.len(),
        ensures
            self@.renders(idx as int, bbox, trace@),
            forall|k: int| 0 <= k < trace@.len() ==> self.made(renderer, #[trigger] trace@[k], start@ + k),
        decreases self@.len() - idx,
    {
        proof {
            self.lemma_view_len();
        }
        let data = &self.widgets[idx];
        if !data.visible {
            return Ghost(Seq::empty());
        }
        assert(self@.widgets[idx as int] is Some);
        match &data.widget {
            Some(widget) => {
                let cap = RenderCap { ui: self, step: Ghost(start@) };
                let inner = widget.render(&cap, renderer, bbox);
                let ghost mut kids: Seq<RenderCall> = Seq::empty();
                if inner.w > 0 && inner.h > 0 {
                    let children = &data.children;
                    let mut k = children.len();
                    proof {
                        assert(self@.children[idx as int].len() == k);
                        assert(self@.renders_children(idx as int, k as int, k as int, inner, kids));
                    }
                    while k > 0
                        invariant
                            self.wf(),
                            self.complete(),
                            idx < self@.len(),
                            k <= children@.len(),
                            children@.map_values(|id: Id| id@) == self@.children[idx as int],
                            self@.renders_children(
                                idx as int,
                                children@.len() as int,
                                k as int,
                                inner,
                                kids,
                            ),
                            forall|j: int|
                                0 <= j < kids.len() ==> self.made(renderer, #[trigger] kids[j], start@ + 1 + j),
                        decreases k,
                    {
                        k = k - 1;
                        let child = children[k].idx;
                        proof {
                            assert(self@.children[idx as int][k as int] == child);
                            assert(self@.parents[child as int] == Some(idx));
                        }
                        let t = self.render_all(child, renderer, inner, Ghost(start@ + 1 + kids.len()));
                        proof {
                            lemma_renders_children_append(
                                self@,
                                idx as int,
                                children@.len() as int,
                                k + 1,
                                inner,
                                kids,
                                t@,
                            );
                            let old_kids = kids;
                            kids = kids + t@;
                            assert forall|j: int| 0 <= j < kids.len() implies self.made(
                                renderer,
                                #[trigger] kids[j],
                                start@ + 1 + j,
                            ) by {
                                if j < old_kids.len() {
                                    assert(kids[j] == old_kids[j]);
                                } else {
                                    assert(kids[j] == t@[j - old_kids.len()]);
                                }
                            }
                        }
                    }
                }
                let cap = RenderCap { ui: self, step: Ghost(start@ + 1 + kids.len()) };
                widget.render_done(&cap, renderer, bbox);
                let ghost trace = seq![RenderCall::Render(idx, bbox, inner)] + kids + seq![
                    RenderCall::RenderDone(idx, bbox),
                ];
                proof {
                    assert(trace.subrange(1, trace.len() - 1) =~= kids);
                    assert(self.made(renderer, RenderCall::Render(idx, bbox, inner), start@));
                    assert(self.made(renderer, RenderCall::RenderDone(idx, bbox), start@ + 1 + kids.len()));
                    assert forall|j: int| 0 <= j < trace.len() implies self.made(
                        renderer,
                        #[trigger] trace[j],
                        start@ + j,
                    ) by {
                        if 0 < j < trace.len() - 1 {
                            assert(trace[j] == kids[j - 1]);
                        }
                    }
                }
                Ghost(trace)
            },
            None => Ghost(Seq::empty()),
        }
    }
}

impl<W, D, H> Ui<W, D, H> {
    /// Determine where handling of an event coming into the `Ui` starts:
    /// an ordinary event goes to the focused widget, or is returned
    /// as-is if no widget has the focus; a request to quit is returned
    /// right away.
    pub fn first_step<E>(&self, event: UiEvent<E>) -> (r: Step<E>)
        requires
            self.wf(),
        ensures
            match event {
                UiEvent::Event(e) => match self@.focused {
                    Some(f) => r matches Step::Deliver(id, e2) && id@ == f && e2 == e,
                    None => r == Step::Done(Some(UiEvent::Event(e))),
                },
                UiEvent::Quit => r == Step::<E>::Done(Some(UiEvent::Quit)),
            },
    {
        match event {
            UiEvent::Event(e) => match self.focused {
                Some(f) => Step::Deliver(Id::new(f), e),
                None => Step::Done(Some(UiEvent::Event(e))),
            },
            UiEvent::Quit => Step::Done(Some(UiEvent::Quit)),
        }
    }

    /// Determine the next step after the widget `from` handled an event
    /// and returned `result`: nothing left means the event got handled,
    /// otherwise what is left bubbles up to the parent, and at the root it
    /// is returned unhandled.
    pub fn next_step<E>(&self, from: Id, result: Option<E>) -> (r: Step<E>)
        requires
            self.wf(),
            from@ < self@.len(),
        ensures
            match result {
                None => r == Step::<E>::Done(None),
                Some(e) => match self@.parents[from@ as int] {
                    Some(p) => r matches Step::Deliver(id, e2) && id@ == p && e2 == e,
                    None => r == Step::Done(Some(UiEvent::Event(e))),
                },
            },
    {
        match result {
            None => Step::Done(None),
            Some(e) => match self.widgets[from.idx].parent_idx {
                Some(p) => Step::Deliver(Id::new(p), e),
                None => Step::Done(Some(UiEvent::Event(e))),
            },
        }
    }

    /// Check whether the given `Id` names one of this `Ui`'s widgets.
    pub fn validate(&self, widget: Id) -> (r: bool)
        requires
            self.wf(),
        ensures
            r == (widget@ < self@.len()),
    {
        widget.idx < self.widgets.len()
    }

    /// Retrieve the widget object with the given `Id`, `None` while it is
    /// still being constructed.
    pub fn lookup(&self, widget: Id) -> (r: Option<&W>)
        requires
            self.wf(),
            widget@ < self@.len(),
        ensures
            r == match self@.widgets[widget@ as int] {
                Some(w) => Some(&w),
                None => None,
            },
    {
        match &self.widgets[widget.idx].widget {
            Some(w) => Some(w),
            None => None,
        }
    }

    /// Retrieve the event hook registered for the widget with the given
    /// `Id`, if any.
    pub fn event_hook(&self, widget: Id) -> (r: Option<&H>)
        requires
            self.wf(),
            widget@ < self@.len(),
        ensures
            r == match self@.hooks[widget@ as int] {
                Some(h) => Some(&h),
                None => None,
            },
    {
        match &self.widgets[widget.idx].event_hook {
            Some(h) => Some(h),
            None => None,
        }
    }

    /// Determine the event hooks to invoke for an event coming into the
    /// `Ui`: for an ordinary event those of all widgets with a registered
    /// event hook, in the order of their creation; for a request to quit
    /// none. The hooks so determined are invoked before the event is routed
    /// to the widgets, with the event, and again afterwards, without it;
    /// hooks installed in between are not invoked for this event.
    pub fn hooks_to_invoke<E>(&self, event: &UiEvent<E>) -> (r: Vec<Id>)
        requires
            self.wf(),
        ensures
            *event is Quit ==> r@.len() == 0,
            *event is Event ==> {
                &&& forall|i: int, j: int| 0 <= i < j < r@.len() ==> r@[i]@ < r@[j]@
                &&& forall|k: int|
                    0 <= k < r@.len() ==> #[trigger] r@[k]@ < self@.len() && self@.hooks[r@[k]@ as int] is Some
                &&& forall|i: int|
                    0 <= i < self@.len() && (#[trigger] self@.hooks[i]) is Some ==> exists|k: int|
                        0 <= k < r@.len() && r@[k]@ == i
            },
    {
        match event {
            UiEvent::Event(_) => self.hooked_widgets(),
            UiEvent::Quit => Vec::new(),
        }
    }

    /// Retrieve the widgets with a registered event hook, in the order of
    /// their creation.
    pub fn hooked_widgets(&self) -> (r: Vec<Id>)
        requires
            self.wf(),
        ensures
            forall|i: int, j: int| 0 <= i < j < r@.len() ==> r@[i]@ < r@[j]@,
            forall|k: int| 0 <= k < r@.len() ==> #[trigger] r@[k]@ < self@.len() && self@.hooks[r@[k]@ as int] is Some,
            forall|i: int|
                0 <= i < self@.len() && (#[trigger] self@.hooks[i]) is Some ==> exists|k: int|
                    0 <= k < r@.len() && r@[k]@ == i,
    {
        let mut r: Vec<Id> = Vec::new();
        let mut k: usize = 0;
        while k < self.hooked.len()
            invariant
                self.wf(),
                k <= self.hooked@.len(),
                r@.len() == k,
                forall|j: int| 0 <= j < k ==> #[trigger] r@[j]@ == self.hooked@[j],
            decreases self.hooked@.len() - k,
        {
            r.push(Id::new(self.hooked[k]));
            k = k + 1;
        }
        proof {
            assert forall|i: int|
                0 <= i < self@.len() && (#[trigger] self@.hooks[i]) is Some implies exists|k: int|
                    0 <= k < r@.len() && r@[k]@ == i by {
                assert(self.hooked@.contains(i as usize));
                let k = choose|k: int| 0 <= k < self.hooked@.len() && self.hooked@[k] == i as usize;
                assert(r@[k]@ == i);
            }
        }
        r
    }
}

impl<W, D, H> Ui<W, D, H> {
    /// The model of a well-formed `Ui` is a well-formed widget tree: in
    /// particular, a focused widget has its visibility flag set and is the
    /// top-most child of its parent.
    pub proof fn lemma_wf_model(&self)
        requires
            self.wf(),
        ensures
            self@.tree_wf(),
            self@.focus_wf(),
    {
    }
}

} // verus!
