use vstd::prelude::*;

use crate::renderer::BBox;
use crate::renderer::RenderCall;

verus! {

/// The mathematical model of a [`Ui`][crate::Ui]: one entry per widget, in the
/// order of creation, which is also the order of the widgets' [`Id`][crate::Id]s.
#[verifier::ext_equal]
pub struct UiView<W, D, H> {
    /// The parent of each widget.
    pub parents: Seq<Option<usize>>,
    /// The children of each widget, in z-order from highest to lowest.
    pub children: Seq<Seq<usize>>,
    /// The visibility flag of each widget.
    pub visible: Seq<bool>,
    /// Each widget object, `None` while it is still being constructed.
    pub widgets: Seq<Option<W>>,
    /// The data associated with each widget.
    pub data: Seq<D>,
    /// The event hook registered for each widget, if any.
    pub hooks: Seq<Option<H>>,
    /// The widget that has the input focus, if any.
    pub focused: Option<usize>,
}

/// The sequence with `x` moved to the front, all other elements keeping
/// their relative order.
pub open spec fn to_front(s: Seq<usize>, x: usize) -> Seq<usize> {
    seq![x] + s.remove(s.index_of(x))
}

/// Moving an element to the front of a sequence without duplicates keeps
/// its elements, and changes nothing if the element is in front already.
pub proof fn lemma_to_front(s: Seq<usize>, x: usize)
    requires
        s.no_duplicates(),
        s.contains(x),
    ensures
        to_front(s, x).len() == s.len(),
        to_front(s, x)[0] == x,
        to_front(s, x).no_duplicates(),
        forall|y: usize| #[trigger] to_front(s, x).contains(y) <==> s.contains(y),
        s[0] == x ==> to_front(s, x) == s,
        forall|j: int| 1 <= j < s.len() ==> #[trigger] to_front(s, x)[j] == if j <= s.index_of(x) {
            s[j - 1]
        } else {
            s[j]
        },
{
    let k = s.index_of(x);
    assert(0 <= k < s.len() && s[k] == x);
    let t = to_front(s, x);
    let r = s.remove(k);
    assert(t.len() == s.len());
    assert forall|j: int| 1 <= j < t.len() implies #[trigger] t[j] == if j <= k {
        s[j - 1]
    } else {
        s[j]
    } by {
        assert(t[j] == r[j - 1]);
    }
    assert forall|a: int, b: int| 0 <= a < b < t.len() implies t[a] != t[b] by {
        if a == 0 {
            if b <= k {
                assert(s[b - 1] != s[k]);
            } else {
                assert(s[b] != s[k]);
            }
        } else {
            let sa = if a <= k { a - 1 } else { a };
            let sb = if b <= k { b - 1 } else { b };
            assert(sa < sb);
            assert(s[sa] != s[sb]);
        }
    }
    assert forall|y: usize| #[trigger] t.contains(y) <==> s.contains(y) by {
        if t.contains(y) {
            let j = choose|j: int| 0 <= j < t.len() && t[j] == y;
            if j == 0 {
                assert(s[k] == y);
            } else if j <= k {
                assert(s[j - 1] == y);
            } else {
                assert(s[j] == y);
            }
        }
        if s.contains(y) {
            let j = choose|j: int| 0 <= j < s.len() && s[j] == y;
            if j == k {
                assert(t[0] == y);
            } else if j < k {
                assert(t[j + 1] == y);
            } else {
                assert(t[j] == y);
            }
        }
    }
    if s[0] == x {
        assert(k == 0);
        assert(t =~= s);
    }
}

/// The widget a rendering call is about, or -1 for the calls that are
/// about no widget.
pub open spec fn call_widget(e: RenderCall) -> int {
    match e {
        RenderCall::Render(w, _, _) => w as int,
        RenderCall::RenderDone(w, _) => w as int,
        _ => -1,
    }
}

/// The position of the first notice in `t` that widget `c` is done, or
/// the length of `t` if there is none.
pub open spec fn first_done(t: Seq<RenderCall>, c: int) -> int
    decreases t.len(),
{
    if t.len() == 0 {
        0
    } else if t[0] matches RenderCall::RenderDone(w, _) && w == c {
        0
    } else {
        1 + first_done(t.drop_first(), c)
    }
}

impl<W, D, H> UiView<W, D, H> {
    /// The number of widgets.
    pub open spec fn len(self) -> nat {
        self.parents.len()
    }

    /// The structural invariant of the widget tree: widget 0 is the root,
    /// every other widget has a parent that was created before it, and
    /// each widget's list of children holds each of its children exactly
    /// once and nothing else.
    pub open spec fn tree_wf(self) -> bool {
        &&& 1 <= self.len() <= usize::MAX
        &&& self.children.len() == self.len()
        &&& self.visible.len() == self.len()
        &&& self.widgets.len() == self.len()
        &&& self.data.len() == self.len()
        &&& self.hooks.len() == self.len()
        &&& self.parents[0] is None
        &&& forall|i: int|
            0 < i < self.len() ==> (#[trigger] self.parents[i] matches Some(p) && p < i
                && self.children[p as int].contains(i as usize))
        &&& forall|p: int, k: int|
            0 <= p < self.len() && 0 <= k < self.children[p].len() ==> {
                let c = #[trigger] self.children[p][k];
                &&& c < self.len()
                &&& self.parents[c as int] == Some(p as usize)
            }
        &&& forall|p: int| 0 <= p < self.len() ==> (#[trigger] self.children[p]).no_duplicates()
    }

    /// The focus invariant: a focused widget has its visibility flag set
    /// and is the top-most child of its parent.
    pub open spec fn focus_wf(self) -> bool {
        self.focused matches Some(f) ==> {
            &&& f < self.len()
            &&& self.visible[f as int]
            &&& (self.parents[f as int] matches Some(p) ==> self.children[p as int].len() > 0
                && self.children[p as int][0] == f)
        }
    }

    /// The complete invariant of a widget tree.
    pub open spec fn wf(self) -> bool {
        self.tree_wf() && self.focus_wf()
    }

    /// Whether widget `i` is actually displayed: its own visibility flag
    /// and those of all its ancestors are set.
    pub open spec fn displayed(self, i: int) -> bool
        decreases i,
    {
        if 0 <= i < self.len() && self.visible[i] {
            match self.parents[i] {
                None => true,
                Some(p) => if p < i {
                    self.displayed(p as int)
                } else {
                    false
                },
            }
        } else {
            false
        }
    }

    /// The model after setting the visibility flag of widget `i` and of
    /// all its ancestors.
    pub open spec fn shown(self, i: int) -> Self
        decreases i,
    {
        if 0 <= i < self.len() {
            let v = UiView { visible: self.visible.update(i, true), ..self };
            match self.parents[i] {
                Some(p) => if p < i {
                    v.shown(p as int)
                } else {
                    v
                },
                None => v,
            }
        } else {
            self
        }
    }

    /// The model after making widget `i` the top-most child of its parent
    /// and setting its visibility flag.
    pub open spec fn raise_step(self, i: int) -> Self {
        let v = UiView { visible: self.visible.update(i, true), ..self };
        match self.parents[i] {
            Some(p) => UiView {
                children: v.children.update(p as int, to_front(v.children[p as int], i as usize)),
                ..v
            },
            None => v,
        }
    }

    /// The model after making widget `i` and each of its ancestors the
    /// top-most child of its parent and setting their visibility flags.
    pub open spec fn raised(self, i: int) -> Self
        decreases i,
    {
        if 0 <= i < self.len() {
            match self.parents[i] {
                Some(p) => if p < i {
                    self.raise_step(i).raised(p as int)
                } else {
                    self.raise_step(i)
                },
                None => self.raise_step(i),
            }
        } else {
            self
        }
    }

    /// The model after focusing widget `i`.
    pub open spec fn focused_on(self, i: int) -> Self {
        UiView { focused: Some(i as usize), ..self.raised(i) }
    }

    /// The model after unsetting the visibility flag of widget `i`, which
    /// loses the focus if it had it.
    pub open spec fn hidden(self, i: int) -> Self {
        UiView {
            visible: self.visible.update(i, false),
            focused: if self.focused == Some(i as usize) {
                None
            } else {
                self.focused
            },
            ..self
        }
    }

    /// Whether widget `a` is widget `i` itself or one of its ancestors.
    pub open spec fn is_ancestor_or_self(self, i: int, a: int) -> bool
        decreases i,
    {
        if i == a {
            true
        } else if 0 <= i < self.len() {
            match self.parents[i] {
                Some(p) => if p < i {
                    self.is_ancestor_or_self(p as int, a)
                } else {
                    false
                },
                None => false,
            }
        } else {
            false
        }
    }

    /// Whether `t` is the trace of rendering widget `i` within `bbox`: a
    /// widget without its visibility flag set is skipped together with
    /// all its children; otherwise the widget is rendered first, then,
    /// unless its rendering returned an empty box, each of its children
    /// within that box, from the lowest to the highest in z-order (that
    /// is, from the last to the first in its list of children), and last
    /// the widget is told that it is done, with the box it got.
    pub open spec fn renders(self, i: int, bbox: BBox, t: Seq<RenderCall>) -> bool
        decreases self.len() - i, self.children[i].len() + 1,
    {
        if 0 <= i < self.len() {
            if !self.visible[i] {
                t.len() == 0
            } else {
                &&& t.len() >= 2
                &&& t.last() == RenderCall::RenderDone(i as usize, bbox)
                &&& t[0] matches RenderCall::Render(w, b, out) && w == i && b == bbox && if out.is_empty() {
                    t.len() == 2
                } else {
                    self.renders_children(
                        i,
                        self.children[i].len() as int,
                        0,
                        out,
                        t.subrange(1, t.len() - 1),
                    )
                }
            }
        } else {
            false
        }
    }

    /// Whether `t` is the trace of rendering, within `bbox`, the children
    /// of widget `i` at the positions from `hi - 1` down to `lo` of its
    /// list of children, in that order. The trace of each child ends with
    /// the first notice that the child is done, or is empty if the child
    /// does not have its visibility flag set.
    pub open spec fn renders_children(self, i: int, hi: int, lo: int, bbox: BBox, t: Seq<RenderCall>) -> bool
        decreases self.len() - i, hi,
    {
        if 0 <= i < self.len() && 0 <= lo <= hi <= self.children[i].len() {
            if hi == lo {
                t.len() == 0
            } else {
                let c = self.children[i][hi - 1] as int;
                let m = if 0 <= c < self.len() && self.visible[c] {
                    first_done(t, c) + 1
                } else {
                    0
                };
                &&& i < c < self.len()
                &&& m <= t.len()
                &&& self.renders(c, bbox, t.subrange(0, m))
                &&& self.renders_children(i, hi - 1, lo, bbox, t.subrange(m, t.len() as int))
            }
        } else {
            false
        }
    }

    /// Whether `t` is the trace of rendering the whole tree: the renderable
    /// area is queried, the pre-render step runs, the root is rendered
    /// within the area, and the post-render step runs.
    pub open spec fn rendering(self, t: Seq<RenderCall>) -> bool {
        &&& t.len() >= 3
        &&& t[1] == RenderCall::PreRender
        &&& t.last() == RenderCall::PostRender
        &&& t[0] matches RenderCall::Area(area) && self.renders(0, area, t.subrange(2, t.len() - 1))
    }

    /// The model of a `Ui` holding only its root widget.
    pub open spec fn with_root(data: D, widget: Option<W>) -> Self {
        UiView {
            parents: seq![None],
            children: seq![Seq::empty()],
            visible: seq![true],
            widgets: seq![widget],
            data: seq![data],
            hooks: seq![None],
            focused: None,
        }
    }

    /// The model after registering a new widget with the given parent,
    /// data and widget object; the new widget is visible and the last
    /// child of its parent.
    pub open spec fn add_child(self, parent: Option<usize>, data: D, widget: Option<W>) -> Self {
        UiView {
            parents: self.parents.push(parent),
            children: match parent {
                Some(p) => self.children.update(
                    p as int,
                    self.children[p as int].push(self.len() as usize),
                ),
                None => self.children,
            }.push(Seq::empty()),
            visible: self.visible.push(true),
            widgets: self.widgets.push(widget),
            data: self.data.push(data),
            hooks: self.hooks.push(None),
            focused: self.focused,
        }
    }
}

/// The list of hooked widgets is sorted, free of duplicates and holds
/// exactly the widgets with an event hook.
pub open spec fn hooked_wf<H>(hooked: Seq<usize>, hooks: Seq<Option<H>>) -> bool {
    &&& forall|i: int, j: int| 0 <= i < j < hooked.len() ==> hooked[i] < hooked[j]
    &&& forall|k: int|
        0 <= k < hooked.len() ==> (#[trigger] hooked[k]) < hooks.len() && hooks[hooked[k] as int] is Some
    &&& forall|i: int| 0 <= i < hooks.len() && (#[trigger] hooks[i]) is Some ==> hooked.contains(i as usize)
}

/// Replacing the children of one widget by a permutation of them keeps
/// the tree well formed.
pub(crate) proof fn lemma_tree_wf_permute<W, D, H>(v: UiView<W, D, H>, p: int, t: Seq<usize>)
    requires
        v.tree_wf(),
        0 <= p < v.len(),
        t.no_duplicates(),
        forall|y: usize| #[trigger] t.contains(y) <==> v.children[p].contains(y),
    ensures
        (UiView { children: v.children.update(p, t), ..v }).tree_wf(),
{
    let w = UiView { children: v.children.update(p, t), ..v };
    assert forall|q: int, k: int| 0 <= q < w.len() && 0 <= k < w.children[q].len() implies {
        let c = #[trigger] w.children[q][k];
        &&& c < w.len()
        &&& w.parents[c as int] == Some(q as usize)
    } by {
        if q == p {
            assert(t.contains(t[k]));
            let j = choose|j: int| 0 <= j < v.children[p].len() && v.children[p][j] == t[k];
            assert(v.children[p][j] < v.len());
        } else {
            assert(w.children[q][k] == v.children[q][k]);
        }
    }
    assert forall|q: int| 0 <= q < w.len() implies (#[trigger] w.children[q]).no_duplicates() by {
        if q != p {
            assert(w.children[q] == v.children[q]);
        }
    }
    assert forall|c: int| 0 < c < w.len() implies #[trigger] w.children[w.parents[c]->0 as int].contains(
        c as usize,
    ) by {
        assert(v.children[v.parents[c]->0 as int].contains(c as usize));
        if v.parents[c]->0 as int == p {
            assert(t.contains(c as usize));
        }
    }
}

/// Raising a widget leaves the parents, the number of widgets and the
/// children of the widget itself and of all later created widgets as they
/// are, and only ever sets visibility flags.
pub(crate) proof fn lemma_raised_frame<W, D, H>(v: UiView<W, D, H>, i: int)
    requires
        v.tree_wf(),
        0 <= i < v.len(),
    ensures
        v.raised(i).tree_wf(),
        v.raised(i).parents == v.parents,
        v.raised(i).len() == v.len(),
        v.raised(i).focused == v.focused,
        v.raised(i).widgets == v.widgets,
        v.raised(i).data == v.data,
        v.raised(i).hooks == v.hooks,
        forall|q: int| i <= q < v.len() ==> #[trigger] v.raised(i).children[q] == v.children[q],
        forall|j: int| 0 <= j < v.len() && v.visible[j] ==> #[trigger] v.raised(i).visible[j],
        v.raised(i).visible[i],
    decreases i,
{
    let s = v.raise_step(i);
    if let Some(p) = v.parents[i] {
        let pi = p as int;
        assert(v.children[pi].contains(i as usize));
        lemma_to_front(v.children[pi], i as usize);
        let v1 = UiView { visible: v.visible.update(i, true), ..v };
        assert(v1.tree_wf());
        lemma_tree_wf_permute(v1, pi, to_front(v.children[pi], i as usize));
        assert(s.tree_wf());
        lemma_raised_frame(s, pi);
        assert(v.raised(i) == s.raised(pi));
    } else {
        assert(v.raised(i) == s);
    }
}

/// After raising a widget it has its visibility flag set and is the
/// top-most child of its parent.
pub(crate) proof fn lemma_raised_top<W, D, H>(v: UiView<W, D, H>, i: int)
    requires
        v.tree_wf(),
        0 <= i < v.len(),
    ensures
        v.raised(i).visible[i],
        v.raised(i).parents[i] matches Some(p) ==> v.raised(i).children[p as int].len() > 0
            && v.raised(i).children[p as int][0] == i as usize,
{
    lemma_raised_frame(v, i);
    if let Some(p) = v.parents[i] {
        let pi = p as int;
        let s = v.raise_step(i);
        assert(v.children[pi].contains(i as usize));
        lemma_to_front(v.children[pi], i as usize);
        let v1 = UiView { visible: v.visible.update(i, true), ..v };
        lemma_tree_wf_permute(v1, pi, to_front(v.children[pi], i as usize));
        lemma_raised_frame(s, pi);
    }
}

/// Setting the visibility flags of a widget and its ancestors keeps the
/// tree as it is, only ever sets flags, and leaves the widget displayed.
pub(crate) proof fn lemma_shown<W, D, H>(v: UiView<W, D, H>, i: int)
    requires
        v.tree_wf(),
        0 <= i < v.len(),
    ensures
        v.shown(i).tree_wf(),
        v.shown(i) == (UiView { visible: v.shown(i).visible, ..v }),
        v.shown(i).visible.len() == v.visible.len(),
        forall|j: int| 0 <= j < v.len() && v.visible[j] ==> #[trigger] v.shown(i).visible[j],
        v.shown(i).visible[i],
        v.shown(i).displayed(i),
    decreases i,
{
    let v1 = UiView { visible: v.visible.update(i, true), ..v };
    assert(v1.tree_wf());
    if let Some(p) = v.parents[i] {
        lemma_shown(v1, p as int);
        assert(v.shown(i) == v1.shown(p as int));
    } else {
        assert(v.shown(i) == v1);
    }
}

/// After raising a widget it is displayed.
pub(crate) proof fn lemma_raised_displayed<W, D, H>(v: UiView<W, D, H>, i: int)
    requires
        v.tree_wf(),
        0 <= i < v.len(),
    ensures
        v.raised(i).displayed(i),
    decreases i,
{
    lemma_raised_frame(v, i);
    if let Some(p) = v.parents[i] {
        let pi = p as int;
        let s = v.raise_step(i);
        assert(v.children[pi].contains(i as usize));
        lemma_to_front(v.children[pi], i as usize);
        let v1 = UiView { visible: v.visible.update(i, true), ..v };
        lemma_tree_wf_permute(v1, pi, to_front(v.children[pi], i as usize));
        lemma_raised_displayed(s, pi);
        lemma_raised_frame(s, pi);
        assert(v.raised(i) == s.raised(pi));
    }
}

/// A widget whose ancestor (or itself) has its visibility flag unset is
/// not displayed.
pub(crate) proof fn lemma_not_displayed_below<W, D, H>(v: UiView<W, D, H>, i: int, d: int)
    requires
        v.tree_wf(),
        0 <= i < v.len(),
        0 <= d < v.len(),
        !v.visible[i],
        v.is_ancestor_or_self(d, i),
    ensures
        !v.displayed(d),
    decreases d,
{
    if d != i {
        if let Some(p) = v.parents[d] {
            lemma_not_displayed_below(v, i, p as int);
        }
    }
}

/// Updating the hook of one widget and the sorted list of hooked widgets
/// as `hook_events` does keeps the two consistent.
pub(crate) proof fn lemma_hooked_update<H>(
    h: Seq<usize>,
    hooks: Seq<Option<H>>,
    idx: usize,
    hook_fn: Option<H>,
    result: Result<usize, usize>,
    h2: Seq<usize>,
)
    requires
        hooked_wf(h, hooks),
        idx < hooks.len() <= usize::MAX,
        match result {
            Ok(i) => i < h.len() && h[i as int] == idx,
            Err(i) => i <= h.len() && (forall|j: int| 0 <= j < i ==> h[j] < idx) && (forall|j: int|
                i <= j < h.len() ==> h[j] > idx),
        },
        h2 == match (hook_fn, result) {
            (Some(_), Err(i)) => h.insert(i as int, idx),
            (None, Ok(i)) => h.remove(i as int),
            _ => h,
        },
    ensures
        hooked_wf(h2, hooks.update(idx as int, hook_fn)),
{
    let hooks2 = hooks.update(idx as int, hook_fn);
    match result {
        Ok(i) => {
            if hook_fn is None {
                assert forall|a: int, b: int| 0 <= a < b < h2.len() implies h2[a] < h2[b] by {
                    let sa = if a < i { a } else { a + 1 };
                    let sb = if b < i { b } else { b + 1 };
                    assert(h2[a] == h[sa] && h2[b] == h[sb]);
                }
                assert forall|k: int| 0 <= k < h2.len() implies (#[trigger] h2[k]) < hooks2.len()
                    && hooks2[h2[k] as int] is Some by {
                    let sk = if k < i { k } else { k + 1 };
                    assert(h2[k] == h[sk]);
                    assert(h[sk] != h[i as int]);
                }
                assert forall|j: int| 0 <= j < hooks2.len() && (#[trigger] hooks2[j]) is Some
                    implies h2.contains(j as usize) by {
                    assert(j != idx as int);
                    assert(hooks[j] is Some);
                    let k = choose|k: int| 0 <= k < h.len() && h[k] == j as usize;
                    if k < i {
                        assert(h2[k] == j as usize);
                    } else {
                        assert(k != i);
                        assert(h2[k - 1] == j as usize);
                    }
                }
            } else {
                assert forall|k: int| 0 <= k < h2.len() implies (#[trigger] h2[k]) < hooks2.len()
                    && hooks2[h2[k] as int] is Some by {
                }
                assert forall|j: int| 0 <= j < hooks2.len() && (#[trigger] hooks2[j]) is Some
                    implies h2.contains(j as usize) by {
                    if j != idx {
                        assert(hooks[j] is Some);
                    } else {
                        assert(h[i as int] == idx);
                    }
                }
            }
        },
        Err(i) => {
            assert(!h.contains(idx)) by {
                if h.contains(idx) {
                    let k = choose|k: int| 0 <= k < h.len() && h[k] == idx;
                    if k < i {
                        assert(h[k] < idx);
                    } else {
                        assert(h[k] > idx);
                    }
                }
            }
            assert(hooks[idx as int] is None);
            if hook_fn is Some {
                assert forall|a: int, b: int| 0 <= a < b < h2.len() implies h2[a] < h2[b] by {
                    if b < i {
                        assert(h2[a] == h[a] && h2[b] == h[b]);
                    } else if b == i {
                        assert(h2[a] == h[a]);
                    } else if a < i {
                        assert(h2[a] == h[a] && h2[b] == h[b - 1]);
                    } else if a == i {
                        assert(h2[b] == h[b - 1]);
                    } else {
                        assert(h2[a] == h[a - 1] && h2[b] == h[b - 1]);
                    }
                }
                assert forall|k: int| 0 <= k < h2.len() implies (#[trigger] h2[k]) < hooks2.len()
                    && hooks2[h2[k] as int] is Some by {
                    if k < i {
                        assert(h2[k] == h[k]);
                        assert(h[k] != idx);
                    } else if k > i {
                        assert(h2[k] == h[k - 1]);
                        assert(h[k - 1] != idx);
                    }
                }
                assert forall|j: int| 0 <= j < hooks2.len() && (#[trigger] hooks2[j]) is Some
                    implies h2.contains(j as usize) by {
                    if j == idx {
                        assert(h2[i as int] == idx);
                    } else {
                        assert(hooks[j] is Some);
                        let k = choose|k: int| 0 <= k < h.len() && h[k] == j as usize;
                        if k < i {
                            assert(h2[k] == j as usize);
                        } else {
                            assert(h2[k + 1] == j as usize);
                        }
                    }
                }
            } else {
                assert(hooks2 =~= hooks);
            }
        },
    }
}

/// Whether a widget is displayed depends on the parents and the
/// visibility flags alone.
pub(crate) proof fn lemma_displayed_same<W, D, H>(v: UiView<W, D, H>, w: UiView<W, D, H>, d: int)
    requires
        v.parents == w.parents,
        v.visible == w.visible,
    ensures
        v.displayed(d) == w.displayed(d),
    decreases d,
{
    if 0 <= d < v.len() {
        if let Some(p) = v.parents[d] {
            if p < d {
                lemma_displayed_same(v, w, p as int);
            }
        }
    }
}

/// Ancestry depends on the parents alone.
pub(crate) proof fn lemma_ancestry_same<W, D, H>(v: UiView<W, D, H>, w: UiView<W, D, H>, d: int, a: int)
    requires
        v.parents == w.parents,
    ensures
        v.is_ancestor_or_self(d, a) == w.is_ancestor_or_self(d, a),
    decreases d,
{
    if d != a && 0 <= d < v.len() {
        if let Some(p) = v.parents[d] {
            if p < d {
                lemma_ancestry_same(v, w, p as int, a);
            }
        }
    }
}

/// A widget names another as its parent exactly when it is one of that
/// widget's children.
pub proof fn lemma_parent_iff_child<W, D, H>(v: UiView<W, D, H>, p: int, c: int)
    requires
        v.tree_wf(),
        0 <= p < v.len(),
        0 <= c < v.len(),
    ensures
        v.parents[c] == Some(p as usize) <==> v.children[p].contains(c as usize),
{
    if v.children[p].contains(c as usize) {
        let k = choose|k: int| 0 <= k < v.children[p].len() && v.children[p][k] == c as usize;
        assert(v.parents[v.children[p][k] as int] == Some(p as usize));
    }
    if v.parents[c] == Some(p as usize) {
        assert(c != 0);
    }
}

/// The root widget is an ancestor of every widget.
pub proof fn lemma_root_is_ancestor<W, D, H>(v: UiView<W, D, H>, i: int)
    requires
        v.tree_wf(),
        0 <= i < v.len(),
    ensures
        v.is_ancestor_or_self(i, 0),
    decreases i,
{
    if i != 0 {
        let p = v.parents[i]->0;
        lemma_root_is_ancestor(v, p as int);
    }
}

/// Raising a widget does not depend on which widget has the focus.
pub(crate) proof fn lemma_raised_ignores_focus<W, D, H>(v: UiView<W, D, H>, f: Option<usize>, i: int)
    ensures
        (UiView { focused: f, ..v }).raised(i) == (UiView { focused: f, ..v.raised(i) }),
    decreases i,
{
    let w = UiView { focused: f, ..v };
    if 0 <= i < v.len() {
        if let Some(p) = v.parents[i] {
            if p < i {
                assert(w.raise_step(i) == (UiView { focused: f, ..v.raise_step(i) }));
                lemma_raised_ignores_focus(v.raise_step(i), f, p as int);
            }
        }
    }
}

/// Raising a widget a second time changes nothing.
pub(crate) proof fn lemma_raised_idempotent<W, D, H>(v: UiView<W, D, H>, i: int)
    requires
        v.tree_wf(),
        0 <= i < v.len(),
    ensures
        v.raised(i).raised(i) == v.raised(i),
    decreases i,
{
    let r = v.raised(i);
    lemma_raised_frame(v, i);
    lemma_raised_top(v, i);
    let s = v.raise_step(i);
    let rs = r.raise_step(i);
    assert(rs.visible =~= r.visible);
    if let Some(p) = v.parents[i] {
        let pi = p as int;
        lemma_to_front(r.children[pi], i as usize);
        assert(rs.children =~= r.children);
        assert(rs == r);
        assert(v.children[pi].contains(i as usize));
        lemma_to_front(v.children[pi], i as usize);
        let v1 = UiView { visible: v.visible.update(i, true), ..v };
        lemma_tree_wf_permute(v1, pi, to_front(v.children[pi], i as usize));
        // r == s.raised(p), and raising r at i first changes nothing.
        assert(r == s.raised(pi));
        assert(r.raised(i) == rs.raised(pi));
        lemma_raised_idempotent(s, pi);
    } else {
        assert(rs == r);
        assert(r.raised(i) == rs);
    }
}

/// Focusing a widget a second time changes nothing.
pub proof fn lemma_focus_idempotent<W, D, H>(v: UiView<W, D, H>, i: int)
    requires
        v.tree_wf(),
        0 <= i < v.len(),
    ensures
        v.focused_on(i).focused_on(i) == v.focused_on(i),
{
    lemma_raised_ignores_focus(v.raised(i), Some(i as usize), i);
    lemma_raised_idempotent(v, i);
}

/// Setting the visibility flags of a widget and its ancestors a second
/// time changes nothing.
pub proof fn lemma_show_idempotent<W, D, H>(v: UiView<W, D, H>, i: int)
    requires
        v.tree_wf(),
        0 <= i < v.len(),
    ensures
        v.shown(i).shown(i) == v.shown(i),
    decreases i,
{
    let v1 = UiView { visible: v.visible.update(i, true), ..v };
    lemma_shown(v, i);
    let r = v.shown(i);
    let r1 = UiView { visible: r.visible.update(i, true), ..r };
    assert(r1.visible =~= r.visible);
    assert(r1 == r);
    if let Some(p) = v.parents[i] {
        assert(v1.tree_wf());
        assert(r == v1.shown(p as int));
        assert(r.shown(i) == r1.shown(p as int));
        lemma_show_idempotent(v1, p as int);
    }
}

/// A widget is displayed exactly when its own visibility flag and those of
/// all its ancestors are set.
pub proof fn lemma_displayed_iff_all_visible<W, D, H>(v: UiView<W, D, H>, i: int)
    requires
        v.tree_wf(),
        0 <= i < v.len(),
    ensures
        v.displayed(i) <==> forall|a: int|
            0 <= a < v.len() && #[trigger] v.is_ancestor_or_self(i, a) ==> v.visible[a],
    decreases i,
{
    if let Some(p) = v.parents[i] {
        let pi = p as int;
        lemma_displayed_iff_all_visible(v, pi);
        assert forall|a: int| 0 <= a < v.len() && #[trigger] v.is_ancestor_or_self(i, a) implies a == i
            || v.is_ancestor_or_self(pi, a) by {
        }
        assert forall|a: int| 0 <= a < v.len() && #[trigger] v.is_ancestor_or_self(pi, a) implies v.is_ancestor_or_self(
            i,
            a,
        ) by {
            if a != i {
            }
        }
        if forall|a: int| 0 <= a < v.len() && #[trigger] v.is_ancestor_or_self(i, a) ==> v.visible[a] {
            assert(v.is_ancestor_or_self(i, i));
            assert forall|a: int| 0 <= a < v.len() && #[trigger] v.is_ancestor_or_self(pi, a) implies v.visible[a] by {
                assert(v.is_ancestor_or_self(i, a));
            }
        }
        if v.displayed(i) {
            assert forall|a: int| 0 <= a < v.len() && #[trigger] v.is_ancestor_or_self(i, a) implies v.visible[a] by {
                if a != i {
                    assert(v.is_ancestor_or_self(pi, a));
                }
            }
        }
    } else {
        assert(i == 0);
        assert forall|a: int| 0 <= a < v.len() && #[trigger] v.is_ancestor_or_self(i, a) implies a == i by {
        }
        assert(v.is_ancestor_or_self(i, i));
    }
}

/// Raising a widget only ever reorders lists of children: every list keeps
/// its length and its elements.
proof fn lemma_raised_permutes_children<W, D, H>(v: UiView<W, D, H>, i: int)
    requires
        v.tree_wf(),
        0 <= i < v.len(),
    ensures
        forall|p: int| 0 <= p < v.len() ==> #[trigger] v.raised(i).children[p].len() == v.children[p].len(),
        forall|p: int, c: usize|
            0 <= p < v.len() ==> (#[trigger] v.raised(i).children[p].contains(c)
                <==> v.children[p].contains(c)),
    decreases i,
{
    let s = v.raise_step(i);
    if let Some(p) = v.parents[i] {
        let pi = p as int;
        assert(v.children[pi].contains(i as usize));
        lemma_to_front(v.children[pi], i as usize);
        let v1 = UiView { visible: v.visible.update(i, true), ..v };
        lemma_tree_wf_permute(v1, pi, to_front(v.children[pi], i as usize));
        lemma_raised_permutes_children(s, pi);
        assert(v.raised(i) == s.raised(pi));
        assert forall|q: int, c: usize| 0 <= q < v.len() implies (#[trigger] v.raised(i).children[q].contains(c)
            <==> v.children[q].contains(c)) by {
            assert(s.raised(pi).children[q].contains(c) <==> s.children[q].contains(c));
            if q != pi {
                assert(s.children[q] == v.children[q]);
            }
        }
        assert forall|q: int| 0 <= q < v.len() implies #[trigger] v.raised(i).children[q].len() == v.children[q].len() by {
            assert(s.raised(pi).children[q].len() == s.children[q].len());
            if q != pi {
                assert(s.children[q] == v.children[q]);
            }
        }
    } else {
        assert(v.raised(i) == s);
    }
}

/// The lists of children change only by being permuted when a widget is
/// focused, and parents and children keep agreeing: a widget names another
/// as its parent exactly when it is among that widget's children, before
/// and after.
pub proof fn lemma_focus_permutes_children<W, D, H>(v: UiView<W, D, H>, i: int)
    requires
        v.tree_wf(),
        0 <= i < v.len(),
    ensures
        v.focused_on(i).tree_wf(),
        v.focused_on(i).parents == v.parents,
        forall|p: int| 0 <= p < v.len() ==> #[trigger] v.focused_on(i).children[p].len() == v.children[p].len(),
        forall|p: int, c: usize|
            0 <= p < v.len() ==> (#[trigger] v.focused_on(i).children[p].contains(c)
                <==> v.children[p].contains(c)),
        forall|p: int, c: int|
            0 <= p < v.len() && 0 <= c < v.len() ==> (v.focused_on(i).parents[c] == Some(p as usize)
                <==> #[trigger] v.focused_on(i).children[p].contains(c as usize)),
{
    lemma_raised_frame(v, i);
    lemma_raised_permutes_children(v, i);
    let f = v.focused_on(i);
    assert(f.tree_wf());
    assert forall|p: int, c: int| 0 <= p < v.len() && 0 <= c < v.len() implies (f.parents[c] == Some(p as usize)
        <==> #[trigger] f.children[p].contains(c as usize)) by {
        lemma_parent_iff_child(f, p, c);
    }
}

/// The position of the first notice that a widget is done lies within
/// the sequence, or just past it.
pub(crate) proof fn lemma_first_done_bounds(t: Seq<RenderCall>, c: int)
    ensures
        0 <= first_done(t, c) <= t.len(),
    decreases t.len(),
{
    if t.len() > 0 {
        lemma_first_done_bounds(t.drop_first(), c);
    }
}

/// The first notice that widget `c` is done in a sequence that starts
/// with `m` calls none of which is that notice, followed by that notice,
/// is at position `m`.
proof fn lemma_first_done(t: Seq<RenderCall>, c: int, m: int)
    requires
        0 <= m < t.len(),
        t[m] matches RenderCall::RenderDone(w, _) && w == c,
        forall|k: int| 0 <= k < m ==> !(#[trigger] t[k] matches RenderCall::RenderDone(w, _) && w == c),
    ensures
        first_done(t, c) == m,
    decreases m,
{
    if m > 0 {
        assert(!(t[0] matches RenderCall::RenderDone(w, _) && w == c));
        let u = t.drop_first();
        assert forall|k: int| 0 <= k < m - 1 implies !(#[trigger] u[k] matches RenderCall::RenderDone(w, _)
            && w == c) by {
            assert(u[k] == t[k + 1]);
        }
        lemma_first_done(u, c, m - 1);
    }
}

/// All calls in the trace of rendering a widget, but the first and the
/// last, are about widgets created after it; the first and the last are
/// about the widget itself.
pub(crate) proof fn lemma_renders_later<W, D, H>(v: UiView<W, D, H>, d: int, bbox: BBox, t: Seq<RenderCall>)
    requires
        v.renders(d, bbox, t),
    ensures
        forall|k: int| 0 < k < t.len() - 1 ==> call_widget(#[trigger] t[k]) > d,
        t.len() > 0 ==> call_widget(t[0]) == d && call_widget(t.last()) == d,
    decreases v.len() - d, v.children[d].len() + 1,
{
    if v.visible[d] {
        if let RenderCall::Render(_, _, out) = t[0] {
            if !out.is_empty() {
                let kids = t.subrange(1, t.len() - 1);
                lemma_children_later(v, d, v.children[d].len() as int, 0, out, kids);
                assert forall|k: int| 0 < k < t.len() - 1 implies call_widget(#[trigger] t[k]) > d by {
                    assert(t[k] == kids[k - 1]);
                }
            }
        }
    }
}

/// All calls in the trace of rendering children of a widget are about
/// widgets created after it.
pub(crate) proof fn lemma_children_later<W, D, H>(
    v: UiView<W, D, H>,
    i: int,
    hi: int,
    lo: int,
    bbox: BBox,
    t: Seq<RenderCall>,
)
    requires
        v.renders_children(i, hi, lo, bbox, t),
    ensures
        forall|k: int| 0 <= k < t.len() ==> call_widget(#[trigger] t[k]) > i,
    decreases v.len() - i, hi,
{
    if hi != lo {
        let c = v.children[i][hi - 1] as int;
        lemma_first_done_bounds(t, c);
        let m = if v.visible[c] { first_done(t, c) + 1 } else { 0 };
        let t1 = t.subrange(0, m);
        let t2 = t.subrange(m, t.len() as int);
        lemma_renders_later(v, c, bbox, t1);
        lemma_children_later(v, i, hi - 1, lo, bbox, t2);
        assert forall|k: int| 0 <= k < t.len() implies call_widget(#[trigger] t[k]) > i by {
            if k < m {
                assert(t[k] == t1[k]);
            } else {
                assert(t[k] == t2[k - m]);
            }
        }
    }
}

/// The first notice that a widget is done, in its rendering trace
/// followed by anything, ends that trace.
proof fn lemma_done_ends_trace<W, D, H>(
    v: UiView<W, D, H>,
    c: int,
    bbox: BBox,
    tc: Seq<RenderCall>,
    rest: Seq<RenderCall>,
)
    requires
        v.renders(c, bbox, tc),
        v.visible[c],
    ensures
        first_done(tc + rest, c) == tc.len() - 1,
{
    lemma_renders_later(v, c, bbox, tc);
    let t = tc + rest;
    assert forall|k: int| 0 <= k < tc.len() - 1 implies !(#[trigger] t[k] matches RenderCall::RenderDone(
        w,
        _,
    ) && w == c) by {
        assert(t[k] == tc[k]);
        if k > 0 {
            assert(call_widget(tc[k]) > c);
        }
    }
    assert(t[tc.len() - 1] == tc.last());
    lemma_first_done(t, c, tc.len() - 1);
}

/// Extending the trace of some children of a widget by the trace of the
/// next lower child gives the trace of all of them.
pub(crate) proof fn lemma_renders_children_append<W, D, H>(
    v: UiView<W, D, H>,
    i: int,
    hi: int,
    lo: int,
    bbox: BBox,
    acc: Seq<RenderCall>,
    t: Seq<RenderCall>,
)
    requires
        v.renders_children(i, hi, lo, bbox, acc),
        0 < lo,
        i < v.children[i][lo - 1] < v.len(),
        v.renders(v.children[i][lo - 1] as int, bbox, t),
    ensures
        v.renders_children(i, hi, lo - 1, bbox, acc + t),
    decreases hi - lo,
{
    let e = Seq::<RenderCall>::empty();
    let all = acc + t;
    if hi == lo {
        let c = v.children[i][lo - 1] as int;
        assert(acc =~= e);
        assert(all =~= t);
        if v.visible[c] {
            lemma_done_ends_trace(v, c, bbox, t, e);
            assert(t + e =~= t);
        }
        if !v.visible[c] {
            assert(t =~= e);
        }
        let m = if v.visible[c] { first_done(all, c) + 1 } else { 0 };
        assert(all.subrange(0, m) =~= t);
        assert(all.subrange(m, all.len() as int) =~= e);
        assert(v.renders_children(i, hi - 1, lo - 1, bbox, e));
        assert(v.renders(c, bbox, all.subrange(0, m)));
    } else {
        let c = v.children[i][hi - 1] as int;
        lemma_first_done_bounds(acc, c);
        let m = if v.visible[c] { first_done(acc, c) + 1 } else { 0 };
        let a1 = acc.subrange(0, m);
        let a2 = acc.subrange(m, acc.len() as int);
        lemma_renders_children_append(v, i, hi - 1, lo, bbox, a2, t);
        assert(acc =~= a1 + a2);
        if v.visible[c] {
            lemma_done_ends_trace(v, c, bbox, a1, a2 + t);
            lemma_done_ends_trace(v, c, bbox, a1, a2);
            assert(all =~= a1 + (a2 + t));
        }
        assert(all.subrange(0, m) =~= a1);
        assert(all.subrange(m, all.len() as int) =~= a2 + t);
        lemma_first_done_bounds(all, c);
        assert(v.renders(c, bbox, all.subrange(0, m)));
        assert(v.renders_children(i, hi - 1, lo - 1, bbox, all.subrange(m, all.len() as int)));
    }
}

/// Whether the lists of children of `b` are those of `a`, each possibly
/// reordered.
pub open spec fn children_permuted<W, D, H>(a: UiView<W, D, H>, b: UiView<W, D, H>) -> bool {
    &&& a.len() == b.len()
    &&& a.children.len() == b.children.len()
    &&& forall|p: int| 0 <= p < a.len() ==> #[trigger] b.children[p].len() == a.children[p].len()
    &&& forall|p: int, c: usize|
        0 <= p < a.len() ==> (#[trigger] b.children[p].contains(c) <==> a.children[p].contains(c))
}

/// The law of the widget tree: a widget names another as its parent
/// exactly when it is among that widget's children; only the root has no
/// parent; every other widget occurs exactly once, in exactly one list of
/// children; and every operation but adding a widget keeps each list of
/// children a permutation of itself.
pub proof fn lemma_tree_law<W, D, H>(v: UiView<W, D, H>, i: int)
    requires
        v.tree_wf(),
        0 <= i < v.len(),
    ensures
        forall|p: int, c: int|
            0 <= p < v.len() && 0 <= c < v.len() ==> (v.parents[c] == Some(p as usize)
                <==> #[trigger] v.children[p].contains(c as usize)),
        forall|c: int| 0 <= c < v.len() ==> (#[trigger] v.parents[c] is None <==> c == 0),
        forall|p: int| 0 <= p < v.len() ==> (#[trigger] v.children[p]).no_duplicates(),
        forall|p: int, q: int, c: usize|
            0 <= p < v.len() && 0 <= q < v.len() && #[trigger] v.children[p].contains(c)
                && #[trigger] v.children[q].contains(c) ==> p == q,
        children_permuted(v, v.shown(i)),
        children_permuted(v, v.hidden(i)),
        children_permuted(v, v.focused_on(i)),
        forall|h: Option<H>| children_permuted(v, UiView { hooks: #[trigger] v.hooks.update(i, h), ..v }),
        forall|d: D| children_permuted(v, UiView { data: #[trigger] v.data.update(i, d), ..v }),
{
    assert forall|p: int, c: int| 0 <= p < v.len() && 0 <= c < v.len() implies (v.parents[c] == Some(
        p as usize,
    ) <==> #[trigger] v.children[p].contains(c as usize)) by {
        lemma_parent_iff_child(v, p, c);
    }
    assert forall|p: int, q: int, c: usize|
        0 <= p < v.len() && 0 <= q < v.len() && #[trigger] v.children[p].contains(c)
            && #[trigger] v.children[q].contains(c) implies p == q by {
        let k = choose|k: int| 0 <= k < v.children[p].len() && v.children[p][k] == c;
        let l = choose|l: int| 0 <= l < v.children[q].len() && v.children[q][l] == c;
        assert(v.parents[v.children[p][k] as int] == Some(p as usize));
        assert(v.parents[v.children[q][l] as int] == Some(q as usize));
    }
    lemma_shown(v, i);
    lemma_focus_permutes_children(v, i);
}

/// Adding a widget appends a visible widget without children, without
/// an event hook and with the given data and widget object, registered
/// under its parent as the last child; every widget that was there before
/// keeps its parent, visibility flag, widget object, data and event hook,
/// all other lists of children stay as they are, and the focus stays where
/// it was.
pub proof fn lemma_add_child_keeps<W, D, H>(
    v: UiView<W, D, H>,
    parent: Option<usize>,
    data: D,
    widget: Option<W>,
)
    requires
        v.tree_wf(),
        parent matches Some(p) ==> p < v.len(),
    ensures
        ({
            let a = v.add_child(parent, data, widget);
            let n = v.len() as int;
            &&& a.len() == n + 1
            &&& a.children.len() == n + 1
            &&& a.focused == v.focused
            &&& a.parents[n] == parent
            &&& a.children[n] == Seq::<usize>::empty()
            &&& a.visible[n]
            &&& a.widgets[n] == widget
            &&& a.data[n] == data
            &&& a.hooks[n] is None
            &&& forall|i: int|
                0 <= i < n ==> {
                    &&& #[trigger] a.parents[i] == v.parents[i]
                    &&& a.visible[i] == v.visible[i]
                    &&& a.widgets[i] == v.widgets[i]
                    &&& a.data[i] == v.data[i]
                    &&& a.hooks[i] == v.hooks[i]
                    &&& a.children[i] == if parent == Some(i as usize) {
                        v.children[i].push(n as usize)
                    } else {
                        v.children[i]
                    }
                }
        }),
{
}

/// Focusing a widget makes it the top-most child of its parent and keeps
/// the relative z-order of all its siblings: the parent's new list of
/// children is the widget followed by the old list without it, so any two
/// other children come in the same order as before.
pub proof fn lemma_focus_keeps_sibling_order<W, D, H>(v: UiView<W, D, H>, i: int)
    requires
        v.tree_wf(),
        0 <= i < v.len(),
        v.parents[i] is Some,
    ensures
        ({
            let p = v.parents[i]->0 as int;
            let s = v.children[p];
            let t = v.focused_on(i).children[p];
            &&& t == seq![i as usize] + s.remove(s.index_of(i as usize))
            &&& t.len() == s.len()
            &&& t[0] == i as usize
            &&& forall|a: int, b: int|
                0 <= a < b < s.len() && s[a] != i as usize && s[b] != i as usize ==> exists|c: int, d: int|
                    1 <= c < d < t.len() && #[trigger] t[c] == s[a] && #[trigger] t[d] == s[b]
        }),
{
    let p = v.parents[i]->0 as int;
    let s = v.children[p];
    let x = i as usize;
    assert(s.contains(x));
    lemma_to_front(s, x);
    let v1 = UiView { visible: v.visible.update(i, true), ..v };
    assert(v1.tree_wf());
    lemma_tree_wf_permute(v1, p, to_front(s, x));
    let r = v.raise_step(i);
    assert(r.children[p] == to_front(s, x));
    lemma_raised_frame(r, p);
    assert(v.raised(i) == r.raised(p));
    let t = v.focused_on(i).children[p];
    assert(t == to_front(s, x));
    let k = s.index_of(x);
    assert forall|a: int, b: int|
        0 <= a < b < s.len() && s[a] != x && s[b] != x implies exists|c: int, d: int|
            1 <= c < d < t.len() && #[trigger] t[c] == s[a] && #[trigger] t[d] == s[b] by {
        let c = if a < k { a + 1 } else { a };
        let d = if b < k { b + 1 } else { b };
        assert(a != k && b != k);
        assert(t[c] == s[a]);
        assert(t[d] == s[b]);
    }
}

/// An ancestor of a widget was created no later than the widget.
proof fn lemma_ancestor_not_later<W, D, H>(v: UiView<W, D, H>, x: int, a: int)
    requires
        v.is_ancestor_or_self(x, a),
    ensures
        a <= x,
    decreases x,
{
    if x != a {
        let p = v.parents[x]->0 as int;
        lemma_ancestor_not_later(v, p, a);
    }
}

/// An ancestor of an ancestor of a widget is an ancestor of the widget.
proof fn lemma_ancestor_trans<W, D, H>(v: UiView<W, D, H>, x: int, i: int, c: int)
    requires
        v.is_ancestor_or_self(x, i),
        v.is_ancestor_or_self(i, c),
    ensures
        v.is_ancestor_or_self(x, c),
    decreases x,
{
    if x != i {
        let p = v.parents[x]->0 as int;
        lemma_ancestor_trans(v, p, i, c);
    }
}

/// Any two ancestors of a widget are ancestors one of the other.
proof fn lemma_ancestors_chain<W, D, H>(v: UiView<W, D, H>, x: int, a: int, b: int)
    requires
        v.is_ancestor_or_self(x, a),
        v.is_ancestor_or_self(x, b),
    ensures
        v.is_ancestor_or_self(a, b) || v.is_ancestor_or_self(b, a),
    decreases x,
{
    if x != a && x != b {
        let p = v.parents[x]->0 as int;
        lemma_ancestors_chain(v, p, a, b);
    }
}

/// No widget lies below two different children of one widget.
proof fn lemma_sibling_subtrees_disjoint<W, D, H>(v: UiView<W, D, H>, c1: int, c2: int, x: int)
    requires
        v.tree_wf(),
        0 <= c1 < v.len(),
        0 <= c2 < v.len(),
        c1 != c2,
        v.parents[c1] is Some,
        v.parents[c1] == v.parents[c2],
    ensures
        !(v.is_ancestor_or_self(x, c1) && v.is_ancestor_or_self(x, c2)),
{
    if v.is_ancestor_or_self(x, c1) && v.is_ancestor_or_self(x, c2) {
        let r = v.parents[c1]->0 as int;
        lemma_ancestors_chain(v, x, c1, c2);
        assert(c1 != 0 && c2 != 0);
        if v.is_ancestor_or_self(c1, c2) {
            lemma_ancestor_not_later(v, r, c2);
        } else {
            lemma_ancestor_not_later(v, r, c1);
        }
    }
}

/// Every call in the trace of rendering a widget is about that widget or
/// a widget below it.
proof fn lemma_renders_subtree<W, D, H>(v: UiView<W, D, H>, r: int, bbox: BBox, t: Seq<RenderCall>)
    requires
        v.tree_wf(),
        v.renders(r, bbox, t),
    ensures
        forall|k: int| 0 <= k < t.len() ==> v.is_ancestor_or_self(call_widget(#[trigger] t[k]), r),
    decreases v.len() - r, v.children[r].len() + 1,
{
    if v.visible[r] {
        if let RenderCall::Render(_, _, out) = t[0] {
            if !out.is_empty() {
                let kids = t.subrange(1, t.len() - 1);
                lemma_children_subtree(v, r, v.children[r].len() as int, 0, out, kids);
                assert forall|k: int| 0 <= k < t.len() implies v.is_ancestor_or_self(
                    call_widget(#[trigger] t[k]),
                    r,
                ) by {
                    if 0 < k < t.len() - 1 {
                        assert(t[k] == kids[k - 1]);
                    }
                }
            }
        }
    }
}

/// Every call in the trace of rendering the children of widget `r` at
/// the positions from `hi - 1` down to `lo` is about a widget below `r`,
/// and about none below any other child of `r`.
proof fn lemma_children_subtree<W, D, H>(
    v: UiView<W, D, H>,
    r: int,
    hi: int,
    lo: int,
    bbox: BBox,
    t: Seq<RenderCall>,
)
    requires
        v.tree_wf(),
        v.renders_children(r, hi, lo, bbox, t),
    ensures
        forall|k: int| 0 <= k < t.len() ==> v.is_ancestor_or_self(call_widget(#[trigger] t[k]), r),
        forall|k: int, q: int|
            0 <= k < t.len() && 0 <= q < v.children[r].len() && !(lo <= q < hi) ==> !v.is_ancestor_or_self(
                call_widget(#[trigger] t[k]),
                #[trigger] v.children[r][q] as int,
            ),
    decreases v.len() - r, hi,
{
    if hi != lo {
        let c = v.children[r][hi - 1] as int;
        lemma_first_done_bounds(t, c);
        let s = if v.visible[c] { first_done(t, c) + 1 } else { 0 };
        let t1 = t.subrange(0, s);
        let t2 = t.subrange(s, t.len() as int);
        lemma_renders_subtree(v, c, bbox, t1);
        lemma_children_subtree(v, r, hi - 1, lo, bbox, t2);
        assert(v.parents[c] == Some(r as usize));
        assert(v.is_ancestor_or_self(r, r));
        assert(v.is_ancestor_or_self(c, r));
        assert forall|k: int| 0 <= k < t.len() implies v.is_ancestor_or_self(call_widget(#[trigger] t[k]), r) by {
            if k < s {
                assert(t[k] == t1[k]);
                lemma_ancestor_trans(v, call_widget(t[k]), c, r);
            } else {
                assert(t[k] == t2[k - s]);
            }
        }
        assert forall|k: int, q: int|
            0 <= k < t.len() && 0 <= q < v.children[r].len() && !(lo <= q < hi) implies !v.is_ancestor_or_self(
                call_widget(#[trigger] t[k]),
                #[trigger] v.children[r][q] as int,
            ) by {
            if k < s {
                assert(t[k] == t1[k]);
                let d = v.children[r][q] as int;
                if v.is_ancestor_or_self(call_widget(t[k]), d) {
                    assert(v.children[r][q] != v.children[r][hi - 1]);
                    assert(v.parents[d] == Some(r as usize));
                    lemma_sibling_subtrees_disjoint(v, c, d, call_widget(t[k]));
                }
            } else {
                assert(t[k] == t2[k - s]);
            }
        }
    }
}

/// In the trace of rendering a widget, no call about a widget comes after
/// the notice that a widget above it (or it itself) is done.
proof fn lemma_done_after_subtree<W, D, H>(
    v: UiView<W, D, H>,
    r: int,
    bbox: BBox,
    t: Seq<RenderCall>,
    j: int,
    m: int,
)
    requires
        v.tree_wf(),
        v.renders(r, bbox, t),
        0 <= j < t.len(),
        0 <= m < t.len(),
        t[j] is RenderDone,
        v.is_ancestor_or_self(call_widget(t[m]), call_widget(t[j])),
    ensures
        m <= j,
    decreases v.len() - r, v.children[r].len() + 1,
{
    lemma_renders_later(v, r, bbox, t);
    if j < t.len() - 1 && m > j {
        assert(j != 0);
        if m == t.len() - 1 {
            lemma_ancestor_not_later(v, r, call_widget(t[j]));
        } else if let RenderCall::Render(_, _, out) = t[0] {
            if !out.is_empty() {
                let kids = t.subrange(1, t.len() - 1);
                assert(kids[j - 1] == t[j]);
                assert(kids[m - 1] == t[m]);
                lemma_done_after_children(v, r, v.children[r].len() as int, 0, out, kids, j - 1, m - 1);
            }
        }
    }
}

/// In the trace of rendering children of a widget, no call about a widget
/// comes after the notice that a widget above it (or it itself) is done.
proof fn lemma_done_after_children<W, D, H>(
    v: UiView<W, D, H>,
    r: int,
    hi: int,
    lo: int,
    bbox: BBox,
    t: Seq<RenderCall>,
    j: int,
    m: int,
)
    requires
        v.tree_wf(),
        v.renders_children(r, hi, lo, bbox, t),
        0 <= j < t.len(),
        0 <= m < t.len(),
        t[j] is RenderDone,
        v.is_ancestor_or_self(call_widget(t[m]), call_widget(t[j])),
    ensures
        m <= j,
    decreases v.len() - r, hi,
{
    if hi != lo && m > j {
        let c = v.children[r][hi - 1] as int;
        lemma_first_done_bounds(t, c);
        let s = if v.visible[c] { first_done(t, c) + 1 } else { 0 };
        let t1 = t.subrange(0, s);
        let t2 = t.subrange(s, t.len() as int);
        lemma_renders_subtree(v, c, bbox, t1);
        lemma_children_subtree(v, r, hi - 1, lo, bbox, t2);
        if m < s {
            assert(t1[j] == t[j] && t1[m] == t[m]);
            lemma_done_after_subtree(v, c, bbox, t1, j, m);
        } else if j >= s {
            assert(t2[j - s] == t[j] && t2[m - s] == t[m]);
            lemma_done_after_children(v, r, hi - 1, lo, bbox, t2, j - s, m - s);
        } else {
            assert(t1[j] == t[j]);
            assert(t2[m - s] == t[m]);
            lemma_ancestor_trans(v, call_widget(t[m]), call_widget(t[j]), c);
            assert(!v.is_ancestor_or_self(call_widget(t2[m - s]), v.children[r][hi - 1] as int));
        }
    }
}

/// The order of the calls made while rendering the whole tree: the
/// pre-render step comes before every call about a widget and the
/// post-render step after all of them, and the notice that a widget is
/// done comes after every call about the widget itself and about each
/// widget below it, so that nothing rendered for the widget or its
/// children comes later.
pub proof fn lemma_render_done_last<W, D, H>(v: UiView<W, D, H>, t: Seq<RenderCall>, j: int, m: int)
    requires
        v.tree_wf(),
        v.rendering(t),
        0 <= j < t.len(),
        0 <= m < t.len(),
        t[j] is RenderDone,
        v.is_ancestor_or_self(call_widget(t[m]), call_widget(t[j])),
    ensures
        t[1] == RenderCall::PreRender,
        t[t.len() - 1] == RenderCall::PostRender,
        1 < m <= j < t.len() - 1,
{
    let area = t[0]->Area_0;
    let u = t.subrange(2, t.len() - 1);
    assert(j != 0 && j != 1 && j != t.len() - 1);
    assert(call_widget(t[j]) >= 0);
    if m < 2 || m == t.len() - 1 {
        assert(call_widget(t[m]) == -1);
        assert(!v.is_ancestor_or_self(-1, call_widget(t[j])));
    }
    assert(u[j - 2] == t[j] && u[m - 2] == t[m]);
    lemma_done_after_subtree(v, 0, area, u, j - 2, m - 2);
}

/// Raising a widget moves it and each of its ancestors to the front of
/// its parent's list of children, the other children keeping their
/// order, and sets their visibility flags; all other lists of children
/// and visibility flags stay as they are.
proof fn lemma_raised_ancestors<W, D, H>(v: UiView<W, D, H>, i: int)
    requires
        v.tree_wf(),
        0 <= i < v.len(),
    ensures
        forall|a: int|
            0 <= a < v.len() && #[trigger] v.is_ancestor_or_self(i, a) ==> {
                &&& v.raised(i).visible[a]
                &&& v.parents[a] matches Some(q) ==> v.raised(i).children[q as int] == seq![a as usize]
                    + v.children[q as int].remove(v.children[q as int].index_of(a as usize))
            },
        forall|q: int|
            0 <= q < v.len() && (forall|a: int|
                0 <= a < v.len() && #[trigger] v.is_ancestor_or_self(i, a) ==> v.parents[a] != Some(
                    q as usize,
                )) ==> #[trigger] v.raised(i).children[q] == v.children[q],
        forall|j: int|
            0 <= j < v.len() && !v.is_ancestor_or_self(i, j) ==> #[trigger] v.raised(i).visible[j]
                == v.visible[j],
    decreases i,
{
    let s = v.raise_step(i);
    lemma_raised_frame(v, i);
    if let Some(p) = v.parents[i] {
        let pi = p as int;
        assert(v.children[pi].contains(i as usize));
        lemma_to_front(v.children[pi], i as usize);
        let v1 = UiView { visible: v.visible.update(i, true), ..v };
        lemma_tree_wf_permute(v1, pi, to_front(v.children[pi], i as usize));
        assert(s.tree_wf());
        lemma_raised_ancestors(s, pi);
        lemma_raised_frame(s, pi);
        assert(v.raised(i) == s.raised(pi));
        assert forall|a: int|
            0 <= a < v.len() && #[trigger] v.is_ancestor_or_self(i, a) implies {
                &&& v.raised(i).visible[a]
                &&& v.parents[a] matches Some(q) ==> v.raised(i).children[q as int] == seq![a as usize]
                    + v.children[q as int].remove(v.children[q as int].index_of(a as usize))
            } by {
            if a != i {
                lemma_ancestry_same(v, s, pi, a);
                assert(s.is_ancestor_or_self(pi, a));
                if let Some(q) = v.parents[a] {
                    lemma_ancestor_not_later(v, pi, a);
                    assert(q < a);
                    assert(s.children[q as int] == v.children[q as int]);
                }
            }
        }
        assert forall|q: int|
            0 <= q < v.len() && (forall|a: int|
                0 <= a < v.len() && #[trigger] v.is_ancestor_or_self(i, a) ==> v.parents[a] != Some(
                    q as usize,
                )) implies #[trigger] v.raised(i).children[q] == v.children[q] by {
            assert(v.is_ancestor_or_self(i, i));
            assert(q != pi);
            assert forall|a: int| 0 <= a < v.len() && #[trigger] s.is_ancestor_or_self(pi, a) implies s.parents[a]
                != Some(q as usize) by {
                lemma_ancestry_same(v, s, pi, a);
                assert(v.is_ancestor_or_self(pi, pi));
                lemma_ancestor_trans(v, i, pi, a);
            }
        }
        assert forall|j: int| 0 <= j < v.len() && !v.is_ancestor_or_self(i, j) implies #[trigger] v.raised(i).visible[j]
            == v.visible[j] by {
            lemma_ancestry_same(v, s, pi, j);
            if s.is_ancestor_or_self(pi, j) {
                assert(v.is_ancestor_or_self(pi, pi));
                lemma_ancestor_trans(v, i, pi, j);
            }
        }
    } else {
        assert(v.raised(i) == s);
        assert forall|a: int| 0 <= a < v.len() && #[trigger] v.is_ancestor_or_self(i, a) implies a == i by {
        }
    }
}

/// Focusing a widget makes it and each of its ancestors the top-most
/// child of its parent, each parent's other children keeping their
/// relative z-order, and sets their visibility flags; no other list of
/// children and no other visibility flag changes.
pub proof fn lemma_focus_raises_ancestors<W, D, H>(v: UiView<W, D, H>, i: int)
    requires
        v.tree_wf(),
        0 <= i < v.len(),
    ensures
        v.focused_on(i).focused == Some(i as usize),
        forall|a: int|
            0 <= a < v.len() && #[trigger] v.is_ancestor_or_self(i, a) ==> {
                &&& v.focused_on(i).visible[a]
                &&& v.parents[a] matches Some(q) ==> v.focused_on(i).children[q as int] == seq![a as usize]
                    + v.children[q as int].remove(v.children[q as int].index_of(a as usize))
            },
        forall|q: int|
            0 <= q < v.len() && (forall|a: int|
                0 <= a < v.len() && #[trigger] v.is_ancestor_or_self(i, a) ==> v.parents[a] != Some(
                    q as usize,
                )) ==> #[trigger] v.focused_on(i).children[q] == v.children[q],
        forall|j: int|
            0 <= j < v.len() && !v.is_ancestor_or_self(i, j) ==> #[trigger] v.focused_on(i).visible[j]
                == v.visible[j],
{
    lemma_raised_ancestors(v, i);
}

/// Showing a widget sets the visibility flags of the widget and of each
/// of its ancestors and of no other widget, and changes nothing else.
pub proof fn lemma_show_sets_ancestors<W, D, H>(v: UiView<W, D, H>, i: int)
    requires
        v.tree_wf(),
        0 <= i < v.len(),
    ensures
        v.shown(i) == (UiView { visible: v.shown(i).visible, ..v }),
        v.shown(i).visible.len() == v.visible.len(),
        forall|a: int| 0 <= a < v.len() && #[trigger] v.is_ancestor_or_self(i, a) ==> v.shown(i).visible[a],
        forall|j: int|
            0 <= j < v.len() && !v.is_ancestor_or_self(i, j) ==> #[trigger] v.shown(i).visible[j]
                == v.visible[j],
    decreases i,
{
    lemma_shown(v, i);
    let v1 = UiView { visible: v.visible.update(i, true), ..v };
    assert(v1.tree_wf());
    if let Some(p) = v.parents[i] {
        let pi = p as int;
        lemma_show_sets_ancestors(v1, pi);
        assert(v.shown(i) == v1.shown(pi));
        assert forall|a: int| 0 <= a < v.len() && #[trigger] v.is_ancestor_or_self(i, a) implies v.shown(
            i,
        ).visible[a] by {
            if a != i {
                lemma_ancestry_same(v, v1, pi, a);
            }
        }
        assert forall|j: int| 0 <= j < v.len() && !v.is_ancestor_or_self(i, j) implies #[trigger] v.shown(
            i,
        ).visible[j] == v.visible[j] by {
            lemma_ancestry_same(v, v1, pi, j);
            if v1.is_ancestor_or_self(pi, j) {
                assert(v.is_ancestor_or_self(pi, pi));
                lemma_ancestor_trans(v, i, pi, j);
            }
        }
    } else {
        assert(v.shown(i) == v1);
        assert forall|a: int| 0 <= a < v.len() && #[trigger] v.is_ancestor_or_self(i, a) implies a == i by {
        }
    }
}

/// In the trace of rendering a widget, every call about a widget below a
/// child of some widget comes after every call about a widget below a
/// child of the same widget that is higher in z-order.
proof fn lemma_lower_sibling_first<W, D, H>(
    v: UiView<W, D, H>,
    r: int,
    bbox: BBox,
    t: Seq<RenderCall>,
    p: int,
    q1: int,
    q2: int,
    m1: int,
    m2: int,
)
    requires
        v.tree_wf(),
        v.renders(r, bbox, t),
        0 <= p < v.len(),
        0 <= q1 < q2 < v.children[p].len(),
        0 <= m1 < t.len(),
        0 <= m2 < t.len(),
        v.is_ancestor_or_self(call_widget(t[m1]), v.children[p][q1] as int),
        v.is_ancestor_or_self(call_widget(t[m2]), v.children[p][q2] as int),
    ensures
        m2 < m1,
    decreases v.len() - r, v.children[r].len() + 1,
{
    let c1 = v.children[p][q1] as int;
    let c2 = v.children[p][q2] as int;
    assert(v.parents[c1] == Some(p as usize) && v.parents[c2] == Some(p as usize));
    lemma_renders_later(v, r, bbox, t);
    lemma_renders_subtree(v, r, bbox, t);
    if m1 == 0 || m1 == t.len() - 1 || m2 == 0 || m2 == t.len() - 1 {
        let (x, y) = if m1 == 0 || m1 == t.len() - 1 {
            (call_widget(t[m2]), c1)
        } else {
            (call_widget(t[m1]), c2)
        };
        lemma_ancestor_trans(v, x, r, y);
        lemma_sibling_subtrees_disjoint(v, c1, c2, x);
    } else if let RenderCall::Render(_, _, out) = t[0] {
        if !out.is_empty() {
            let kids = t.subrange(1, t.len() - 1);
            assert(kids[m1 - 1] == t[m1]);
            assert(kids[m2 - 1] == t[m2]);
            lemma_lower_sibling_first_children(
                v,
                r,
                v.children[r].len() as int,
                0,
                out,
                kids,
                p,
                q1,
                q2,
                m1 - 1,
                m2 - 1,
            );
        }
    }
}

/// In the trace of rendering children of a widget, every call about a
/// widget below a child of some widget comes after every call about a
/// widget below a child of the same widget that is higher in z-order.
proof fn lemma_lower_sibling_first_children<W, D, H>(
    v: UiView<W, D, H>,
    r: int,
    hi: int,
    lo: int,
    bbox: BBox,
    t: Seq<RenderCall>,
    p: int,
    q1: int,
    q2: int,
    m1: int,
    m2: int,
)
    requires
        v.tree_wf(),
        v.renders_children(r, hi, lo, bbox, t),
        0 <= p < v.len(),
        0 <= q1 < q2 < v.children[p].len(),
        0 <= m1 < t.len(),
        0 <= m2 < t.len(),
        v.is_ancestor_or_self(call_widget(t[m1]), v.children[p][q1] as int),
        v.is_ancestor_or_self(call_widget(t[m2]), v.children[p][q2] as int),
    ensures
        m2 < m1,
    decreases v.len() - r, hi,
{
    let c1 = v.children[p][q1] as int;
    let c2 = v.children[p][q2] as int;
    assert(v.parents[c1] == Some(p as usize) && v.parents[c2] == Some(p as usize));
    if hi != lo {
        let c = v.children[r][hi - 1] as int;
        assert(v.parents[c] == Some(r as usize));
        lemma_first_done_bounds(t, c);
        let s = if v.visible[c] { first_done(t, c) + 1 } else { 0 };
        let t1 = t.subrange(0, s);
        let t2 = t.subrange(s, t.len() as int);
        lemma_renders_subtree(v, c, bbox, t1);
        lemma_children_subtree(v, r, hi - 1, lo, bbox, t2);
        if m1 < s && m2 < s {
            assert(t1[m1] == t[m1] && t1[m2] == t[m2]);
            lemma_lower_sibling_first(v, c, bbox, t1, p, q1, q2, m1, m2);
        } else if m1 >= s && m2 >= s {
            assert(t2[m1 - s] == t[m1] && t2[m2 - s] == t[m2]);
            lemma_lower_sibling_first_children(v, r, hi - 1, lo, bbox, t2, p, q1, q2, m1 - s, m2 - s);
        } else if m1 < s {
            let x1 = call_widget(t[m1]);
            let x2 = call_widget(t[m2]);
            assert(t1[m1] == t[m1]);
            assert(t2[m2 - s] == t[m2]);
            assert(v.is_ancestor_or_self(x1, c));
            assert(v.is_ancestor_or_self(x2, r));
            assert(!v.is_ancestor_or_self(x2, v.children[r][hi - 1] as int));
            lemma_ancestors_chain(v, x1, c1, c);
            if v.is_ancestor_or_self(c1, c) {
                if c1 == c {
                    assert(v.children[p][q1] == v.children[r][hi - 1]);
                    assert(p == r);
                    assert(v.children[r].no_duplicates());
                    assert(q1 == hi - 1);
                    assert(!v.is_ancestor_or_self(x2, v.children[r][q2] as int));
                } else {
                    assert(v.is_ancestor_or_self(p, c));
                    assert(c2 < v.len());
                    assert(c2 != 0);
                    assert(v.is_ancestor_or_self(p, p));
                    assert(v.is_ancestor_or_self(c2, p));
                    lemma_ancestor_trans(v, c2, p, c);
                    lemma_ancestor_trans(v, x2, c2, c);
                }
            } else {
                assert(c != c1);
                assert(v.is_ancestor_or_self(r, c1));
                lemma_ancestor_trans(v, x2, r, c1);
                lemma_sibling_subtrees_disjoint(v, c1, c2, x2);
            }
        }
    }
}

/// Widgets are drawn in z-order: while the whole tree is rendered, every
/// call about a widget below a child of some widget (or about that child
/// itself) comes before every call about a widget below a child of the
/// same widget that is higher in z-order, that is, earlier in the list
/// of children.
pub proof fn lemma_render_lower_first<W, D, H>(
    v: UiView<W, D, H>,
    t: Seq<RenderCall>,
    p: int,
    q1: int,
    q2: int,
    m1: int,
    m2: int,
)
    requires
        v.tree_wf(),
        v.rendering(t),
        0 <= p < v.len(),
        0 <= q1 < q2 < v.children[p].len(),
        0 <= m1 < t.len(),
        0 <= m2 < t.len(),
        v.is_ancestor_or_self(call_widget(t[m1]), v.children[p][q1] as int),
        v.is_ancestor_or_self(call_widget(t[m2]), v.children[p][q2] as int),
    ensures
        m2 < m1,
{
    let area = t[0]->Area_0;
    let u = t.subrange(2, t.len() - 1);
    assert(v.children[p][q1] < v.len());
    assert(v.children[p][q2] < v.len());
    if m1 < 2 || m1 == t.len() - 1 {
        assert(!v.is_ancestor_or_self(-1, v.children[p][q1] as int));
    }
    if m2 < 2 || m2 == t.len() - 1 {
        assert(!v.is_ancestor_or_self(-1, v.children[p][q2] as int));
    }
    assert(u[m1 - 2] == t[m1] && u[m2 - 2] == t[m2]);
    lemma_lower_sibling_first(v, 0, area, u, p, q1, q2, m1 - 2, m2 - 2);
}

/// Every call in the trace of rendering widget `r` is about a widget
/// whose ancestors up to `r`, and itself, have their visibility flags set.
proof fn lemma_renders_visible<W, D, H>(v: UiView<W, D, H>, r: int, bbox: BBox, t: Seq<RenderCall>)
    requires
        v.tree_wf(),
        v.renders(r, bbox, t),
    ensures
        forall|k: int, a: int|
            0 <= k < t.len() && 0 <= a < v.len() && #[trigger] v.is_ancestor_or_self(call_widget(t[k]), a)
                && v.is_ancestor_or_self(a, r) ==> v.visible[a],
    decreases v.len() - r, v.children[r].len() + 1,
{
    lemma_renders_later(v, r, bbox, t);
    if v.visible[r] {
        if let RenderCall::Render(_, _, out) = t[0] {
            if !out.is_empty() {
                let kids = t.subrange(1, t.len() - 1);
                lemma_children_visible(v, r, v.children[r].len() as int, 0, out, kids);
            }
        }
        assert forall|k: int, a: int|
            0 <= k < t.len() && 0 <= a < v.len() && #[trigger] v.is_ancestor_or_self(call_widget(t[k]), a)
                && v.is_ancestor_or_self(a, r) implies v.visible[a] by {
            if a != r {
                if k == 0 || k == t.len() - 1 {
                    lemma_ancestor_not_later(v, r, a);
                    lemma_ancestor_not_later(v, a, r);
                } else {
                    let kids = t.subrange(1, t.len() - 1);
                    assert(kids[k - 1] == t[k]);
                }
            }
        }
    }
}

/// Every call in the trace of rendering children of widget `r` is about a
/// widget whose ancestors below `r`, and itself, have their visibility
/// flags set.
proof fn lemma_children_visible<W, D, H>(
    v: UiView<W, D, H>,
    r: int,
    hi: int,
    lo: int,
    bbox: BBox,
    t: Seq<RenderCall>,
)
    requires
        v.tree_wf(),
        v.renders_children(r, hi, lo, bbox, t),
    ensures
        forall|k: int, a: int|
            0 <= k < t.len() && 0 <= a < v.len() && #[trigger] v.is_ancestor_or_self(call_widget(t[k]), a)
                && v.is_ancestor_or_self(a, r) && a != r ==> v.visible[a],
    decreases v.len() - r, hi,
{
    if hi != lo {
        let c = v.children[r][hi - 1] as int;
        assert(v.parents[c] == Some(r as usize));
        lemma_first_done_bounds(t, c);
        let s = if v.visible[c] { first_done(t, c) + 1 } else { 0 };
        let t1 = t.subrange(0, s);
        let t2 = t.subrange(s, t.len() as int);
        lemma_renders_visible(v, c, bbox, t1);
        lemma_renders_subtree(v, c, bbox, t1);
        lemma_children_visible(v, r, hi - 1, lo, bbox, t2);
        assert forall|k: int, a: int|
            0 <= k < t.len() && 0 <= a < v.len() && #[trigger] v.is_ancestor_or_self(call_widget(t[k]), a)
                && v.is_ancestor_or_self(a, r) && a != r implies v.visible[a] by {
            let x = call_widget(t[k]);
            if k < s {
                assert(t1[k] == t[k]);
                lemma_ancestors_chain(v, x, a, c);
                if !v.is_ancestor_or_self(a, c) {
                    assert(c != a);
                    assert(v.is_ancestor_or_self(r, a));
                    lemma_ancestor_not_later(v, r, a);
                    lemma_ancestor_not_later(v, a, r);
                }
            } else {
                assert(t2[k - s] == t[k]);
            }
        }
    }
}

/// Only displayed widgets are drawn: every widget that the renderer is
/// called for while the whole tree is rendered has its own visibility
/// flag and those of all its ancestors set.
pub proof fn lemma_rendered_displayed<W, D, H>(v: UiView<W, D, H>, t: Seq<RenderCall>, m: int)
    requires
        v.tree_wf(),
        v.rendering(t),
        0 <= m < t.len(),
        call_widget(t[m]) >= 0,
    ensures
        v.displayed(call_widget(t[m])),
{
    let area = t[0]->Area_0;
    let u = t.subrange(2, t.len() - 1);
    let x = call_widget(t[m]);
    assert(m >= 2 && m < t.len() - 1);
    assert(u[m - 2] == t[m]);
    lemma_renders_visible(v, 0, area, u);
    lemma_renders_later(v, 0, area, u);
    assert(0 <= x < v.len()) by {
        if m - 2 != 0 && m - 2 != u.len() - 1 {
            lemma_renders_subtree(v, 0, area, u);
            assert(v.is_ancestor_or_self(x, 0));
        }
    }
    assert forall|a: int| 0 <= a < v.len() && #[trigger] v.is_ancestor_or_self(x, a) implies v.visible[a] by {
        lemma_root_is_ancestor(v, a);
    }
    lemma_displayed_iff_all_visible(v, x);
}

/// Whether `e` is the rendering of widget `x` within `bbox`.
pub open spec fn renders_at(e: RenderCall, x: int, bbox: BBox) -> bool {
    e matches RenderCall::Render(y, b, _) && y == x && b == bbox
}

/// Whether `e` is the rendering of widget `x` that returned the non-empty
/// box `out`.
pub open spec fn returns_at(e: RenderCall, x: int, out: BBox) -> bool {
    e matches RenderCall::Render(y, _, o) && y == x && o == out && !o.is_empty()
}

/// Whether some call before position `m` of `t` rendered widget `x`
/// within `bbox`.
pub open spec fn rendered_before(t: Seq<RenderCall>, m: int, x: int, bbox: BBox) -> bool {
    exists|k: int| 0 <= k < m && renders_at(#[trigger] t[k], x, bbox)
}

/// Whether some call before position `m` of `t` rendered widget `x` and
/// returned the non-empty box `out`.
pub open spec fn returned_before(t: Seq<RenderCall>, m: int, x: int, out: BBox) -> bool {
    exists|k: int|
        0 <= k < m && returns_at(#[trigger] t[k], x, out)
}

/// In the trace of rendering widget `r`, a widget is told that it is done
/// with the box it was rendered in, after it was rendered, and every
/// widget other than `r` is rendered, after its parent, within the
/// non-empty box that its parent's rendering returned.
proof fn lemma_renders_boxes<W, D, H>(v: UiView<W, D, H>, r: int, bbox: BBox, t: Seq<RenderCall>)
    requires
        v.tree_wf(),
        v.renders(r, bbox, t),
    ensures
        forall|m: int|
            0 <= m < t.len() && (#[trigger] t[m] matches RenderCall::RenderDone(x, b)) ==> rendered_before(
                t,
                m,
                t[m]->RenderDone_0 as int,
                t[m]->RenderDone_1,
            ),
        forall|m: int|
            0 <= m < t.len() && (#[trigger] t[m] matches RenderCall::Render(x, b, _)) && t[m]->Render_0 != r
                ==> v.parents[t[m]->Render_0 as int] is Some && returned_before(
                t,
                m,
                v.parents[t[m]->Render_0 as int]->0 as int,
                t[m]->Render_1,
            ),
    decreases v.len() - r, v.children[r].len() + 1,
{
    if v.visible[r] {
        lemma_renders_later(v, r, bbox, t);
        if let RenderCall::Render(_, _, out) = t[0] {
            let kids = t.subrange(1, t.len() - 1);
            if !out.is_empty() {
                lemma_children_boxes(v, r, v.children[r].len() as int, 0, out, kids);
                lemma_children_subtree(v, r, v.children[r].len() as int, 0, out, kids);
            }
            assert forall|m: int|
                0 <= m < t.len() && (#[trigger] t[m] matches RenderCall::RenderDone(x, b)) implies rendered_before(
                t,
                m,
                t[m]->RenderDone_0 as int,
                t[m]->RenderDone_1,
            ) by {
                if m == t.len() - 1 {
                    assert(renders_at(t[0], r, bbox));
                } else {
                    assert(kids[m - 1] == t[m]);
                    let k = choose|k: int|
                        0 <= k < m - 1 && renders_at(#[trigger] kids[k], t[m]->RenderDone_0 as int, t[m]->RenderDone_1);
                    assert(t[k + 1] == kids[k]);
                }
            }
            assert forall|m: int|
                0 <= m < t.len() && (#[trigger] t[m] matches RenderCall::Render(x, b, _)) && t[m]->Render_0 != r
                    implies v.parents[t[m]->Render_0 as int] is Some && returned_before(
                t,
                m,
                v.parents[t[m]->Render_0 as int]->0 as int,
                t[m]->Render_1,
            ) by {
                assert(0 < m < t.len() - 1);
                assert(kids[m - 1] == t[m]);
                let x = t[m]->Render_0 as int;
                assert(v.is_ancestor_or_self(x, r));
                if v.parents[x] == Some(r as usize) {
                    assert(returns_at(t[0], r, out));
                } else {
                    let k = choose|k: int|
                        0 <= k < m - 1 && returns_at(#[trigger] kids[k], v.parents[x]->0 as int, t[m]->Render_1);
                    assert(t[k + 1] == kids[k]);
                }
            }
        }
    }
}

/// In the trace of rendering children of widget `r` within `bbox`, a
/// widget is told that it is done with the box it was rendered in, after
/// it was rendered; each child of `r` is rendered within `bbox`, and each
/// other widget, after its parent, within the non-empty box that its
/// parent's rendering returned.
proof fn lemma_children_boxes<W, D, H>(
    v: UiView<W, D, H>,
    r: int,
    hi: int,
    lo: int,
    bbox: BBox,
    t: Seq<RenderCall>,
)
    requires
        v.tree_wf(),
        v.renders_children(r, hi, lo, bbox, t),
    ensures
        forall|m: int|
            0 <= m < t.len() && (#[trigger] t[m] matches RenderCall::RenderDone(x, b)) ==> rendered_before(
                t,
                m,
                t[m]->RenderDone_0 as int,
                t[m]->RenderDone_1,
            ),
        forall|m: int|
            0 <= m < t.len() && (#[trigger] t[m] matches RenderCall::Render(x, b, _)) ==> v.parents[t[m]->Render_0 as int] is Some && if v.parents[t[m]->Render_0 as int] == Some(
                r as usize,
            ) {
                t[m]->Render_1 == bbox
            } else {
                returned_before(t, m, v.parents[t[m]->Render_0 as int]->0 as int, t[m]->Render_1)
            },
    decreases v.len() - r, hi,
{
    if hi != lo {
        let c = v.children[r][hi - 1] as int;
        assert(v.parents[c] == Some(r as usize));
        lemma_first_done_bounds(t, c);
        let s = if v.visible[c] { first_done(t, c) + 1 } else { 0 };
        let t1 = t.subrange(0, s);
        let t2 = t.subrange(s, t.len() as int);
        lemma_renders_boxes(v, c, bbox, t1);
        lemma_renders_subtree(v, c, bbox, t1);
        lemma_renders_later(v, c, bbox, t1);
        lemma_children_boxes(v, r, hi - 1, lo, bbox, t2);
        assert forall|m: int|
            0 <= m < t.len() && (#[trigger] t[m] matches RenderCall::RenderDone(x, b)) implies rendered_before(
            t,
            m,
            t[m]->RenderDone_0 as int,
            t[m]->RenderDone_1,
        ) by {
            if m < s {
                assert(t1[m] == t[m]);
                let k = choose|k: int|
                    0 <= k < m && renders_at(#[trigger] t1[k], t[m]->RenderDone_0 as int, t[m]->RenderDone_1);
                assert(t[k] == t1[k]);
            } else {
                assert(t2[m - s] == t[m]);
                let k = choose|k: int|
                    0 <= k < m - s && renders_at(#[trigger] t2[k], t[m]->RenderDone_0 as int, t[m]->RenderDone_1);
                assert(t[k + s] == t2[k]);
            }
        }
        assert forall|m: int|
            0 <= m < t.len() && (#[trigger] t[m] matches RenderCall::Render(x, b, _)) implies v.parents[t[m]->Render_0 as int] is Some && if v.parents[t[m]->Render_0 as int] == Some(
                r as usize,
            ) {
                t[m]->Render_1 == bbox
            } else {
                returned_before(t, m, v.parents[t[m]->Render_0 as int]->0 as int, t[m]->Render_1)
            } by {
            let x = t[m]->Render_0 as int;
            if m < s {
                assert(t1[m] == t[m]);
                assert(v.visible[c]);
                assert(v.renders(c, bbox, t1));
                assert(t1.len() == s);
                assert(t1.last() == RenderCall::RenderDone(c as usize, bbox));
                assert(t1[s - 1] == t1.last());
                if m == 0 {
                    assert(renders_at(t1[0], c, bbox));
                } else {
                    assert(m < s - 1);
                    assert(call_widget(t1[m]) > c);
                    assert(x > c);
                    assert(v.is_ancestor_or_self(x, c));
                    let px = v.parents[x]->0 as int;
                    assert(v.is_ancestor_or_self(px, c));
                    lemma_ancestor_not_later(v, px, c);
                    let k = choose|k: int|
                        0 <= k < m && returns_at(#[trigger] t1[k], px, t[m]->Render_1);
                    assert(t[k] == t1[k]);
                }
            } else {
                assert(t2[m - s] == t[m]);
                if v.parents[x] != Some(r as usize) {
                    let k = choose|k: int|
                        0 <= k < m - s && returns_at(#[trigger] t2[k], v.parents[x]->0 as int, t[m]->Render_1);
                    assert(t[k + s] == t2[k]);
                }
            }
        }
    }
}

/// The boxes of rendering the whole tree: the root is rendered within the
/// renderable area; every other widget is rendered after its parent,
/// within the box that its parent's rendering returned, which is not
/// empty; and a widget is told that it is done with the box it was
/// rendered in, after it was rendered.
pub proof fn lemma_render_boxes<W, D, H>(v: UiView<W, D, H>, t: Seq<RenderCall>, m: int)
    requires
        v.tree_wf(),
        v.rendering(t),
        0 <= m < t.len(),
    ensures
        t[m] matches RenderCall::RenderDone(x, b) ==> rendered_before(t, m, x as int, b),
        t[m] matches RenderCall::Render(x, b, _) ==> if x == 0 {
            t[0] matches RenderCall::Area(area) && b == area
        } else {
            v.parents[x as int] is Some && returned_before(t, m, v.parents[x as int]->0 as int, b)
        },
{
    let area = t[0]->Area_0;
    let u = t.subrange(2, t.len() - 1);
    lemma_renders_boxes(v, 0, area, u);
    if 2 <= m < t.len() - 1 {
        assert(u[m - 2] == t[m]);
        if let RenderCall::RenderDone(x, b) = t[m] {
            let k = choose|k: int|
                0 <= k < m - 2 && renders_at(#[trigger] u[k], x as int, b);
            assert(t[k + 2] == u[k]);
        }
        if let RenderCall::Render(x, b, _) = t[m] {
            if x == 0 {
                lemma_renders_later(v, 0, area, u);
                assert(m == 2);
            } else {
                let k = choose|k: int|
                    0 <= k < m - 2 && returns_at(#[trigger] u[k], v.parents[x as int]->0 as int, b);
                assert(t[k + 2] == u[k]);
            }
        }
    }
}

/// Whether some call after position `k` of `t` rendered widget `x`
/// within `bbox`.
pub open spec fn rendered_after(t: Seq<RenderCall>, k: int, x: int, bbox: BBox) -> bool {
    exists|m: int| k < m < t.len() && renders_at(#[trigger] t[m], x, bbox)
}

/// Whether `e` is the rendering of a widget that returned a non-empty
/// box, and `c` is a child of that widget with its visibility flag set.
pub open spec fn opens_for<W, D, H>(v: UiView<W, D, H>, e: RenderCall, c: int) -> bool {
    &&& e is Render
    &&& !e->Render_2.is_empty()
    &&& 0 <= c < v.len()
    &&& v.parents[c] == Some(e->Render_0)
    &&& v.visible[c]
}

/// In the trace of rendering widget `r`, each child with its visibility
/// flag set of a widget whose rendering returned a non-empty box is
/// rendered within that box, later.
proof fn lemma_renders_all<W, D, H>(v: UiView<W, D, H>, r: int, bbox: BBox, t: Seq<RenderCall>)
    requires
        v.tree_wf(),
        v.renders(r, bbox, t),
    ensures
        forall|k: int, c: int|
            0 <= k < t.len() && #[trigger] opens_for(v, t[k], c) ==> rendered_after(t, k, c, t[k]->Render_2),
    decreases v.len() - r, v.children[r].len() + 1,
{
    if v.visible[r] {
        if let RenderCall::Render(_, _, out) = t[0] {
            let kids = t.subrange(1, t.len() - 1);
            if !out.is_empty() {
                lemma_children_all(v, r, v.children[r].len() as int, 0, out, kids);
            }
            assert forall|k: int, c: int|
                0 <= k < t.len() && #[trigger] opens_for(v, t[k], c) implies rendered_after(t, k, c, t[k]->Render_2) by {
                assert(t.last() is RenderDone);
                if k == 0 {
                    assert(v.children[r].contains(c as usize));
                    let q = choose|q: int| 0 <= q < v.children[r].len() && v.children[r][q] == c as usize;
                    let m = choose|m: int| -1 < m < kids.len() && renders_at(#[trigger] kids[m], c, out);
                    assert(t[m + 1] == kids[m]);
                } else {
                    assert(k < t.len() - 1);
                    assert(kids[k - 1] == t[k]);
                    let m = choose|m: int| k - 1 < m < kids.len() && renders_at(#[trigger] kids[m], c, t[k]->Render_2);
                    assert(t[m + 1] == kids[m]);
                }
            }
        }
    }
}

/// In the trace of rendering children of widget `r` within `bbox`, each
/// child at the positions from `hi - 1` down to `lo` with its visibility
/// flag set is rendered within `bbox`, and each child with its visibility
/// flag set of a widget whose rendering returned a non-empty box is
/// rendered within that box, later.
proof fn lemma_children_all<W, D, H>(
    v: UiView<W, D, H>,
    r: int,
    hi: int,
    lo: int,
    bbox: BBox,
    t: Seq<RenderCall>,
)
    requires
        v.tree_wf(),
        v.renders_children(r, hi, lo, bbox, t),
    ensures
        forall|q: int|
            lo <= q < hi && v.visible[#[trigger] v.children[r][q] as int] ==> rendered_after(
                t,
                -1,
                v.children[r][q] as int,
                bbox,
            ),
        forall|k: int, c: int|
            0 <= k < t.len() && #[trigger] opens_for(v, t[k], c) ==> rendered_after(t, k, c, t[k]->Render_2),
    decreases v.len() - r, hi,
{
    if hi != lo {
        let c = v.children[r][hi - 1] as int;
        lemma_first_done_bounds(t, c);
        let s = if v.visible[c] { first_done(t, c) + 1 } else { 0 };
        let t1 = t.subrange(0, s);
        let t2 = t.subrange(s, t.len() as int);
        lemma_renders_all(v, c, bbox, t1);
        lemma_children_all(v, r, hi - 1, lo, bbox, t2);
        assert forall|q: int|
            lo <= q < hi && v.visible[#[trigger] v.children[r][q] as int] implies rendered_after(
            t,
            -1,
            v.children[r][q] as int,
            bbox,
        ) by {
            if q == hi - 1 {
                assert(v.renders(c, bbox, t1));
                assert(t1[0] == t[0]);
                assert(renders_at(t[0], c, bbox));
            } else {
                let m = choose|m: int| -1 < m < t2.len() && renders_at(#[trigger] t2[m], v.children[r][q] as int, bbox);
                assert(t[m + s] == t2[m]);
            }
        }
        assert forall|k: int, x: int|
            0 <= k < t.len() && #[trigger] opens_for(v, t[k], x) implies rendered_after(t, k, x, t[k]->Render_2) by {
            if k < s {
                assert(t1[k] == t[k]);
                let m = choose|m: int| k < m < t1.len() && renders_at(#[trigger] t1[m], x, t[k]->Render_2);
                assert(t[m] == t1[m]);
            } else {
                assert(t2[k - s] == t[k]);
                let m = choose|m: int| k - s < m < t2.len() && renders_at(#[trigger] t2[m], x, t[k]->Render_2);
                assert(t[m + s] == t2[m]);
            }
        }
    }
}

/// Everything displayed is drawn: while the whole tree is rendered, the
/// root, if it has its visibility flag set, is rendered first, within the
/// renderable area, and each child with its visibility flag set of a
/// widget whose rendering returned a non-empty box is rendered later,
/// within that box.
pub proof fn lemma_render_complete<W, D, H>(v: UiView<W, D, H>, t: Seq<RenderCall>, k: int, c: int)
    requires
        v.tree_wf(),
        v.rendering(t),
    ensures
        v.visible[0] ==> t[0] is Area && renders_at(t[2], 0, t[0]->Area_0),
        0 <= k < t.len() && opens_for(v, t[k], c) ==> rendered_after(t, k, c, t[k]->Render_2),
{
    let area = t[0]->Area_0;
    let u = t.subrange(2, t.len() - 1);
    lemma_renders_all(v, 0, area, u);
    if v.visible[0] {
        assert(u[0] == t[2]);
    }
    if 0 <= k < t.len() && opens_for(v, t[k], c) {
        assert(2 <= k < t.len() - 1);
        assert(u[k - 2] == t[k]);
        let m = choose|m: int| k - 2 < m < u.len() && renders_at(#[trigger] u[m], c, t[k]->Render_2);
        assert(t[m + 2] == u[m]);
    }
}

} // verus!
