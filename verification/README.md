gui
===

**gui** (short for **g**eneric **u**ser **i**nterface) provides basic user
interface functionality independent of the underlying system: a tree of
widgets with parent/child relationships, z-order, visibility, input
focus, event hooks, rendering and event routing. The library is written
in Verus and its behaviour is proved against contracts.

Layout
------

- `src/ui.rs`: `Id`, `Ui`, the `Cap` and `MutCap` capabilities, widget
  creation, visibility, focus, event hooks, rendering (which returns a
  ghost trace of the calls it made, proved to follow the rendering rules)
  and event routing.
- `src/model.rs`: `UiView`, the mathematical model of a `Ui`, with the
  tree invariant, the rules of rendering and the laws of the library
  (focusing twice changes
  nothing, a widget is displayed exactly when it and all its ancestors
  are visible, parents and children agree, ...).
- `src/renderer.rs`, `src/renderable.rs`, `src/object.rs`: `BBox` and
  the traits through which widgets are rendered and identified.
- `src/event.rs`, `src/mergeable.rs`: `UiEvent`, the routing steps of an
  event and the merging of events.
- `app/`: the asynchronous side (`Handleable`, `Widget`, `handle`, `send`,
  `call`), which drives the routing decisions of the library.
