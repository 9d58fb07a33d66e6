//! Basic infrastructure for user interfaces: a tree of widgets with
//! parent/child relationships, visibility, input focus, event hooks and
//! rendering, independent of the underlying system and its rendering
//! machinery.

mod event;
mod mergeable;
pub mod model;
mod object;
mod renderable;
mod renderer;
mod ui;

pub use self::event::merge_unhandled;
pub use self::event::Step;
pub use self::event::UiEvent;
pub use self::mergeable::merge_optional;
pub use self::mergeable::Mergeable;
pub use self::object::Object;
pub use self::renderable::Renderable;
pub use self::renderer::BBox;
pub use self::renderer::RenderCall;
pub use self::renderer::Renderer;
pub use self::ui::Cap;
pub use self::ui::RenderCap;
pub use self::ui::lemma_id_view_injective;
pub use self::ui::Id;
pub use self::ui::MutCap;
pub use self::ui::Ui;
pub use self::model::UiView;
