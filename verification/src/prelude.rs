pub use crate::ecs::bundle::Bundle;
pub use crate::ecs::command::Commands;
pub use crate::ecs::entity::{Entity, EntityAllocator};
pub use crate::ecs::event::{Event, Events};
pub use crate::ecs::query::{QueryItem, QueryItem2};
pub use crate::ecs::resource::{Resource, Resources};
pub use crate::ecs::world::World;
pub use crate::runtime::app::App;
pub use crate::runtime::plugin::Plugin;
pub use crate::runtime::schedule::{Schedule, Stage};
pub use crate::runtime::time::FixedTime;
