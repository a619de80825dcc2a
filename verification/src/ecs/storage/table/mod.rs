pub mod archetype;
pub mod chunk;
pub mod column;
pub mod location;
pub mod storage;
pub mod value;

pub use archetype::Archetype;
pub use chunk::{Chunk, RemovedChunkRow};
pub use column::ComponentColumn;
pub use location::TableRowLocation;
pub use storage::{TableEntityLocation, TableStorage};
pub use value::{TableComponentKey, TableComponentValue};
