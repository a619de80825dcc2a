pub mod bundle;
pub mod command;
pub mod component;
pub mod entity;
pub mod keyed;
pub mod storage;
pub(crate) mod type_ids;
pub mod resource;
pub mod event;
pub mod query;
pub mod row_index;
pub mod world;
pub mod world_laws;
