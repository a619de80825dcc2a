pub mod app;
pub mod plugin;
pub mod schedule;
pub mod time;
