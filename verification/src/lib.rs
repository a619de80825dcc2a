pub mod ecs;
pub mod prelude;
pub mod runtime;
pub mod shell;
