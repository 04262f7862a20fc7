pub mod errors;
pub mod flow;
pub mod traits;
pub mod dependency;
pub mod task;
pub mod component_registry;
pub mod bench;
pub mod task_registry;
