//! A DAG task-flow framework: tasks are committed into a [`tf::flow::Flow`],
//! wired together through their dependencies, ordered into topological
//! layers and executed layer by layer.

pub mod tf;
pub mod text;
pub mod dag;
pub mod codegen;
pub mod task_macro;
pub mod data_driven_tf;
pub mod config_tasks;

pub use tf::component_registry::{init_components, FlowContext};
