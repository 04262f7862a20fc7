pub mod types;
pub mod error;
pub mod data;
pub mod dependency;
pub mod vertex;
pub mod flow_template;
pub mod builder;
pub mod flow_runtime;
