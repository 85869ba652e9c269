pub mod configuration;
pub mod deployments;
pub mod text;
