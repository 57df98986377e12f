//! Logging configuration for a platform with six log domains: the
//! configuration model, the level-specification parser, the plan that
//! wires a configuration into console and rolling-file outputs.
pub mod text;
pub mod level;
pub mod conf;
pub mod plan;
