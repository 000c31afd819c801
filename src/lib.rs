//! Persistence core for tracking shell command executions: a lossless textual
//! codec for structured values, the execution-record store logic, and the
//! command-line and output helpers built around them.

pub mod args;
pub mod blocks;
pub mod codec;
pub mod isolation;
pub mod link;
pub mod numbers;
pub mod record;
pub mod signal;
pub mod status;
pub mod store;
pub mod text;
pub mod user;
