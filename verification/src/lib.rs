//! Decision logic of a desktop manager for a watch list of systemd services.
pub mod laws;
pub mod process;
pub mod service;
pub mod text;

pub use process::{Process, ProcessManager};
pub use service::{CommandOutput, ServiceAction, ServiceState};
