//! Lightweight filesystem sandboxing for tests: the verified core.
//!
//! Path normalization and the containment decision, the error type, and the
//! order in which a sandbox is torn down live here; the filesystem work that
//! surrounds them is done by the caller.

pub mod error;
pub mod lifecycle;
pub mod path;
pub mod tray;

pub use error::Error;
pub use path::{dedot, Component};
pub use tray::{is_contained, is_root_path, Containment, Decision, LitterTray};
