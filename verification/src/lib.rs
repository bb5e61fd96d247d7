//! Service start-up for the first userspace process: commands and process
//! handles, service descriptors, and the dependency-ordered scheduler.

pub mod command;
pub mod env;
pub mod error;
pub mod graph;
pub mod path;
pub mod process;
pub mod readiness;
pub mod scheme;
pub mod service;
mod sys;
pub mod text;

pub use command::{Command, Step};
pub use error::OsError;
pub use graph::ServiceGraph;
pub use process::{Fork, Process};
pub use readiness::ServiceStatus;
pub use scheme::{DemonScheme, SchemeError};
pub use service::{ParseError, Service};
