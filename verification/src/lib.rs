//! Edge Side Includes: directive scanning and fragment resolution.

pub mod config;
pub mod error;
pub mod execution;
pub mod fetch;
pub mod parse;
pub mod processor;
pub mod resolve;
pub mod token;

pub use crate::config::{BackendConfiguration, Configuration};
pub use crate::error::ExecutionError;
pub use crate::execution::{Execution, Next, Step};
pub use crate::fetch::FetchOutcome;
pub use crate::parse::{parse_tags, Event, Tag};
pub use crate::processor::Processor;
