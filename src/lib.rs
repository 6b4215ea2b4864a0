//! Multi-source configuration aggregation.
//!
//! Configuration fragments from files (TOML, JSON, INI), environment
//! variables and command-line arguments are turned into one common value
//! tree, merged in a fixed precedence order, and handed to the caller.

pub mod coerce;
pub mod error;
pub mod keys;
pub mod merge;
pub mod meta;
pub mod path_conversion;
pub mod paths;
pub mod providers;
pub mod value;

pub use error::{ConfigDirType, QuantumConfigError, TemplateFormat};
pub use value::{Tree, ConfigValue};
