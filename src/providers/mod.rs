//! The providers: each turns one kind of source into a configuration tree.

pub mod clap_provider;
pub mod env_provider;
pub mod file_provider;
pub mod file_reader;

pub use clap_provider::QuantumConfigClapProvider;
pub use env_provider::QuantumConfigEnvProvider;
pub use file_provider::{FileFormat, LingoFileProviderGeneric};
pub use file_reader::FileReader;
