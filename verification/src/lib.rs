//! Classification-rule engine for filing documents into a nested
//! directory taxonomy.
//!
//! A nested configuration tree of named directories, each with an
//! optional keyword list, is flattened into classification rules
//! (destination path plus the full inherited keyword set), and a
//! matcher decides which rules a given block of text satisfies.

pub mod compile;
pub mod config;
pub mod matching;
pub mod rule;
pub mod text;

pub use config::ConfigError;
pub use config::ConfigValue;
pub use rule::Rule;
