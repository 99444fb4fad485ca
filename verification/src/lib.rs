//! Layered configuration for command-line programs.
//!
//! Configuration comes from several layers, and the highest one that sets a
//! field wins:
//!
//! 1. an explicitly typed command-line flag (even one equal to its default),
//! 2. an environment variable `PREFIX_FIELD`,
//! 3. a TOML configuration file,
//! 4. the built-in default.
//!
//! A value that cannot be parsed is an error naming the layer it came from; it
//! never falls back to a lower layer.

use vstd::prelude::*;

pub mod config;
pub mod env;
pub mod error;
pub mod layer;
pub mod plan;
pub mod resolve;
pub mod text;
pub mod toml;

pub use config::parse_config_text;
pub use config::ConfigEntry;
pub use config::ConfigValues;
pub use env::Env;
pub use error::LayeredError;
pub use layer::SourceLayer;
pub use plan::plan_derive;
pub use resolve::resolve_field;
pub use toml::TomlValue;

verus! {

/// Loading configuration from all layers, with the precedence
/// flag > environment > file > default.
///
/// `#[derive(Layered)]` implements it for a struct that also derives clap's
/// `Parser`.
pub trait Layered: Sized {
    /// Parses configuration from all layers: CLI > env > file > default.
    ///
    /// Returns the configuration, or the error that names the layer holding a
    /// value that cannot be used.
    fn layered() -> Result<Self, LayeredError>;

    /// The same from the given arguments (the program name first) and
    /// environment, without exiting on `--help` or a bad flag: those come back
    /// as [`LayeredError::Cli`].
    fn layered_from(args: Vec<String>, env: &Env) -> Result<Self, LayeredError>;
}

} // verus!
