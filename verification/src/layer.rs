//! Where a configuration value came from.

use vstd::prelude::*;

use crate::text::decimal;
use crate::text::decimal_text;

verus! {

/// Where a configuration value ultimately came from.
#[derive(Debug, Clone, PartialEq)]
pub enum SourceLayer {
    /// Value was set via an explicitly passed CLI flag (e.g. `--port 8080`).
    CliFlag(String),
    /// Value was read from an environment variable.
    EnvVar(String),
    /// Value was loaded from a configuration file, at the given line.
    ConfigFile {
        /// The path of the file.
        path: String,
        /// The 1-based line of the setting.
        line: usize,
    },
    /// Value came from the struct's default (no external source).
    Default,
}

/// The mathematical value of a [`SourceLayer`]: the same variants over character
/// sequences.
pub enum LayerView {
    /// An explicitly passed flag, by name.
    CliFlag(Seq<char>),
    /// An environment variable, by name.
    EnvVar(Seq<char>),
    /// A configuration file and the line in it.
    ConfigFile { path: Seq<char>, line: nat },
    /// The struct's default.
    Default,
}

impl View for SourceLayer {
    type V = LayerView;

    open spec fn view(&self) -> LayerView {
        match self {
            SourceLayer::CliFlag(name) => LayerView::CliFlag(name@),
            SourceLayer::EnvVar(var) => LayerView::EnvVar(var@),
            SourceLayer::ConfigFile { path, line } => LayerView::ConfigFile {
                path: path@,
                line: *line as nat,
            },
            SourceLayer::Default => LayerView::Default,
        }
    }
}

impl SourceLayer {
    /// The human-readable description of the layer.
    pub open spec fn spec_describe(&self) -> Seq<char> {
        match self {
            SourceLayer::CliFlag(name) => "command-line flag "@ + name@,
            SourceLayer::EnvVar(var) => "environment variable "@ + var@,
            SourceLayer::ConfigFile { path, line } => "configuration file "@ + path@ + ", line "@
                + decimal(*line as nat),
            SourceLayer::Default => "defaults"@,
        }
    }

    /// Renders the layer for messages, e.g. `environment variable MYAPP_PORT`.
    pub fn describe(&self) -> (text: String)
        ensures
            text@ == self.spec_describe(),
    {
        match self {
            SourceLayer::CliFlag(name) => String::from_str("command-line flag ").concat(name.as_str()),
            SourceLayer::EnvVar(var) => String::from_str("environment variable ").concat(var.as_str()),
            SourceLayer::ConfigFile { path, line } => {
                let mut t = String::from_str("configuration file ");
                t.append(path.as_str());
                t.append(", line ");
                let n = decimal_text(*line);
                t.append(n.as_str());
                t
            },
            SourceLayer::Default => String::from_str("defaults"),
        }
    }
}

} // verus!
