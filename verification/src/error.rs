//! Errors that can occur when loading configuration, and their messages.

use vstd::prelude::*;

use crate::layer::LayerView;
use crate::layer::SourceLayer;
use crate::text::decimal;
use crate::text::decimal_text;

verus! {

/// Errors that can occur when loading configuration.
///
/// Every variant names the place the problem came from, so that a message can
/// tell the user which file, line or variable to fix.
#[derive(Debug, Clone, PartialEq)]
pub enum LayeredError {
    /// A configuration file exists but could not be read.
    Io {
        /// The path to the file that could not be read.
        path: String,
        /// What the operating system reported.
        source: String,
    },
    /// A configuration file is not valid TOML (of the subset this crate reads).
    Parse {
        /// The path of the file.
        path: String,
        /// The 1-based line of the problem.
        line: usize,
        /// What is wrong.
        message: String,
    },
    /// A layer holds a value that cannot be decoded for a field.
    Invalid {
        /// The field.
        field: String,
        /// The value as the layer holds it.
        value: String,
        /// The layer it came from.
        layer: SourceLayer,
        /// Why it cannot be decoded.
        reason: String,
    },
    /// The command line was rejected (or asked for `--help` or `--version`).
    Cli {
        /// What clap reported.
        kind: CliErrorKind,
        /// clap's message.
        message: String,
    },
}

/// The kinds of command-line error clap reports.
#[derive(Debug, Clone, Copy, PartialEq, Eq)]
pub enum CliErrorKind {
    /// A value that is not one of the possible values.
    InvalidValue,
    /// An argument clap does not know.
    UnknownArgument,
    /// A subcommand clap does not know.
    InvalidSubcommand,
    /// A value given without the required `=`.
    NoEquals,
    /// A value that the argument's parser refused.
    ValueValidation,
    /// More values than the argument takes.
    TooManyValues,
    /// Fewer values than the argument takes.
    TooFewValues,
    /// A number of values the argument does not take.
    WrongNumberOfValues,
    /// Two arguments that conflict.
    ArgumentConflict,
    /// A required argument is missing.
    MissingRequiredArgument,
    /// A required subcommand is missing.
    MissingSubcommand,
    /// An argument that is not valid UTF-8.
    InvalidUtf8,
    /// `--help` was asked for.
    DisplayHelp,
    /// Help shown because an argument or subcommand is missing.
    DisplayHelpOnMissingArgumentOrSubcommand,
    /// `--version` was asked for.
    DisplayVersion,
    /// Writing the message failed.
    Io,
    /// Formatting the message failed.
    Format,
    /// A kind this crate does not list.
    Other,
}

/// The mathematical value of a [`LayeredError`].
pub enum ErrorView {
    /// See [`LayeredError::Io`].
    Io { path: Seq<char>, source: Seq<char> },
    /// See [`LayeredError::Parse`].
    Parse { path: Seq<char>, line: nat, message: Seq<char> },
    /// See [`LayeredError::Invalid`].
    Invalid { field: Seq<char>, value: Seq<char>, layer: LayerView, reason: Seq<char> },
    /// See [`LayeredError::Cli`].
    Cli { kind: CliErrorKind, message: Seq<char> },
}

impl View for LayeredError {
    type V = ErrorView;

    open spec fn view(&self) -> ErrorView {
        match self {
            LayeredError::Io { path, source } => ErrorView::Io { path: path@, source: source@ },
            LayeredError::Parse { path, line, message } => ErrorView::Parse {
                path: path@,
                line: *line as nat,
                message: message@,
            },
            LayeredError::Invalid { field, value, layer, reason } => ErrorView::Invalid {
                field: field@,
                value: value@,
                layer: layer@,
                reason: reason@,
            },
            LayeredError::Cli { kind, message } => ErrorView::Cli { kind: *kind, message: message@ },
        }
    }
}

impl LayeredError {
    /// The text of the error, as it is shown to the user.
    pub open spec fn spec_message(&self) -> Seq<char> {
        match self {
            LayeredError::Io { path, source } =>
                "could not read config file '"@ + path@ + "': "@ + source@,
            LayeredError::Parse { path, line, message } =>
                "TOML parse error at "@ + path@ + ", line "@ + decimal(*line as nat) + ": "@ + message@,
            LayeredError::Invalid { field, value, layer, reason } =>
                "invalid value '"@ + value@ + "' for '"@ + field@ + "' \u{2014} from "@
                    + layer.spec_describe() + ": "@ + reason@,
            LayeredError::Cli { message, .. } => message@,
        }
    }

    /// Renders the error for the user, e.g.
    /// `invalid value 'banana' for 'port' — from environment variable PORT: invalid digit found in string`.
    pub fn message(&self) -> (text: String)
        ensures
            text@ == self.spec_message(),
    {
        match self {
            LayeredError::Io { path, source } => {
                let mut text = String::from_str("could not read config file '");
                text.append(path.as_str());
                text.append("': ");
                text.append(source.as_str());
                text
            },
            LayeredError::Parse { path, line, message } => {
                let mut text = String::from_str("TOML parse error at ");
                text.append(path.as_str());
                text.append(", line ");
                let n = decimal_text(*line);
                text.append(n.as_str());
                text.append(": ");
                text.append(message.as_str());
                text
            },
            LayeredError::Invalid { field, value, layer, reason } => {
                let mut text = String::from_str("invalid value '");
                text.append(value.as_str());
                text.append("' for '");
                text.append(field.as_str());
                text.append("' \u{2014} from ");
                let d = layer.describe();
                text.append(d.as_str());
                text.append(": ");
                text.append(reason.as_str());
                text
            },
            LayeredError::Cli { message, .. } => String::from_str(message.as_str()),
        }
    }
}

} // verus!
