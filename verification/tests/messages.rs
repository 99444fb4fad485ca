use clap_layers::error::CliErrorKind;
use clap_layers::{LayeredError, SourceLayer};

#[test]
fn source_layers_describe_themselves() {
    assert_eq!(SourceLayer::CliFlag("port".to_string()).describe(), "command-line flag port");
    assert_eq!(SourceLayer::EnvVar("MYAPP_PORT".to_string()).describe(), "environment variable MYAPP_PORT");
    assert_eq!(
        SourceLayer::ConfigFile { path: "app.toml".to_string(), line: 12 }.describe(),
        "configuration file app.toml, line 12"
    );
    assert_eq!(SourceLayer::Default.describe(), "defaults");
}

#[test]
fn io_error_message_names_the_file() {
    let err = LayeredError::Io { path: "config.toml".to_string(), source: "not found".to_string() };
    assert_eq!(err.message(), "could not read config file 'config.toml': not found");
    assert!(err.message().contains("config.toml"));
}

#[test]
fn parse_message_names_file_and_line() {
    let err = LayeredError::Parse {
        path: "config.toml".to_string(),
        line: 3,
        message: "duplicate key".to_string(),
    };
    assert_eq!(err.message(), "TOML parse error at config.toml, line 3: duplicate key");
}

#[test]
fn invalid_message_names_value_field_and_layer() {
    let err = LayeredError::Invalid {
        field: "port".to_string(),
        value: "banana".to_string(),
        layer: SourceLayer::EnvVar("ERR_ENV_PORT".to_string()),
        reason: "invalid digit found in string".to_string(),
    };
    assert_eq!(
        err.message(),
        "invalid value 'banana' for 'port' \u{2014} from environment variable ERR_ENV_PORT: invalid digit found in string"
    );
    assert!(err
        .message()
        .starts_with("invalid value 'banana' for 'port' \u{2014} from environment variable ERR_ENV_PORT"));
}

#[test]
fn cli_message_is_passed_through() {
    let err = LayeredError::Cli { kind: CliErrorKind::UnknownArgument, message: "error: unexpected argument".to_string() };
    assert_eq!(err.message(), "error: unexpected argument");
}
