use clap_layers::config::file_layer;
use clap_layers::config::FileRead;
use clap_layers::env::env_readings;
use clap_layers::env::read_env_value;
use clap_layers::resolve::choose_offer;
use clap_layers::resolve::CliOrigin;
use clap_layers::resolve::EnvOffer;
use clap_layers::resolve::FieldMarkers;
use clap_layers::resolve::FileOffer;
use clap_layers::resolve::Offer;
use clap_layers::{parse_config_text, resolve_field, ConfigValues, Env, LayeredError, SourceLayer, TomlValue};

const NONE: FieldMarkers = FieldMarkers { no_cli: false, no_env: false, no_file: false };

/// Decodes a TOML value as a `u16`, as a typed field would.
fn as_u16(v: &TomlValue) -> Result<u16, String> {
    match v {
        TomlValue::Int(i) if (0..=65535).contains(i) => Ok(*i as u16),
        _ => Err("expected u16".to_string()),
    }
}

fn env_offer(env: &Env, var: &str) -> EnvOffer<u16> {
    let offer = match env.get(var) {
        None => Offer::Absent,
        Some(text) => match as_u16(&read_env_value(text)) {
            Ok(v) => Offer::Value(v),
            Err(reason) => Offer::Invalid { raw: text.clone(), reason },
        },
    };
    EnvOffer { var: var.to_string(), offer }
}

fn env(var: &str, raw: Option<&str>) -> EnvOffer<u16> {
    let mut e = Env::empty();
    if let Some(text) = raw {
        e.set(var, text);
    }
    env_offer(&e, var)
}

fn values_of(text: &str) -> ConfigValues {
    match parse_config_text(text) {
        Ok(v) => v,
        Err((line, m)) => panic!("unexpected error on line {line}: {m}"),
    }
}

fn offer_from(path: &str, values: &ConfigValues, key: &str) -> FileOffer<u16> {
    match values.get(key) {
        None => FileOffer { path: path.to_string(), line: 0, offer: Offer::Absent },
        Some(e) => {
            let offer = match as_u16(&e.value) {
                Ok(v) => Offer::Value(v),
                Err(reason) => Offer::Invalid { raw: e.written(), reason },
            };
            FileOffer { path: path.to_string(), line: e.line, offer }
        }
    }
}

fn file(path: &str, text: &str, key: &str) -> FileOffer<u16> {
    offer_from(path, &values_of(text), key)
}

fn at(line: usize) -> SourceLayer {
    SourceLayer::ConfigFile { path: "myapp.toml".to_string(), line }
}

fn port(
    markers: FieldMarkers,
    origin: CliOrigin,
    cli: u16,
    env_raw: Option<&str>,
    file_text: &str,
) -> Result<(u16, SourceLayer), LayeredError> {
    resolve_field(
        "port",
        markers,
        origin,
        cli,
        env("MYAPP_PORT", env_raw),
        file("myapp.toml", file_text, "port"),
    )
    .map(|r| (r.value, r.layer))
}

#[test]
fn default_when_nothing_is_set() {
    assert_eq!(port(NONE, CliOrigin::DefaultValue, 3000, None, ""), Ok((3000, SourceLayer::Default)));
}

#[test]
fn file_beats_default() {
    assert_eq!(
        port(NONE, CliOrigin::DefaultValue, 3000, None, "port = 5000\n"),
        Ok((5000, at(1)))
    );
}

#[test]
fn env_beats_file() {
    assert_eq!(
        port(NONE, CliOrigin::DefaultValue, 3000, Some("8080"), "port = 5000\n"),
        Ok((8080, SourceLayer::EnvVar("MYAPP_PORT".to_string())))
    );
}

#[test]
fn flag_beats_env_and_file() {
    assert_eq!(
        port(NONE, CliOrigin::CommandLine, 9000, Some("8080"), "port = 5000\n"),
        Ok((9000, SourceLayer::CliFlag("port".to_string())))
    );
}

#[test]
fn flag_equal_to_default_still_beats_env_and_file() {
    assert_eq!(
        port(NONE, CliOrigin::CommandLine, 3000, Some("8080"), "port = 5000\n"),
        Ok((3000, SourceLayer::CliFlag("port".to_string())))
    );
}

#[test]
fn clap_environment_counts_as_explicit() {
    assert_eq!(
        port(NONE, CliOrigin::EnvVariable("CLAP_PORT".to_string()), 7777, None, "port = 5000\n"),
        Ok((7777, SourceLayer::EnvVar("CLAP_PORT".to_string())))
    );
}

#[test]
fn skipped_field_still_layers() {
    assert_eq!(
        port(NONE, CliOrigin::NotAnArgument, 7, Some("42"), ""),
        Ok((42, SourceLayer::EnvVar("MYAPP_PORT".to_string())))
    );
    assert_eq!(port(NONE, CliOrigin::NotAnArgument, 7, None, ""), Ok((7, SourceLayer::Default)));
}

#[test]
fn no_env_ignores_the_environment() {
    let m = FieldMarkers { no_cli: false, no_env: true, no_file: false };
    assert_eq!(
        port(m, CliOrigin::DefaultValue, 3000, Some("8080"), "port = 5000\n"),
        Ok((5000, at(1)))
    );
    assert_eq!(port(m, CliOrigin::DefaultValue, 3000, Some("banana"), ""), Ok((3000, SourceLayer::Default)));
}

#[test]
fn no_file_ignores_the_file() {
    let m = FieldMarkers { no_cli: false, no_env: false, no_file: true };
    assert_eq!(port(m, CliOrigin::DefaultValue, 3000, None, "port = 5000\n"), Ok((3000, SourceLayer::Default)));
    assert_eq!(port(m, CliOrigin::DefaultValue, 3000, None, "port = \"bad\"\n"), Ok((3000, SourceLayer::Default)));
}

#[test]
fn no_cli_treats_the_clap_value_as_a_default() {
    let m = FieldMarkers { no_cli: true, no_env: false, no_file: false };
    assert_eq!(port(m, CliOrigin::CommandLine, 9000, None, "port = 5000\n"), Ok((5000, at(1))));
}

#[test]
fn bad_env_value_is_an_error_naming_the_variable() {
    let err = port(NONE, CliOrigin::DefaultValue, 3000, Some("banana"), "port = 5000\n").unwrap_err();
    assert_eq!(
        err,
        LayeredError::Invalid {
            field: "port".to_string(),
            value: "banana".to_string(),
            layer: SourceLayer::EnvVar("MYAPP_PORT".to_string()),
            reason: "expected u16".to_string(),
        }
    );
    assert_eq!(
        err.message(),
        "invalid value 'banana' for 'port' \u{2014} from environment variable MYAPP_PORT: expected u16"
    );
}

#[test]
fn bad_file_value_names_the_file_and_line() {
    // `port` is on line 4, after a comment and a blank line.
    let text = "# a comment\n\nhost = \"ok\"\nport = \"not-a-number\"\n";
    let path = ".test-tmp/errors_bad_value.toml";
    let err = resolve_field(
        "port",
        NONE,
        CliOrigin::DefaultValue,
        3000u16,
        env("MYAPP_PORT", None),
        file(path, text, "port"),
    )
    .unwrap_err();
    let msg = err.message();
    assert!(msg.starts_with("invalid value 'not-a-number' for 'port' \u{2014} from"), "got: {msg}");
    assert!(msg.contains("errors_bad_value.toml, line 4"), "got: {msg}");
    match err {
        LayeredError::Invalid { field, value, layer, .. } => {
            assert_eq!(field, "port");
            assert_eq!(value, "not-a-number");
            match layer {
                SourceLayer::ConfigFile { line, path } => {
                    assert_eq!(line, 4);
                    assert!(path.ends_with("errors_bad_value.toml"));
                }
                other => panic!("expected a ConfigFile layer, got {other:?}"),
            }
        }
        other => panic!("expected Invalid, got {other:?}"),
    }
}

#[test]
fn bad_env_value_names_the_variable() {
    let err = resolve_field(
        "port",
        NONE,
        CliOrigin::DefaultValue,
        3000u16,
        env("ERR_ENV_PORT", Some("banana")),
        file("none.toml", "", "port"),
    )
    .unwrap_err();
    let msg = err.message();
    assert!(
        msg.starts_with("invalid value 'banana' for 'port' \u{2014} from environment variable ERR_ENV_PORT"),
        "got: {msg}"
    );
    assert!(matches!(err, LayeredError::Invalid { layer: SourceLayer::EnvVar(_), .. }));
}

#[test]
fn a_bad_value_never_silently_falls_back() {
    let got = resolve_field(
        "port",
        NONE,
        CliOrigin::DefaultValue,
        3000u16,
        env("ERR_FALLBACK_PORT", Some("banana")),
        file("none.toml", "", "port"),
    );
    assert!(got.is_err(), "a malformed env var must not quietly resolve to the default");
}

#[test]
fn malformed_toml_reports_line_and_column() {
    let path = ".test-tmp/errors_malformed.toml";
    let got = file_layer(path, FileRead::Text("host = \"ok\"\nport = = 3\n".to_string()));
    match got {
        Err(LayeredError::Parse { line, path, .. }) => {
            assert_eq!(line, 2);
            assert!(path.ends_with("errors_malformed.toml"));
        }
        Err(other) => panic!("expected Parse, got {other:?}"),
        Ok(_) => panic!("expected Parse, got Ok"),
    }
}

#[test]
fn a_missing_config_file_is_not_an_error() {
    let values = match file_layer(".test-tmp/definitely-does-not-exist.toml", FileRead::Missing) {
        Ok(v) => v,
        Err(e) => panic!("unexpected error {e:?}"),
    };
    let got = resolve_field(
        "port",
        NONE,
        CliOrigin::DefaultValue,
        3000u16,
        env("X_PORT", None),
        offer_from("definitely-does-not-exist.toml", &values, "port"),
    );
    assert_eq!(got.map(|r| r.value), Ok(3000));
}

#[test]
fn bad_file_value_of_a_non_string_type_is_rendered_as_written() {
    let err = port(NONE, CliOrigin::DefaultValue, 3000, None, "port = true\n").unwrap_err();
    assert!(err.message().starts_with("invalid value 'true' for 'port' \u{2014} from"), "got: {}", err.message());
}

#[test]
fn a_wrong_type_renders_the_value_as_written() {
    for (content, expected) in [
        ("port = [1, 2, 3]\n", "invalid value '[1, 2, 3]' for 'port'"),
        ("[port]\nnested = 1\n", "invalid value '{ nested = 1 }' for 'port'"),
        ("port = 99999\n", "invalid value '99999' for 'port'"),
        ("port = -1\n", "invalid value '-1' for 'port'"),
        ("port = 1.5\n", "invalid value '1.5' for 'port'"),
        ("port = true\n", "invalid value 'true' for 'port'"),
    ] {
        let err = port(NONE, CliOrigin::DefaultValue, 3000, None, content).unwrap_err();
        assert!(err.message().starts_with(expected), "for {content:?}: got {}", err.message());
    }
}

#[test]
fn a_bad_lower_value_under_a_set_higher_layer_is_not_consulted() {
    assert_eq!(
        port(NONE, CliOrigin::DefaultValue, 3000, Some("8080"), "port = \"oops\"\n"),
        Ok((8080, SourceLayer::EnvVar("MYAPP_PORT".to_string())))
    );
    assert_eq!(
        port(NONE, CliOrigin::CommandLine, 1, Some("nope"), "port = \"oops\"\n"),
        Ok((1, SourceLayer::CliFlag("port".to_string())))
    );
}

#[test]
fn a_lower_layer_cannot_disturb_a_higher_one() {
    for file_value in ["port = 1\n", "port = 2\n", "", "port = \"x\"\n"] {
        assert_eq!(
            port(NONE, CliOrigin::DefaultValue, 3000, Some("8080"), file_value),
            Ok((8080, SourceLayer::EnvVar("MYAPP_PORT".to_string())))
        );
    }
}

#[test]
fn highest_set_layer_wins_over_all_combinations() {
    let values = [None, Some(3000u16), Some(1u16)];
    for flag in values {
        for env_v in values {
            for file_v in values {
                let (origin, cli) = match flag {
                    Some(v) => (CliOrigin::CommandLine, v),
                    None => (CliOrigin::DefaultValue, 3000),
                };
                let env_text = env_v.map(|v| v.to_string());
                let file_text = file_v.map(|v| format!("port = {v}\n")).unwrap_or_default();
                let expected = flag.or(env_v).or(file_v).unwrap_or(3000);
                let got = port(NONE, origin, cli, env_text.as_deref(), &file_text).unwrap().0;
                assert_eq!(got, expected, "flag {flag:?} env {env_v:?} file {file_v:?}");
            }
        }
    }
}

#[test]
fn large_line_numbers_are_rendered_in_decimal() {
    let mut text = String::new();
    for _ in 0..1233 {
        text.push('\n');
    }
    text.push_str("port = -1\n");
    let err = port(NONE, CliOrigin::DefaultValue, 3000, None, &text).unwrap_err();
    assert!(err.message().contains("myapp.toml, line 1234"), "got: {}", err.message());
    match err {
        LayeredError::Invalid { layer: SourceLayer::ConfigFile { line, .. }, .. } => assert_eq!(line, 1234),
        other => panic!("expected Invalid, got {other:?}"),
    }
}

#[test]
fn falsy_file_values_are_set_not_absent() {
    let text = "verbose = false\nport = 0\nhost = \"\"\n";
    let values = values_of(text);
    let verbose_entry = values.get("verbose").unwrap();
    let verbose_offer = match &verbose_entry.value {
        TomlValue::Bool(b) => Offer::Value(*b),
        _ => Offer::Invalid { raw: verbose_entry.written(), reason: "expected bool".to_string() },
    };
    let verbose = resolve_field(
        "verbose",
        NONE,
        CliOrigin::DefaultValue,
        true,
        EnvOffer { var: "EC_VERBOSE".to_string(), offer: Offer::Absent },
        FileOffer { path: "edge.toml".to_string(), line: verbose_entry.line, offer: verbose_offer },
    )
    .unwrap();
    assert!(!verbose.value);
    let host_entry = values.get("host").unwrap();
    let host_offer = match &host_entry.value {
        TomlValue::Str(s) => Offer::Value(s.clone()),
        _ => Offer::Invalid { raw: host_entry.written(), reason: "expected a string".to_string() },
    };
    let host = resolve_field(
        "host",
        NONE,
        CliOrigin::DefaultValue,
        "default-host".to_string(),
        EnvOffer { var: "EC_HOST".to_string(), offer: Offer::Absent },
        FileOffer { path: "edge.toml".to_string(), line: host_entry.line, offer: host_offer },
    )
    .unwrap();
    assert_eq!(host.value, "");
    assert_eq!(port(NONE, CliOrigin::DefaultValue, 3000, None, text), Ok((0, at(2))));
}

#[test]
fn files_that_set_nothing_relevant_fall_through_to_defaults() {
    for content in ["", "\n\n   \n", "# just a comment\n", "unrelated = 1\n", "[section]\nport = 5000\n"] {
        assert_eq!(
            port(NONE, CliOrigin::DefaultValue, 3000, None, content),
            Ok((3000, SourceLayer::Default)),
            "for content {content:?}"
        );
    }
}

fn line_of_error(text: &str) -> usize {
    match port(NONE, CliOrigin::DefaultValue, 3000, None, text) {
        Err(LayeredError::Invalid { layer: SourceLayer::ConfigFile { line, .. }, .. }) => line,
        other => panic!("expected a ConfigFile Invalid error, got {other:?}"),
    }
}

#[test]
fn line_numbers_survive_crlf_endings() {
    assert_eq!(line_of_error("# c\r\nhost = \"x\"\r\nport = \"bad\"\r\n"), 3);
}

#[test]
fn line_numbers_survive_multibyte_characters() {
    assert_eq!(line_of_error("# \u{2605} \u{fc}nicode \u{2605}\nname = \"\u{65e5}\u{672c}\u{8a9e}\"\nport = \"bad\"\n"), 3);
}

/// Decodes an environment value for a field: the first of its readings that
/// decodes, or the first reading's error.
fn env_decoded<T>(raw: &str, decode: fn(&TomlValue) -> Result<T, String>) -> Offer<T> {
    let outcomes = env_readings(raw).iter().map(decode).collect();
    choose_offer(raw, outcomes)
}

fn as_string(v: &TomlValue) -> Result<String, String> {
    match v {
        TomlValue::Str(s) => Ok(s.clone()),
        _ => Err("expected a string".to_string()),
    }
}

fn as_strings(v: &TomlValue) -> Result<Vec<String>, String> {
    match v {
        TomlValue::Array(items) => items.iter().map(as_string).collect(),
        _ => Err("expected a sequence".to_string()),
    }
}

fn resolve_env<T>(field: &str, var: &str, raw: &str, default: T, decode: fn(&TomlValue) -> Result<T, String>) -> Result<T, LayeredError> {
    resolve_field(
        field,
        NONE,
        CliOrigin::DefaultValue,
        default,
        EnvOffer { var: var.to_string(), offer: env_decoded(raw, decode) },
        FileOffer { path: "none.toml".to_string(), line: 0, offer: Offer::Absent },
    )
    .map(|r| r.value)
}

#[test]
fn environment_strings_do_not_need_quoting() {
    for (raw, expected) in [
        ("localhost", "localhost"),
        ("hello world", "hello world"),
        ("127.0.0.1", "127.0.0.1"),
        ("true", "true"),
        ("8080", "8080"),
        ("", ""),
        ("  padded  ", "  padded  "),
        ("[not-an-array", "[not-an-array"),
    ] {
        let got = resolve_env("host", "EC_ENV_HOST", raw, "d".to_string(), as_string);
        assert_eq!(got, Ok(expected.to_string()), "for raw env value {raw:?}");
    }
}

#[test]
fn a_quoted_environment_string_is_read_as_toml() {
    let got = resolve_env("host", "EC_ENV_HOST", "\"quoted\"", "d".to_string(), as_string);
    assert_eq!(got, Ok("quoted".to_string()));
}

#[test]
fn a_sequence_from_the_environment_must_be_a_toml_array() {
    let got = resolve_env("tags", "EC_ENV_TAGS", r#"["a", "b"]"#, vec!["x".to_string()], as_strings);
    assert_eq!(got, Ok(vec!["a".to_string(), "b".to_string()]));
    let err = resolve_env("tags", "EC_ENV_TAGS", "a,b", vec!["x".to_string()], as_strings).unwrap_err();
    assert!(err.message().contains("expected a sequence"), "got: {}", err.message());
}

#[test]
fn an_undecodable_environment_value_names_the_variable_not_the_field_type() {
    for raw in ["banana", "", "1.5", "-1", "99999", "[]"] {
        let err = resolve_env("port", "EC_ENV_PORT", raw, 1u16, as_u16).unwrap_err();
        assert!(err.message().contains("environment variable EC_ENV_PORT"), "for {raw:?}, got: {}", err.message());
    }
}

#[test]
fn line_numbers_survive_multiline_strings() {
    assert_eq!(line_of_error("banner = \"\"\"\nline A\nline B\n\"\"\"\nport = \"bad\"\n"), 5);
}

#[test]
fn the_first_reading_that_decodes_is_offered() {
    let got: Offer<u16> = choose_offer("x", vec![Err("a".to_string()), Ok(2), Ok(3)]);
    assert_eq!(got, Offer::Value(2));
    let got: Offer<u16> = choose_offer("x", vec![Err("a".to_string()), Err("b".to_string())]);
    assert_eq!(got, Offer::Invalid { raw: "x".to_string(), reason: "a".to_string() });
    let got: Offer<u16> = choose_offer("y", vec![]);
    assert_eq!(got, Offer::Invalid { raw: "y".to_string(), reason: String::new() });
}
