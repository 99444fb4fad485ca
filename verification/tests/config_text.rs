use clap_layers::config::config_from_read;
use clap_layers::config::file_layer;
use clap_layers::config::FileRead;
use clap_layers::{parse_config_text, LayeredError, TomlValue};

fn parsed(text: &str) -> clap_layers::ConfigValues {
    match parse_config_text(text) {
        Ok(v) => v,
        Err((line, m)) => panic!("unexpected error on line {line}: {m}"),
    }
}

fn error_of(text: &str) -> (usize, String) {
    match parse_config_text(text) {
        Ok(_) => panic!("expected an error for {text:?}"),
        Err(e) => e,
    }
}

fn int_of(v: &TomlValue) -> i64 {
    match v {
        TomlValue::Int(i) => *i,
        other => panic!("expected an integer, got {other:?}"),
    }
}

fn str_of(v: &TomlValue) -> &str {
    match v {
        TomlValue::Str(s) => s,
        other => panic!("expected a string, got {other:?}"),
    }
}

#[test]
fn top_level_settings_are_read_with_their_lines() {
    let values = parsed("port = 8080\nhost = \"localhost\"\n");
    assert_eq!(values.entries().len(), 2);
    let port = values.get("port").unwrap();
    assert_eq!(int_of(&port.value), 8080);
    assert_eq!(port.raw, "8080");
    assert_eq!(port.line, 1);
    let host = values.get("host").unwrap();
    assert_eq!(str_of(&host.value), "localhost");
    assert_eq!(host.raw, "\"localhost\"");
    assert_eq!(host.line, 2);
}

#[test]
fn strings_are_decoded() {
    let values = parsed("a = \"x\\\\y\\\"z\\n\"\nb = 'c:\\path'\nc = \"\"\n");
    assert_eq!(str_of(&values.get("a").unwrap().value), "x\\y\"z\n");
    assert_eq!(str_of(&values.get("b").unwrap().value), "c:\\path");
    assert_eq!(str_of(&values.get("c").unwrap().value), "");
}

#[test]
fn comments_and_blank_lines_set_nothing() {
    let values = parsed("# a comment\n\n   \nport = 1 # trailing\n");
    assert_eq!(values.entries().len(), 1);
    assert_eq!(values.get("port").unwrap().line, 4);
}

#[test]
fn section_headers_are_not_flattened_into_top_level_keys() {
    let values = parsed("[server]\nport = 5000\n\n[client]\nport = 6000\n");
    assert!(values.get("port").is_none());
    let server = values.get("server").unwrap();
    assert_eq!(server.line, 1);
    assert_eq!(server.raw, "{ port = 5000 }");
    match &server.value {
        TomlValue::Table(items) => {
            assert_eq!(items.len(), 1);
            assert_eq!(items[0].0, "port");
            assert_eq!(int_of(&items[0].1), 5000);
        }
        other => panic!("expected a table, got {other:?}"),
    }
    assert!(values.get("client").is_some());
}

#[test]
fn a_duplicate_key_is_a_parse_error() {
    assert_eq!(error_of("port = 1\nport = 2\n"), (2, "duplicate key".to_string()));
    let err = file_layer("edge_dupkey.toml", FileRead::Text("port = 1\nport = 2\n".to_string()));
    assert!(matches!(err, Err(LayeredError::Parse { .. })));
    assert_eq!(error_of("[s]\na = 1\na = 2\n"), (3, "duplicate key".to_string()));
    assert_eq!(error_of("[s]\n[s]\n"), (2, "duplicate table".to_string()));
    assert_eq!(error_of("s = 1\n[s]\n"), (2, "duplicate table".to_string()));
}

#[test]
fn malformed_lines_are_parse_errors_with_their_line() {
    assert_eq!(error_of("host = \"ok\"\nport = = 3\n").0, 2);
    assert_eq!(error_of("just words\n").0, 1);
    assert_eq!(error_of("a = 1 2\n"), (1, "unexpected text after value".to_string()));
    assert_eq!(error_of("a = \"open\n"), (1, "unterminated string".to_string()));
    assert_eq!(error_of("a = 00\n"), (1, "invalid number".to_string()));
}

#[test]
fn arrays_and_inline_tables_are_read() {
    let values = parsed("tags = [\"p\", \"q\",]\nserver = { host = \"h\", port = 99 }\nempty = []\n");
    match &values.get("tags").unwrap().value {
        TomlValue::Array(items) => {
            assert_eq!(items.len(), 2);
            assert_eq!(str_of(&items[1]), "q");
        }
        other => panic!("expected an array, got {other:?}"),
    }
    match &values.get("server").unwrap().value {
        TomlValue::Table(items) => {
            assert_eq!(items[0].0, "host");
            assert_eq!(int_of(&items[1].1), 99);
        }
        other => panic!("expected a table, got {other:?}"),
    }
    assert_eq!(values.get("server").unwrap().raw, "{ host = \"h\", port = 99 }");
    assert_eq!(error_of("t = { a = 1, a = 2 }\n"), (1, "duplicate key".to_string()));
}

#[test]
fn numbers_and_booleans_are_read() {
    let values = parsed("a = -1\nb = +7\nc = 1.5\nd = true\ne = false\nf = 9223372036854775807\ng = -9223372036854775808\n");
    assert_eq!(int_of(&values.get("a").unwrap().value), -1);
    assert_eq!(int_of(&values.get("b").unwrap().value), 7);
    match &values.get("c").unwrap().value {
        TomlValue::Float(s) => assert_eq!(s, "1.5"),
        other => panic!("expected a float, got {other:?}"),
    }
    assert!(matches!(values.get("d").unwrap().value, TomlValue::Bool(true)));
    assert!(matches!(values.get("e").unwrap().value, TomlValue::Bool(false)));
    assert_eq!(int_of(&values.get("f").unwrap().value), i64::MAX);
    assert_eq!(int_of(&values.get("g").unwrap().value), i64::MIN);
    assert_eq!(error_of("h = 9223372036854775808\n"), (1, "integer out of range".to_string()));
    assert_eq!(error_of("h = 99999999999999999999999\n"), (1, "integer out of range".to_string()));
}

#[test]
fn crlf_line_endings_keep_line_numbers() {
    let values = parsed("# c\r\nhost = \"x\"\r\nport = \"bad\"\r\n");
    assert_eq!(values.get("host").unwrap().line, 2);
    assert_eq!(values.get("port").unwrap().line, 3);
}

#[test]
fn multibyte_characters_keep_line_numbers() {
    let values = parsed("# ★ ünicode ★\nname = \"日本語のテキスト\"\nport = \"bad\"\n");
    assert_eq!(str_of(&values.get("name").unwrap().value), "日本語のテキスト");
    assert_eq!(values.get("port").unwrap().line, 3);
}

#[test]
fn quoted_keys_are_read() {
    let values = parsed("\"a b\" = 1\n'c' = 2\n");
    assert!(values.get("a b").is_some());
    assert!(values.get("c").is_some());
}

#[test]
fn empty_text_sets_nothing() {
    assert!(parsed("").entries().is_empty());
    assert!(parsed("\n\n").entries().is_empty());
}

#[test]
fn read_failure_is_an_io_error_naming_the_path() {
    let err = config_from_read("app.toml", Err("permission denied".to_string())).err().unwrap();
    assert_eq!(err, LayeredError::Io { path: "app.toml".to_string(), source: "permission denied".to_string() });
    assert_eq!(err.message(), "could not read config file 'app.toml': permission denied");
}

#[test]
fn a_malformed_file_is_a_parse_error_naming_file_and_line() {
    let err = config_from_read("app.toml", Ok("host = \"ok\"\nport = = 3\n".to_string())).err().unwrap();
    assert_eq!(
        err,
        LayeredError::Parse { path: "app.toml".to_string(), line: 2, message: "expected a value".to_string() }
    );
    assert_eq!(err.message(), "TOML parse error at app.toml, line 2: expected a value");
}

#[test]
fn a_missing_file_sets_nothing() {
    assert!(file_layer("absent.toml", FileRead::Missing).ok().unwrap().entries().is_empty());
}

#[test]
fn an_unreadable_file_is_an_error() {
    let err = file_layer("locked.toml", FileRead::Unreadable("denied".to_string())).err().unwrap();
    assert_eq!(err, LayeredError::Io { path: "locked.toml".to_string(), source: "denied".to_string() });
}

#[test]
fn a_readable_file_is_parsed() {
    let values = file_layer("a.toml", FileRead::Text("x = 1\ny = 2".to_string())).ok().unwrap();
    assert_eq!(values.get("y").unwrap().line, 2);
}

/// A string written as a TOML basic string, as `law_a_written_string_reads_back` has it.
fn quoted(s: &str) -> String {
    let mut out = String::from("\"");
    for c in s.chars() {
        match c {
            '"' => out.push_str("\\\""),
            '\\' => out.push_str("\\\\"),
            '\n' => out.push_str("\\n"),
            '\t' => out.push_str("\\t"),
            '\r' => out.push_str("\\r"),
            '\u{8}' => out.push_str("\\b"),
            '\u{c}' => out.push_str("\\f"),
            other => out.push(other),
        }
    }
    out.push('"');
    out
}

/// A string written as a multi-line basic string: `"` and `\` escaped.
fn ml_quoted(s: &str) -> String {
    let mut out = String::from("\"\"\"\n");
    for c in s.chars() {
        match c {
            '"' => out.push_str("\\\""),
            '\\' => out.push_str("\\\\"),
            other => out.push(other),
        }
    }
    out.push_str("\"\"\"");
    out
}

/// The forms in which `s` can be written.
fn forms(s: &str) -> Vec<String> {
    let mut out = vec![quoted(s), ml_quoted(s)];
    if !s.contains('\'') && !s.contains('\n') {
        out.push(format!("'{s}'"));
    }
    if !s.contains("'''") {
        out.push(format!("'''\n{s}'''"));
    }
    out
}

#[test]
fn a_written_string_survives_the_file_layer() {
    let samples = [
        "", "plain", "a\\b", "say \"hi\"", "two\nlines", "tab\there", "\u{65e5}\u{672c}",
        "# not a comment", "'single'", "ends with '", "ends with ''", "\"\"\"", "line\n\n\nbreaks\n",
        "\r\nwindows", "[not = a table]",
    ];
    for value in samples {
        for written in forms(value) {
            let text = format!("host = {written}\nport = 1\n");
            let values = parsed(&text);
            let host = values.get("host").unwrap();
            assert_eq!(str_of(&host.value), value, "for {written:?}");
            assert_eq!(host.raw, written);
            assert_eq!(host.line, 1);
            let breaks = written.matches('\n').count();
            assert_eq!(values.get("port").unwrap().line, 2 + breaks, "for {written:?}");
            assert_eq!(values.entries().len(), 2);
        }
    }
}

#[test]
fn multi_line_strings_are_read() {
    let values = parsed("host = \"\"\"\na\nb\"\"\"\n");
    assert_eq!(str_of(&values.get("host").unwrap().value), "a\nb");
    let values = parsed("a = \"\"\"no break\"\"\"\nb = '''\r\nwin'''\nc = \"\"\"x\\\n    y \\\n\n  z\"\"\"\nd = \"\"\"q\"\"\"\"\ne = '''q'''''\n");
    assert_eq!(str_of(&values.get("a").unwrap().value), "no break");
    assert_eq!(str_of(&values.get("b").unwrap().value), "win");
    assert_eq!(str_of(&values.get("c").unwrap().value), "xy z");
    assert_eq!(str_of(&values.get("d").unwrap().value), "q\"");
    assert_eq!(str_of(&values.get("e").unwrap().value), "q''");
    assert_eq!(values.get("c").unwrap().line, 4);
    assert_eq!(values.get("e").unwrap().line, 9);
}

#[test]
fn multi_line_string_errors_keep_their_statement_line() {
    assert_eq!(error_of("a = 1\nb = \"\"\"\nnever closed\n"), (2, "unterminated string".to_string()));
    assert_eq!(error_of("a = '''x''''''\n"), (1, "too many quotes in string".to_string()));
    assert_eq!(error_of("a = \"\"\"\nx\n\"\"\" oops\n"), (1, "unexpected text after value".to_string()));
    assert_eq!(error_of("a = \"single\nline\"\n"), (1, "unterminated string".to_string()));
    assert_eq!(error_of("a = 'single\nline'\n"), (1, "unterminated string".to_string()));
}

#[test]
fn a_quoted_environment_value_is_its_content() {
    for value in ["", "quoted", "a \"b\" c", "x\\y"] {
        match clap_layers::env::read_env_value(&quoted(value)) {
            TomlValue::Str(s) => assert_eq!(s, value),
            other => panic!("expected a string, got {other:?}"),
        }
    }
}

#[test]
fn unicode_escapes_are_decoded() {
    let values = parsed("a = \"\\u00e9t\\u00E9\"\nb = \"\\U0001F600\"\nc = \"\\u001f\"\n");
    assert_eq!(str_of(&values.get("a").unwrap().value), "\u{e9}t\u{e9}");
    assert_eq!(str_of(&values.get("b").unwrap().value), "\u{1F600}");
    assert_eq!(str_of(&values.get("c").unwrap().value), "\u{1f}");
    for bad in ["a = \"\\uD800\"\n", "a = \"\\u12\"\n", "a = \"\\uzzzz\"\n", "a = \"\\U00110000\"\n"] {
        let (line, m) = error_of(bad);
        assert_eq!(line, 1, "for {bad:?}");
        assert_eq!(m, "invalid unicode escape in string", "for {bad:?}");
    }
}

fn float_of(v: &TomlValue) -> &str {
    match v {
        TomlValue::Float(s) => s,
        other => panic!("expected a float, got {other:?}"),
    }
}

#[test]
fn all_integer_and_float_forms_are_read() {
    let values = parsed(
        "a = 1_000\nb = 0xDEAD_beef\nc = 0o755\nd = 0b1101\ne = 1e6\nf = -2.5E-3\ng = 6.626_070e-34\nh = inf\ni = -nan\nj = +inf\nk = 0x7FFF_FFFF_FFFF_FFFF\n",
    );
    assert_eq!(int_of(&values.get("a").unwrap().value), 1000);
    assert_eq!(int_of(&values.get("b").unwrap().value), 0xDEAD_BEEF);
    assert_eq!(int_of(&values.get("c").unwrap().value), 0o755);
    assert_eq!(int_of(&values.get("d").unwrap().value), 13);
    assert_eq!(float_of(&values.get("e").unwrap().value), "1e6");
    assert_eq!(float_of(&values.get("f").unwrap().value), "-2.5E-3");
    assert_eq!(float_of(&values.get("g").unwrap().value), "6.626070e-34");
    assert_eq!(float_of(&values.get("h").unwrap().value), "inf");
    assert_eq!(float_of(&values.get("i").unwrap().value), "-nan");
    assert_eq!(float_of(&values.get("j").unwrap().value), "+inf");
    assert_eq!(int_of(&values.get("k").unwrap().value), i64::MAX);
    for bad in ["a = 1__0\n", "a = 1_\n", "a = 0x\n", "a = 0b102\n", "a = 1.\n", "a = 1e\n", "a = 01\n", "a = 0x_1\n"] {
        assert_eq!(error_of(bad).1, "invalid number", "for {bad:?}");
    }
    assert_eq!(error_of("a = 0x8000_0000_0000_0000\n"), (1, "integer out of range".to_string()));
}

#[test]
fn arrays_may_span_lines_with_comments() {
    let values = parsed("tags = [\n  \"a\", # first\n  \"b\",\n]\nport = 1\n");
    match &values.get("tags").unwrap().value {
        TomlValue::Array(items) => {
            assert_eq!(items.len(), 2);
            assert_eq!(str_of(&items[1]), "b");
        }
        other => panic!("expected an array, got {other:?}"),
    }
    assert_eq!(values.get("port").unwrap().line, 5);
}

#[test]
fn dates_and_times_are_read_as_written() {
    let values = parsed(
        "a = 1979-05-27T07:32:00Z\nb = 1979-05-27 00:32:00.999999-07:00\nc = 1979-05-27\nd = 07:32:00\ne = 1979-05-27T07:32:00 # local\n",
    );
    for (key, text) in [
        ("a", "1979-05-27T07:32:00Z"),
        ("b", "1979-05-27 00:32:00.999999-07:00"),
        ("c", "1979-05-27"),
        ("d", "07:32:00"),
        ("e", "1979-05-27T07:32:00"),
    ] {
        match &values.get(key).unwrap().value {
            TomlValue::Datetime(s) => assert_eq!(s, text),
            other => panic!("expected a date-time for {key}, got {other:?}"),
        }
    }
    assert_eq!(error_of("a = 1979-05-27T07:32\n").1, "unexpected text after value");
}

#[test]
fn nested_table_forms_are_refused_by_name() {
    assert_eq!(error_of("a.b = 1\n"), (1, "dotted keys are not read".to_string()));
    assert_eq!(error_of("x = 1\n[a.b]\n"), (2, "dotted table names are not read".to_string()));
    assert_eq!(error_of("[[a]]\n"), (1, "arrays of tables are not read".to_string()));
}
