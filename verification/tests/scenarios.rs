use clap_layers::env::env_readings;
use clap_layers::plan::{AttrOption, FieldDecl, FieldKind, ItemShape, OptionValue, StructDecl};
use clap_layers::resolve::{choose_offer, CliOrigin, EnvOffer, FileOffer, Offer};
use clap_layers::{parse_config_text, plan_derive, resolve_field, Env, LayeredError, TomlValue};

type Decode<T> = fn(&TomlValue) -> Result<T, String>;

fn env_of(pairs: &[(&str, &str)]) -> Env {
    Env::from_pairs(pairs.iter().map(|(k, v)| (k.to_string(), v.to_string())).collect())
}

fn no_env() -> Env {
    Env::empty()
}

/// One field of a struct with the given `env_prefix` and configuration file
/// text, planned by the derive's rules and resolved over the layers: what the
/// generated code does for it.
#[allow(clippy::too_many_arguments)]
fn field<T>(
    prefix: Option<&str>,
    file: Option<&str>,
    ident: &str,
    kind: FieldKind,
    markers: &[&str],
    origin: CliOrigin,
    cli: T,
    env: &Env,
    decode: Decode<T>,
) -> Result<T, LayeredError> {
    let mut options = Vec::new();
    if let Some(p) = prefix {
        options.push(AttrOption { name: "env_prefix".to_string(), value: OptionValue::Text(p.to_string()) });
    }
    if file.is_some() {
        options.push(AttrOption { name: "file".to_string(), value: OptionValue::Text("app.toml".to_string()) });
    }
    let field_options = markers.iter().map(|m| AttrOption { name: m.to_string(), value: OptionValue::Bare }).collect();
    let decl = StructDecl {
        shape: ItemShape::NamedStruct,
        options,
        fields: vec![FieldDecl { ident: ident.to_string(), kind, options: field_options, arg_id: None }],
    };
    let plan = plan_derive(&decl).unwrap();
    let fp = &plan.fields[0];
    let env_offer = match &fp.env_var {
        None => EnvOffer { var: String::new(), offer: Offer::Absent },
        Some(var) => EnvOffer {
            var: var.clone(),
            offer: match env.get(var) {
                None => Offer::Absent,
                Some(raw) => choose_offer(raw, env_readings(raw).iter().map(decode).collect()),
            },
        },
    };
    let file_offer = match (&plan.file, file) {
        (Some(path), Some(text)) if !fp.markers.no_file => {
            let values = parse_config_text(text).unwrap();
            match values.get(&fp.key) {
                None => FileOffer { path: path.clone(), line: 0, offer: Offer::Absent },
                Some(e) => FileOffer {
                    path: path.clone(),
                    line: e.line,
                    offer: match decode(&e.value) {
                        Ok(v) => Offer::Value(v),
                        Err(reason) => Offer::Invalid { raw: e.written(), reason },
                    },
                },
            }
        }
        _ => FileOffer { path: String::new(), line: 0, offer: Offer::Absent },
    };
    resolve_field(&fp.key, fp.markers, origin, cli, env_offer, file_offer).map(|r| r.value)
}

fn arg<T>(prefix: Option<&str>, file: Option<&str>, ident: &str, origin: CliOrigin, cli: T, env: &Env, decode: Decode<T>) -> T {
    field(prefix, file, ident, FieldKind::Arg, &[], origin, cli, env, decode).unwrap()
}

fn as_u16(v: &TomlValue) -> Result<u16, String> {
    match v {
        TomlValue::Int(i) if (0..=65535).contains(i) => Ok(*i as u16),
        _ => Err("expected u16".to_string()),
    }
}

fn as_u8(v: &TomlValue) -> Result<u8, String> {
    match v {
        TomlValue::Int(i) if (0..=255).contains(i) => Ok(*i as u8),
        _ => Err("expected u8".to_string()),
    }
}

fn as_bool(v: &TomlValue) -> Result<bool, String> {
    match v {
        TomlValue::Bool(b) => Ok(*b),
        _ => Err("expected a boolean".to_string()),
    }
}

fn as_string(v: &TomlValue) -> Result<String, String> {
    match v {
        TomlValue::Str(s) => Ok(s.clone()),
        _ => Err("expected a string".to_string()),
    }
}

fn as_strings(v: &TomlValue) -> Result<Vec<String>, String> {
    match v {
        TomlValue::Array(items) => items.iter().map(as_string).collect(),
        _ => Err("expected a sequence".to_string()),
    }
}

fn as_opt_u16(v: &TomlValue) -> Result<Option<u16>, String> {
    as_u16(v).map(Some)
}

#[derive(Debug, Clone, PartialEq)]
enum Mode {
    Fast,
    Slow,
    ExtraSlow,
}

fn as_mode(v: &TomlValue) -> Result<Mode, String> {
    match v {
        TomlValue::Str(s) if s == "fast" => Ok(Mode::Fast),
        TomlValue::Str(s) if s == "slow" => Ok(Mode::Slow),
        TomlValue::Str(s) if s == "extra-slow" => Ok(Mode::ExtraSlow),
        _ => Err("unknown variant".to_string()),
    }
}

use CliOrigin::{CommandLine, DefaultValue};

/// The four rows of the matrix for one field type: none, file, env over file,
/// flag over env and file.
fn matrix<T: PartialEq + std::fmt::Debug + Clone>(
    prefix: &str,
    ident: &str,
    file: &str,
    env_var: &str,
    env_raw: &str,
    default: T,
    file_v: T,
    env_v: T,
    flag_v: T,
    decode: Decode<T>,
) {
    assert_eq!(arg(Some(prefix), None, ident, DefaultValue, default.clone(), &no_env(), decode), default);
    assert_eq!(arg(Some(prefix), Some(file), ident, DefaultValue, default.clone(), &no_env(), decode), file_v);
    let env = env_of(&[(env_var, env_raw)]);
    assert_eq!(arg(Some(prefix), Some(file), ident, DefaultValue, default.clone(), &env, decode), env_v);
    assert_eq!(arg(Some(prefix), Some(file), ident, CommandLine, flag_v.clone(), &env, decode), flag_v);
}

#[test]
fn matrix_u16() {
    matrix("MX_U16", "port", "port = 5000\n", "MX_U16_PORT", "8080", 3000u16, 5000, 8080, 9000, as_u16);
}

#[test]
fn matrix_bool() {
    matrix("MX_BOOL", "verbose", "verbose = true\n", "MX_BOOL_VERBOSE", "false", false, true, false, true, as_bool);
}

#[test]
fn matrix_string() {
    matrix(
        "MX_STR", "host", "host = \"file-host\"\n", "MX_STR_HOST", "env-host",
        "localhost".to_string(), "file-host".to_string(), "env-host".to_string(), "flag-host".to_string(), as_string,
    );
}

#[test]
fn matrix_vec() {
    let s = |v: &[&str]| v.iter().map(|x| x.to_string()).collect::<Vec<String>>();
    matrix(
        "MX_VEC", "tags", "tags = [\"f1\", \"f2\"]\n", "MX_VEC_TAGS", "[\"e1\"]",
        s(&["d"]), s(&["f1", "f2"]), s(&["e1"]), s(&["x", "y"]), as_strings,
    );
}

#[test]
fn matrix_option() {
    matrix("MX_OPT", "timeout", "timeout = 5000\n", "MX_OPT_TIMEOUT", "8080", None, Some(5000u16), Some(8080), Some(9000), as_opt_u16);
}

#[test]
fn matrix_enum() {
    matrix("MX_ENUM", "mode", "mode = \"slow\"\n", "MX_ENUM_MODE", "extra-slow", Mode::Fast, Mode::Slow, Mode::ExtraSlow, Mode::Slow, as_mode);
}

#[test]
fn explicit_flag_equal_to_default_still_beats_env_and_file() {
    let env = env_of(&[("MX_EQ_PORT", "8080")]);
    let file = Some("port = 5000\n");
    assert_eq!(arg(Some("MX_EQ"), file, "port", DefaultValue, 3000u16, &env, as_u16), 8080);
    assert_eq!(arg(Some("MX_EQ"), file, "port", CommandLine, 3000u16, &env, as_u16), 3000);
}

#[test]
fn untouched_default_loses_to_every_layer() {
    assert_eq!(arg(None, Some("port = 5000\n"), "port", DefaultValue, 3000u16, &no_env(), as_u16), 5000);
}

#[test]
fn fields_resolve_independently() {
    let file = Some("from_file = \"file\"\nfrom_env = \"file\"\nfrom_flag = \"file\"\n");
    let env = env_of(&[("MX_MIX_FROM_ENV", "env"), ("MX_MIX_FROM_FLAG", "env")]);
    let d = || "default".to_string();
    assert_eq!(arg(Some("MX_MIX"), file, "from_default", DefaultValue, d(), &env, as_string), "default");
    assert_eq!(arg(Some("MX_MIX"), file, "from_file", DefaultValue, d(), &env, as_string), "file");
    assert_eq!(arg(Some("MX_MIX"), file, "from_env", DefaultValue, d(), &env, as_string), "env");
    assert_eq!(arg(Some("MX_MIX"), file, "from_flag", CommandLine, "flag".to_string(), &env, as_string), "flag");
}

#[test]
fn falsy_values_from_the_file_are_set_not_absent() {
    let file = Some("verbose = false\nport = 0\nhost = \"\"\ntags = []\n");
    assert!(!arg(None, file, "verbose", DefaultValue, true, &no_env(), as_bool));
    assert_eq!(arg(None, file, "port", DefaultValue, 3000u16, &no_env(), as_u16), 0);
    assert_eq!(arg(None, file, "host", DefaultValue, "h".to_string(), &no_env(), as_string), "");
    assert!(arg(None, file, "tags", DefaultValue, vec!["x".to_string()], &no_env(), as_strings).is_empty());
}

#[test]
fn falsy_values_from_the_environment_are_set_not_absent() {
    let file = Some("verbose = true\nport = 1\nhost = \"file\"\ntags = [\"f\"]\n");
    let env = env_of(&[("EC_FALSY_VERBOSE", "false"), ("EC_FALSY_PORT", "0"), ("EC_FALSY_HOST", ""), ("EC_FALSY_TAGS", "[]")]);
    let p = Some("EC_FALSY");
    assert!(!arg(p, file, "verbose", DefaultValue, true, &env, as_bool));
    assert_eq!(arg(p, file, "port", DefaultValue, 3000u16, &env, as_u16), 0);
    assert_eq!(arg(p, file, "host", DefaultValue, "h".to_string(), &env, as_string), "");
    assert!(arg(p, file, "tags", DefaultValue, vec!["x".to_string()], &env, as_strings).is_empty());
}

#[test]
fn raw_identifier_fields_resolve_on_every_layer() {
    let file = Some("type = 50\nmatch = 60\n");
    let p = Some("EC_RAW");
    assert_eq!(arg(p, file, "r#match", DefaultValue, 2u16, &no_env(), as_u16), 60);
    assert_eq!(arg(p, file, "r#type", DefaultValue, 1u16, &no_env(), as_u16), 50);
    let env = env_of(&[("EC_RAW_TYPE", "70")]);
    assert_eq!(arg(p, file, "r#type", DefaultValue, 1u16, &env, as_u16), 70);
    assert_eq!(arg(p, file, "r#type", CommandLine, 80u16, &env, as_u16), 80);
}

#[derive(Debug, PartialEq)]
struct Server {
    host: String,
    port: u16,
}

fn as_server(v: &TomlValue) -> Result<Server, String> {
    match v {
        TomlValue::Table(entries) => {
            let get = |k: &str| entries.iter().find(|(key, _)| key == k).map(|(_, v)| v).ok_or(format!("missing field `{k}`"));
            Ok(Server { host: as_string(get("host")?)?, port: as_u16(get("port")?)? })
        }
        _ => Err("expected a table".to_string()),
    }
}

fn nested(file: &str, env: &Env) -> Server {
    let default = Server { host: String::new(), port: 0 };
    field(Some("EC_NEST"), Some(file), "server", FieldKind::Skipped, &["no_cli"], CliOrigin::NotAnArgument, default, env, as_server).unwrap()
}

#[test]
fn a_section_table_deserializes_into_a_nested_struct() {
    let got = nested("[server]\nhost = \"h\"\nport = 99\n", &no_env());
    assert_eq!(got, Server { host: "h".to_string(), port: 99 });
}

#[test]
fn a_nested_struct_can_come_from_the_environment_as_an_inline_table() {
    let env = env_of(&[("EC_NEST_SERVER", "{ host = \"env\", port = 2 }")]);
    let got = nested("[server]\nhost = \"file\"\nport = 1\n", &env);
    assert_eq!(got, Server { host: "env".to_string(), port: 2 });
}

#[test]
fn a_count_action_layers_like_any_other_field() {
    let p = Some("EC_COUNT");
    assert_eq!(arg(p, None, "verbose", DefaultValue, 0u8, &no_env(), as_u8), 0);
    assert_eq!(arg(p, None, "verbose", CommandLine, 3u8, &no_env(), as_u8), 3);
    let env = env_of(&[("EC_COUNT_VERBOSE", "7")]);
    assert_eq!(arg(p, None, "verbose", DefaultValue, 0u8, &env, as_u8), 7);
    assert_eq!(arg(p, None, "verbose", CommandLine, 3u8, &env, as_u8), 3);
}

#[test]
fn no_env_ignores_the_environment_layer() {
    let env = env_of(&[("MK_NOENV_USER", "env-user"), ("MK_NOENV_SECRET", "leaked")]);
    let p = Some("MK_NOENV");
    assert_eq!(arg(p, None, "user", DefaultValue, "default-user".to_string(), &env, as_string), "env-user");
    let secret = field(p, None, "secret", FieldKind::Arg, &["no_env"], DefaultValue, "default-secret".to_string(), &env, as_string);
    assert_eq!(secret.unwrap(), "default-secret");
}

#[test]
fn no_file_ignores_the_file_layer() {
    let file = Some("user = \"file-user\"\nsecret = \"leaked\"\n");
    assert_eq!(arg(None, file, "user", DefaultValue, "default-user".to_string(), &no_env(), as_string), "file-user");
    let secret = field(None, file, "secret", FieldKind::Arg, &["no_file"], DefaultValue, "default-secret".to_string(), &no_env(), as_string);
    assert_eq!(secret.unwrap(), "default-secret");
}

#[test]
fn no_env_and_no_file_leave_only_the_command_line() {
    let env = env_of(&[("MK_BOTH_PASSWORD", "from-env")]);
    let file = Some("password = \"from-file\"\n");
    let got = field(Some("MK_BOTH"), file, "password", FieldKind::Arg, &["no_env", "no_file"], CommandLine, "typed".to_string(), &env, as_string);
    assert_eq!(got.unwrap(), "typed");
    let got = field(Some("MK_BOTH"), file, "password", FieldKind::Arg, &["no_env", "no_file"], DefaultValue, String::new(), &env, as_string);
    assert_eq!(got.unwrap(), "");
}

#[test]
fn no_cli_field_is_not_a_flag_but_still_layers() {
    let file = Some("instance_id = \"from-file\"\n");
    let get = |env: &Env| {
        field(Some("MK_NOCLI"), file, "instance_id", FieldKind::Skipped, &["no_cli"], CliOrigin::NotAnArgument, "built-in".to_string(), env, as_string)
            .unwrap()
    };
    assert_eq!(get(&no_env()), "from-file");
    assert_eq!(get(&env_of(&[("MK_NOCLI_INSTANCE_ID", "from-env")])), "from-env");
}

#[test]
fn arg_skip_without_no_cli_does_not_panic_on_value_source() {
    let get = |env: &Env| {
        field(Some("MK_SKIP"), None, "internal", FieldKind::Skipped, &[], CliOrigin::NotAnArgument, 7u16, env, as_u16).unwrap()
    };
    assert_eq!(get(&no_env()), 7);
    assert_eq!(get(&env_of(&[("MK_SKIP_INTERNAL", "42")])), 42);
}

#[test]
fn flattened_structs_are_passed_through_untouched() {
    let decl = StructDecl {
        shape: ItemShape::NamedStruct,
        options: vec![AttrOption { name: "env_prefix".to_string(), value: OptionValue::Text("MK_FLAT".to_string()) }],
        fields: vec![
            FieldDecl { ident: "port".to_string(), kind: FieldKind::Arg, options: vec![], arg_id: None },
            FieldDecl { ident: "nested".to_string(), kind: FieldKind::Flattened, options: vec![], arg_id: None },
        ],
    };
    let plan = plan_derive(&decl).unwrap();
    assert_eq!(plan.fields[1].kind, FieldKind::Flattened);
    assert_eq!(arg(Some("MK_FLAT"), None, "port", DefaultValue, 3000u16, &no_env(), as_u16), 3000);
}

#[test]
fn a_subcommand_field_is_passed_through_while_siblings_still_layer() {
    let decl = StructDecl {
        shape: ItemShape::NamedStruct,
        options: vec![AttrOption { name: "env_prefix".to_string(), value: OptionValue::Text("EC_SUB".to_string()) }],
        fields: vec![
            FieldDecl { ident: "port".to_string(), kind: FieldKind::Arg, options: vec![], arg_id: None },
            FieldDecl { ident: "command".to_string(), kind: FieldKind::Subcommand, options: vec![], arg_id: None },
        ],
    };
    let plan = plan_derive(&decl).unwrap();
    assert_eq!(plan.fields[1].kind, FieldKind::Subcommand);
    let file = Some("port = 5000\n");
    assert_eq!(arg(Some("EC_SUB"), file, "port", DefaultValue, 3000u16, &no_env(), as_u16), 5000);
    let env = env_of(&[("EC_SUB_PORT", "8080")]);
    assert_eq!(arg(Some("EC_SUB"), file, "port", DefaultValue, 3000u16, &env, as_u16), 8080);
}
