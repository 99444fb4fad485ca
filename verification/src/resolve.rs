//! Deciding which layer supplies a field's value.
//!
//! Highest wins: a value clap took from the command line (or from its own
//! `#[arg(env)]` binding), then this crate's environment variable, then the
//! configuration file, then the built-in default. A value that the deciding
//! layer offers but that cannot be parsed is an error that names that layer; it
//! never falls through to a lower one.

use vstd::prelude::*;

use crate::error::ErrorView;
use crate::error::LayeredError;
use crate::layer::LayerView;
use crate::layer::SourceLayer;

verus! {

/// How clap obtained a field's value.
#[derive(Debug, Clone, PartialEq)]
pub enum CliOrigin {
    /// The user typed the flag.
    CommandLine,
    /// clap's own `#[arg(env = ...)]` binding found the named variable.
    EnvVariable(String),
    /// clap filled in the argument's default.
    DefaultValue,
    /// clap does not define the field (`#[arg(skip)]`); it holds its default.
    NotAnArgument,
}

/// The per-field layer markers of `#[layered(...)]`.
#[derive(Debug, Clone, Copy, PartialEq, Eq)]
pub struct FieldMarkers {
    /// The field is never a command-line flag.
    pub no_cli: bool,
    /// The field is never read from the environment.
    pub no_env: bool,
    /// The field is never read from the configuration file.
    pub no_file: bool,
}

/// What a lower layer offers for a field.
#[derive(Debug, Clone, PartialEq)]
pub enum Offer<T> {
    /// The layer does not set the field.
    Absent,
    /// The layer sets the field to this value.
    Value(T),
    /// The layer sets the field to text that does not parse.
    Invalid {
        /// The text as the layer holds it.
        raw: String,
        /// Why it does not parse.
        reason: String,
    },
}

/// The mathematical value of an [`Offer`].
pub enum OfferView<T> {
    /// See [`Offer::Absent`].
    Absent,
    /// See [`Offer::Value`].
    Value(T),
    /// See [`Offer::Invalid`].
    Invalid { raw: Seq<char>, reason: Seq<char> },
}

impl<T> View for Offer<T> {
    type V = OfferView<T>;

    open spec fn view(&self) -> OfferView<T> {
        match self {
            Offer::Absent => OfferView::Absent,
            Offer::Value(v) => OfferView::Value(*v),
            Offer::Invalid { raw, reason } => OfferView::Invalid { raw: raw@, reason: reason@ },
        }
    }
}

/// What the environment layer offers: the variable consulted and its content.
pub struct EnvOffer<T> {
    /// The name of the variable.
    pub var: String,
    /// What the variable holds for the field.
    pub offer: Offer<T>,
}

/// What the file layer offers: the file, the line of the setting, and its content.
pub struct FileOffer<T> {
    /// The path of the configuration file.
    pub path: String,
    /// The 1-based line of the setting (meaningless when the offer is absent).
    pub line: usize,
    /// What the file holds for the field.
    pub offer: Offer<T>,
}

/// A field's value and the layer it came from.
#[derive(Debug)]
pub struct Resolved<T> {
    /// The value.
    pub value: T,
    /// Where it came from.
    pub layer: SourceLayer,
}

/// The layers, in order of precedence.
#[derive(Debug, Clone, Copy, PartialEq, Eq)]
pub enum Layer {
    /// The command line (or clap's own environment binding).
    Cli,
    /// This crate's environment variable.
    Env,
    /// The configuration file.
    File,
    /// The built-in default.
    Default,
}

/// Whether clap's value is one the user supplied rather than a default.
pub open spec fn supplied_to_clap(origin: CliOrigin) -> bool {
    origin is CommandLine || origin is EnvVariable
}

/// The layer that decides a field: the highest one that is enabled and sets it.
pub open spec fn deciding_layer(
    markers: FieldMarkers,
    cli_supplied: bool,
    env_set: bool,
    file_set: bool,
) -> Layer {
    if !markers.no_cli && cli_supplied {
        Layer::Cli
    } else if !markers.no_env && env_set {
        Layer::Env
    } else if !markers.no_file && file_set {
        Layer::File
    } else {
        Layer::Default
    }
}

/// The layer that clap's value is attributed to.
pub open spec fn clap_layer(field: Seq<char>, origin: CliOrigin) -> LayerView {
    match origin {
        CliOrigin::EnvVariable(var) => LayerView::EnvVar(var@),
        _ => LayerView::CliFlag(field),
    }
}

/// The outcome of resolving a field: its value and layer, or the error that
/// names the layer whose value does not parse.
pub open spec fn resolution<T>(
    field: Seq<char>,
    markers: FieldMarkers,
    origin: CliOrigin,
    cli_value: T,
    env_var: Seq<char>,
    env: OfferView<T>,
    path: Seq<char>,
    line: nat,
    file: OfferView<T>,
) -> Result<(T, LayerView), ErrorView> {
    match deciding_layer(markers, supplied_to_clap(origin), !(env is Absent), !(file is Absent)) {
        Layer::Cli => Ok((cli_value, clap_layer(field, origin))),
        Layer::Env => match env {
            OfferView::Invalid { raw, reason } => Err(
                ErrorView::Invalid { field, value: raw, layer: LayerView::EnvVar(env_var), reason },
            ),
            OfferView::Value(v) => Ok((v, LayerView::EnvVar(env_var))),
            OfferView::Absent => Ok((cli_value, LayerView::Default)),
        },
        Layer::File => match file {
            OfferView::Invalid { raw, reason } => Err(
                ErrorView::Invalid {
                    field,
                    value: raw,
                    layer: LayerView::ConfigFile { path, line },
                    reason,
                },
            ),
            OfferView::Value(v) => Ok((v, LayerView::ConfigFile { path, line })),
            OfferView::Absent => Ok((cli_value, LayerView::Default)),
        },
        Layer::Default => Ok((cli_value, LayerView::Default)),
    }
}

/// The mathematical value of a resolution's outcome.
pub open spec fn outcome<T>(r: Result<Resolved<T>, LayeredError>) -> Result<(T, LayerView), ErrorView> {
    match r {
        Ok(res) => Ok((res.value, res.layer@)),
        Err(e) => Err(e@),
    }
}

/// Whether the `i`th of `decoded` is the first that succeeded, with `v`.
pub open spec fn first_success<T>(decoded: Seq<Result<T, String>>, i: int, v: T) -> bool {
    &&& 0 <= i < decoded.len()
    &&& decoded[i] == Ok::<T, String>(v)
    &&& forall|j: int| 0 <= j < i ==> (#[trigger] decoded[j]) is Err
}

/// What a layer offers, given the raw text it holds and the outcomes of
/// decoding its readings of that text, in order: the first value that
/// decoded; or, when none did, the text as invalid, with the reason the first
/// reading failed.
pub fn choose_offer<T>(raw: &str, decoded: Vec<Result<T, String>>) -> (offer: Offer<T>)
    ensures
        match offer {
            Offer::Value(v) => exists|i: int| #[trigger] first_success(decoded@, i, v),
            Offer::Invalid { raw: r, reason } => {
                &&& r@ == raw@
                &&& forall|j: int| 0 <= j < decoded@.len() ==> (#[trigger] decoded@[j]) is Err
                &&& reason@ == (if decoded@.len() > 0 {
                    decoded@[0]->Err_0@
                } else {
                    Seq::<char>::empty()
                })
            },
            Offer::Absent => false,
        },
{
    let ghost d = decoded@;
    let mut rest = decoded;
    let mut reason: Option<String> = None;
    let mut i: usize = 0;
    assert(d.skip(0) =~= d);
    let total = rest.len();
    assert(d.len() == total);
    while rest.len() > 0
        invariant
            i <= d.len(),
            d == decoded@,
            d.len() <= usize::MAX,
            rest@ == d.skip(i as int),
            forall|j: int| 0 <= j < i ==> (#[trigger] d[j]) is Err,
            i == 0 ==> reason is None,
            i > 0 ==> (reason matches Some(m) && m@ == d[0]->Err_0@),
        decreases rest@.len(),
    {
        assert(d.skip(i as int)[0] == d[i as int]);
        let r = rest.remove(0);
        assert(r == d[i as int]);
        assert(rest@ =~= d.skip(i + 1));
        match r {
            Ok(v) => {
                assert(d[i as int] == Ok::<T, String>(v));
                assert(first_success(d, i as int, v));
                let o = Offer::Value(v);
                assert(o matches Offer::Value(w) && first_success(decoded@, i as int, w));
                return o;
            },
            Err(m) => {
                if i == 0 {
                    reason = Some(m);
                }
            },
        }
        i = i + 1;
    }
    assert(i == d.len());
    let reason = match reason {
        Some(m) => m,
        None => String::new(),
    };
    Offer::Invalid { raw: String::from_str(raw), reason }
}

/// Whether an offer sets the field.
fn is_set<T>(offer: &Offer<T>) -> (set: bool)
    ensures
        set == !(offer@ is Absent),
{
    match offer {
        Offer::Absent => false,
        _ => true,
    }
}

/// The layer that decides a field, as [`deciding_layer`] defines it.
pub fn decide_layer(markers: FieldMarkers, cli_supplied: bool, env_set: bool, file_set: bool) -> (layer: Layer)
    ensures
        layer == deciding_layer(markers, cli_supplied, env_set, file_set),
{
    if !markers.no_cli && cli_supplied {
        Layer::Cli
    } else if !markers.no_env && env_set {
        Layer::Env
    } else if !markers.no_file && file_set {
        Layer::File
    } else {
        Layer::Default
    }
}

/// Resolves one field: `cli_value` is what clap produced (typed, from clap's
/// own environment binding, or its default) and `origin` says which; `env`
/// and `file` are what the lower layers hold for the field.
pub fn resolve_field<T>(
    field: &str,
    markers: FieldMarkers,
    origin: CliOrigin,
    cli_value: T,
    env: EnvOffer<T>,
    file: FileOffer<T>,
) -> (r: Result<Resolved<T>, LayeredError>)
    ensures
        outcome(r) == resolution(
            field@,
            markers,
            origin,
            cli_value,
            env.var@,
            env.offer@,
            file.path@,
            file.line as nat,
            file.offer@,
        ),
{
    let supplied = match &origin {
        CliOrigin::CommandLine => true,
        CliOrigin::EnvVariable(_) => true,
        _ => false,
    };
    let layer = decide_layer(markers, supplied, is_set(&env.offer), is_set(&file.offer));
    match layer {
        Layer::Cli => {
            let source = match origin {
                CliOrigin::EnvVariable(var) => SourceLayer::EnvVar(var),
                _ => SourceLayer::CliFlag(String::from_str(field)),
            };
            Ok(Resolved { value: cli_value, layer: source })
        },
        Layer::Env => match env.offer {
            Offer::Invalid { raw, reason } => Err(
                LayeredError::Invalid {
                    field: String::from_str(field),
                    value: raw,
                    layer: SourceLayer::EnvVar(env.var),
                    reason,
                },
            ),
            Offer::Value(v) => Ok(Resolved { value: v, layer: SourceLayer::EnvVar(env.var) }),
            Offer::Absent => Ok(Resolved { value: cli_value, layer: SourceLayer::Default }),
        },
        Layer::File => match file.offer {
            Offer::Invalid { raw, reason } => Err(
                LayeredError::Invalid {
                    field: String::from_str(field),
                    value: raw,
                    layer: SourceLayer::ConfigFile { path: file.path, line: file.line },
                    reason,
                },
            ),
            Offer::Value(v) => Ok(
                Resolved {
                    value: v,
                    layer: SourceLayer::ConfigFile { path: file.path, line: file.line },
                },
            ),
            Offer::Absent => Ok(Resolved { value: cli_value, layer: SourceLayer::Default }),
        },
        Layer::Default => Ok(Resolved { value: cli_value, layer: SourceLayer::Default }),
    }
}

/// The value the precedence rule picks when no layer holds an unparsable
/// value: the first layer that is enabled and set, else clap's default.
pub open spec fn first_set_value<T>(
    markers: FieldMarkers,
    origin: CliOrigin,
    cli_value: T,
    env: OfferView<T>,
    file: OfferView<T>,
) -> T {
    if !markers.no_cli && supplied_to_clap(origin) {
        cli_value
    } else if !markers.no_env && env is Value {
        env->Value_0
    } else if !markers.no_file && file is Value {
        file->Value_0
    } else {
        cli_value
    }
}

/// The highest-priority layer that is set wins, and every lower layer is
/// invisible: when no layer holds an unparsable value, the field gets the value
/// of the first enabled layer that sets it (flag, environment, file), or else
/// its default.
pub proof fn law_highest_set_layer_wins<T>(
    field: Seq<char>,
    markers: FieldMarkers,
    origin: CliOrigin,
    cli_value: T,
    env_var: Seq<char>,
    env: OfferView<T>,
    path: Seq<char>,
    line: nat,
    file: OfferView<T>,
)
    requires
        !(env is Invalid),
        !(file is Invalid),
    ensures
        resolution(field, markers, origin, cli_value, env_var, env, path, line, file) matches Ok(
            (v, _),
        ) && v == first_set_value(markers, origin, cli_value, env, file),
{
}

/// A flag the user typed beats every lower layer, even when the value typed is
/// the same as the default: the outcome is the typed value, attributed to the
/// flag, whatever the environment and the file hold.
pub proof fn law_explicit_flag_wins<T>(
    field: Seq<char>,
    markers: FieldMarkers,
    cli_value: T,
    env_var: Seq<char>,
    env: OfferView<T>,
    path: Seq<char>,
    line: nat,
    file: OfferView<T>,
)
    requires
        !markers.no_cli,
    ensures
        resolution(field, markers, CliOrigin::CommandLine, cli_value, env_var, env, path, line, file)
            == Ok::<(T, LayerView), ErrorView>((cli_value, LayerView::CliFlag(field))),
{
}

/// A value that clap's own `#[arg(env)]` binding read counts as supplied by the
/// user: it beats this crate's environment layer and the file.
pub proof fn law_clap_environment_beats_lower_layers<T>(
    field: Seq<char>,
    markers: FieldMarkers,
    clap_var: String,
    cli_value: T,
    env_var: Seq<char>,
    env: OfferView<T>,
    path: Seq<char>,
    line: nat,
    file: OfferView<T>,
)
    requires
        !markers.no_cli,
    ensures
        resolution(
            field,
            markers,
            CliOrigin::EnvVariable(clap_var),
            cli_value,
            env_var,
            env,
            path,
            line,
            file,
        ) == Ok::<(T, LayerView), ErrorView>((cli_value, LayerView::EnvVar(clap_var@))),
{
}

/// Adding or changing a lower layer never changes a value a higher layer has
/// decided: once the flag or the environment sets the field, the file does not
/// matter.
pub proof fn law_lower_layer_cannot_disturb<T>(
    field: Seq<char>,
    markers: FieldMarkers,
    origin: CliOrigin,
    cli_value: T,
    env_var: Seq<char>,
    env: OfferView<T>,
    path1: Seq<char>,
    line1: nat,
    file1: OfferView<T>,
    path2: Seq<char>,
    line2: nat,
    file2: OfferView<T>,
)
    requires
        (!markers.no_cli && supplied_to_clap(origin)) || (!markers.no_env && !(env is Absent)),
    ensures
        resolution(field, markers, origin, cli_value, env_var, env, path1, line1, file1)
            == resolution(field, markers, origin, cli_value, env_var, env, path2, line2, file2),
{
}

/// A disabled layer is invisible, not merely lower in priority: with `no_env`
/// the environment does not matter, and with `no_file` the file does not.
pub proof fn law_disabled_layer_is_invisible<T>(
    field: Seq<char>,
    markers: FieldMarkers,
    origin: CliOrigin,
    cli_value: T,
    env_var1: Seq<char>,
    env1: OfferView<T>,
    env_var2: Seq<char>,
    env2: OfferView<T>,
    path1: Seq<char>,
    line1: nat,
    file1: OfferView<T>,
    path2: Seq<char>,
    line2: nat,
    file2: OfferView<T>,
)
    ensures
        markers.no_env ==> resolution(
            field,
            markers,
            origin,
            cli_value,
            env_var1,
            env1,
            path1,
            line1,
            file1,
        ) == resolution(field, markers, origin, cli_value, env_var2, env2, path1, line1, file1),
        markers.no_file ==> resolution(
            field,
            markers,
            origin,
            cli_value,
            env_var1,
            env1,
            path1,
            line1,
            file1,
        ) == resolution(field, markers, origin, cli_value, env_var1, env1, path2, line2, file2),
{
}

/// A bad value never silently falls back: when the layer that decides a field
/// holds a value that does not decode, the outcome is an error naming the
/// field, the value as written and the layer (the variable, or the file and
/// line).
pub proof fn law_bad_value_is_an_error<T>(
    field: Seq<char>,
    markers: FieldMarkers,
    origin: CliOrigin,
    cli_value: T,
    env_var: Seq<char>,
    env: OfferView<T>,
    path: Seq<char>,
    line: nat,
    file: OfferView<T>,
)
    requires
        markers.no_cli || !supplied_to_clap(origin),
    ensures
        (!markers.no_env && env is Invalid) ==> resolution(
            field,
            markers,
            origin,
            cli_value,
            env_var,
            env,
            path,
            line,
            file,
        ) == Err::<(T, LayerView), ErrorView>(
            ErrorView::Invalid {
                field,
                value: env->Invalid_raw,
                layer: LayerView::EnvVar(env_var),
                reason: env->Invalid_reason,
            },
        ),
        ((markers.no_env || env is Absent) && !markers.no_file && file is Invalid) ==> resolution(
            field,
            markers,
            origin,
            cli_value,
            env_var,
            env,
            path,
            line,
            file,
        ) == Err::<(T, LayerView), ErrorView>(
            ErrorView::Invalid {
                field,
                value: file->Invalid_raw,
                layer: LayerView::ConfigFile { path, line },
                reason: file->Invalid_reason,
            },
        ),
{
}

} // verus!
