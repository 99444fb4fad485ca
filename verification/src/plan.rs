//! What `#[derive(Layered)]` makes of a struct: its `#[layered(...)]` options
//! checked, and for each field the layers it reads and the names it reads
//! them under.
//!
//! Struct options: `file = "path"` and `env_prefix = "PREFIX"`. Field options:
//! the bare markers `no_cli`, `no_env` and `no_file`; several attributes on one
//! field combine. Anything else is an error, and every error is reported, not
//! just the first.

use vstd::prelude::*;

use crate::resolve::FieldMarkers;
use crate::text::ascii_upper;
use crate::text::law_ascii_upper_char;
use crate::text::law_ascii_upper_leaves_no_lower_case;
use crate::text::chars_of;
use crate::text::to_ascii_uppercase;

verus! {

/// The value given to an option inside `#[layered(...)]`.
#[derive(Debug, Clone, PartialEq)]
pub enum OptionValue {
    /// The option stands alone, as in `no_env`.
    Bare,
    /// The option is given a string literal, as in `file = "app.toml"`.
    Text(String),
    /// The option is given something else, as in `no_env = true`.
    Other,
}

/// One option inside `#[layered(...)]`.
#[derive(Debug, Clone, PartialEq)]
pub struct AttrOption {
    /// The option's name.
    pub name: String,
    /// What the option is given.
    pub value: OptionValue,
}

/// How clap treats a field.
#[derive(Debug, Clone, Copy, PartialEq, Eq)]
pub enum FieldKind {
    /// An argument clap defines.
    Arg,
    /// `#[arg(skip)]`: clap leaves the field at its default.
    Skipped,
    /// `#[command(flatten)]`: passed through untouched.
    Flattened,
    /// `#[command(subcommand)]`: passed through untouched.
    Subcommand,
}

/// A field of the struct, as the derive sees it.
#[derive(Debug, Clone, PartialEq)]
pub struct FieldDecl {
    /// The field's identifier as written (possibly a raw identifier, `r#type`).
    pub ident: String,
    /// How clap treats the field.
    pub kind: FieldKind,
    /// The options of all its `#[layered(...)]` attributes, in order.
    pub options: Vec<AttrOption>,
    /// The id given by clap's `#[arg(id = "...")]`, if any.
    pub arg_id: Option<String>,
}

/// The kind of item the derive is applied to.
#[derive(Debug, Clone, Copy, PartialEq, Eq)]
pub enum ItemShape {
    /// A struct with named fields.
    NamedStruct,
    /// A tuple struct.
    TupleStruct,
    /// A unit struct.
    UnitStruct,
    /// An enum.
    Enum,
    /// A union.
    Union,
}

/// The item the derive is applied to, as the derive sees it.
#[derive(Debug, Clone, PartialEq)]
pub struct StructDecl {
    /// What kind of item it is.
    pub shape: ItemShape,
    /// The options of all its `#[layered(...)]` attributes, in order.
    pub options: Vec<AttrOption>,
    /// Its fields, in order.
    pub fields: Vec<FieldDecl>,
}

/// What the derive does for one field.
#[derive(Debug, Clone, PartialEq)]
pub struct FieldPlan {
    /// The field's identifier as written.
    pub ident: String,
    /// The name the field has in the configuration file.
    pub key: String,
    /// The id clap knows the field's argument by.
    pub clap_id: String,
    /// How clap treats the field.
    pub kind: FieldKind,
    /// Its layer markers.
    pub markers: FieldMarkers,
    /// The environment variable it reads, when its environment layer is on.
    pub env_var: Option<String>,
}

/// What the derive does for a struct.
#[derive(Debug, Clone, PartialEq)]
pub struct DerivePlan {
    /// The configuration file, when the file layer is on.
    pub file: Option<String>,
    /// The environment prefix, when the environment layer is on.
    pub env_prefix: Option<String>,
    /// One plan per field, in order.
    pub fields: Vec<FieldPlan>,
}

/// A mistake in how the derive is applied.
#[derive(Debug, Clone, PartialEq)]
pub enum DeriveError {
    /// Applied to an enum or a union.
    NotAStruct,
    /// Applied to a tuple or unit struct.
    NotNamedFields,
    /// A struct option other than `file` and `env_prefix`.
    UnknownStructOption(String),
    /// `file` or `env_prefix` without a string value.
    OptionNeedsText(String),
    /// An `env_prefix` that cannot begin an environment variable name.
    InvalidEnvPrefix(String),
    /// A field option other than the markers.
    UnknownFieldOption {
        /// The field.
        field: String,
        /// The option.
        option: String,
    },
    /// A marker given a value.
    MarkerTakesNoValue {
        /// The field.
        field: String,
        /// The marker.
        option: String,
    },
    /// `no_cli` on a field that clap still defines.
    NoCliWithoutSkip(String),
    /// A field with no layer but its default.
    FieldWithNoSource(String),
}

/// The mathematical value of a [`DeriveError`].
pub enum DeriveErrorView {
    /// See [`DeriveError::NotAStruct`].
    NotAStruct,
    /// See [`DeriveError::NotNamedFields`].
    NotNamedFields,
    /// See [`DeriveError::UnknownStructOption`].
    UnknownStructOption(Seq<char>),
    /// See [`DeriveError::OptionNeedsText`].
    OptionNeedsText(Seq<char>),
    /// See [`DeriveError::InvalidEnvPrefix`].
    InvalidEnvPrefix(Seq<char>),
    /// See [`DeriveError::UnknownFieldOption`].
    UnknownFieldOption { field: Seq<char>, option: Seq<char> },
    /// See [`DeriveError::MarkerTakesNoValue`].
    MarkerTakesNoValue { field: Seq<char>, option: Seq<char> },
    /// See [`DeriveError::NoCliWithoutSkip`].
    NoCliWithoutSkip(Seq<char>),
    /// See [`DeriveError::FieldWithNoSource`].
    FieldWithNoSource(Seq<char>),
}

impl View for DeriveError {
    type V = DeriveErrorView;

    open spec fn view(&self) -> DeriveErrorView {
        match self {
            DeriveError::NotAStruct => DeriveErrorView::NotAStruct,
            DeriveError::NotNamedFields => DeriveErrorView::NotNamedFields,
            DeriveError::UnknownStructOption(n) => DeriveErrorView::UnknownStructOption(n@),
            DeriveError::OptionNeedsText(n) => DeriveErrorView::OptionNeedsText(n@),
            DeriveError::InvalidEnvPrefix(p) => DeriveErrorView::InvalidEnvPrefix(p@),
            DeriveError::UnknownFieldOption { field, option } => DeriveErrorView::UnknownFieldOption {
                field: field@,
                option: option@,
            },
            DeriveError::MarkerTakesNoValue { field, option } => DeriveErrorView::MarkerTakesNoValue {
                field: field@,
                option: option@,
            },
            DeriveError::NoCliWithoutSkip(f) => DeriveErrorView::NoCliWithoutSkip(f@),
            DeriveError::FieldWithNoSource(f) => DeriveErrorView::FieldWithNoSource(f@),
        }
    }
}

impl DeriveErrorView {
    /// The compile error shown for the mistake.
    pub open spec fn message(self) -> Seq<char> {
        match self {
            DeriveErrorView::NotAStruct => "Layered only supports structs, not enums or unions"@,
            DeriveErrorView::NotNamedFields => "Layered only supports structs with named fields"@,
            DeriveErrorView::UnknownStructOption(n) => "unknown layered option `"@ + n
                + "`; expected `file` or `env_prefix`"@,
            DeriveErrorView::OptionNeedsText(n) => "layered option `"@ + n
                + "` needs a string value"@,
            DeriveErrorView::InvalidEnvPrefix(p) => "invalid env_prefix `"@ + p
                + "`: use only ASCII letters, digits and `_`"@,
            DeriveErrorView::UnknownFieldOption { field, option } => "unknown layered option `"@
                + option + "` on field `"@ + field + "`; expected `no_cli`, `no_env` or `no_file`"@,
            DeriveErrorView::MarkerTakesNoValue { field, option } => "`"@ + option
                + "` on field `"@ + field + "` takes no value"@,
            DeriveErrorView::NoCliWithoutSkip(f) => "`no_cli` on field `"@ + f
                + "` needs `#[arg(skip)]`, or clap still defines the flag"@,
            DeriveErrorView::FieldWithNoSource(f) => "field `"@ + f
                + "` has no command-line flag, environment variable or file setting, so it could only hold its default"@,
        }
    }
}

impl DeriveError {
    /// The compile error shown for the mistake.
    pub fn message(&self) -> (text: String)
        ensures
            text@ == self@.message(),
    {
        match self {
            DeriveError::NotAStruct => String::from_str(
                "Layered only supports structs, not enums or unions",
            ),
            DeriveError::NotNamedFields => String::from_str(
                "Layered only supports structs with named fields",
            ),
            DeriveError::UnknownStructOption(n) => {
                let mut t = String::from_str("unknown layered option `");
                t.append(n.as_str());
                t.append("`; expected `file` or `env_prefix`");
                t
            },
            DeriveError::OptionNeedsText(n) => {
                let mut t = String::from_str("layered option `");
                t.append(n.as_str());
                t.append("` needs a string value");
                t
            },
            DeriveError::InvalidEnvPrefix(p) => {
                let mut t = String::from_str("invalid env_prefix `");
                t.append(p.as_str());
                t.append("`: use only ASCII letters, digits and `_`");
                t
            },
            DeriveError::UnknownFieldOption { field, option } => {
                let mut t = String::from_str("unknown layered option `");
                t.append(option.as_str());
                t.append("` on field `");
                t.append(field.as_str());
                t.append("`; expected `no_cli`, `no_env` or `no_file`");
                t
            },
            DeriveError::MarkerTakesNoValue { field, option } => {
                let mut t = String::from_str("`");
                t.append(option.as_str());
                t.append("` on field `");
                t.append(field.as_str());
                t.append("` takes no value");
                t
            },
            DeriveError::NoCliWithoutSkip(f) => {
                let mut t = String::from_str("`no_cli` on field `");
                t.append(f.as_str());
                t.append("` needs `#[arg(skip)]`, or clap still defines the flag");
                t
            },
            DeriveError::FieldWithNoSource(f) => {
                let mut t = String::from_str("field `");
                t.append(f.as_str());
                t.append(
                    "` has no command-line flag, environment variable or file setting, so it could only hold its default",
                );
                t
            },
        }
    }
}

/// The views of a list of errors.
pub open spec fn error_views(errors: Seq<DeriveError>) -> Seq<DeriveErrorView> {
    Seq::new(errors.len(), |i: int| errors[i]@)
}

/// Whether `c` may stand in an environment variable name: an ASCII letter, an
/// ASCII digit or `_`.
pub open spec fn is_name_char(c: char) -> bool {
    let u = c as u32;
    ||| 0x30 <= u <= 0x39
    ||| 0x41 <= u <= 0x5A
    ||| 0x61 <= u <= 0x7A
    ||| u == 0x5F
}

/// Whether `p` can begin environment variable names: only name characters.
pub open spec fn valid_prefix(p: Seq<char>) -> bool {
    forall|i: int| 0 <= i < p.len() ==> is_name_char(#[trigger] p[i])
}

/// The problems with one struct option.
pub open spec fn struct_option_problems(o: AttrOption) -> Seq<DeriveErrorView> {
    if o.name@ == "file"@ {
        if o.value is Text {
            seq![]
        } else {
            seq![DeriveErrorView::OptionNeedsText(o.name@)]
        }
    } else if o.name@ == "env_prefix"@ {
        match o.value {
            OptionValue::Text(p) => if valid_prefix(p@) {
                seq![]
            } else {
                seq![DeriveErrorView::InvalidEnvPrefix(p@)]
            },
            _ => seq![DeriveErrorView::OptionNeedsText(o.name@)],
        }
    } else {
        seq![DeriveErrorView::UnknownStructOption(o.name@)]
    }
}

/// The problems with the struct options, in order.
pub open spec fn struct_option_errors(opts: Seq<AttrOption>) -> Seq<DeriveErrorView>
    decreases opts.len(),
{
    if opts.len() == 0 {
        seq![]
    } else {
        struct_option_errors(opts.drop_last()) + struct_option_problems(opts.last())
    }
}

/// The text given to the last option named `name`, if any.
pub open spec fn last_text(opts: Seq<AttrOption>, name: Seq<char>) -> Option<Seq<char>>
    decreases opts.len(),
{
    if opts.len() == 0 {
        None
    } else {
        match opts.last().value {
            OptionValue::Text(t) if opts.last().name@ == name => Some(t@),
            _ => last_text(opts.drop_last(), name),
        }
    }
}

/// Whether `name` is one of the field markers.
pub open spec fn is_marker_name(name: Seq<char>) -> bool {
    name == "no_cli"@ || name == "no_env"@ || name == "no_file"@
}

/// The problems with one option of the field `field`.
pub open spec fn field_option_problems(field: Seq<char>, o: AttrOption) -> Seq<DeriveErrorView> {
    if is_marker_name(o.name@) {
        if o.value is Bare {
            seq![]
        } else {
            seq![DeriveErrorView::MarkerTakesNoValue { field, option: o.name@ }]
        }
    } else {
        seq![DeriveErrorView::UnknownFieldOption { field, option: o.name@ }]
    }
}

/// The problems with the options of the field `field`, in order.
pub open spec fn field_option_errors(field: Seq<char>, opts: Seq<AttrOption>) -> Seq<DeriveErrorView>
    decreases opts.len(),
{
    if opts.len() == 0 {
        seq![]
    } else {
        field_option_errors(field, opts.drop_last()) + field_option_problems(field, opts.last())
    }
}

/// Whether the marker `name` stands, bare, among `opts`.
pub open spec fn has_marker(opts: Seq<AttrOption>, name: Seq<char>) -> bool
    decreases opts.len(),
{
    if opts.len() == 0 {
        false
    } else {
        has_marker(opts.drop_last(), name) || (opts.last().name@ == name
            && opts.last().value is Bare)
    }
}

/// The markers that stand among a field's options.
pub open spec fn markers_of(opts: Seq<AttrOption>) -> FieldMarkers {
    FieldMarkers {
        no_cli: has_marker(opts, "no_cli"@),
        no_env: has_marker(opts, "no_env"@),
        no_file: has_marker(opts, "no_file"@),
    }
}

/// The problems with one field, given whether the struct has a file layer and
/// an environment layer.
pub open spec fn field_problems(f: FieldDecl, file_on: bool, env_on: bool) -> Seq<DeriveErrorView> {
    let m = markers_of(f.options@);
    field_option_errors(f.ident@, f.options@) + (if m.no_cli && f.kind != FieldKind::Skipped {
        seq![DeriveErrorView::NoCliWithoutSkip(f.ident@)]
    } else {
        seq![]
    }) + (if m.no_cli && f.kind == FieldKind::Skipped && (!env_on || m.no_env) && (!file_on
        || m.no_file) {
        seq![DeriveErrorView::FieldWithNoSource(f.ident@)]
    } else {
        seq![]
    })
}

/// The problems with the fields, in order.
pub open spec fn fields_errors(fields: Seq<FieldDecl>, file_on: bool, env_on: bool) -> Seq<
    DeriveErrorView,
>
    decreases fields.len(),
{
    if fields.len() == 0 {
        seq![]
    } else {
        fields_errors(fields.drop_last(), file_on, env_on) + field_problems(
            fields.last(),
            file_on,
            env_on,
        )
    }
}

/// Every problem with how the derive is applied, in order.
pub open spec fn derive_errors(decl: StructDecl) -> Seq<DeriveErrorView> {
    match decl.shape {
        ItemShape::Enum | ItemShape::Union => seq![DeriveErrorView::NotAStruct],
        ItemShape::TupleStruct | ItemShape::UnitStruct => seq![DeriveErrorView::NotNamedFields],
        ItemShape::NamedStruct => struct_option_errors(decl.options@) + fields_errors(
            decl.fields@,
            last_text(decl.options@, "file"@) is Some,
            last_text(decl.options@, "env_prefix"@) is Some,
        ),
    }
}

/// The name a field has in the configuration file: its identifier without `r#`.
pub open spec fn unraw(ident: Seq<char>) -> Seq<char> {
    if ident.len() >= 2 && ident[0] == 'r' && ident[1] == '#' {
        ident.skip(2)
    } else {
        ident
    }
}

/// The environment variable of the field with file name `key`: the prefix, `_`
/// and the key, in ASCII upper case.
pub open spec fn env_var_name(prefix: Seq<char>, key: Seq<char>) -> Seq<char> {
    ascii_upper(prefix + "_"@ + key)
}

/// `p` is what the derive does for the field `f` of a struct whose
/// environment prefix (when its environment layer is on) is `prefix`.
pub open spec fn field_plan_matches(f: FieldDecl, prefix: Option<Seq<char>>, p: FieldPlan) -> bool {
    let m = markers_of(f.options@);
    &&& p.ident@ == f.ident@
    &&& p.key@ == unraw(f.ident@)
    &&& p.clap_id@ == (match f.arg_id {
        Some(id) => id@,
        None => unraw(f.ident@),
    })
    &&& p.kind == f.kind
    &&& p.markers == m
    &&& p.env_var.deep_view() == (match prefix {
        Some(pre) if !m.no_env => Some(env_var_name(pre, unraw(f.ident@))),
        _ => None,
    })
}

/// `plan` is what the derive does for `decl`.
pub open spec fn plan_matches(decl: StructDecl, plan: DerivePlan) -> bool {
    let prefix = last_text(decl.options@, "env_prefix"@);
    &&& plan.file.deep_view() == last_text(decl.options@, "file"@)
    &&& plan.env_prefix.deep_view() == prefix
    &&& plan.fields@.len() == decl.fields@.len()
    &&& forall|i: int|
        0 <= i < decl.fields@.len() ==> field_plan_matches(
            decl.fields@[i],
            prefix,
            #[trigger] plan.fields@[i],
        )
}

/// Records one more error.
fn push_error(errors: &mut Vec<DeriveError>, e: DeriveError)
    ensures
        error_views(final(errors)@) == error_views(old(errors)@) + seq![e@],
{
    let ghost e_view = e@;
    errors.push(e);
    assert(error_views(errors@) =~= error_views(old(errors)@) + seq![e_view]);
}

/// Whether `p` can begin environment variable names.
pub fn is_valid_prefix(p: &str) -> (valid: bool)
    ensures
        valid == valid_prefix(p@),
{
    let cs = chars_of(p);
    let mut i: usize = 0;
    while i < cs.len()
        invariant
            0 <= i <= cs@.len(),
            cs@ == p@,
            forall|j: int| 0 <= j < i ==> is_name_char(#[trigger] cs@[j]),
        decreases cs@.len() - i,
    {
        let u = cs[i] as u32;
        if !((0x30 <= u && u <= 0x39) || (0x41 <= u && u <= 0x5A) || (0x61 <= u && u <= 0x7A) || u
            == 0x5F) {
            assert(!is_name_char(cs@[i as int]));
            return false;
        }
        i = i + 1;
    }
    true
}

/// Whether `name` is spelled `word`.
fn is_named(name: &String, word: &str) -> (same: bool)
    ensures
        same == (name@ == word@),
{
    let w = String::from_str(word);
    name.eq(&w)
}

/// Checks one struct option, recording its problems.
fn check_struct_option(o: &AttrOption, errors: &mut Vec<DeriveError>)
    ensures
        error_views(final(errors)@) == error_views(old(errors)@) + struct_option_problems(*o),
{
    if is_named(&o.name, "file") {
        match &o.value {
            OptionValue::Text(_) => {
                assert(error_views(errors@) =~= error_views(errors@) + seq![]);
            },
            _ => push_error(errors, DeriveError::OptionNeedsText(o.name.clone())),
        }
    } else if is_named(&o.name, "env_prefix") {
        match &o.value {
            OptionValue::Text(p) => {
                if is_valid_prefix(p.as_str()) {
                    assert(error_views(errors@) =~= error_views(errors@) + seq![]);
                } else {
                    push_error(errors, DeriveError::InvalidEnvPrefix(p.clone()));
                }
            },
            _ => push_error(errors, DeriveError::OptionNeedsText(o.name.clone())),
        }
    } else {
        push_error(errors, DeriveError::UnknownStructOption(o.name.clone()));
    }
}

/// The file name of a field: its identifier without `r#`.
pub fn unraw_ident(ident: &str) -> (key: String)
    ensures
        key@ == unraw(ident@),
{
    let cs = chars_of(ident);
    if cs.len() >= 2 && cs[0] == 'r' && cs[1] == '#' {
        String::from_str(ident.substring_char(2, cs.len()))
    } else {
        String::from_str(ident)
    }
}

/// The environment variable read for the field with file name `key`.
pub fn env_var_for(prefix: &str, key: &str) -> (var: String)
    ensures
        var@ == env_var_name(prefix@, key@),
{
    let mut name = String::from_str(prefix);
    name.append("_");
    name.append(key);
    to_ascii_uppercase(name.as_str())
}

/// Works out one field's plan, recording its problems.
fn plan_field(
    f: &FieldDecl,
    file_on: bool,
    prefix: &Option<String>,
    errors: &mut Vec<DeriveError>,
) -> (p: FieldPlan)
    ensures
        error_views(final(errors)@) == error_views(old(errors)@) + field_problems(
            *f,
            file_on,
            prefix is Some,
        ),
        field_plan_matches(*f, prefix.deep_view(), p),
{
    let opts = &f.options;
    let ghost start = error_views(errors@);
    let mut no_cli = false;
    let mut no_env = false;
    let mut no_file = false;
    let mut i: usize = 0;
    assert(opts@.take(0) =~= Seq::<AttrOption>::empty());
    while i < opts.len()
        invariant
            0 <= i <= opts@.len(),
            opts == &f.options,
            error_views(errors@) == start + field_option_errors(f.ident@, opts@.take(i as int)),
            no_cli == has_marker(opts@.take(i as int), "no_cli"@),
            no_env == has_marker(opts@.take(i as int), "no_env"@),
            no_file == has_marker(opts@.take(i as int), "no_file"@),
        decreases opts@.len() - i,
    {
        let o = &opts[i];
        assert(opts@.take(i + 1).drop_last() =~= opts@.take(i as int));
        assert(opts@.take(i + 1).last() == opts@[i as int]);
        let bare = match &o.value {
            OptionValue::Bare => true,
            _ => false,
        };
        let c = is_named(&o.name, "no_cli");
        let e = is_named(&o.name, "no_env");
        let fl = is_named(&o.name, "no_file");
        if c || e || fl {
            if bare {
                no_cli = no_cli || c;
                no_env = no_env || e;
                no_file = no_file || fl;
            } else {
                push_error(
                    errors,
                    DeriveError::MarkerTakesNoValue { field: f.ident.clone(), option: o.name.clone() },
                );
            }
        } else {
            push_error(
                errors,
                DeriveError::UnknownFieldOption { field: f.ident.clone(), option: o.name.clone() },
            );
        }
        assert(error_views(errors@) =~= start + field_option_errors(
            f.ident@,
            opts@.take(i + 1),
        ));
        i = i + 1;
    }
    assert(opts@.take(opts@.len() as int) =~= opts@);
    let markers = FieldMarkers { no_cli, no_env, no_file };
    let skipped = match f.kind {
        FieldKind::Skipped => true,
        _ => false,
    };
    let ghost mid = error_views(errors@);
    if no_cli && !skipped {
        push_error(errors, DeriveError::NoCliWithoutSkip(f.ident.clone()));
    }
    let ghost mid2 = error_views(errors@);
    if no_cli && skipped && (prefix.is_none() || no_env) && (!file_on || no_file) {
        push_error(errors, DeriveError::FieldWithNoSource(f.ident.clone()));
    }
    assert(error_views(errors@) =~= start + field_problems(*f, file_on, prefix is Some));
    let key = unraw_ident(f.ident.as_str());
    let clap_id = match &f.arg_id {
        Some(id) => String::from_str(id.as_str()),
        None => String::from_str(key.as_str()),
    };
    let env_var = match prefix {
        Some(pre) => if no_env {
            None
        } else {
            Some(env_var_for(pre.as_str(), key.as_str()))
        },
        None => None,
    };
    FieldPlan { ident: f.ident.clone(), key, clap_id, kind: f.kind, markers, env_var }
}

/// Checks how the derive is applied and, when nothing is wrong, works out what
/// it does: the file and prefix of the struct and, per field, the layers it
/// reads and the names it reads them under. Otherwise returns every problem,
/// in order.
pub fn plan_derive(decl: &StructDecl) -> (r: Result<DerivePlan, Vec<DeriveError>>)
    ensures
        match r {
            Ok(plan) => derive_errors(*decl).len() == 0 && plan_matches(*decl, plan),
            Err(errors) => derive_errors(*decl).len() > 0 && error_views(errors@) == derive_errors(
                *decl,
            ),
        },
{
    match decl.shape {
        ItemShape::Enum | ItemShape::Union => {
            let errors = vec![DeriveError::NotAStruct];
            assert(error_views(errors@) =~= derive_errors(*decl));
            return Err(errors);
        },
        ItemShape::TupleStruct | ItemShape::UnitStruct => {
            let errors = vec![DeriveError::NotNamedFields];
            assert(error_views(errors@) =~= derive_errors(*decl));
            return Err(errors);
        },
        ItemShape::NamedStruct => {},
    }
    let opts = &decl.options;
    let mut errors: Vec<DeriveError> = Vec::new();
    let mut file: Option<String> = None;
    let mut env_prefix: Option<String> = None;
    let mut i: usize = 0;
    assert(opts@.take(0) =~= Seq::<AttrOption>::empty());
    assert(error_views(errors@) =~= Seq::<DeriveErrorView>::empty());
    while i < opts.len()
        invariant
            0 <= i <= opts@.len(),
            opts == &decl.options,
            error_views(errors@) == struct_option_errors(opts@.take(i as int)),
            file.deep_view() == last_text(opts@.take(i as int), "file"@),
            env_prefix.deep_view() == last_text(opts@.take(i as int), "env_prefix"@),
        decreases opts@.len() - i,
    {
        let o = &opts[i];
        assert(opts@.take(i + 1).drop_last() =~= opts@.take(i as int));
        assert(opts@.take(i + 1).last() == opts@[i as int]);
        check_struct_option(o, &mut errors);
        proof {
            reveal_strlit("file");
            reveal_strlit("env_prefix");
            assert("file"@.len() == 4);
            assert("env_prefix"@.len() == 10);
            assert("file"@ != "env_prefix"@);
        }
        match &o.value {
            OptionValue::Text(t) => {
                if is_named(&o.name, "file") {
                    file = Some(t.clone());
                } else if is_named(&o.name, "env_prefix") {
                    env_prefix = Some(t.clone());
                }
            },
            _ => {},
        }
        i = i + 1;
    }
    assert(opts@.take(opts@.len() as int) =~= opts@);
    let ghost struct_errors = error_views(errors@);
    let file_on = file.is_some();
    let fields = &decl.fields;
    let mut plans: Vec<FieldPlan> = Vec::new();
    let mut j: usize = 0;
    assert(fields@.take(0) =~= Seq::<FieldDecl>::empty());
    while j < fields.len()
        invariant
            0 <= j <= fields@.len(),
            fields == &decl.fields,
            file_on == (last_text(decl.options@, "file"@) is Some),
            env_prefix.deep_view() == last_text(decl.options@, "env_prefix"@),
            error_views(errors@) == struct_errors + fields_errors(
                fields@.take(j as int),
                file_on,
                env_prefix is Some,
            ),
            plans@.len() == j,
            forall|k: int|
                0 <= k < j ==> field_plan_matches(
                    fields@[k],
                    env_prefix.deep_view(),
                    #[trigger] plans@[k],
                ),
        decreases fields@.len() - j,
    {
        assert(fields@.take(j + 1).drop_last() =~= fields@.take(j as int));
        assert(fields@.take(j + 1).last() == fields@[j as int]);
        let p = plan_field(&fields[j], file_on, &env_prefix, &mut errors);
        plans.push(p);
        assert(error_views(errors@) =~= struct_errors + fields_errors(
            fields@.take(j + 1),
            file_on,
            env_prefix is Some,
        ));
        j = j + 1;
    }
    assert(fields@.take(fields@.len() as int) =~= fields@);
    if errors.len() == 0 {
        Ok(DerivePlan { file, env_prefix, fields: plans })
    } else {
        Err(errors)
    }
}

/// Several `#[layered(...)]` attributes on one field combine: a marker stands
/// in the options of two attributes together exactly when it stands in either.
pub proof fn law_markers_combine(a: Seq<AttrOption>, b: Seq<AttrOption>, name: Seq<char>)
    ensures
        has_marker(a + b, name) == (has_marker(a, name) || has_marker(b, name)),
    decreases b.len(),
{
    if b.len() == 0 {
        assert(a + b =~= a);
    } else {
        assert((a + b).drop_last() =~= a + b.drop_last());
        assert((a + b).last() == b.last());
        law_markers_combine(a, b.drop_last(), name);
    }
}

/// Every mistake is reported, not just the first: the problems of two runs of
/// fields are those of the first followed by those of the second.
pub proof fn law_every_field_problem_reported(
    a: Seq<FieldDecl>,
    b: Seq<FieldDecl>,
    file_on: bool,
    env_on: bool,
)
    ensures
        fields_errors(a + b, file_on, env_on) == fields_errors(a, file_on, env_on) + fields_errors(
            b,
            file_on,
            env_on,
        ),
    decreases b.len(),
{
    if b.len() == 0 {
        assert(a + b =~= a);
        assert(fields_errors(a, file_on, env_on) + fields_errors(b, file_on, env_on)
            =~= fields_errors(a, file_on, env_on));
    } else {
        assert((a + b).drop_last() =~= a + b.drop_last());
        assert((a + b).last() == b.last());
        law_every_field_problem_reported(a, b.drop_last(), file_on, env_on);
        assert(fields_errors(a + b, file_on, env_on) =~= fields_errors(a, file_on, env_on)
            + fields_errors(b, file_on, env_on));
    }
}

/// The same for struct options: the problems of two runs of options are those
/// of the first followed by those of the second.
pub proof fn law_every_option_problem_reported(a: Seq<AttrOption>, b: Seq<AttrOption>)
    ensures
        struct_option_errors(a + b) == struct_option_errors(a) + struct_option_errors(b),
    decreases b.len(),
{
    if b.len() == 0 {
        assert(a + b =~= a);
        assert(struct_option_errors(a) + struct_option_errors(b) =~= struct_option_errors(a));
    } else {
        assert((a + b).drop_last() =~= a + b.drop_last());
        assert((a + b).last() == b.last());
        law_every_option_problem_reported(a, b.drop_last());
        assert(struct_option_errors(a + b) =~= struct_option_errors(a) + struct_option_errors(b));
    }
}

/// A field's markers depend only on which bare markers are written, not on how
/// they are grouped into attributes or ordered: a marker stands exactly when
/// some option is that marker, bare.
pub proof fn law_markers_depend_only_on_the_set(opts: Seq<AttrOption>, name: Seq<char>)
    ensures
        has_marker(opts, name) == exists|i: int|
            0 <= i < opts.len() && #[trigger] opts[i].name@ == name && opts[i].value is Bare,
    decreases opts.len(),
{
    if opts.len() > 0 {
        law_markers_depend_only_on_the_set(opts.drop_last(), name);
        if has_marker(opts.drop_last(), name) {
            let i = choose|i: int|
                0 <= i < opts.drop_last().len() && #[trigger] opts.drop_last()[i].name@ == name
                    && opts.drop_last()[i].value is Bare;
            assert(opts[i] == opts.drop_last()[i]);
        } else if opts.last().name@ == name && opts.last().value is Bare {
            assert(opts[opts.len() - 1] == opts.last());
        } else {
            assert forall|i: int| 0 <= i < opts.len() && #[trigger] opts[i].name@ == name implies !(
            opts[i].value is Bare) by {
                if i < opts.len() - 1 {
                    assert(opts[i] == opts.drop_last()[i]);
                }
            }
        }
    }
}

/// Whether some option among `opts` is named `name`.
pub open spec fn named_among(opts: Seq<AttrOption>, name: Seq<char>) -> bool {
    exists|i: int| 0 <= i < opts.len() && #[trigger] opts[i].name@ == name
}

/// Options that are all bare markers raise no option problem.
proof fn lemma_bare_markers_raise_nothing(field: Seq<char>, opts: Seq<AttrOption>)
    requires
        forall|i: int| 0 <= i < opts.len() ==> is_marker_name(#[trigger] opts[i].name@) && opts[i].value is Bare,
    ensures
        field_option_errors(field, opts) == Seq::<DeriveErrorView>::empty(),
    decreases opts.len(),
{
    if opts.len() > 0 {
        assert forall|i: int| 0 <= i < opts.drop_last().len() implies is_marker_name(
            #[trigger] opts.drop_last()[i].name@,
        ) && opts.drop_last()[i].value is Bare by {
            assert(opts.drop_last()[i] == opts[i]);
        }
        lemma_bare_markers_raise_nothing(field, opts.drop_last());
        assert(opts.last() == opts[opts.len() - 1]);
        assert(field_option_errors(field, opts) =~= Seq::<DeriveErrorView>::empty());
    }
}

/// Two ways of writing a field's markers, in one `#[layered(...)]` list or
/// split over several, in any order, with the same markers among them: the
/// field gets the same markers and the same problems (so, whether or not the
/// derive accepts the struct, it treats the field alike).
pub proof fn law_marker_grouping_does_not_matter(f: FieldDecl, g: FieldDecl, file_on: bool, env_on: bool)
    requires
        f.ident@ == g.ident@,
        f.kind == g.kind,
        forall|i: int| 0 <= i < f.options@.len() ==> is_marker_name(#[trigger] f.options@[i].name@) && f.options@[i].value is Bare,
        forall|i: int| 0 <= i < g.options@.len() ==> is_marker_name(#[trigger] g.options@[i].name@) && g.options@[i].value is Bare,
        forall|name: Seq<char>| #[trigger] named_among(f.options@, name) == named_among(g.options@, name),
    ensures
        markers_of(f.options@) == markers_of(g.options@),
        field_problems(f, file_on, env_on) == field_problems(g, file_on, env_on),
{
    lemma_bare_markers_raise_nothing(f.ident@, f.options@);
    lemma_bare_markers_raise_nothing(g.ident@, g.options@);
    law_markers_depend_only_on_the_set(f.options@, "no_cli"@);
    law_markers_depend_only_on_the_set(g.options@, "no_cli"@);
    law_markers_depend_only_on_the_set(f.options@, "no_env"@);
    law_markers_depend_only_on_the_set(g.options@, "no_env"@);
    law_markers_depend_only_on_the_set(f.options@, "no_file"@);
    law_markers_depend_only_on_the_set(g.options@, "no_file"@);
    assert(named_among(f.options@, "no_cli"@) == named_among(g.options@, "no_cli"@));
    assert(named_among(f.options@, "no_env"@) == named_among(g.options@, "no_env"@));
    assert(named_among(f.options@, "no_file"@) == named_among(g.options@, "no_file"@));
}

/// The option problems of a field are about its options only.
proof fn lemma_option_errors_are_about_options(field: Seq<char>, opts: Seq<AttrOption>)
    ensures
        forall|i: int|
            0 <= i < field_option_errors(field, opts).len() ==> (#[trigger] field_option_errors(
                field,
                opts,
            )[i] is UnknownFieldOption || field_option_errors(field, opts)[i] is MarkerTakesNoValue),
    decreases opts.len(),
{
    if opts.len() > 0 {
        lemma_option_errors_are_about_options(field, opts.drop_last());
        let a = field_option_errors(field, opts.drop_last());
        let b = field_option_problems(field, opts.last());
        assert(field_option_errors(field, opts) == a + b);
        assert forall|i: int| 0 <= i < (a + b).len() implies #[trigger] (a + b)[i] is UnknownFieldOption
            || (a + b)[i] is MarkerTakesNoValue by {
            if i < a.len() {
                assert((a + b)[i] == a[i]);
            } else {
                assert((a + b)[i] == b[i - a.len()]);
            }
        }
    }
}

/// A field is refused as having no source exactly when nothing can set it: it
/// is no flag (`no_cli`, with clap's `#[arg(skip)]`), and neither the file
/// layer (when the struct has a file and the field lacks `no_file`) nor the
/// environment layer (when the struct has a prefix and the field lacks
/// `no_env`) reads it.
pub proof fn law_no_source_exactly_when_no_layer_reads(f: FieldDecl, file_on: bool, env_on: bool)
    ensures
        field_problems(f, file_on, env_on).contains(DeriveErrorView::FieldWithNoSource(f.ident@))
            <==> ({
            let m = markers_of(f.options@);
            &&& m.no_cli
            &&& f.kind == FieldKind::Skipped
            &&& !(file_on && !m.no_file)
            &&& !(env_on && !m.no_env)
        }),
{
    let m = markers_of(f.options@);
    let a = field_option_errors(f.ident@, f.options@);
    let b: Seq<DeriveErrorView> = if m.no_cli && f.kind != FieldKind::Skipped {
        seq![DeriveErrorView::NoCliWithoutSkip(f.ident@)]
    } else {
        seq![]
    };
    let c: Seq<DeriveErrorView> = if m.no_cli && f.kind == FieldKind::Skipped && (!env_on
        || m.no_env) && (!file_on || m.no_file) {
        seq![DeriveErrorView::FieldWithNoSource(f.ident@)]
    } else {
        seq![]
    };
    let all = field_problems(f, file_on, env_on);
    assert(all == a + b + c);
    lemma_option_errors_are_about_options(f.ident@, f.options@);
    let x = DeriveErrorView::FieldWithNoSource(f.ident@);
    if all.contains(x) {
        let i = choose|i: int| 0 <= i < all.len() && all[i] == x;
        if i < a.len() {
            assert(all[i] == a[i]);
        } else if i < a.len() + b.len() {
            assert(all[i] == b[i - a.len()]);
        } else {
            assert(all[i] == c[i - a.len() - b.len()]);
        }
    }
    if c.len() > 0 {
        assert(all[a.len() + b.len() as int] == x);
    }
}

/// The environment variable of a field is the prefix, `_` and the field's
/// key, letter by letter, each ASCII lower-case letter in its capital and
/// every other character as written; so it holds no ASCII lower-case letter
/// (`MYAPP` and `size` give `MYAPP_SIZE`).
pub proof fn law_env_var_names_are_upper_case(prefix: Seq<char>, key: Seq<char>)
    ensures
        env_var_name(prefix, key).len() == prefix.len() + 1 + key.len(),
        forall|i: int|
            0 <= i < env_var_name(prefix, key).len() ==> !(0x61 <= #[trigger] env_var_name(
                prefix,
                key,
            )[i] as u32 <= 0x7A),
        forall|i: int|
            #![trigger env_var_name(prefix, key)[i]]
            0 <= i < env_var_name(prefix, key).len() ==> {
                let w = (prefix + "_"@ + key)[i];
                &&& 0x61 <= w as u32 <= 0x7A ==> env_var_name(prefix, key)[i] as u32 == w as u32
                    - 0x20
                &&& !(0x61 <= w as u32 <= 0x7A) ==> env_var_name(prefix, key)[i] == w
            },
{
    reveal_strlit("_");
    let w = prefix + "_"@ + key;
    law_ascii_upper_leaves_no_lower_case(w);
    assert forall|i: int| 0 <= i < w.len() implies {
        let c = w[i];
        &&& 0x61 <= c as u32 <= 0x7A ==> #[trigger] ascii_upper(w)[i] as u32 == c as u32 - 0x20
        &&& !(0x61 <= c as u32 <= 0x7A) ==> ascii_upper(w)[i] == c
    } by {
        law_ascii_upper_char(w[i]);
    }
}

/// `no_cli` is refused exactly on a field that clap still defines (one
/// without `#[arg(skip)]`).
pub proof fn law_no_cli_needs_skip_exactly(f: FieldDecl, file_on: bool, env_on: bool)
    ensures
        field_problems(f, file_on, env_on).contains(DeriveErrorView::NoCliWithoutSkip(f.ident@))
            <==> (markers_of(f.options@).no_cli && f.kind != FieldKind::Skipped),
{
    let m = markers_of(f.options@);
    let a = field_option_errors(f.ident@, f.options@);
    let b: Seq<DeriveErrorView> = if m.no_cli && f.kind != FieldKind::Skipped {
        seq![DeriveErrorView::NoCliWithoutSkip(f.ident@)]
    } else {
        seq![]
    };
    let c: Seq<DeriveErrorView> = if m.no_cli && f.kind == FieldKind::Skipped && (!env_on
        || m.no_env) && (!file_on || m.no_file) {
        seq![DeriveErrorView::FieldWithNoSource(f.ident@)]
    } else {
        seq![]
    };
    let all = field_problems(f, file_on, env_on);
    assert(all == a + b + c);
    lemma_option_errors_are_about_options(f.ident@, f.options@);
    let x = DeriveErrorView::NoCliWithoutSkip(f.ident@);
    if all.contains(x) {
        let i = choose|i: int| 0 <= i < all.len() && all[i] == x;
        if i < a.len() {
            assert(all[i] == a[i]);
        } else if i < a.len() + b.len() {
            assert(all[i] == b[i - a.len()]);
        } else {
            assert(all[i] == c[i - a.len() - b.len()]);
        }
    }
    if b.len() > 0 {
        assert(all[a.len() as int] == x);
    }
}

} // verus!
