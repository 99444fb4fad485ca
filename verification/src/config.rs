//! The configuration file: TOML (the values that [`crate::toml`] reads), read
//! statement by statement.
//!
//! A statement starts on a line of its own, after any whitespace. A line that
//! is empty or starts with `#` sets nothing. A line `[name]` opens the table
//! `name`: the settings after it, up to the next header, belong to that table
//! and not to the top level. Any other statement is `key = value`; its value
//! may run over several lines (a multi-line string, or an array), and on the
//! line where it ends only whitespace or a `# comment` may follow. A key set
//! twice in the same table, or a table opened twice, is an error. Every
//! setting and every error carries the line where its statement starts;
//! statements after a value that spans lines are numbered on by every line
//! break it holds. Dotted keys (`a.b = 1`), dotted table names (`[a.b]`) and
//! arrays of tables (`[[a]]`) are not read: each is an error that says so.

use vstd::prelude::*;

use crate::error::ErrorView;
use crate::error::LayeredError;
use crate::text::chars_of;
use crate::text::is_space;
use crate::text::is_space_char;
use crate::text::count_char;
use crate::text::find_char;
use crate::text::find_in_range;
use crate::text::lemma_count_char_concat;
use crate::text::lemma_find_char;
use crate::text::strip_end;
use crate::text::strip_start;
use crate::text::trimmed_by;
use crate::text::strip_range;
use crate::text::trim;
use crate::toml::bare_end;
use crate::toml::entry_views_of;
use crate::toml::is_bare_char;
use crate::toml::law_a_written_string_reads_back;
use crate::toml::has_key;
use crate::toml::has_key_exec;
use crate::toml::key_at;
use crate::toml::key_at_exec;
use crate::toml::skip_blank;
use crate::toml::skip_blank_at;
use crate::toml::string_from_chars;
use crate::toml::sub_chars;
use crate::toml::value_at;
use crate::toml::value_at_exec;
use crate::toml::TomlValue;
use crate::toml::TomlView;
use crate::toml::written_as;
use crate::toml::writable_as;
use crate::toml::StringForm;

verus! {

/// One top-level setting of a configuration file.
#[derive(Debug)]
pub struct ConfigEntry {
    /// The key.
    pub key: String,
    /// The value (a table for a `[key]` section).
    pub value: TomlValue,
    /// The value as written (a section rendered as an inline table).
    pub raw: String,
    /// The 1-based line that set it (the header line of a section).
    pub line: usize,
}

/// How a setting is shown in an error: a string by its content, any other
/// value as it is written.
pub open spec fn shown(value: TomlView, raw: Seq<char>) -> Seq<char> {
    match value {
        TomlView::Str(s) => s,
        _ => raw,
    }
}

impl ConfigEntry {
    /// The value as an error shows it: a string's content, or the text of any
    /// other value as written (`true`, `[1, 2, 3]`, `{ nested = 1 }`).
    pub fn written(&self) -> (text: String)
        ensures
            text@ == shown(self.value.tv(), self.raw@),
    {
        match &self.value {
            TomlValue::Str(s) => String::from_str(s.as_str()),
            _ => String::from_str(self.raw.as_str()),
        }
    }
}

/// What a file says of a top-level key: the value, the value as written, and
/// the line.
pub type Setting = (TomlView, Seq<char>, int);

/// What a file says of each top-level key it sets.
pub type Settings = Map<Seq<char>, Setting>;

/// A `[name]` section being read: its name, header line, settings so far and
/// their text.
pub struct Section {
    /// The table's name.
    pub name: Seq<char>,
    /// The header's line.
    pub line: int,
    /// The settings read so far, in order.
    pub items: Seq<(Seq<char>, TomlView)>,
    /// The settings read so far, as `key = value` texts joined by `, `.
    pub raw: Seq<char>,
}

/// How far a file has been read: the top-level settings, and the section open.
pub struct ReadState {
    /// The top-level settings, sections closed so far included.
    pub doc: Settings,
    /// The section open, if any.
    pub section: Option<Section>,
}

/// A section written as an inline table.
pub open spec fn rendered(sec: Section) -> Seq<char> {
    if sec.items.len() == 0 {
        "{}"@
    } else {
        "{ "@ + sec.raw + " }"@
    }
}

/// The top-level settings once the open section (if any) is closed.
pub open spec fn flush(st: ReadState) -> Settings {
    match st.section {
        None => st.doc,
        Some(sec) => st.doc.insert(sec.name, (TomlView::Table(sec.items), rendered(sec), sec.line)),
    }
}

/// Whether nothing but a comment follows position `p`.
pub open spec fn rest_is_empty(t: Seq<char>, p: int) -> bool {
    p == t.len() || (0 <= p < t.len() && t[p] == '#')
}

/// The effect of the header line `t` (trimmed, starting with `[`), numbered `n`.
pub open spec fn header_line(st: ReadState, t: Seq<char>, n: int) -> Result<ReadState, Seq<char>> {
    if t.len() > 1 && t[1] == '[' {
        Err("arrays of tables are not read"@)
    } else {
    match key_at(t, skip_blank(t, 1)) {
        Err(m) => Err(m),
        Ok((name, r)) => {
            let r1 = skip_blank(t, r);
            if 0 <= r1 < t.len() && t[r1] == '.' {
                Err("dotted table names are not read"@)
            } else if !(0 <= r1 < t.len() && t[r1] == ']') {
                Err("expected `]` after table name"@)
            } else if !rest_is_empty(t, skip_blank(t, r1 + 1)) {
                Err("unexpected text after table header"@)
            } else if flush(st).contains_key(name) {
                Err("duplicate table"@)
            } else {
                Ok(
                    ReadState {
                        doc: flush(st),
                        section: Some(
                            Section { name, line: n, items: Seq::empty(), raw: Seq::empty() },
                        ),
                    },
                )
            }
        },
    }
    }
}

/// Adds the setting `k = v` (`raw` as written, on line `n`) to what was read:
/// to the open section if there is one, else to the top level. A key set
/// twice in the same table is an error.
pub open spec fn added(st: ReadState, k: Seq<char>, v: TomlView, raw: Seq<char>, n: int) -> Result<
    ReadState,
    Seq<char>,
> {
    match st.section {
        None => if st.doc.contains_key(k) {
            Err("duplicate key"@)
        } else {
            Ok(ReadState { doc: st.doc.insert(k, (v, raw, n)), section: None })
        },
        Some(sec) => if has_key(sec.items, k) {
            Err("duplicate key"@)
        } else {
            Ok(
                ReadState {
                    doc: st.doc,
                    section: Some(
                        Section {
                            name: sec.name,
                            line: sec.line,
                            items: sec.items.push((k, v)),
                            raw: if sec.items.len() == 0 {
                                k + " = "@ + raw
                            } else {
                                sec.raw + ", "@ + k + " = "@ + raw
                            },
                        },
                    ),
                },
            )
        },
    }
}

/// The first position from `p` on, and before `e`, that is not whitespace.
pub open spec fn space_end(s: Seq<char>, p: int, e: int) -> int
    decreases e - p,
{
    if 0 <= p < e && p < s.len() && is_space(s[p]) {
        space_end(s, p + 1, e)
    } else {
        p
    }
}

/// The end of the line that holds position `p`: where the next line break
/// is, or the end of the text.
pub open spec fn line_end(s: Seq<char>, p: int) -> int {
    p + find_char(s.skip(p), '\n')
}

/// The effect of the setting that starts at `a`, numbered `n`, and the end of
/// the line where it ends: its value may span lines (a multi-line string),
/// and only whitespace or a comment may follow it on its last line.
pub open spec fn setting_at(st: ReadState, s: Seq<char>, a: int, n: int) -> Result<
    (ReadState, int),
    Seq<char>,
> {
    match key_at(s, a) {
        Err(m) => Err(m),
        Ok((k, r)) => {
            let r1 = skip_blank(s, r);
            if 0 <= r1 < s.len() && s[r1] == '.' {
                Err("dotted keys are not read"@)
            } else if !(0 <= r1 < s.len() && s[r1] == '=') {
                Err("expected `=` after key"@)
            } else {
                let r2 = skip_blank(s, r1 + 1);
                match value_at(s, r2) {
                    Err(m) => Err(m),
                    Ok((v, r3)) => {
                        let e = line_end(s, r3);
                        let rest = trim(s.subrange(r3, e));
                        if !(rest.len() == 0 || rest[0] == '#') {
                            Err("unexpected text after value"@)
                        } else {
                            match added(st, k, v, s.subrange(r2, r3), n) {
                                Ok(next) => Ok((next, e)),
                                Err(m) => Err(m),
                            }
                        }
                    },
                }
            }
        },
    }
}

/// The effect of the statement on the line that starts at `p`, numbered `n`,
/// and the end of the line where the statement ends. A line that is blank or
/// a comment sets nothing; a line `[name]` opens a table; any other line is a
/// setting.
pub open spec fn statement(st: ReadState, s: Seq<char>, p: int, n: int) -> Result<
    (ReadState, int),
    Seq<char>,
> {
    let i = line_end(s, p);
    let t = trim(s.subrange(p, i));
    if t.len() == 0 || t[0] == '#' {
        Ok((st, i))
    } else if t[0] == '[' {
        match header_line(st, t, n) {
            Ok(next) => Ok((next, i)),
            Err(m) => Err(m),
        }
    } else {
        setting_at(st, s, space_end(s, p, i), n)
    }
}

/// The state after reading the statements of `s` from position `p` on (the
/// first of them on line `n`), from `st` on; or the line and message of the
/// first error. A statement that spans lines moves the count on by all of
/// them.
pub open spec fn read_from(s: Seq<char>, p: int, n: int, st: ReadState) -> Result<
    ReadState,
    (int, Seq<char>),
>
    decreases s.len() - p,
{
    if p < 0 || p > s.len() {
        Ok(st)
    } else {
        match statement(st, s, p, n) {
            Err(m) => Err((n, m)),
            Ok((next, e)) => if e < p || e >= s.len() {
                Ok(next)
            } else {
                read_from(s, e + 1, n + count_char(s.subrange(p, e), '\n') + 1, next)
            },
        }
    }
}

/// Nothing read yet.
pub open spec fn start() -> ReadState {
    ReadState { doc: Map::empty(), section: None }
}

/// The top-level settings that the text of a configuration file holds, or the
/// line and message of its first error.
pub open spec fn parse_config(s: Seq<char>) -> Result<Settings, (int, Seq<char>)> {
    match read_from(s, 0, 1, start()) {
        Ok(st) => Ok(flush(st)),
        Err(e) => Err(e),
    }
}

/// `entries` lists exactly the settings `m`, one entry per key.
pub open spec fn entries_match(entries: Seq<ConfigEntry>, m: Settings) -> bool {
    &&& forall|i: int|
        0 <= i < entries.len() ==> #[trigger] m.contains_key(entries[i].key@) && m[entries[i].key@]
            == (entries[i].value.tv(), entries[i].raw@, entries[i].line as int)
    &&& forall|k: Seq<char>|
        m.contains_key(k) ==> exists|i: int| 0 <= i < entries.len() && #[trigger] entries[i].key@ == k
    &&& forall|i: int, j: int|
        0 <= i < entries.len() && 0 <= j < entries.len() && i != j ==> entries[i].key@
            != entries[j].key@
}

/// The top-level settings read from a configuration file.
pub struct ConfigValues {
    entries: Vec<ConfigEntry>,
    settings: Ghost<Settings>,
}

impl View for ConfigValues {
    type V = Settings;

    closed spec fn view(&self) -> Settings {
        self.settings@
    }
}

impl ConfigValues {
    #[verifier::type_invariant]
    closed spec fn well_formed(self) -> bool {
        entries_match(self.entries@, self.settings@)
    }

    /// No settings at all, as from an empty file.
    pub fn empty() -> (values: ConfigValues)
        ensures
            values@ == Map::<Seq<char>, Setting>::empty(),
    {
        ConfigValues { entries: Vec::new(), settings: Ghost(Map::empty()) }
    }

    /// The setting of the top-level `key`, if the file sets it.
    pub fn get(&self, key: &str) -> (found: Option<&ConfigEntry>)
        ensures
            match found {
                Some(e) => self@.contains_key(key@) && e.key@ == key@ && self@[key@] == (
                    e.value.tv(),
                    e.raw@,
                    e.line as int,
                ),
                None => !self@.contains_key(key@),
            },
    {
        proof {
            use_type_invariant(self);
        }
        let wanted = String::from_str(key);
        let mut i: usize = 0;
        while i < self.entries.len()
            invariant
                0 <= i <= self.entries@.len(),
                wanted@ == key@,
                entries_match(self.entries@, self.settings@),
                forall|j: int| 0 <= j < i ==> self.entries@[j].key@ != key@,
            decreases self.entries@.len() - i,
        {
            if self.entries[i].key.eq(&wanted) {
                assert(self.settings@.contains_key(self.entries@[i as int].key@));
                return Some(&self.entries[i]);
            }
            i = i + 1;
        }
        None
    }

    /// Every top-level setting, each key once.
    pub fn entries(&self) -> (list: &Vec<ConfigEntry>)
        ensures
            entries_match(list@, self@),
    {
        proof {
            use_type_invariant(self);
        }
        &self.entries
    }
}

/// Whether one of the entries has the key `key`.
fn contains_key(entries: &Vec<ConfigEntry>, Ghost(m): Ghost<Settings>, key: &String) -> (b: bool)
    requires
        entries_match(entries@, m),
    ensures
        b == m.contains_key(key@),
{
    let mut i: usize = 0;
    while i < entries.len()
        invariant
            0 <= i <= entries@.len(),
            entries_match(entries@, m),
            forall|j: int| 0 <= j < i ==> entries@[j].key@ != key@,
        decreases entries@.len() - i,
    {
        if entries[i].key.eq(key) {
            assert(m.contains_key(entries@[i as int].key@));
            return true;
        }
        i = i + 1;
    }
    proof {
        if m.contains_key(key@) {
            let w = choose|j: int| 0 <= j < entries@.len() && #[trigger] entries@[j].key@ == key@;
            assert(entries@[w].key@ != key@);
        }
    }
    false
}

/// Records a setting of a new key.
fn push_entry(entries: &mut Vec<ConfigEntry>, Ghost(m): Ghost<Settings>, entry: ConfigEntry)
    requires
        entries_match(old(entries)@, m),
        !m.contains_key(entry.key@),
    ensures
        entries_match(
            final(entries)@,
            m.insert(entry.key@, (entry.value.tv(), entry.raw@, entry.line as int)),
        ),
{
    let ghost k = entry.key@;
    let ghost v = (entry.value.tv(), entry.raw@, entry.line as int);
    let ghost before = entries@;
    entries.push(entry);
    let ghost after = entries@;
    let ghost m2 = m.insert(k, v);
    assert forall|j: int| 0 <= j < after.len() implies #[trigger] m2.contains_key(after[j].key@)
        && m2[after[j].key@] == (after[j].value.tv(), after[j].raw@, after[j].line as int) by {
        if j < before.len() {
            assert(after[j] == before[j]);
            assert(m.contains_key(before[j].key@));
        }
    }
    assert forall|key: Seq<char>| m2.contains_key(key) implies exists|j: int|
        0 <= j < after.len() && #[trigger] after[j].key@ == key by {
        if key == k {
            assert(after[before.len() as int].key@ == key);
        } else {
            let w = choose|j: int| 0 <= j < before.len() && #[trigger] before[j].key@ == key;
            assert(after[w] == before[w]);
        }
    }
    assert forall|a: int, b: int|
        0 <= a < after.len() && 0 <= b < after.len() && a != b implies after[a].key@
        != after[b].key@ by {
        if a < before.len() {
            assert(after[a] == before[a]);
        }
        if b < before.len() {
            assert(after[b] == before[b]);
        }
    }
}

/// A section being read.
struct SectionBuf {
    name: String,
    line: usize,
    items: Vec<(String, TomlValue)>,
    raw: String,
}

/// The mathematical value of a section being read.
spec fn section_view(b: SectionBuf) -> Section {
    Section { name: b.name@, line: b.line as int, items: entry_views_of(b.items@), raw: b.raw@ }
}

/// What has been read of a file.
struct Reader {
    entries: Vec<ConfigEntry>,
    doc: Ghost<Settings>,
    section: Option<SectionBuf>,
}

spec fn reader_ok(r: Reader) -> bool {
    &&& entries_match(r.entries@, r.doc@)
    &&& (r.section matches Some(b) ==> !r.doc@.contains_key(b.name@))
}

spec fn reader_view(r: Reader) -> ReadState {
    ReadState {
        doc: r.doc@,
        section: match r.section {
            Some(b) => Some(section_view(b)),
            None => None,
        },
    }
}

/// Closes the open section, if any.
fn close(r: Reader) -> (out: (Vec<ConfigEntry>, Ghost<Settings>))
    requires
        reader_ok(r),
    ensures
        entries_match(out.0@, out.1@),
        out.1@ == flush(reader_view(r)),
{
    let Reader { entries, doc, section } = r;
    let mut entries = entries;
    match section {
        None => (entries, doc),
        Some(b) => {
            let ghost sv = section_view(b);
            let raw = if b.items.len() == 0 {
                String::from_str("{}")
            } else {
                let mut t = String::from_str("{ ");
                t.append(b.raw.as_str());
                t.append(" }");
                t
            };
            let ghost items = b.items@;
            let value = TomlValue::Table(b.items);
            assert(value.tv()->Table_0 =~= entry_views_of(items));
            let entry = ConfigEntry { key: b.name, value, raw, line: b.line };
            push_entry(&mut entries, doc, entry);
            (entries, Ghost(flush(ReadState { doc: doc@, section: Some(sv) })))
        },
    }
}

/// Whether nothing but a comment follows position `p` of `t`.
fn rest_is_empty_at(t: &Vec<char>, p: usize) -> (b: bool)
    requires
        p <= t@.len(),
    ensures
        b == rest_is_empty(t@, p as int),
{
    p == t.len() || t[p] == '#'
}

fn text(m: &str) -> (s: String)
    ensures
        s@ == m@,
{
    String::from_str(m)
}

/// The effect of a header line.
fn header_exec(r: Reader, t: &Vec<char>, n: usize) -> (out: Result<Reader, String>)
    requires
        reader_ok(r),
        t@.len() > 0,
    ensures
        match out {
            Ok(r2) => reader_ok(r2) && header_line(reader_view(r), t@, n as int) == Ok::<
                ReadState,
                Seq<char>,
            >(reader_view(r2)),
            Err(m) => header_line(reader_view(r), t@, n as int) == Err::<ReadState, Seq<char>>(m@),
        },
{
    if t.len() > 1 && t[1] == '[' {
        return Err(text("arrays of tables are not read"));
    }
    let p = skip_blank_at(t, 1);
    match key_at_exec(t, p) {
        Err(m) => Err(m),
        Ok((name_cs, q)) => {
            let r1 = skip_blank_at(t, q);
            if r1 < t.len() && t[r1] == '.' {
                return Err(text("dotted table names are not read"));
            }
            if r1 >= t.len() || t[r1] != ']' {
                return Err(text("expected `]` after table name"));
            }
            let r2 = skip_blank_at(t, r1 + 1);
            if !rest_is_empty_at(t, r2) {
                return Err(text("unexpected text after table header"));
            }
            let (entries, doc) = close(r);
            let name = string_from_chars(&name_cs);
            if contains_key(&entries, doc, &name) {
                return Err(text("duplicate table"));
            }
            let b = SectionBuf { name, line: n, items: Vec::new(), raw: String::new() };
            assert(section_view(b).items =~= Seq::<(Seq<char>, TomlView)>::empty());
            Ok(Reader { entries, doc, section: Some(b) })
        },
    }
}

/// [`space_end`], computed.
fn space_end_at(cs: &Vec<char>, p: usize, e: usize) -> (q: usize)
    requires
        p <= e <= cs@.len(),
    ensures
        q as int == space_end(cs@, p as int, e as int),
        p <= q <= e,
{
    let mut q = p;
    while q < e && is_space_char(cs[q])
        invariant
            p <= q <= e <= cs@.len(),
            space_end(cs@, p as int, e as int) == space_end(cs@, q as int, e as int),
        decreases e - q,
    {
        q = q + 1;
    }
    q
}

/// The number of line breaks in `[a, b)` of `cs`.
fn count_newlines(cs: &Vec<char>, a: usize, b: usize) -> (c: usize)
    requires
        a <= b <= cs@.len(),
    ensures
        c == count_char(cs@.subrange(a as int, b as int), '\n'),
        c <= b - a,
{
    let mut c: usize = 0;
    let mut i = a;
    assert(count_char(cs@.subrange(a as int, a as int), '\n') == 0);
    while i < b
        invariant
            a <= i <= b <= cs@.len(),
            c == count_char(cs@.subrange(a as int, i as int), '\n'),
            c <= i - a,
        decreases b - i,
    {
        proof {
            let x = cs@.subrange(a as int, i as int);
            let one = seq![cs@[i as int]];
            assert(cs@.subrange(a as int, i + 1) =~= x + one);
            lemma_count_char_concat(x, one, '\n');
            assert(one.drop_first() =~= Seq::<char>::empty());
            assert(count_char(Seq::<char>::empty(), '\n') == 0);
        }
        if cs[i] == '\n' {
            c = c + 1;
        }
        i = i + 1;
    }
    c
}

/// The effect of the setting that starts at `a`.
fn setting_exec(r: Reader, cs: &Vec<char>, a: usize, n: usize) -> (out: Result<(Reader, usize), String>)
    requires
        reader_ok(r),
        a <= cs@.len(),
    ensures
        match out {
            Ok((r2, e)) => reader_ok(r2) && e <= cs@.len() && setting_at(
                reader_view(r),
                cs@,
                a as int,
                n as int,
            ) == Ok::<(ReadState, int), Seq<char>>((reader_view(r2), e as int)),
            Err(m) => setting_at(reader_view(r), cs@, a as int, n as int) == Err::<
                (ReadState, int),
                Seq<char>,
            >(m@),
        },
{
    match key_at_exec(cs, a) {
        Err(m) => Err(m),
        Ok((k_cs, q)) => {
            let r1 = skip_blank_at(cs, q);
            if r1 < cs.len() && cs[r1] == '.' {
                return Err(text("dotted keys are not read"));
            }
            if r1 >= cs.len() || cs[r1] != '=' {
                return Err(text("expected `=` after key"));
            }
            let r2 = skip_blank_at(cs, r1 + 1);
            match value_at_exec(cs, r2) {
                Err(m) => Err(m),
                Ok((v, r3)) => {
                    let e = find_in_range(cs, r3, cs.len(), '\n');
                    assert(cs@.subrange(r3 as int, cs@.len() as int) =~= cs@.skip(r3 as int));
                    let (ra, rb) = strip_range(cs, r3, e, false);
                    if !(ra == rb || cs[ra] == '#') {
                        return Err(text("unexpected text after value"));
                    }
                    let raw_cs = sub_chars(cs, r2, r3);
                    let raw = string_from_chars(&raw_cs);
                    let k = string_from_chars(&k_cs);
                    let Reader { entries, doc, section } = r;
                    let mut entries = entries;
                    match section {
                        None => {
                            if contains_key(&entries, doc, &k) {
                                return Err(text("duplicate key"));
                            }
                            let ghost key = k@;
                            let ghost val = (v.tv(), raw@, n as int);
                            push_entry(&mut entries, doc, ConfigEntry { key: k, value: v, raw, line: n });
                            Ok((Reader { entries, doc: Ghost(doc@.insert(key, val)), section: None }, e))
                        },
                        Some(b) => {
                            if has_key_exec(&b.items, &k_cs) {
                                return Err(text("duplicate key"));
                            }
                            let SectionBuf { name, line, items, raw: sraw } = b;
                            let mut items = items;
                            let mut sraw = sraw;
                            if items.len() > 0 {
                                sraw.append(", ");
                            } else {
                                sraw = String::new();
                            }
                            sraw.append(k.as_str());
                            sraw.append(" = ");
                            sraw.append(raw.as_str());
                            let ghost old_items = items@;
                            let ghost ev = (k@, v.tv());
                            items.push((k, v));
                            assert(entry_views_of(items@) =~= entry_views_of(old_items).push(ev));
                            let nb = SectionBuf { name, line, items, raw: sraw };
                            Ok((Reader { entries, doc, section: Some(nb) }, e))
                        },
                    }
                },
            }
        },
    }
}

/// The effect of the statement on the line that starts at `p`, numbered `n`.
fn statement_exec(r: Reader, cs: &Vec<char>, p: usize, n: usize) -> (out: Result<
    (Reader, usize),
    String,
>)
    requires
        reader_ok(r),
        p <= cs@.len(),
    ensures
        match out {
            Ok((r2, e)) => reader_ok(r2) && e <= cs@.len() && statement(
                reader_view(r),
                cs@,
                p as int,
                n as int,
            ) == Ok::<(ReadState, int), Seq<char>>((reader_view(r2), e as int)),
            Err(m) => statement(reader_view(r), cs@, p as int, n as int) == Err::<
                (ReadState, int),
                Seq<char>,
            >(m@),
        },
{
    let i = find_in_range(cs, p, cs.len(), '\n');
    assert(cs@.subrange(p as int, cs@.len() as int) =~= cs@.skip(p as int));
    let (ta, tb) = strip_range(cs, p, i, false);
    let t = sub_chars(cs, ta, tb);
    if t.len() == 0 || t[0] == '#' {
        Ok((r, i))
    } else if t[0] == '[' {
        match header_exec(r, &t, n) {
            Ok(r2) => Ok((r2, i)),
            Err(m) => Err(m),
        }
    } else {
        let a = space_end_at(cs, p, i);
        setting_exec(r, cs, a, n)
    }
}

/// Reads the top-level settings from the text of a configuration file, or the
/// line and message of its first error.
pub fn parse_config_text(content: &str) -> (parsed: Result<ConfigValues, (usize, String)>)
    requires
        content@.len() < usize::MAX,
    ensures
        match parsed {
            Ok(values) => parse_config(content@) == Ok::<Settings, (int, Seq<char>)>(values@),
            Err((n, m)) => parse_config(content@) == Err::<Settings, (int, Seq<char>)>(
                (n as int, m@),
            ),
        },
{
    let cs = chars_of(content);
    let len = cs.len();
    let mut rd = Reader { entries: Vec::new(), doc: Ghost(Map::empty()), section: None };
    let mut pos: usize = 0;
    let mut line: usize = 1;
    assert(reader_view(rd) == start());
    loop
        invariant
            cs@ == content@,
            len == cs@.len(),
            len < usize::MAX,
            pos <= len,
            1 <= line <= pos + 1,
            reader_ok(rd),
            read_from(cs@, 0, 1, start()) == read_from(cs@, pos as int, line as int, reader_view(rd)),
        decreases len - pos,
    {
        match statement_exec(rd, &cs, pos, line) {
            Err(m) => {
                return Err((line, m));
            },
            Ok((r2, e)) => {
                if e < pos || e >= len {
                    let (entries, settings) = close(r2);
                    return Ok(ConfigValues { entries, settings });
                }
                let k = count_newlines(&cs, pos, e);
                rd = r2;
                line = line + k + 1;
                pos = e + 1;
            },
        }
    }
}

/// The error for a configuration file at `path` that is not valid.
fn parse_error(path: &str, n: usize, message: String) -> (e: LayeredError)
    ensures
        e@ == (ErrorView::Parse { path: path@, line: n as nat, message: message@ }),
{
    LayeredError::Parse { path: String::from_str(path), line: n, message }
}

/// What loading the text of the configuration file at `path` yields.
pub open spec fn loaded(path: Seq<char>, text: Seq<char>) -> Result<Settings, ErrorView> {
    match parse_config(text) {
        Ok(m) => Ok(m),
        Err((n, message)) => Err(ErrorView::Parse { path, line: n as nat, message }),
    }
}

/// The outcome of loading a configuration file at `path`, given the outcome of
/// reading it: its text, or the reason it could not be read.
pub fn config_from_read(path: &str, read: Result<String, String>) -> (result: Result<
    ConfigValues,
    LayeredError,
>)
    requires
        read matches Ok(text) ==> text@.len() < usize::MAX,
    ensures
        match read {
            Ok(text) => match result {
                Ok(values) => loaded(path@, text@) == Ok::<Settings, ErrorView>(values@),
                Err(e) => loaded(path@, text@) == Err::<Settings, ErrorView>(e@),
            },
            Err(reason) => result matches Err(e) && e@ == (ErrorView::Io {
                path: path@,
                source: reason@,
            }),
        },
{
    match read {
        Ok(text) => match parse_config_text(text.as_str()) {
            Ok(values) => Ok(values),
            Err((n, m)) => Err(parse_error(path, n, m)),
        },
        Err(reason) => Err(LayeredError::Io { path: String::from_str(path), source: reason }),
    }
}

/// What became of an attempt to read the configuration file.
#[derive(Debug, Clone, PartialEq)]
pub enum FileRead {
    /// There is no file at the path.
    Missing,
    /// There is a file, but it could not be read, for the given reason.
    Unreadable(String),
    /// The file's text.
    Text(String),
}

/// The file layer of a struct, given what became of reading its file: a
/// missing file sets nothing, an unreadable one is an error naming the path.
pub fn file_layer(path: &str, read: FileRead) -> (layer: Result<ConfigValues, LayeredError>)
    requires
        read matches FileRead::Text(text) ==> text@.len() < usize::MAX,
    ensures
        match read {
            FileRead::Missing => layer matches Ok(values) && values@ == Map::<
                Seq<char>,
                Setting,
            >::empty(),
            FileRead::Unreadable(reason) => layer matches Err(e) && e@ == (ErrorView::Io {
                path: path@,
                source: reason@,
            }),
            FileRead::Text(text) => match layer {
                Ok(values) => loaded(path@, text@) == Ok::<Settings, ErrorView>(values@),
                Err(e) => loaded(path@, text@) == Err::<Settings, ErrorView>(e@),
            },
        },
{
    match read {
        FileRead::Missing => Ok(ConfigValues::empty()),
        FileRead::Unreadable(reason) => Err(
            LayeredError::Io { path: String::from_str(path), source: reason },
        ),
        FileRead::Text(text) => match parse_config_text(text.as_str()) {
            Ok(values) => Ok(values),
            Err((n, m)) => Err(parse_error(path, n, m)),
        },
    }
}

/// A state that reading a file can reach: the open section's name is not yet a
/// top-level key.
pub open spec fn reachable(st: ReadState) -> bool {
    st.section matches Some(sec) ==> !st.doc.contains_key(sec.name)
}

/// Blank lines and comment lines change nothing.
pub proof fn law_blank_and_comment_lines_set_nothing(st: ReadState, s: Seq<char>, p: int, n: int)
    requires
        ({
            let t = trim(s.subrange(p, line_end(s, p)));
            t.len() == 0 || t[0] == '#'
        }),
    ensures
        statement(st, s, p, n) == Ok::<(ReadState, int), Seq<char>>((st, line_end(s, p))),
{
}

/// A setting is never overwritten: a statement that reads without error keeps
/// every top-level setting as it was, and leaves the state reachable; while a
/// section is open, a statement other than a header leaves the top level
/// untouched (its key belongs to the section).
pub proof fn law_settings_never_overwritten(st: ReadState, s: Seq<char>, p: int, n: int)
    requires
        reachable(st),
    ensures
        statement(st, s, p, n) matches Ok((next, _)) ==> {
            let t = trim(s.subrange(p, line_end(s, p)));
            &&& reachable(next)
            &&& forall|k: Seq<char>|
                #[trigger] st.doc.contains_key(k) ==> next.doc.contains_key(k) && next.doc[k]
                    == st.doc[k]
            &&& (st.section is Some && !(t.len() > 0 && t[0] == '[')) ==> next.doc == st.doc
        },
{
}

/// Closing the open section adds it as a top-level table and changes no other
/// top-level setting.
pub proof fn law_closing_a_section_overwrites_nothing(st: ReadState)
    requires
        reachable(st),
    ensures
        forall|k: Seq<char>|
            #[trigger] st.doc.contains_key(k) ==> flush(st).contains_key(k) && flush(st)[k]
                == st.doc[k],
        st.section matches Some(sec) ==> flush(st).contains_key(sec.name) && flush(st)[sec.name]
            == (TomlView::Table(sec.items), rendered(sec), sec.line),
{
}

/// A key set twice at the top level is an error, not a replacement.
pub proof fn law_duplicate_key_is_an_error(st: ReadState, s: Seq<char>, a: int, n: int)
    requires
        st.section is None,
        key_at(s, a) matches Ok((k, _)) && st.doc.contains_key(k),
    ensures
        setting_at(st, s, a, n) is Err,
{
}

/// A table opened twice is an error.
pub proof fn law_duplicate_table_is_an_error(st: ReadState, t: Seq<char>, n: int)
    requires
        key_at(t, skip_blank(t, 1)) matches Ok((name, _)) && flush(st).contains_key(name),
    ensures
        header_line(st, t, n) is Err,
{
}

/// A run of bare-key characters ends where they do.
proof fn lemma_bare_end_of_key(t: Seq<char>, k: Seq<char>, p: int)
    requires
        0 <= p <= k.len() < t.len(),
        t.subrange(0, k.len() as int) == k,
        forall|i: int| 0 <= i < k.len() ==> is_bare_char(#[trigger] k[i]),
        !is_bare_char(t[k.len() as int]),
    ensures
        bare_end(t, p) == k.len(),
    decreases k.len() - p,
{
    if p < k.len() {
        assert(t[p] == t.subrange(0, k.len() as int)[p]);
        lemma_bare_end_of_key(t, k, p + 1);
    }
}

/// Trailing whitespace aside, a text that starts with something else keeps
/// its first character.
proof fn lemma_strip_end_keeps_first(x: Seq<char>)
    requires
        x.len() > 0,
        !is_space(x[0]),
    ensures
        strip_end(x, trimmed_by(false)).len() > 0,
        strip_end(x, trimmed_by(false))[0] == x[0],
    decreases x.len(),
{
    if x.len() > 1 && is_space(x.last()) {
        assert(x.drop_last()[0] == x[0]);
        lemma_strip_end_keeps_first(x.drop_last());
    }
}

/// The first line of `key = ...`, the value opening with a quote: it starts
/// with the key, and the setting starts where the line does.
proof fn lemma_first_line(k: Seq<char>, w: Seq<char>)
    requires
        k.len() > 0,
        forall|i: int| 0 <= i < k.len() ==> is_bare_char(#[trigger] k[i]),
        w.len() > 0,
        w[0] == '"' || w[0] == '\'',
    ensures
        ({
            let t = k + seq![' ', '=', ' '] + w;
            let i = line_end(t, 0);
            &&& i <= t.len()
            &&& trim(t.subrange(0, i)).len() > 0
            &&& trim(t.subrange(0, i))[0] == k[0]
            &&& space_end(t, 0, i) == 0
        }),
{
    let t = k + seq![' ', '=', ' '] + w;
    let n = k.len() as int;
    assert(t[0] == k[0]);
    assert(t[n + 3] == w[0]);
    assert(t.skip(0) =~= t);
    lemma_find_char(t, '\n');
    let i = line_end(t, 0);
    assert forall|j: int| 0 <= j <= n + 3 implies t[j] != '\n' by {
        if j < n {
            assert(t[j] == k[j]);
        }
    }
    if i <= n + 3 {
        assert(t[i] == '\n');
    }
    let line = t.subrange(0, i);
    assert(line[0] == k[0]);
    assert(!is_space(k[0]));
    assert(strip_start(line, trimmed_by(false)) == line);
    lemma_strip_end_keeps_first(line);
}

/// The setting `key = ...` whose value reads as `v` up to the end of the text.
#[verifier::spinoff_prover]
#[verifier::rlimit(40)]
proof fn lemma_single_setting(k: Seq<char>, w: Seq<char>, v: TomlView)
    requires
        k.len() > 0,
        forall|i: int| 0 <= i < k.len() ==> is_bare_char(#[trigger] k[i]),
        value_at(k + seq![' ', '=', ' '] + w, k.len() as int + 3) == Ok::<(TomlView, int), Seq<char>>(
            (v, k.len() as int + 3 + w.len()),
        ),
    ensures
        setting_at(start(), k + seq![' ', '=', ' '] + w, 0, 1) == Ok::<(ReadState, int), Seq<char>>(
            (
                ReadState {
                    doc: Map::<Seq<char>, Setting>::empty().insert(k, (v, w, 1int)),
                    section: None,
                },
                k.len() as int + 3 + w.len(),
            ),
        ),
{
    let t = k + seq![' ', '=', ' '] + w;
    let n = k.len() as int;
    assert(t[n] == ' ');
    assert(t[n + 1] == '=');
    assert(t[n + 2] == ' ');
    assert(t.subrange(0, n) =~= k);
    assert(t.subrange(n + 3, t.len() as int) =~= w);
    assert(t[0] == k[0]);
    lemma_bare_end_of_key(t, k, 0);
    assert(key_at(t, 0) == Ok::<(Seq<char>, int), Seq<char>>((k, n)));
    assert(skip_blank(t, n + 1) == n + 1);
    assert(skip_blank(t, n) == n + 1);
    assert(skip_blank(t, n + 3) == n + 3);
    assert(skip_blank(t, n + 2) == n + 3);
    assert(t.skip(t.len() as int) =~= Seq::<char>::empty());
    assert(line_end(t, t.len() as int) == t.len());
    assert(t.subrange(t.len() as int, t.len() as int) =~= Seq::<char>::empty());
    assert(trim(Seq::<char>::empty()) =~= Seq::<char>::empty());
}

/// A text that is one statement, ending at the end of the text.
proof fn lemma_one_statement(t: Seq<char>, next: ReadState)
    requires
        statement(start(), t, 0, 1) == Ok::<(ReadState, int), Seq<char>>((next, t.len() as int)),
    ensures
        parse_config(t) == Ok::<Settings, (int, Seq<char>)>(flush(next)),
{
}

/// The key and first line of `key = ...` make it a setting.
proof fn lemma_is_setting(k: Seq<char>, w: Seq<char>)
    requires
        k.len() > 0,
        forall|i: int| 0 <= i < k.len() ==> is_bare_char(#[trigger] k[i]),
        w.len() > 0,
        w[0] == '"' || w[0] == '\'',
    ensures
        statement(start(), k + seq![' ', '=', ' '] + w, 0, 1) == setting_at(
            start(),
            k + seq![' ', '=', ' '] + w,
            0,
            1,
        ),
{
    lemma_first_line(k, w);
    assert(is_bare_char(k[0]));
}

/// A string written in any form opens with a quote.
proof fn lemma_written_opens_with_quote(s: Seq<char>, f: StringForm)
    ensures
        written_as(s, f).len() > 0,
        written_as(s, f)[0] == '"' || written_as(s, f)[0] == '\'',
{
}

/// What a write gives back, through the file: a file holding the one setting
/// `key = ...`, a string written in any of TOML's forms that can hold it (a
/// multi-line one spanning lines), sets `key` to that string, exactly as it
/// was.
pub proof fn law_a_string_survives_the_file_layer(k: Seq<char>, s: Seq<char>, f: StringForm)
    requires
        k.len() > 0,
        forall|i: int| 0 <= i < k.len() ==> is_bare_char(#[trigger] k[i]),
        writable_as(s, f),
    ensures
        parse_config(k + seq![' ', '=', ' '] + written_as(s, f)) == Ok::<
            Settings,
            (int, Seq<char>),
        >(Map::<Seq<char>, Setting>::empty().insert(k, (TomlView::Str(s), written_as(s, f), 1int))),
{
    let w = written_as(s, f);
    let t = k + seq![' ', '=', ' '] + w;
    let n = k.len() as int;
    lemma_written_opens_with_quote(s, f);
    lemma_is_setting(k, w);
    assert(t.subrange(n + 3, n + 3 + w.len()) =~= w);
    law_a_written_string_reads_back(t, n + 3, s, f);
    lemma_single_setting(k, w, TomlView::Str(s));
    let next = ReadState {
        doc: Map::<Seq<char>, Setting>::empty().insert(k, (TomlView::Str(s), w, 1int)),
        section: None,
    };
    lemma_one_statement(t, next);
}

/// Inside an open section a key is a duplicate only of a key of that section:
/// whatever the top level holds, a key new to the section is added to the
/// section, after its other settings, and the top level is untouched.
pub proof fn law_section_keys_are_their_own(
    st: ReadState,
    k: Seq<char>,
    v: TomlView,
    raw: Seq<char>,
    n: int,
)
    requires
        st.section is Some,
        !has_key(st.section->Some_0.items, k),
    ensures
        added(st, k, v, raw, n) matches Ok(next) && next.doc == st.doc && next.section is Some
            && next.section->Some_0.name == st.section->Some_0.name
            && next.section->Some_0.items == st.section->Some_0.items.push((k, v)),
{
}

/// At the top level a key is a duplicate exactly when the top level already
/// holds it; a new key is added with its value, text and line, and no other
/// key changes.
pub proof fn law_top_level_keys(st: ReadState, k: Seq<char>, v: TomlView, raw: Seq<char>, n: int)
    requires
        st.section is None,
    ensures
        added(st, k, v, raw, n) is Err <==> st.doc.contains_key(k),
        !st.doc.contains_key(k) ==> added(st, k, v, raw, n) == Ok::<ReadState, Seq<char>>(
            ReadState { doc: st.doc.insert(k, (v, raw, n)), section: None },
        ),
{
}

/// A text without line breaks counts none.
proof fn lemma_no_breaks(x: Seq<char>)
    requires
        forall|j: int| 0 <= j < x.len() ==> #[trigger] x[j] != '\n',
    ensures
        count_char(x, '\n') == 0,
    decreases x.len(),
{
    if x.len() > 0 {
        assert forall|j: int| 0 <= j < x.drop_first().len() implies #[trigger] x.drop_first()[j]
            != '\n' by {
            assert(x.drop_first()[j] == x[j + 1]);
        }
        lemma_no_breaks(x.drop_first());
    }
}

/// A blank or comment line, followed by more text, changes nothing and moves
/// the count on by exactly one line.
pub proof fn law_a_blank_line_moves_on_one_line(s: Seq<char>, p: int, n: int, st: ReadState)
    requires
        0 <= p <= s.len(),
        line_end(s, p) < s.len(),
        ({
            let t = trim(s.subrange(p, line_end(s, p)));
            t.len() == 0 || t[0] == '#'
        }),
    ensures
        read_from(s, p, n, st) == read_from(s, line_end(s, p) + 1, n + 1, st),
{
    let i = line_end(s, p);
    lemma_find_char(s.skip(p), '\n');
    assert forall|j: int| 0 <= j < s.subrange(p, i).len() implies #[trigger] s.subrange(p, i)[j]
        != '\n' by {
        assert(s.subrange(p, i)[j] == s.skip(p)[j]);
    }
    lemma_no_breaks(s.subrange(p, i));
}

} // verus!
