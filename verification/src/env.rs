//! An environment: the variables a program sees, by name.

use vstd::prelude::*;

use crate::text::trim;
use crate::toml::string_from_chars;
use crate::toml::value_at;
use crate::toml::value_at_exec;
use crate::toml::TomlValue;
use crate::toml::TomlView;
use crate::text::chars_of;
use crate::text::strip_range;
use crate::toml::sub_chars;
use crate::text::strip_end;
use crate::text::strip_start;
use crate::text::trimmed_by;
use crate::toml::law_a_written_string_reads_back;
use crate::text::is_space;
use crate::toml::written_as;
use crate::toml::writable_as;
use crate::toml::StringForm;
use crate::toml::views_of;

verus! {

/// `vars` lists exactly the variables `m`, one entry per name.
pub open spec fn vars_match(vars: Seq<(String, String)>, m: Map<Seq<char>, Seq<char>>) -> bool {
    &&& forall|i: int|
        0 <= i < vars.len() ==> #[trigger] m.contains_key(vars[i].0@) && m[vars[i].0@] == vars[i].1@
    &&& forall|k: Seq<char>|
        m.contains_key(k) ==> exists|i: int| 0 <= i < vars.len() && #[trigger] vars[i].0@ == k
    &&& forall|i: int, j: int|
        0 <= i < vars.len() && 0 <= j < vars.len() && i != j ==> vars[i].0@ != vars[j].0@
}

/// The variables set by a list of name-value pairs, a later pair of a name
/// replacing an earlier one.
pub open spec fn pairs_map(pairs: Seq<(String, String)>) -> Map<Seq<char>, Seq<char>>
    decreases pairs.len(),
{
    if pairs.len() == 0 {
        Map::empty()
    } else {
        pairs_map(pairs.drop_last()).insert(pairs.last().0@, pairs.last().1@)
    }
}

/// An environment: variable names and their values.
pub struct Env {
    vars: Vec<(String, String)>,
    map: Ghost<Map<Seq<char>, Seq<char>>>,
}

impl View for Env {
    type V = Map<Seq<char>, Seq<char>>;

    closed spec fn view(&self) -> Map<Seq<char>, Seq<char>> {
        self.map@
    }
}

impl Env {
    #[verifier::type_invariant]
    closed spec fn well_formed(self) -> bool {
        vars_match(self.vars@, self.map@)
    }

    /// No variables.
    pub fn empty() -> (env: Env)
        ensures
            env@ == Map::<Seq<char>, Seq<char>>::empty(),
    {
        Env { vars: Vec::new(), map: Ghost(Map::empty()) }
    }

    /// The environment of the given name-value pairs; of two pairs with one
    /// name, the later wins.
    pub fn from_pairs(pairs: Vec<(String, String)>) -> (env: Env)
        ensures
            env@ == pairs_map(pairs@),
    {
        let mut vars: Vec<(String, String)> = Vec::new();
        let ghost mut m: Map<Seq<char>, Seq<char>> = Map::empty();
        let mut pairs = pairs;
        let ghost all = pairs@;
        let n = pairs.len();
        let mut rest: Vec<(String, String)> = Vec::new();
        // Take the pairs in order: reverse them once, then pop.
        while pairs.len() > 0
            invariant
                pairs@ + rest@.reverse() == all,
            decreases pairs@.len(),
        {
            let ghost before_p = pairs@;
            let ghost before_r = rest@;
            let x = pairs.pop().unwrap();
            rest.push(x);
            assert(before_r.push(x).reverse() =~= seq![x] + before_r.reverse());
            assert(before_p =~= pairs@.push(x));
        }
        assert(rest@.reverse() =~= all);
        assert(rest@.len() == all.len()) by {
            assert(rest@.reverse().len() == rest@.len());
        }
        assert(all.skip(0) =~= all);
        assert(all.take(0) =~= Seq::<(String, String)>::empty());
        let mut done: usize = 0;
        while rest.len() > 0
            invariant
                vars_match(vars@, m),
                rest@.reverse() == all.skip(done as int),
                done <= all.len(),
                all.len() == n,
                done + rest@.len() == all.len(),
                m == pairs_map(all.take(done as int)),
            decreases rest@.len(),
        {
            let ghost before_r = rest@;
            let x = rest.pop().unwrap();
            assert(before_r =~= rest@.push(x));
            assert(before_r.reverse() =~= seq![x] + rest@.reverse());
            assert(all.skip(done as int)[0] == x);
            assert(all.take(done + 1).drop_last() =~= all.take(done as int));
            assert(all.skip(done + 1) =~= all.skip(done as int).drop_first());
            let ghost k = x.0@;
            let ghost v = x.1@;
            upsert_var(&mut vars, Ghost(m), x);
            proof {
                m = m.insert(k, v);
            }
            done = done + 1;
        }
        assert(all.take(all.len() as int) =~= all);
        Env { vars, map: Ghost(m) }
    }

    /// Sets the variable `name` to `value`.
    pub fn set(&mut self, name: &str, value: &str)
        ensures
            final(self)@ == old(self)@.insert(name@, value@),
    {
        proof {
            use_type_invariant(&*self);
        }
        let mut env = Env::empty();
        std::mem::swap(&mut env, self);
        proof {
            use_type_invariant(&env);
        }
        let Env { vars, map } = env;
        let ghost m = map@;
        let mut vars = vars;
        upsert_var(&mut vars, Ghost(m), (String::from_str(name), String::from_str(value)));
        *self = Env { vars, map: Ghost(m.insert(name@, value@)) };
    }

    /// The value of the variable `name`, if it is set.
    pub fn get(&self, name: &str) -> (value: Option<&String>)
        ensures
            match value {
                Some(v) => self@.contains_key(name@) && v@ == self@[name@],
                None => !self@.contains_key(name@),
            },
    {
        proof {
            use_type_invariant(self);
        }
        let wanted = String::from_str(name);
        let mut i: usize = 0;
        while i < self.vars.len()
            invariant
                0 <= i <= self.vars@.len(),
                wanted@ == name@,
                vars_match(self.vars@, self.map@),
                forall|j: int| 0 <= j < i ==> self.vars@[j].0@ != name@,
            decreases self.vars@.len() - i,
        {
            if self.vars[i].0.eq(&wanted) {
                assert(self.map@.contains_key(self.vars@[i as int].0@));
                return Some(&self.vars[i].1);
            }
            i = i + 1;
        }
        proof {
            if self.map@.contains_key(name@) {
                let w = choose|j: int| 0 <= j < self.vars@.len() && #[trigger] self.vars@[j].0@ == name@;
                assert(self.vars@[w].0@ != name@);
            }
        }
        None
    }
}

/// What an environment value means: the TOML value it is, when the whole of it
/// (less surrounding whitespace) is one; otherwise the text itself, as a string.
pub open spec fn env_value(raw: Seq<char>) -> TomlView {
    let t = trim(raw);
    match value_at(t, 0) {
        Ok((v, q)) => if q == t.len() {
            v
        } else {
            TomlView::Str(raw)
        },
        Err(_) => TomlView::Str(raw),
    }
}

/// Reads an environment value as [`env_value`] says: `["a", "b"]` is an
/// array, `"quoted"` is the string `quoted`, and `localhost` is the string
/// `localhost`.
pub fn read_env_value(raw: &str) -> (v: TomlValue)
    ensures
        v.tv() == env_value(raw@),
{
    let cs = chars_of(raw);
    let (a, b) = strip_range(&cs, 0, cs.len(), false);
    let t = sub_chars(&cs, a, b);
    assert(cs@.subrange(0, cs@.len() as int) =~= cs@);
    match value_at_exec(&t, 0) {
        Ok((v, q)) => if q == t.len() {
            v
        } else {
            TomlValue::Str(String::from_str(raw))
        },
        Err(_) => TomlValue::Str(String::from_str(raw)),
    }
}

/// Records the variable `entry`, replacing one with the same name.
fn upsert_var(vars: &mut Vec<(String, String)>, Ghost(m): Ghost<Map<Seq<char>, Seq<char>>>, entry: (String, String))
    requires
        vars_match(old(vars)@, m),
    ensures
        vars_match(final(vars)@, m.insert(entry.0@, entry.1@)),
{
    let ghost k = entry.0@;
    let ghost v = entry.1@;
    let mut i: usize = 0;
    let mut found = false;
    while !found && i < vars.len()
        invariant
            0 <= i <= vars@.len(),
            vars@ == old(vars)@,
            k == entry.0@,
            forall|j: int| 0 <= j < i ==> vars@[j].0@ != k,
            found ==> i < vars@.len() && vars@[i as int].0@ == k,
        decreases vars@.len() - i, if found { 0int } else { 1int },
    {
        if vars[i].0.eq(&entry.0) {
            found = true;
        } else {
            i = i + 1;
        }
    }
    let ghost before = vars@;
    if found {
        vars.set(i, entry);
        let ghost after = vars@;
        let ghost m2 = m.insert(k, v);
        assert forall|j: int| 0 <= j < after.len() implies #[trigger] m2.contains_key(
            after[j].0@,
        ) && m2[after[j].0@] == after[j].1@ by {
            if j != i {
                assert(before[j].0@ != before[i as int].0@);
                assert(m.contains_key(before[j].0@));
            }
        }
        assert forall|key: Seq<char>| m2.contains_key(key) implies exists|j: int|
            0 <= j < after.len() && #[trigger] after[j].0@ == key by {
            if key == k {
                assert(after[i as int].0@ == key);
            } else {
                let w = choose|j: int| 0 <= j < before.len() && #[trigger] before[j].0@ == key;
                assert(after[w].0@ == key);
            }
        }
        assert forall|a: int, b: int|
            0 <= a < after.len() && 0 <= b < after.len() && a != b implies after[a].0@
            != after[b].0@ by {
            assert(before[i as int].0@ == k);
        }
    } else {
        vars.push(entry);
        let ghost after = vars@;
        let ghost m2 = m.insert(k, v);
        assert(!m.contains_key(k)) by {
            if m.contains_key(k) {
                let w = choose|j: int| 0 <= j < before.len() && #[trigger] before[j].0@ == k;
                assert(before[w].0@ != k);
            }
        }
        assert forall|j: int| 0 <= j < after.len() implies #[trigger] m2.contains_key(
            after[j].0@,
        ) && m2[after[j].0@] == after[j].1@ by {
            if j < before.len() {
                assert(after[j] == before[j]);
                assert(m.contains_key(before[j].0@));
            }
        }
        assert forall|key: Seq<char>| m2.contains_key(key) implies exists|j: int|
            0 <= j < after.len() && #[trigger] after[j].0@ == key by {
            if key == k {
                assert(after[before.len() as int].0@ == key);
            } else {
                let w = choose|j: int| 0 <= j < before.len() && #[trigger] before[j].0@ == key;
                assert(after[w] == before[w]);
            }
        }
        assert forall|a: int, b: int|
            0 <= a < after.len() && 0 <= b < after.len() && a != b implies after[a].0@
            != after[b].0@ by {
            if a < before.len() {
                assert(after[a] == before[a]);
            }
            if b < before.len() {
                assert(after[b] == before[b]);
            }
        }
    }
}

/// The readings of an environment value that a field tries, in order: what
/// [`env_value`] makes of it, then the text itself as a string (so that a
/// string field set to `8080` or `true` gets that text).
pub fn env_readings(raw: &str) -> (readings: Vec<TomlValue>)
    ensures
        views_of(readings@) == seq![env_value(raw@), TomlView::Str(raw@)],
{
    let readings = vec![read_env_value(raw), TomlValue::Str(String::from_str(raw))];
    assert(views_of(readings@) =~= seq![env_value(raw@), TomlView::Str(raw@)]);
    readings
}

/// A string written in any of TOML's forms in an environment variable is read
/// as that string, its quotes and escapes being syntax.
pub proof fn law_a_quoted_environment_value_is_its_content(s: Seq<char>, f: StringForm)
    requires
        writable_as(s, f),
    ensures
        env_value(written_as(s, f)) == TomlView::Str(s),
{
    let q = written_as(s, f);
    assert(q.subrange(0, q.len() as int) =~= q);
    law_a_written_string_reads_back(q, 0, s, f);
    assert(!is_space(q[0]));
    assert(!is_space(q.last()));
    assert(strip_start(q, trimmed_by(false)) == q);
    assert(strip_end(q, trimmed_by(false)) == q);
    assert(trim(q) == q);
}

/// An environment value that is wholly one TOML value (surrounding whitespace
/// aside) is read as that value, whatever its kind: `1.5` as a float, `[1]` as
/// an array, `"x"` as the string `x`.
pub proof fn law_a_whole_toml_value_is_read_as_itself(raw: Seq<char>, v: TomlView)
    requires
        value_at(trim(raw), 0) == Ok::<(TomlView, int), Seq<char>>((v, trim(raw).len() as int)),
    ensures
        env_value(raw) == v,
{
}

/// An environment value that is not wholly one TOML value is read as its text,
/// untrimmed.
pub proof fn law_other_text_is_read_as_text(raw: Seq<char>)
    requires
        !(value_at(trim(raw), 0) matches Ok((_, q)) && q == trim(raw).len()),
    ensures
        env_value(raw) == TomlView::Str(raw),
{
}

} // verus!
