# clap-layers

Layered configuration for clap programs: an explicitly typed flag beats an
environment variable, which beats a configuration file, which beats the
built-in default. A value that a layer holds but that cannot be decoded for its
field is an error naming the field, the value and the layer
(`invalid value 'banana' for 'port' — from environment variable MYAPP_PORT`);
it never falls back to a lower layer.

- `src/` is the verified library:
  - `toml`: TOML values — basic, literal and multi-line strings with their
    escapes, integers (decimal, hex, octal, binary, with underscores), floats
    (fractions, exponents, `inf`, `nan`), booleans, dates and times, arrays
    (across lines, with comments) and inline tables;
  - `config`: the configuration file, statement by statement: `key = value`,
    `[table]` sections (whose keys stay in their table), comments, values that
    span lines, and a parse error naming the statement's line for a malformed
    statement, a duplicate key or a duplicate table;
  - `env`: the environment (`Env`) and how a variable's text is read (as TOML
    when the whole of it is a TOML value, else as the text itself);
  - `resolve`: which layer decides a field, and what a layer offers given how
    its readings decode;
  - `plan`: the checks and naming rules of `#[derive(Layered)]`;
  - `error`, `layer`: the error and layer types and their messages;
  - `text`: character helpers.
- `app/` reads files and the process environment, talks to clap, decodes TOML
  values into field types through serde, renders errors with `Display`, and
  turns a struct's syntax into the library's description and the library's
  plan back into code.
- `tests/` exercise the library on concrete inputs.

Not read by the file format: dotted keys (`a.b = 1`), dotted table names
(`[a.b]`) and arrays of tables (`[[a]]`); each is a parse error that names it.
