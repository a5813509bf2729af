# skv

A parser for SKV maps: `key=value` pairs separated by whitespace, such as

    name='a b' count=0x1f ratio=1.5e3 enabled=True mode=fast

Values are read as booleans (`true`/`false` in any case), integers (decimal, `0x`, `0o`, `0b`,
with an optional `-`), doubles (including `\$nan`, `\$inf` and `\$infinity`) or strings, quoted
or not, with escapes. Under a schema each key's value is read as the type that the schema
gives it; keys may be required, optional or have a default, and unknown keys may be parsed,
skipped or refused.

The library under `src/` is written in Verus: each parser is specified by a spec function of the
grammar, and its executable code is proved to follow it. `src/properties.rs` and
`src/written.rs` prove what every parse guarantees, such as that a map written pair by pair
parses back to the values written. `app/` is the command-line program: it parses its arguments
as one map and prints it, with doubles read as `f64`.
