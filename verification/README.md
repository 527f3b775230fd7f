# mbombo

A command line file forger: it concatenates source files into one output
file and applies replacement rules (`OLD=NEW`, `OLD=NEW:token`,
`OLD=NEW:line`) to every line of every source.

- `src/` is the verified library (Verus): `text` (lines, joining,
  replacement, trimming over character sequences), `pattern` (whole-word
  matching through the `regex` crate), `custom` (rules: parsing and
  application), `util` (path normalisation, the overwrite decision and the
  text written for each source), `cli` (subcommands, shells, required flags).
- `app/` is the program: command line parsing with `clap`, completions with
  `clap_complete`, and all file I/O.
- `tests/` runs the library on concrete inputs.
