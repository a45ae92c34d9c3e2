# semantic_version

Semantic versions (SemVer 2.0) and range specifications, written in Verus:
every function of the library carries a contract that Verus proves, but for
two trusted wrappers over std whose contracts Verus takes as given:
`text::push_char` (`String::push`) and `error::debug_string`
(`format!("{:?}", s)`, whose result is named `error::debug_rendering`).

- Versions: parsing (full and partial), rendering, coercion of loose
  strings, precedence (build metadata ignored), truncation and the next
  major / minor / patch release.
- Clauses: ranges with prerelease and build policies, `AllOf` / `AnyOf`
  combinations, simplification and set-like equivalence.
- Specs: the simple syntax (`>=1.2,<2`), npm's syntax (`^1.2 || ~2.3`,
  hyphen ranges, `x` wildcards) and the full simple syntax of `SpecItem`
  and `Spec` (the legacy spec).

## Layout

- `src/`: the verified library. `text` (character-level helpers), `error`,
  `identifiers`, `version`, `clause`, `simple_spec`, `npm_spec`, `legacy`,
  `components` (building versions from parts), `repr` (the canonical text
  of a clause) and `laws` (properties that span several operations, such as
  round trips of parsing and rendering, the order of precedence, and what
  `&`, `|`, `,` and `||` mean for the versions a spec accepts).
- `tests/`: tests of the library on concrete values.
- `app/`: a Python extension module over the library (pyo3), with the
  error type carrying `std::error::Error`.
