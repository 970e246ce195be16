# m1_workspace

Shared conventions of the MoTeC M1 toolchain, written in Verus: every
function of the library carries a `requires` / `ensures` contract, and Verus
proves the code against it.

## Layout

- `src/` — the verified library.
  - `lib.rs`: file-name conventions and the implicit `Root.` prefix of symbol
    paths (`qualify_root`, `strip_root`).
  - `decode.rs`: tolerant decoding of MoTeC text files (UTF-8, Windows-1252,
    UTF-16 after a byte-order mark), encoding back, and the read-size limit.
  - `config.rs`: the `m1-tools.toml` schema, validation and error messages.
  - `diff.rs`: a line-level LCS unified diff with three lines of context.
  - `line_index.rs`: byte offset to line/column lookup, with columns in UTF-8
    bytes or UTF-16 code units.
  - `style.rs`: the indent and brace style settings.
  - `walk.rs`: the rules by which directory walks pick project files.
  - `text.rs`: string and UTF-8 helpers used by the modules above.
- `app/` — plain Rust around the library: filesystem reads and writes,
  directory walks, TOML parsing through serde, and `Display` for the error
  types.
- `tests/` — tests of the library on concrete values.

Each module states its behaviour over spec functions (`spec_decode_with_encoding`,
`spec_unified_diff`, `spec_position`, ...), and proof functions named `law_*`
state the properties that relate several calls, such as that `offset_in`
inverts `position_in` at character boundaries, that Windows line endings do
not change a diff, or that decoding then encoding gives back the bytes of a
file without a byte-order mark that is valid UTF-8 or holds none of the five
bytes Windows-1252 leaves undefined.
