//! Shared conventions of the MoTeC M1 toolchain.
//!
//! Every M1 tool that loads a project needs to find the same files, decode them
//! the same way and read the same configuration. This crate holds those rules:
//! the file-name conventions and the implicit `Root.` prefix of symbol paths,
//! tolerant decoding of MoTeC's text files ([`decode_with_encoding`],
//! [`encode`]), the unified configuration schema and its validation
//! ([`config`]), byte-offset to line/column lookup ([`LineIndex`]), a line-level
//! unified diff ([`diff`]) and the shared style settings ([`style`]).
mod text;
mod style;
pub mod diff;
mod line_index;
mod decode;
pub mod config;
pub mod walk;

pub use config::{
    ConfigError, DiagnosticsSection, FormatSection, LintSection, M1ToolsConfig, TOOLS_CONFIG_FILE,
    parse_ignore_symbol,
};
pub use decode::{
    Encoding, LossyEncoding, MAX_TEXT_FILE_BYTES, decode, decode_with_encoding, encode, encode_checked,
    read_limit_error,
};
pub use line_index::{LineIndex, PositionEncoding};
pub use style::{BraceStyle, IndentStyle, InvalidStyle};

use vstd::prelude::*;
use vstd::string::StringExecFns;
use crate::text::{chars_with_offsets, str_eq, substr};

verus! {

/// The project file name.
pub const PROJECT_FILE: &'static str = "Project.m1prj";

/// The M1 script file extension (without the dot).
pub const SCRIPT_EXT: &'static str = "m1scr";

/// The parameter-config file extension (without the dot).
pub const CONFIG_EXT: &'static str = "m1cfg";

/// The CAN-database file extension (without the dot).
pub const DBC_EXT: &'static str = "m1dbc";

/// The implicit root group prefix on fully-qualified symbol paths (`Root.Foo.Bar`).
pub const ROOT_PREFIX: &'static str = "Root.";

/// True when `name` starts with the `Root.` prefix.
pub open spec fn has_root_prefix(name: Seq<char>) -> bool {
    name.len() >= 5 && name.take(5) == "Root."@
}

/// `name` with the implicit `Root.` prefix, unless it is `Root` itself or
/// already starts with `Root.`.
pub open spec fn spec_qualify_root(name: Seq<char>) -> Seq<char> {
    if name == "Root"@ || has_root_prefix(name) {
        name
    } else {
        "Root."@ + name
    }
}

/// `path` without a leading `Root.`, if it has one.
pub open spec fn spec_strip_root(path: Seq<char>) -> Seq<char> {
    if has_root_prefix(path) {
        path.skip(5)
    } else {
        path
    }
}

/// The characters of `s`, whether `s` starts with `Root.`, and the byte offsets
/// of its characters.
fn root_prefix_split(s: &str) -> (r: (bool, Vec<usize>))
    ensures
        r.0 == has_root_prefix(s@),
        r.1@.len() == s@.len() + 1,
        forall|k: int| 0 <= k <= s@.len() ==> #[trigger] r.1@[k] == crate::text::utf8_len(s@.take(k)),
{
    let (c, offsets) = chars_with_offsets(s);
    proof {
        reveal_strlit("Root.");
    }
    let has = c.len() >= 5 && c[0] == 'R' && c[1] == 'o' && c[2] == 'o' && c[3] == 't' && c[4] == '.';
    proof {
        if c.len() >= 5 {
            if has {
                assert(s@.take(5) =~= "Root."@);
            } else {
                if s@.take(5) == "Root."@ {
                    assert(s@.take(5)[0] == 'R' && s@.take(5)[1] == 'o' && s@.take(5)[2] == 'o'
                        && s@.take(5)[3] == 't' && s@.take(5)[4] == '.');
                }
            }
        }
    }
    (has, offsets)
}

/// Prepend the implicit `Root.` group prefix unless `name` is already qualified
/// (a `.m1cfg` lists parameters by their unprefixed name, e.g. `Foo.Bar`,
/// whereas the symbol model keys them as `Root.Foo.Bar`).
pub fn qualify_root(name: &str) -> (r: String)
    ensures
        r@ == spec_qualify_root(name@),
{
    let (has, _offsets) = root_prefix_split(name);
    if str_eq(name, "Root") || has {
        name.to_owned()
    } else {
        let mut s = String::from_str(ROOT_PREFIX);
        s.append(name);
        s
    }
}

/// Strip a leading `Root.` from a fully-qualified path, if present.
pub fn strip_root(path: &str) -> (r: &str)
    ensures
        r@ == spec_strip_root(path@),
{
    let (has, offsets) = root_prefix_split(path);
    if has {
        let n = offsets.len() - 1;
        let rest = substr(path, offsets[5], offsets[n], Ghost(5), Ghost(n as int));
        assert(path@.subrange(5, n as int) =~= path@.skip(5));
        rest
    } else {
        path
    }
}

/// Qualifying is idempotent: a qualified name is left as it is.
pub proof fn law_qualify_root_idempotent(name: Seq<char>)
    ensures
        spec_qualify_root(spec_qualify_root(name)) == spec_qualify_root(name),
{
    reveal_strlit("Root.");
    let q = "Root."@ + name;
    assert(q.take(5) =~= "Root."@);
}

/// Stripping the prefix undoes qualifying, for every name that was not already
/// qualified.
pub proof fn law_strip_root_inverts_qualify(name: Seq<char>)
    requires
        name != "Root"@,
        !has_root_prefix(name),
    ensures
        spec_strip_root(spec_qualify_root(name)) == name,
{
    reveal_strlit("Root.");
    let q = "Root."@ + name;
    assert(q.take(5) =~= "Root."@);
    assert(q.skip(5) =~= name);
}

} // verus!
