//! The unified `m1-tools.toml` schema and its validation.
//!
//! The schema is a raw, all-optional view: every field is an `Option` so a
//! tool can layer it under its own defaults and over its own overrides. Reading
//! and parsing the file happen outside this module; here the values are
//! checked (see [`M1ToolsConfig::validate`]).
use vstd::prelude::*;
use crate::text::{chars_with_offsets, substr, utf8_len, decimal, push_decimal, str_debug_text, debug_str};
use vstd::string::StringExecFns;

verus! {

/// The unified config file name, discovered by walking up from a working dir.
pub const TOOLS_CONFIG_FILE: &'static str = "m1-tools.toml";

/// `[lint]`: thresholds and file excludes.
#[derive(Debug, Clone)]
pub struct LintSection {
    pub max_line_length: Option<usize>,
    pub max_nesting_depth: Option<usize>,
    pub max_complexity: Option<u32>,
    pub max_cognitive_complexity: Option<u32>,
    pub exclude: Option<Vec<String>>,
}

/// `[format]`: formatter options, and the `indent_style` shared with the linter.
#[derive(Debug, Clone)]
pub struct FormatSection {
    pub line_width: Option<usize>,
    pub max_blank_lines: Option<usize>,
    /// `"tab"` | `"spaces"`. Shared by the formatter and the linter.
    pub indent_style: Option<String>,
    pub indent_width: Option<usize>,
    /// `"allman"` | `"kr"`.
    pub brace_style: Option<String>,
    /// Extra indent levels for wrapped continuation lines.
    pub continuation_indent: Option<usize>,
    /// Align consecutive `=` assignments into a column.
    pub align_assignments: Option<bool>,
    /// Re-wrap block and line comments to the line width.
    pub reflow_comments: Option<bool>,
}

/// `[diagnostics]`: the cross-tool diagnostic-code filter.
#[derive(Debug, Clone)]
pub struct DiagnosticsSection {
    pub ignore: Option<Vec<String>>,
    pub select: Option<Vec<String>>,
    /// Symbol-scoped suppressions: `"T050:Root.Engine.Speed"` suppresses that
    /// code for that one symbol only.
    pub ignore_symbols: Option<Vec<String>>,
}

/// The whole `m1-tools.toml`, every field optional.
#[derive(Debug, Clone)]
pub struct M1ToolsConfig {
    pub lint: LintSection,
    pub format: FormatSection,
    pub diagnostics: DiagnosticsSection,
}

impl Default for LintSection {
    fn default() -> (r: LintSection)
        ensures
            r.max_line_length is None,
            r.max_nesting_depth is None,
            r.max_complexity is None,
            r.max_cognitive_complexity is None,
            r.exclude is None,
    {
        LintSection {
            max_line_length: None,
            max_nesting_depth: None,
            max_complexity: None,
            max_cognitive_complexity: None,
            exclude: None,
        }
    }
}

impl Default for FormatSection {
    fn default() -> (r: FormatSection)
        ensures
            r.line_width is None,
            r.max_blank_lines is None,
            r.indent_style is None,
            r.indent_width is None,
            r.brace_style is None,
            r.continuation_indent is None,
            r.align_assignments is None,
            r.reflow_comments is None,
    {
        FormatSection {
            line_width: None,
            max_blank_lines: None,
            indent_style: None,
            indent_width: None,
            brace_style: None,
            continuation_indent: None,
            align_assignments: None,
            reflow_comments: None,
        }
    }
}

impl Default for DiagnosticsSection {
    fn default() -> (r: DiagnosticsSection)
        ensures
            r.ignore is None,
            r.select is None,
            r.ignore_symbols is None,
    {
        DiagnosticsSection { ignore: None, select: None, ignore_symbols: None }
    }
}

impl Default for M1ToolsConfig {
    fn default() -> (r: M1ToolsConfig)
        ensures
            r.lint.max_line_length is None,
            r.lint.max_nesting_depth is None,
            r.lint.max_complexity is None,
            r.lint.max_cognitive_complexity is None,
            r.lint.exclude is None,
            r.format.line_width is None,
            r.format.max_blank_lines is None,
            r.format.indent_style is None,
            r.format.indent_width is None,
            r.format.brace_style is None,
            r.format.continuation_indent is None,
            r.format.align_assignments is None,
            r.format.reflow_comments is None,
            r.diagnostics.ignore is None,
            r.diagnostics.select is None,
            r.diagnostics.ignore_symbols is None,
    {
        M1ToolsConfig {
            lint: LintSection::default(),
            format: FormatSection::default(),
            diagnostics: DiagnosticsSection::default(),
        }
    }
}

/// A validation error produced by [`M1ToolsConfig::validate`].
#[derive(Debug, Clone, PartialEq, Eq)]
pub enum ConfigError {
    /// `[lint] max_line_length` must be at least 1 and at most 1000.
    MaxLineLengthOutOfRange(usize),
    /// `[format] indent_width` must be at least 1 and at most 16.
    IndentWidthOutOfRange(usize),
    /// `[format] continuation_indent` must be at least 1 and at most 16.
    ContinuationIndentOutOfRange(usize),
    /// `[lint] max_nesting_depth` must be at least 1.
    MaxNestingDepthZero,
    /// `[lint] max_cognitive_complexity` must be at least 1.
    MaxCognitiveComplexityZero,
    /// `[lint] max_complexity` must be at least 1.
    MaxComplexityZero,
    /// A diagnostic code in `[diagnostics] ignore` or `select` is malformed.
    MalformedDiagnosticCode(String),
    /// An entry in `[diagnostics] ignore_symbols` is not `CODE:Symbol.Path`.
    MalformedIgnoreSymbol(String),
}

// ---------------------------------------------------------------------------
// Diagnostic codes

/// A tool code: one uppercase ASCII letter followed by exactly three ASCII
/// digits (`T041`, `L010`).
pub open spec fn is_tool_code(c: Seq<char>) -> bool {
    &&& c.len() == 4
    &&& 'A' <= c[0] <= 'Z'
    &&& '0' <= c[1] <= '9'
    &&& '0' <= c[2] <= '9'
    &&& '0' <= c[3] <= '9'
}

/// A named code: non-empty kebab-case of lowercase ASCII letters and `-`,
/// starting and ending with a letter (`syntax-error`).
pub open spec fn is_named_code(c: Seq<char>) -> bool {
    &&& c.len() > 0
    &&& 'a' <= c[0] <= 'z'
    &&& 'a' <= c.last() <= 'z'
    &&& forall|i: int| 0 <= i < c.len() ==> ('a' <= #[trigger] c[i] <= 'z' || c[i] == '-')
}

/// A valid diagnostic code is a tool code or a named code.
pub open spec fn is_valid_code(c: Seq<char>) -> bool {
    is_tool_code(c) || is_named_code(c)
}

fn is_tool_code_chars(c: &Vec<char>) -> (r: bool)
    ensures
        r == is_tool_code(c@),
{
    c.len() == 4 && 'A' <= c[0] && c[0] <= 'Z' && '0' <= c[1] && c[1] <= '9' && '0' <= c[2] && c[2] <= '9'
        && '0' <= c[3] && c[3] <= '9'
}

/// Whether `code` is a valid diagnostic code (see [`is_valid_code`]).
fn is_valid_diagnostic_code(code: &str) -> (r: bool)
    ensures
        r == is_valid_code(code@),
{
    let (c, _offsets) = chars_with_offsets(code);
    let tool_code = is_tool_code_chars(&c);
    let n = c.len();
    let ends_ok = n > 0 && 'a' <= c[0] && c[0] <= 'z' && 'a' <= c[n - 1] && c[n - 1] <= 'z';
    let mut i: usize = 0;
    while i < n && (('a' <= c[i] && c[i] <= 'z') || c[i] == '-')
        invariant
            i <= n,
            n == c@.len(),
            forall|k: int| 0 <= k < i ==> ('a' <= #[trigger] c@[k] <= 'z' || c@[k] == '-'),
        decreases n - i,
    {
        i = i + 1;
    }
    let named = ends_ok && i == n;
    proof {
        if n > 0 {
            assert(c@.last() == c@[n - 1]);
        }
    }
    tool_code || named
}

// ---------------------------------------------------------------------------
// `CODE:Symbol.Path` entries

/// Unicode `White_Space`, what `char::is_whitespace` tests.
pub open spec fn is_whitespace(c: char) -> bool {
    let v = c as u32;
    (0x09 <= v && v <= 0x0D) || v == 0x20 || v == 0x85 || v == 0xA0 || v == 0x1680 || (0x2000 <= v
        && v <= 0x200A) || v == 0x2028 || v == 0x2029 || v == 0x202F || v == 0x205F || v == 0x3000
}

fn char_is_whitespace(c: char) -> (r: bool)
    ensures
        r == is_whitespace(c),
{
    let v = c as u32;
    (0x09 <= v && v <= 0x0D) || v == 0x20 || v == 0x85 || v == 0xA0 || v == 0x1680 || (0x2000 <= v
        && v <= 0x200A) || v == 0x2028 || v == 0x2029 || v == 0x202F || v == 0x205F || v == 0x3000
}

/// `cs` without leading whitespace.
pub open spec fn trim_start(cs: Seq<char>) -> Seq<char>
    decreases cs.len(),
{
    if cs.len() > 0 && is_whitespace(cs[0]) {
        trim_start(cs.drop_first())
    } else {
        cs
    }
}

/// `cs` without trailing whitespace.
pub open spec fn trim_end(cs: Seq<char>) -> Seq<char>
    decreases cs.len(),
{
    if cs.len() > 0 && is_whitespace(cs.last()) {
        trim_end(cs.drop_last())
    } else {
        cs
    }
}

/// `cs` without leading and trailing whitespace (`str::trim`).
pub open spec fn trim(cs: Seq<char>) -> Seq<char> {
    trim_end(trim_start(cs))
}

/// Index of the first `c` in `cs`, or -1 when there is none.
pub open spec fn index_of_char(cs: Seq<char>, c: char) -> int
    decreases cs.len(),
{
    if cs.len() == 0 {
        -1
    } else if cs[0] == c {
        0
    } else {
        let r = index_of_char(cs.drop_first(), c);
        if r < 0 {
            -1
        } else {
            r + 1
        }
    }
}

/// What [`parse_ignore_symbol`] gives for an entry: split at the first `:`, the
/// code must be a tool code and the trimmed symbol path non-empty.
pub open spec fn spec_parse_ignore_symbol(entry: Seq<char>) -> Option<(Seq<char>, Seq<char>)> {
    let k = index_of_char(entry, ':');
    if k < 0 {
        None
    } else {
        let code = entry.take(k);
        let path = trim(entry.skip(k + 1));
        if is_tool_code(code) && path.len() > 0 {
            Some((code, path))
        } else {
            None
        }
    }
}

proof fn lemma_index_of_char_at(cs: Seq<char>, c: char, i: int)
    requires
        0 <= i <= cs.len(),
        forall|j: int| 0 <= j < i ==> cs[j] != c,
        i < cs.len() ==> cs[i] == c,
    ensures
        index_of_char(cs, c) == if i < cs.len() { i } else { -1 },
    decreases cs.len(),
{
    if cs.len() > 0 && i > 0 {
        assert forall|j: int| 0 <= j < i - 1 implies cs.drop_first()[j] != c by {
            assert(cs.drop_first()[j] == cs[j + 1]);
        }
        lemma_index_of_char_at(cs.drop_first(), c, i - 1);
    }
}

proof fn lemma_trim_start_at(cs: Seq<char>, i: int)
    requires
        0 <= i <= cs.len(),
        forall|j: int| 0 <= j < i ==> is_whitespace(#[trigger] cs[j]),
        i < cs.len() ==> !is_whitespace(cs[i]),
    ensures
        trim_start(cs) == cs.skip(i),
    decreases i,
{
    if i > 0 {
        assert forall|j: int| 0 <= j < i - 1 implies is_whitespace(#[trigger] cs.drop_first()[j]) by {
            assert(cs.drop_first()[j] == cs[j + 1]);
        }
        lemma_trim_start_at(cs.drop_first(), i - 1);
        assert(cs.drop_first().skip(i - 1) =~= cs.skip(i));
    } else {
        assert(cs.skip(0) =~= cs);
    }
}

proof fn lemma_trim_end_at(cs: Seq<char>, j: int)
    requires
        0 <= j <= cs.len(),
        forall|k: int| j <= k < cs.len() ==> is_whitespace(#[trigger] cs[k]),
        j > 0 ==> !is_whitespace(cs[j - 1]),
    ensures
        trim_end(cs) == cs.take(j),
    decreases cs.len() - j,
{
    if j < cs.len() {
        assert forall|k: int| j <= k < cs.drop_last().len() implies is_whitespace(#[trigger] cs.drop_last()[k]) by {
            assert(cs.drop_last()[k] == cs[k]);
        }
        assert(is_whitespace(cs[cs.len() - 1]));
        lemma_trim_end_at(cs.drop_last(), j);
        assert(cs.drop_last().take(j) =~= cs.take(j));
    } else {
        assert(cs.take(j) =~= cs);
    }
}

/// Where `str::trim_start` cuts: the leading whitespace ends at `i`.
proof fn lemma_trim_start_cut(cs: Seq<char>) -> (i: int)
    ensures
        0 <= i <= cs.len(),
        trim_start(cs) == cs.skip(i),
        forall|j: int| 0 <= j < i ==> is_whitespace(#[trigger] cs[j]),
        i < cs.len() ==> !is_whitespace(cs[i]),
    decreases cs.len(),
{
    if cs.len() > 0 && is_whitespace(cs[0]) {
        let r = lemma_trim_start_cut(cs.drop_first());
        assert(cs.drop_first().skip(r) =~= cs.skip(r + 1));
        assert forall|j: int| 0 <= j < r + 1 implies is_whitespace(#[trigger] cs[j]) by {
            if j > 0 {
                assert(cs[j] == cs.drop_first()[j - 1]);
            }
        }
        if r + 1 < cs.len() {
            assert(cs[r + 1] == cs.drop_first()[r]);
        }
        r + 1
    } else {
        assert(cs.skip(0) =~= cs);
        0
    }
}

/// Where `str::trim_end` cuts: the trailing whitespace starts at `j`.
proof fn lemma_trim_end_cut(cs: Seq<char>) -> (j: int)
    ensures
        0 <= j <= cs.len(),
        trim_end(cs) == cs.take(j),
        forall|k: int| j <= k < cs.len() ==> is_whitespace(#[trigger] cs[k]),
        j > 0 ==> !is_whitespace(cs[j - 1]),
    decreases cs.len(),
{
    if cs.len() > 0 && is_whitespace(cs.last()) {
        let r = lemma_trim_end_cut(cs.drop_last());
        assert(cs.drop_last().take(r) =~= cs.take(r));
        assert forall|k: int| r <= k < cs.len() implies is_whitespace(#[trigger] cs[k]) by {
            if k < cs.len() - 1 {
                assert(cs[k] == cs.drop_last()[k]);
            }
        }
        if r > 0 {
            assert(cs[r - 1] == cs.drop_last()[r - 1]);
        }
        r
    } else {
        assert(cs.take(cs.len() as int) =~= cs);
        cs.len() as int
    }
}

/// An `ignore_symbols` entry is accepted exactly when it is one uppercase ASCII
/// letter, three ASCII digits, a colon, and a rest that holds a character other
/// than whitespace. The code returned is those four characters; the path is the
/// rest without its leading and trailing whitespace, so it is non-empty and
/// starts and ends with a character other than whitespace.
pub proof fn law_ignore_symbol_shape(entry: Seq<char>)
    ensures
        spec_parse_ignore_symbol(entry) is Some <==> {
            &&& entry.len() >= 5
            &&& 'A' <= entry[0] <= 'Z'
            &&& '0' <= entry[1] <= '9'
            &&& '0' <= entry[2] <= '9'
            &&& '0' <= entry[3] <= '9'
            &&& entry[4] == ':'
            &&& exists|k: int| 5 <= k < entry.len() && !is_whitespace(#[trigger] entry[k])
        },
        spec_parse_ignore_symbol(entry) matches Some((code, path)) ==> {
            &&& code.len() == 4
            &&& code == entry.take(4)
            &&& path.len() > 0
            &&& !is_whitespace(path[0])
            &&& !is_whitespace(path.last())
            &&& exists|i: int, j: int|
                5 <= i <= j <= entry.len() && path == entry.subrange(i, j) && (forall|m: int|
                    5 <= m < i ==> is_whitespace(#[trigger] entry[m])) && (forall|m: int|
                    j <= m < entry.len() ==> is_whitespace(#[trigger] entry[m]))
        },
{
    let k = index_of_char(entry, ':');
    // The first colon, when the entry has the shape above, is at 4.
    let shaped = entry.len() >= 5 && 'A' <= entry[0] <= 'Z' && '0' <= entry[1] <= '9' && '0' <= entry[2] <= '9'
        && '0' <= entry[3] <= '9' && entry[4] == ':';
    if shaped {
        lemma_index_of_char_at(entry, ':', 4);
    }
    if k >= 0 {
        lemma_index_of_char_facts(entry, ':');
    }
    if k >= 0 && entry.take(k).len() == 4 {
        let rest = entry.skip(k + 1);
        let i = lemma_trim_start_cut(rest);
        let ts = rest.skip(i);
        let j = lemma_trim_end_cut(ts);
        let path = ts.take(j);
        assert(trim(rest) == path);
        assert(path =~= entry.subrange(k + 1 + i, k + 1 + i + j));
        assert forall|m: int| 5 <= m < k + 1 + i implies is_whitespace(#[trigger] entry[m]) by {
            assert(entry[m] == rest[m - 5]);
        }
        assert forall|m: int| k + 1 + i + j <= m < entry.len() implies is_whitespace(#[trigger] entry[m]) by {
            assert(entry[m] == ts[m - k - 1 - i]);
        }
        if path.len() > 0 {
            assert(path[0] == ts[0]);
            assert(ts[0] == rest[i]);
            assert(path.last() == ts[j - 1]);
            assert(entry[k + 1 + i] == path[0]);
        } else {
            // Every character after the colon is whitespace.
            assert forall|m: int| 5 <= m < entry.len() implies is_whitespace(#[trigger] entry[m]) by {
                if m < k + 1 + i {
                } else {
                    assert(entry[m] == ts[m - k - 1 - i]);
                }
            }
        }
        if spec_parse_ignore_symbol(entry) is Some {
            let code = entry.take(k);
            assert(code[0] == entry[0] && code[1] == entry[1] && code[2] == entry[2] && code[3] == entry[3]);
        }
    }
}

/// The first occurrence of a character found by [`index_of_char`].
proof fn lemma_index_of_char_facts(cs: Seq<char>, c: char)
    ensures
        -1 <= index_of_char(cs, c) < cs.len(),
        index_of_char(cs, c) >= 0 ==> cs[index_of_char(cs, c)] == c,
        index_of_char(cs, c) >= 0 ==> forall|j: int| 0 <= j < index_of_char(cs, c) ==> cs[j] != c,
    decreases cs.len(),
{
    if cs.len() > 0 && cs[0] != c {
        lemma_index_of_char_facts(cs.drop_first(), c);
        assert forall|j: int| 1 <= j < cs.len() implies cs[j] == cs.drop_first()[j - 1] by {}
    }
}

/// Split an `[diagnostics] ignore_symbols` entry into `(code, symbol_path)`.
/// The valid shape is a tool code (`[A-Z][0-9]{3}`), a colon, and a symbol path
/// that is not empty once trimmed; the path is returned trimmed. `None` for
/// anything else.
pub fn parse_ignore_symbol(entry: &str) -> (r: Option<(&str, &str)>)
    ensures
        match spec_parse_ignore_symbol(entry@) {
            Some((code, path)) => r matches Some((c, p)) && c@ == code && p@ == path,
            None => r is None,
        },
{
    let ghost cs = entry@;
    let (chars, offsets) = chars_with_offsets(entry);
    let n = chars.len();
    let mut k: usize = 0;
    while k < n && chars[k] != ':'
        invariant
            k <= n,
            n == cs.len(),
            chars@ == cs,
            forall|j: int| 0 <= j < k ==> cs[j] != ':',
        decreases n - k,
    {
        k = k + 1;
    }
    proof {
        lemma_index_of_char_at(cs, ':', k as int);
    }
    if k == n {
        return None;
    }
    // The code: characters before the colon.
    let mut code_chars: Vec<char> = Vec::new();
    for i in 0..k
        invariant
            k < n,
            n == cs.len(),
            chars@ == cs,
            code_chars@ == cs.take(i as int),
    {
        code_chars.push(chars[i]);
        assert(code_chars@ =~= cs.take(i + 1));
    }
    let code_ok = is_tool_code_chars(&code_chars);
    // The path: the characters after the colon, without surrounding whitespace.
    let mut start = k + 1;
    while start < n && char_is_whitespace(chars[start])
        invariant
            k + 1 <= start <= n,
            n == cs.len(),
            chars@ == cs,
            forall|j: int| k + 1 <= j < start ==> is_whitespace(#[trigger] cs[j]),
        decreases n - start,
    {
        start = start + 1;
    }
    let mut end = n;
    while end > start && char_is_whitespace(chars[end - 1])
        invariant
            start <= end <= n,
            n == cs.len(),
            chars@ == cs,
            forall|j: int| end <= j < n ==> is_whitespace(#[trigger] cs[j]),
        decreases end,
    {
        end = end - 1;
    }
    let ghost after = cs.skip(k + 1);
    proof {
        assert forall|j: int| 0 <= j < start - (k + 1) implies is_whitespace(#[trigger] after[j]) by {
            assert(after[j] == cs[j + k + 1]);
        }
        if start < n {
            assert(after[start - (k + 1)] == cs[start as int]);
        }
        lemma_trim_start_at(after, start - (k + 1));
        let ts = after.skip(start - (k + 1));
        assert(ts =~= cs.subrange(start as int, n as int));
        assert forall|j: int| end - start <= j < ts.len() implies is_whitespace(#[trigger] ts[j]) by {
            assert(ts[j] == cs[j + start]);
        }
        if end > start {
            assert(ts[end - start - 1] == cs[end - 1]);
        }
        lemma_trim_end_at(ts, end - start);
        assert(ts.take(end - start) =~= cs.subrange(start as int, end as int));
    }
    if code_ok && end > start {
        let code = substr(entry, 0, offsets[k], Ghost(0), Ghost(k as int));
        let path = substr(entry, offsets[start], offsets[end], Ghost(start as int), Ghost(end as int));
        assert(cs.take(0) =~= Seq::<char>::empty());
        assert(cs.subrange(0, k as int) =~= cs.take(k as int));
        proof {
            assert(offsets@[0] == utf8_len(cs.take(0)));
        }
        Some((code, path))
    } else {
        None
    }
}

// ---------------------------------------------------------------------------
// Validation

/// The entries of an optional list (none when the list is absent).
pub open spec fn entries(list: Option<Vec<String>>) -> Seq<String> {
    match list {
        Some(v) => v@,
        None => seq![],
    }
}

/// One error for each `ignore_symbols` entry that is not `CODE:Symbol.Path`, in order.
pub open spec fn ignore_symbol_errors(es: Seq<String>) -> Seq<ConfigError>
    decreases es.len(),
{
    if es.len() == 0 {
        seq![]
    } else {
        ignore_symbol_errors(es.drop_last()) + if spec_parse_ignore_symbol(es.last()@) is None {
            seq![ConfigError::MalformedIgnoreSymbol(es.last())]
        } else {
            seq![]
        }
    }
}

/// One error for each malformed diagnostic code, in order.
pub open spec fn code_errors(es: Seq<String>) -> Seq<ConfigError>
    decreases es.len(),
{
    if es.len() == 0 {
        seq![]
    } else {
        code_errors(es.drop_last()) + if !is_valid_code(es.last()@) {
            seq![ConfigError::MalformedDiagnosticCode(es.last())]
        } else {
            seq![]
        }
    }
}

/// The error for a setting that must lie in `1..=hi`, if it is set outside.
pub open spec fn range_error(v: Option<usize>, hi: int, e: ConfigError) -> Seq<ConfigError> {
    match v {
        Some(x) => if x == 0 || x > hi { seq![e] } else { seq![] },
        None => seq![],
    }
}

/// The errors of the thresholds that must be at least 1 (and at most a bound).
pub open spec fn threshold_errors(c: M1ToolsConfig) -> Seq<ConfigError> {
    range_error(c.lint.max_line_length, 1000, ConfigError::MaxLineLengthOutOfRange(c.lint.max_line_length->0))
        + range_error(c.lint.max_nesting_depth, usize::MAX as int, ConfigError::MaxNestingDepthZero)
        + (if c.lint.max_cognitive_complexity == Some(0u32) { seq![ConfigError::MaxCognitiveComplexityZero] } else { seq![] })
        + (if c.lint.max_complexity == Some(0u32) { seq![ConfigError::MaxComplexityZero] } else { seq![] })
        + range_error(c.format.indent_width, 16, ConfigError::IndentWidthOutOfRange(c.format.indent_width->0))
        + range_error(c.format.continuation_indent, 16, ConfigError::ContinuationIndentOutOfRange(c.format.continuation_indent->0))
}

/// Every error of a configuration, in the order in which `validate` reports
/// them: the thresholds, the `ignore_symbols` entries, then the codes of
/// `ignore` and of `select`.
pub open spec fn spec_config_errors(c: M1ToolsConfig) -> Seq<ConfigError> {
    threshold_errors(c) + ignore_symbol_errors(entries(c.diagnostics.ignore_symbols)) + code_errors(
        entries(c.diagnostics.ignore) + entries(c.diagnostics.select),
    )
}

/// Appends the errors of the `ignore_symbols` entries.
fn push_ignore_symbol_errors(errors: &mut Vec<ConfigError>, es: &Vec<String>)
    ensures
        final(errors)@ == old(errors)@ + ignore_symbol_errors(es@),
{
    let n = es.len();
    for i in 0..n
        invariant
            n == es@.len(),
            errors@ == old(errors)@ + ignore_symbol_errors(es@.take(i as int)),
    {
        let ghost before = errors@;
        assert(es@.take(i + 1).drop_last() =~= es@.take(i as int));
        assert(es@.take(i + 1).last() == es@[i as int]);
        if parse_ignore_symbol(es[i].as_str()).is_none() {
            errors.push(ConfigError::MalformedIgnoreSymbol(es[i].clone()));
        }
        assert(errors@ =~= old(errors)@ + ignore_symbol_errors(es@.take(i + 1)));
    }
    assert(es@.take(n as int) =~= es@);
}

/// Appends the errors of malformed diagnostic codes.
fn push_code_errors(errors: &mut Vec<ConfigError>, es: &Vec<String>)
    ensures
        final(errors)@ == old(errors)@ + code_errors(es@),
{
    let n = es.len();
    for i in 0..n
        invariant
            n == es@.len(),
            errors@ == old(errors)@ + code_errors(es@.take(i as int)),
    {
        assert(es@.take(i + 1).drop_last() =~= es@.take(i as int));
        assert(es@.take(i + 1).last() == es@[i as int]);
        if !is_valid_diagnostic_code(es[i].as_str()) {
            errors.push(ConfigError::MalformedDiagnosticCode(es[i].clone()));
        }
        assert(errors@ =~= old(errors)@ + code_errors(es@.take(i + 1)));
    }
    assert(es@.take(n as int) =~= es@);
}

/// The code errors of two lists are those of the first, then of the second.
proof fn lemma_code_errors_concat(a: Seq<String>, b: Seq<String>)
    ensures
        code_errors(a + b) == code_errors(a) + code_errors(b),
    decreases b.len(),
{
    if b.len() == 0 {
        assert(a + b =~= a);
    } else {
        lemma_code_errors_concat(a, b.drop_last());
        assert((a + b).drop_last() =~= a + b.drop_last());
        assert((a + b).last() == b.last());
    }
}

/// Appends the errors of the numeric thresholds.
fn push_threshold_errors(errors: &mut Vec<ConfigError>, c: &M1ToolsConfig)
    requires
        old(errors)@.len() == 0,
    ensures
        final(errors)@ == threshold_errors(*c),
{
    let ghost p1 = range_error(c.lint.max_line_length, 1000, ConfigError::MaxLineLengthOutOfRange(c.lint.max_line_length->0));
    let ghost p2 = range_error(c.lint.max_nesting_depth, usize::MAX as int, ConfigError::MaxNestingDepthZero);
    let ghost p3 = if c.lint.max_cognitive_complexity == Some(0u32) { seq![ConfigError::MaxCognitiveComplexityZero] } else { Seq::<ConfigError>::empty() };
    let ghost p4 = if c.lint.max_complexity == Some(0u32) { seq![ConfigError::MaxComplexityZero] } else { Seq::<ConfigError>::empty() };
    let ghost p5 = range_error(c.format.indent_width, 16, ConfigError::IndentWidthOutOfRange(c.format.indent_width->0));
    let ghost p6 = range_error(c.format.continuation_indent, 16, ConfigError::ContinuationIndentOutOfRange(c.format.continuation_indent->0));
    // [lint] max_line_length: must be 1..=1000 when set.
    if let Some(v) = c.lint.max_line_length {
        if v == 0 || v > 1000 {
            errors.push(ConfigError::MaxLineLengthOutOfRange(v));
        }
    }
    assert(errors@ =~= p1);
    // [lint] max_nesting_depth: must be at least 1 when set.
    if let Some(v) = c.lint.max_nesting_depth {
        if v == 0 {
            errors.push(ConfigError::MaxNestingDepthZero);
        }
    }
    assert(errors@ =~= p1 + p2);
    // [lint] max_cognitive_complexity: must be at least 1 when set.
    if let Some(v) = c.lint.max_cognitive_complexity {
        if v == 0 {
            errors.push(ConfigError::MaxCognitiveComplexityZero);
        }
    }
    assert(errors@ =~= p1 + p2 + p3);
    // [lint] max_complexity: must be at least 1 when set.
    if let Some(v) = c.lint.max_complexity {
        if v == 0 {
            errors.push(ConfigError::MaxComplexityZero);
        }
    }
    assert(errors@ =~= p1 + p2 + p3 + p4);
    // [format] indent_width: must be 1..=16 when set.
    if let Some(v) = c.format.indent_width {
        if v == 0 || v > 16 {
            errors.push(ConfigError::IndentWidthOutOfRange(v));
        }
    }
    assert(errors@ =~= p1 + p2 + p3 + p4 + p5);
    // [format] continuation_indent: the same 1..=16 range.
    if let Some(v) = c.format.continuation_indent {
        if v == 0 || v > 16 {
            errors.push(ConfigError::ContinuationIndentOutOfRange(v));
        }
    }
    assert(errors@ =~= p1 + p2 + p3 + p4 + p5 + p6);
}

impl M1ToolsConfig {
    /// Validate the configuration values, collecting every error.
    ///
    /// `Ok(())` when everything is in range; otherwise `Err` with one
    /// [`ConfigError`] per problem, in the order of [`spec_config_errors`].
    /// `indent_style` and `brace_style` are not checked here: each tool
    /// resolves them where it can apply a fallback.
    pub fn validate(&self) -> (r: Result<(), Vec<ConfigError>>)
        ensures
            match r {
                Ok(()) => spec_config_errors(*self).len() == 0,
                Err(errors) => spec_config_errors(*self).len() > 0 && errors@ == spec_config_errors(*self),
            },
    {
        let mut errors: Vec<ConfigError> = Vec::new();
        push_threshold_errors(&mut errors, self);
        assert(errors@ =~= threshold_errors(*self));
        // [diagnostics] ignore_symbols: each entry must be CODE:Symbol.Path.
        match &self.diagnostics.ignore_symbols {
            Some(v) => push_ignore_symbol_errors(&mut errors, v),
            None => {},
        }
        assert(errors@ =~= threshold_errors(*self) + ignore_symbol_errors(entries(self.diagnostics.ignore_symbols)));
        // [diagnostics] ignore / select: each code must be well formed.
        let ghost before = errors@;
        match &self.diagnostics.ignore {
            Some(v) => push_code_errors(&mut errors, v),
            None => {},
        }
        let ghost middle = errors@;
        assert(middle =~= before + code_errors(entries(self.diagnostics.ignore)));
        match &self.diagnostics.select {
            Some(v) => push_code_errors(&mut errors, v),
            None => {},
        }
        assert(errors@ =~= middle + code_errors(entries(self.diagnostics.select)));
        proof {
            lemma_code_errors_concat(entries(self.diagnostics.ignore), entries(self.diagnostics.select));
        }
        assert(errors@ =~= spec_config_errors(*self));
        if errors.len() == 0 {
            Ok(())
        } else {
            Err(errors)
        }
    }
}

// ---------------------------------------------------------------------------
// Messages

/// The one-line message of a configuration error: the setting, what it must be,
/// and the value found.
pub open spec fn config_error_text(e: ConfigError) -> Seq<char> {
    match e {
        ConfigError::MaxLineLengthOutOfRange(v) => "max_line_length must be ≥ 1 and ≤ 1000; got "@ + decimal(v as nat),
        ConfigError::IndentWidthOutOfRange(v) => "indent_width must be ≥ 1 and ≤ 16; got "@ + decimal(v as nat),
        ConfigError::ContinuationIndentOutOfRange(v) => "continuation_indent must be ≥ 1 and ≤ 16; got "@ + decimal(v as nat),
        ConfigError::MaxNestingDepthZero => "max_nesting_depth must be ≥ 1; got 0"@,
        ConfigError::MaxCognitiveComplexityZero => "max_cognitive_complexity must be ≥ 1; got 0"@,
        ConfigError::MaxComplexityZero => "max_complexity must be ≥ 1; got 0"@,
        ConfigError::MalformedDiagnosticCode(code) => "malformed diagnostic code "@ + str_debug_text(code@)
            + "; expected an uppercase letter + 3 digits (e.g. T041, L010) or a named code (e.g. syntax-error)"@,
        ConfigError::MalformedIgnoreSymbol(entry) => "malformed ignore_symbols entry "@ + str_debug_text(entry@)
            + "; expected CODE:Symbol.Path (e.g. \"T050:Root.Engine.Speed\")"@,
    }
}

impl ConfigError {
    /// The one-line message of the error (what `Display` shows).
    pub fn to_string(&self) -> (r: String)
        ensures
            r@ == config_error_text(*self),
    {
        match self {
            ConfigError::MaxLineLengthOutOfRange(v) => {
                let mut s = String::from_str("max_line_length must be ≥ 1 and ≤ 1000; got ");
                push_decimal(&mut s, *v);
                s
            },
            ConfigError::IndentWidthOutOfRange(v) => {
                let mut s = String::from_str("indent_width must be ≥ 1 and ≤ 16; got ");
                push_decimal(&mut s, *v);
                s
            },
            ConfigError::ContinuationIndentOutOfRange(v) => {
                let mut s = String::from_str("continuation_indent must be ≥ 1 and ≤ 16; got ");
                push_decimal(&mut s, *v);
                s
            },
            ConfigError::MaxNestingDepthZero => String::from_str("max_nesting_depth must be ≥ 1; got 0"),
            ConfigError::MaxCognitiveComplexityZero => String::from_str(
                "max_cognitive_complexity must be ≥ 1; got 0",
            ),
            ConfigError::MaxComplexityZero => String::from_str("max_complexity must be ≥ 1; got 0"),
            ConfigError::MalformedDiagnosticCode(code) => {
                let mut s = String::from_str("malformed diagnostic code ");
                let q = debug_str(code.as_str());
                s.append(q.as_str());
                s.append(
                    "; expected an uppercase letter + 3 digits (e.g. T041, L010) or a named code (e.g. syntax-error)",
                );
                s
            },
            ConfigError::MalformedIgnoreSymbol(entry) => {
                let mut s = String::from_str("malformed ignore_symbols entry ");
                let q = debug_str(entry.as_str());
                s.append(q.as_str());
                s.append("; expected CODE:Symbol.Path (e.g. \"T050:Root.Engine.Speed\")");
                s
            },
        }
    }
}

// ---------------------------------------------------------------------------
// Laws

proof fn lemma_ignore_symbol_errors_empty(es: Seq<String>)
    ensures
        (ignore_symbol_errors(es).len() == 0) == (forall|i: int|
            0 <= i < es.len() ==> #[trigger] spec_parse_ignore_symbol(es[i]@) is Some),
    decreases es.len(),
{
    if es.len() > 0 {
        let init = es.drop_last();
        lemma_ignore_symbol_errors_empty(init);
        assert forall|i: int| 0 <= i < init.len() implies init[i] == es[i] by {}
        assert(es.last() == es[es.len() - 1]);
    }
}

proof fn lemma_code_errors_empty(es: Seq<String>)
    ensures
        (code_errors(es).len() == 0) == (forall|i: int| 0 <= i < es.len() ==> is_valid_code(#[trigger] es[i]@)),
    decreases es.len(),
{
    if es.len() > 0 {
        let init = es.drop_last();
        lemma_code_errors_empty(init);
        assert forall|i: int| 0 <= i < init.len() implies init[i] == es[i] by {}
        assert(es.last() == es[es.len() - 1]);
    }
}

proof fn lemma_code_errors_pair(ig: Seq<String>, se: Seq<String>)
    ensures
        (code_errors(ig + se).len() == 0) == ((forall|i: int| 0 <= i < ig.len() ==> is_valid_code(#[trigger] ig[i]@))
            && (forall|i: int| 0 <= i < se.len() ==> is_valid_code(#[trigger] se[i]@))),
{
    lemma_code_errors_concat(ig, se);
    lemma_code_errors_empty(ig);
    lemma_code_errors_empty(se);
}

proof fn lemma_threshold_errors_empty(c: M1ToolsConfig)
    ensures
        (threshold_errors(c).len() == 0) == ({
            &&& (c.lint.max_line_length matches Some(v) ==> 1 <= v <= 1000)
            &&& (c.lint.max_nesting_depth matches Some(v) ==> v >= 1)
            &&& (c.lint.max_cognitive_complexity matches Some(v) ==> v >= 1)
            &&& (c.lint.max_complexity matches Some(v) ==> v >= 1)
            &&& (c.format.indent_width matches Some(v) ==> 1 <= v <= 16)
            &&& (c.format.continuation_indent matches Some(v) ==> 1 <= v <= 16)
        }),
{
}

/// `validate` accepts exactly the well-formed configurations: the set
/// thresholds in range, every `ignore_symbols` entry one that
/// [`parse_ignore_symbol`] accepts, and every code of `ignore` and `select` a
/// valid diagnostic code.
pub proof fn law_valid_iff_well_formed(c: M1ToolsConfig)
    ensures
        (spec_config_errors(c).len() == 0) == ({
            &&& (c.lint.max_line_length matches Some(v) ==> 1 <= v <= 1000)
            &&& (c.lint.max_nesting_depth matches Some(v) ==> v >= 1)
            &&& (c.lint.max_cognitive_complexity matches Some(v) ==> v >= 1)
            &&& (c.lint.max_complexity matches Some(v) ==> v >= 1)
            &&& (c.format.indent_width matches Some(v) ==> 1 <= v <= 16)
            &&& (c.format.continuation_indent matches Some(v) ==> 1 <= v <= 16)
            &&& forall|i: int|
                0 <= i < entries(c.diagnostics.ignore_symbols).len() ==> #[trigger] spec_parse_ignore_symbol(
                    entries(c.diagnostics.ignore_symbols)[i]@,
                ) is Some
            &&& forall|i: int|
                0 <= i < entries(c.diagnostics.ignore).len() ==> is_valid_code(
                    #[trigger] entries(c.diagnostics.ignore)[i]@,
                )
            &&& forall|i: int|
                0 <= i < entries(c.diagnostics.select).len() ==> is_valid_code(
                    #[trigger] entries(c.diagnostics.select)[i]@,
                )
        }),
{
    lemma_ignore_symbol_errors_empty(entries(c.diagnostics.ignore_symbols));
    lemma_code_errors_pair(entries(c.diagnostics.ignore), entries(c.diagnostics.select));
    lemma_threshold_errors_empty(c);
}

} // verus!
