//! Code-style settings shared by the formatter and the linter.
//!
//! The spellings are lowercase and matched verbatim (no case folding). The
//! defaults are tab indentation and Allman braces.
use vstd::prelude::*;
use crate::text::{str_eq, str_debug_text, debug_str};
use vstd::string::StringExecFns;

verus! {

/// Indentation character. Tabs are the default.
#[derive(Debug, Clone, Copy, PartialEq, Eq, Structural)]
pub enum IndentStyle {
    Tab,
    Spaces,
}

/// The `indent_style` spellings: `"tab"`/`"tabs"` and `"space"`/`"spaces"`.
pub open spec fn spec_indent_style(s: Seq<char>) -> Option<IndentStyle> {
    if s == "tab"@ || s == "tabs"@ {
        Some(IndentStyle::Tab)
    } else if s == "space"@ || s == "spaces"@ {
        Some(IndentStyle::Spaces)
    } else {
        None
    }
}

impl IndentStyle {
    /// Parse an `indent_style` spelling; `None` for any other spelling.
    pub fn parse(s: &str) -> (r: Option<IndentStyle>)
        ensures
            r == spec_indent_style(s@),
    {
        if str_eq(s, "tab") || str_eq(s, "tabs") {
            Some(IndentStyle::Tab)
        } else if str_eq(s, "space") || str_eq(s, "spaces") {
            Some(IndentStyle::Spaces)
        } else {
            None
        }
    }
}

impl Default for IndentStyle {
    /// Tab indentation.
    fn default() -> (r: IndentStyle)
        ensures
            r == IndentStyle::Tab,
    {
        IndentStyle::Tab
    }
}

/// Brace placement. Allman (a separate line for each brace) is the default.
#[derive(Debug, Clone, Copy, PartialEq, Eq, Structural)]
pub enum BraceStyle {
    Allman,
    /// K&R: the opening brace on the keyword line.
    Kr,
}

/// The `brace_style` spellings: `"allman"`, and `"kr"`/`"k&r"`/`"knr"`.
pub open spec fn spec_brace_style(s: Seq<char>) -> Option<BraceStyle> {
    if s == "allman"@ {
        Some(BraceStyle::Allman)
    } else if s == "kr"@ || s == "k&r"@ || s == "knr"@ {
        Some(BraceStyle::Kr)
    } else {
        None
    }
}

impl BraceStyle {
    /// Parse a `brace_style` spelling; `None` for any other spelling.
    pub fn parse(s: &str) -> (r: Option<BraceStyle>)
        ensures
            r == spec_brace_style(s@),
    {
        if str_eq(s, "allman") {
            Some(BraceStyle::Allman)
        } else if str_eq(s, "kr") || str_eq(s, "k&r") || str_eq(s, "knr") {
            Some(BraceStyle::Kr)
        } else {
            None
        }
    }
}

impl Default for BraceStyle {
    /// Allman braces.
    fn default() -> (r: BraceStyle)
        ensures
            r == BraceStyle::Allman,
    {
        BraceStyle::Allman
    }
}

/// The error of an unrecognized style spelling.
#[derive(Debug, Clone, PartialEq, Eq)]
pub struct InvalidStyle {
    /// The setting being parsed (`"indent_style"` or `"brace_style"`).
    pub kind: &'static str,
    /// The unrecognized spelling that was supplied.
    pub value: String,
}

/// The message of an unrecognized style spelling: `invalid indent_style "nope"`.
pub open spec fn invalid_style_text(kind: Seq<char>, value: Seq<char>) -> Seq<char> {
    "invalid "@ + kind + " "@ + str_debug_text(value)
}

impl InvalidStyle {
    /// The message of the error (what `Display` shows).
    pub fn to_string(&self) -> (r: String)
        ensures
            r@ == invalid_style_text(self.kind@, self.value@),
    {
        let mut s = String::from_str("invalid ");
        s.append(self.kind);
        s.append(" ");
        let q = debug_str(self.value.as_str());
        s.append(q.as_str());
        s
    }
}

impl std::str::FromStr for IndentStyle {
    type Err = InvalidStyle;

    fn from_str(s: &str) -> (r: Result<Self, Self::Err>)
        ensures
            match spec_indent_style(s@) {
                Some(style) => r == Ok::<IndentStyle, InvalidStyle>(style),
                None => r matches Err(e) && e.kind@ == "indent_style"@ && e.value@ == s@,
            },
    {
        match IndentStyle::parse(s) {
            Some(style) => Ok(style),
            None => Err(InvalidStyle { kind: "indent_style", value: s.to_owned() }),
        }
    }
}

impl std::str::FromStr for BraceStyle {
    type Err = InvalidStyle;

    fn from_str(s: &str) -> (r: Result<Self, Self::Err>)
        ensures
            match spec_brace_style(s@) {
                Some(style) => r == Ok::<BraceStyle, InvalidStyle>(style),
                None => r matches Err(e) && e.kind@ == "brace_style"@ && e.value@ == s@,
            },
    {
        match BraceStyle::parse(s) {
            Some(style) => Ok(style),
            None => Err(InvalidStyle { kind: "brace_style", value: s.to_owned() }),
        }
    }
}

} // verus!
