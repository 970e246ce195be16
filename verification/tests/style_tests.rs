use m1_workspace::{BraceStyle, IndentStyle};

#[test]
fn indent_default_is_tab() {
    assert_eq!(IndentStyle::default(), IndentStyle::Tab);
}

#[test]
fn indent_parses_all_spellings() {
    assert_eq!(IndentStyle::parse("tab"), Some(IndentStyle::Tab));
    assert_eq!(IndentStyle::parse("tabs"), Some(IndentStyle::Tab));
    assert_eq!(IndentStyle::parse("space"), Some(IndentStyle::Spaces));
    assert_eq!(IndentStyle::parse("spaces"), Some(IndentStyle::Spaces));
}

#[test]
fn indent_unknown_is_none() {
    assert_eq!(IndentStyle::parse("tabz"), None);
    assert_eq!(IndentStyle::parse("TAB"), None);
}

#[test]
fn indent_from_str() {
    assert_eq!("tabs".parse::<IndentStyle>(), Ok(IndentStyle::Tab));
    let err = "nope".parse::<IndentStyle>().unwrap_err();
    assert_eq!(err.kind, "indent_style");
    assert_eq!(err.value, "nope");
    assert_eq!(err.to_string(), "invalid indent_style \"nope\"");
}

#[test]
fn brace_default_is_allman() {
    assert_eq!(BraceStyle::default(), BraceStyle::Allman);
}

#[test]
fn brace_parses_all_spellings() {
    assert_eq!(BraceStyle::parse("allman"), Some(BraceStyle::Allman));
    assert_eq!(BraceStyle::parse("kr"), Some(BraceStyle::Kr));
    assert_eq!(BraceStyle::parse("k&r"), Some(BraceStyle::Kr));
    assert_eq!(BraceStyle::parse("knr"), Some(BraceStyle::Kr));
}

#[test]
fn brace_unknown_is_none() {
    assert_eq!(BraceStyle::parse("egyptian"), None);
    assert_eq!(BraceStyle::parse("Allman"), None);
}

#[test]
fn brace_from_str() {
    assert_eq!("k&r".parse::<BraceStyle>(), Ok(BraceStyle::Kr));
    let err = "nope".parse::<BraceStyle>().unwrap_err();
    assert_eq!(err.kind, "brace_style");
}

#[test]
fn brace_error_message_quotes_the_value() {
    let err = "Allman".parse::<BraceStyle>().unwrap_err();
    assert_eq!(err.to_string(), "invalid brace_style \"Allman\"");
    let err = "a\"b".parse::<IndentStyle>().unwrap_err();
    assert_eq!(err.to_string(), "invalid indent_style \"a\\\"b\"");
}

#[test]
fn empty_spelling_is_none() {
    assert_eq!(IndentStyle::parse(""), None);
    assert_eq!(BraceStyle::parse(""), None);
    assert_eq!(IndentStyle::parse("tab "), None);
}
