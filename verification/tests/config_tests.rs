use m1_workspace::{parse_ignore_symbol, ConfigError, M1ToolsConfig};

fn strings(v: &[&str]) -> Option<Vec<String>> {
    Some(v.iter().map(|s| s.to_string()).collect())
}

fn malformed_codes(errs: &[ConfigError]) -> Vec<&str> {
    errs.iter()
        .filter_map(|e| {
            if let ConfigError::MalformedDiagnosticCode(s) = e {
                Some(s.as_str())
            } else {
                None
            }
        })
        .collect()
}

#[test]
fn validate_default_config_is_ok() {
    let c = M1ToolsConfig::default();
    assert!(c.validate().is_ok(), "default config must be valid");
}

#[test]
fn validate_accepts_reasonable_values() {
    let mut c = M1ToolsConfig::default();
    c.lint.max_line_length = Some(120);
    c.lint.max_nesting_depth = Some(8);
    c.lint.max_cognitive_complexity = Some(15);
    c.format.indent_width = Some(4);
    c.diagnostics.ignore = strings(&["T041", "L010"]);
    c.diagnostics.select = strings(&["T002"]);
    assert!(c.validate().is_ok());
}

#[test]
fn validate_rejects_zero_max_line_length() {
    let mut c = M1ToolsConfig::default();
    c.lint.max_line_length = Some(0);
    let errs = c.validate().unwrap_err();
    assert!(
        errs.iter().any(|e| matches!(e, ConfigError::MaxLineLengthOutOfRange(0))),
        "expected MaxLineLengthOutOfRange(0), got {errs:?}"
    );
}

#[test]
fn validate_rejects_absurd_max_line_length() {
    let mut c = M1ToolsConfig::default();
    c.lint.max_line_length = Some(1001);
    let errs = c.validate().unwrap_err();
    assert!(
        errs.iter().any(|e| matches!(e, ConfigError::MaxLineLengthOutOfRange(1001))),
        "expected MaxLineLengthOutOfRange(1001), got {errs:?}"
    );
}

#[test]
fn validate_accepts_boundary_max_line_length() {
    let mut lo = M1ToolsConfig::default();
    lo.lint.max_line_length = Some(1);
    assert!(lo.validate().is_ok());
    let mut hi = M1ToolsConfig::default();
    hi.lint.max_line_length = Some(1000);
    assert!(hi.validate().is_ok());
}

#[test]
fn validate_rejects_zero_indent_width() {
    let mut c = M1ToolsConfig::default();
    c.format.indent_width = Some(0);
    let errs = c.validate().unwrap_err();
    assert!(
        errs.iter().any(|e| matches!(e, ConfigError::IndentWidthOutOfRange(0))),
        "expected IndentWidthOutOfRange(0), got {errs:?}"
    );
}

#[test]
fn validate_rejects_large_indent_width() {
    let mut c = M1ToolsConfig::default();
    c.format.indent_width = Some(17);
    let errs = c.validate().unwrap_err();
    assert!(
        errs.iter().any(|e| matches!(e, ConfigError::IndentWidthOutOfRange(17))),
        "expected IndentWidthOutOfRange(17), got {errs:?}"
    );
}

#[test]
fn validate_rejects_out_of_range_continuation_indent() {
    for bad in [0usize, 17] {
        let mut c = M1ToolsConfig::default();
        c.format.continuation_indent = Some(bad);
        let errs = c.validate().unwrap_err();
        assert!(
            errs.iter()
                .any(|e| matches!(e, ConfigError::ContinuationIndentOutOfRange(v) if *v == bad)),
            "expected ContinuationIndentOutOfRange({bad}), got {errs:?}"
        );
    }
}

#[test]
fn validate_accepts_boundary_indent_width() {
    let mut lo = M1ToolsConfig::default();
    lo.format.indent_width = Some(1);
    assert!(lo.validate().is_ok());
    let mut hi = M1ToolsConfig::default();
    hi.format.indent_width = Some(16);
    assert!(hi.validate().is_ok());
}

#[test]
fn validate_rejects_zero_max_nesting_depth() {
    let mut c = M1ToolsConfig::default();
    c.lint.max_nesting_depth = Some(0);
    let errs = c.validate().unwrap_err();
    assert!(
        errs.iter().any(|e| matches!(e, ConfigError::MaxNestingDepthZero)),
        "expected MaxNestingDepthZero, got {errs:?}"
    );
}

#[test]
fn validate_rejects_zero_max_cognitive_complexity() {
    let mut c = M1ToolsConfig::default();
    c.lint.max_cognitive_complexity = Some(0);
    let errs = c.validate().unwrap_err();
    assert!(
        errs.iter().any(|e| matches!(e, ConfigError::MaxCognitiveComplexityZero)),
        "expected MaxCognitiveComplexityZero, got {errs:?}"
    );
}

#[test]
fn validate_rejects_malformed_diagnostic_codes() {
    let mut c = M1ToolsConfig::default();
    c.diagnostics.ignore = strings(&["T041", "t001", "T41", "Syntax-Error", "L010"]);
    let errs = c.validate().unwrap_err();
    let bad = malformed_codes(&errs);
    assert!(bad.contains(&"t001"), "expected t001 (lowercase tool code) invalid, got {errs:?}");
    assert!(bad.contains(&"T41"), "expected T41 (truncated) invalid, got {errs:?}");
    assert!(bad.contains(&"Syntax-Error"), "expected Syntax-Error (mixed case) invalid, got {errs:?}");
    assert!(!bad.contains(&"T041"), "T041 must be valid");
    assert!(!bad.contains(&"L010"), "L010 must be valid");
}

#[test]
fn validate_accepts_named_core_codes() {
    let mut c = M1ToolsConfig::default();
    c.diagnostics.ignore = strings(&["unsupported-c-token", "syntax-error"]);
    c.diagnostics.select = strings(&["missing-token", "annotation", "T080"]);
    assert!(c.validate().is_ok(), "named core codes must be valid: {:?}", c.validate());
}

#[test]
fn validate_rejects_malformed_codes_in_select() {
    let mut c = M1ToolsConfig::default();
    c.diagnostics.select = strings(&["B4D", "E001"]);
    let errs = c.validate().unwrap_err();
    let bad = malformed_codes(&errs);
    assert!(bad.contains(&"B4D"), "expected 'B4D' invalid");
    assert!(!bad.contains(&"E001"), "E001 must be valid");
}

#[test]
fn validate_rejects_zero_max_complexity() {
    let mut c = M1ToolsConfig::default();
    c.lint.max_complexity = Some(0);
    let errs = c.validate().unwrap_err();
    assert!(
        errs.iter().any(|e| matches!(e, ConfigError::MaxComplexityZero)),
        "expected MaxComplexityZero, got {errs:?}"
    );
}

#[test]
fn validate_collects_multiple_errors() {
    let mut c = M1ToolsConfig::default();
    c.lint.max_line_length = Some(0);
    c.lint.max_nesting_depth = Some(0);
    c.format.indent_width = Some(0);
    let errs = c.validate().unwrap_err();
    assert!(errs.len() >= 3, "expected ≥3 errors, got {errs:?}");
}

#[test]
fn config_error_display_is_actionable() {
    let e = ConfigError::MaxLineLengthOutOfRange(0);
    let msg = e.to_string();
    assert!(
        msg.contains('0') && msg.contains("max_line_length"),
        "display must mention field and value: {msg:?}"
    );
    let e2 = ConfigError::IndentWidthOutOfRange(99);
    let msg2 = e2.to_string();
    assert!(msg2.contains("99") && msg2.contains("indent_width"), "{msg2:?}");
}

#[test]
fn ignore_symbols_valid_entries_pass() {
    let mut c = M1ToolsConfig::default();
    c.diagnostics.ignore_symbols = strings(&["T050:Root.Engine.Speed", "T041:Root.X.Y"]);
    assert!(c.validate().is_ok());
    assert_eq!(
        parse_ignore_symbol("T050:Root.Engine.Speed"),
        Some(("T050", "Root.Engine.Speed"))
    );
}

#[test]
fn ignore_symbols_malformed_entries_flag() {
    let mut c = M1ToolsConfig::default();
    c.diagnostics.ignore_symbols = strings(&["T050", "t050:Root.X", "T050:"]);
    let errs = c.validate().unwrap_err();
    let bad: Vec<_> = errs
        .iter()
        .filter(|e| matches!(e, ConfigError::MalformedIgnoreSymbol(_)))
        .collect();
    assert_eq!(bad.len(), 3, "all three malformed: {errs:?}");
}

#[test]
fn validate_reports_errors_in_order() {
    let mut c = M1ToolsConfig::default();
    c.diagnostics.select = strings(&["bad!"]);
    c.diagnostics.ignore = strings(&["T1"]);
    c.diagnostics.ignore_symbols = strings(&["nope"]);
    c.format.continuation_indent = Some(20);
    c.lint.max_line_length = Some(2000);
    let errs = c.validate().unwrap_err();
    assert_eq!(
        errs,
        vec![
            ConfigError::MaxLineLengthOutOfRange(2000),
            ConfigError::ContinuationIndentOutOfRange(20),
            ConfigError::MalformedIgnoreSymbol("nope".to_string()),
            ConfigError::MalformedDiagnosticCode("T1".to_string()),
            ConfigError::MalformedDiagnosticCode("bad!".to_string()),
        ]
    );
}

#[test]
fn parse_ignore_symbol_trims_the_path_and_splits_at_the_first_colon() {
    assert_eq!(parse_ignore_symbol("T050:  Root.A \t"), Some(("T050", "Root.A")));
    assert_eq!(parse_ignore_symbol("T050:a:b"), Some(("T050", "a:b")));
    assert_eq!(parse_ignore_symbol("T050:\u{3000}Ω\u{a0}"), Some(("T050", "Ω")));
    assert_eq!(parse_ignore_symbol("T050: \u{2003} "), None);
    assert_eq!(parse_ignore_symbol(":Root.A"), None);
    assert_eq!(parse_ignore_symbol("T0500:Root.A"), None);
    assert_eq!(parse_ignore_symbol("Ä050:Root.A"), None);
}

#[test]
fn every_config_error_message() {
    let cases = [
        (ConfigError::MaxLineLengthOutOfRange(0), "max_line_length must be ≥ 1 and ≤ 1000; got 0"),
        (ConfigError::IndentWidthOutOfRange(99), "indent_width must be ≥ 1 and ≤ 16; got 99"),
        (ConfigError::ContinuationIndentOutOfRange(17), "continuation_indent must be ≥ 1 and ≤ 16; got 17"),
        (ConfigError::MaxNestingDepthZero, "max_nesting_depth must be ≥ 1; got 0"),
        (ConfigError::MaxCognitiveComplexityZero, "max_cognitive_complexity must be ≥ 1; got 0"),
        (ConfigError::MaxComplexityZero, "max_complexity must be ≥ 1; got 0"),
        (
            ConfigError::MalformedDiagnosticCode("t041".to_string()),
            "malformed diagnostic code \"t041\"; expected an uppercase letter + 3 digits (e.g. T041, L010) or a named code (e.g. syntax-error)",
        ),
        (
            ConfigError::MalformedIgnoreSymbol("T050".to_string()),
            "malformed ignore_symbols entry \"T050\"; expected CODE:Symbol.Path (e.g. \"T050:Root.Engine.Speed\")",
        ),
    ];
    for (e, msg) in cases {
        assert_eq!(e.to_string(), msg);
    }
}

#[test]
fn named_codes_must_start_and_end_with_a_letter() {
    let mut c = M1ToolsConfig::default();
    c.diagnostics.ignore = strings(&["-abc", "abc-", "a", "", "a--b", "T04A"]);
    let errs = c.validate().unwrap_err();
    assert_eq!(malformed_codes(&errs), vec!["-abc", "abc-", "", "T04A"]);
}
