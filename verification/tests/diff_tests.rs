use m1_workspace::diff::unified_diff;

#[test]
fn inserted_line_keeps_following_lines_as_context() {
    let original = "a\nb\nc\n";
    let formatted = "a\nX\nb\nc\n";
    let d = unified_diff("demo.m1scr", original, formatted);
    assert!(d.contains("@@"), "expected a hunk header:\n{d}");
    assert!(d.contains("+X"), "expected the inserted line:\n{d}");
    assert!(d.contains(" b"), "b should be a context line:\n{d}");
    assert!(d.contains(" c"), "c should be a context line:\n{d}");
    assert!(!d.contains("-b"), "b must not be reported as deleted:\n{d}");
    assert!(!d.contains("-c"), "c must not be reported as deleted:\n{d}");
}

#[test]
fn identical_inputs_produce_no_hunks() {
    let d = unified_diff("demo.m1scr", "a\nb\n", "a\nb\n");
    assert!(!d.contains("@@"), "no changes -> no hunks:\n{d}");
}

#[test]
fn trailing_newline_distinction_is_preserved() {
    let with_newline = "a\nb\n";
    let without_newline = "a\nb";
    let d = unified_diff("demo.m1scr", with_newline, without_newline);
    assert!(
        !d.is_empty(),
        "files differing only in trailing newline must produce a non-empty diff:\n{d}"
    );
    assert!(d.contains("@@"), "expected a hunk header:\n{d}");

    let without_extra = "a\n";
    let with_extra = "a\n\n";
    let d2 = unified_diff("demo.m1scr", without_extra, with_extra);
    assert!(
        !d2.is_empty(),
        "files differing only in trailing blank line must produce a non-empty diff:\n{d2}"
    );
}

#[test]
fn changed_line_shown_as_delete_then_insert() {
    let d = unified_diff("demo.m1scr", "a\nb\nc\n", "a\nB\nc\n");
    assert!(d.contains("-b"), "{d}");
    assert!(d.contains("+B"), "{d}");
    assert!(d.contains(" a") && d.contains(" c"), "context around change:\n{d}");
}

#[test]
fn crlf_input_produces_no_stray_cr_in_diff() {
    let original = "a\r\nb\r\nc\r\n";
    let formatted = "a\r\nB\r\nc\r\n";
    let d = unified_diff("demo.m1scr", original, formatted);
    assert!(!d.contains('\r'), "stray \\r in diff output:\n{d:?}");
    assert!(d.contains("-b"), "expected deletion of 'b':\n{d}");
    assert!(d.contains("+B"), "expected insertion of 'B':\n{d}");
}

#[test]
fn crlf_and_lf_identical_content_compare_equal() {
    let crlf = "a\r\nb\r\n";
    let lf = "a\nb\n";
    let d = unified_diff("demo.m1scr", crlf, lf);
    assert!(d.is_empty(), "CRLF and LF with same content should diff as identical:\n{d}");
}

#[test]
fn crlf_context_lines_have_no_stray_cr() {
    let original = "ctx1\r\nctx2\r\nchanged\r\nctx3\r\nctx4\r\n";
    let formatted = "ctx1\r\nctx2\r\nCHANGED\r\nctx3\r\nctx4\r\n";
    let d = unified_diff("demo.m1scr", original, formatted);
    assert!(!d.contains('\r'), "stray \\r in context lines:\n{d:?}");
    assert!(d.contains(" ctx1") || d.contains(" ctx2"), "context missing:\n{d}");
}

#[test]
fn oversized_differing_inputs_return_placeholder_without_huge_alloc() {
    let original: String = (0..200_000).map(|i| format!("a{i}\n")).collect();
    let formatted: String = (0..200_000).map(|i| format!("b{i}\n")).collect();
    let d = unified_diff("big.m1scr", &original, &formatted);
    assert!(
        d.contains("diff too large to display"),
        "expected oversized placeholder, got:\n{}",
        &d[..d.len().min(200)]
    );
    assert!(d.contains("--- big.m1scr (original)"), "missing header:\n{d}");
    assert!(d.contains("+++ big.m1scr (formatted)"), "missing header:\n{d}");
}

#[test]
fn oversized_identical_inputs_report_no_change() {
    let text: String = (0..200_000).map(|i| format!("line{i}\n")).collect();
    let d = unified_diff("big.m1scr", &text, &text);
    assert!(
        d.is_empty(),
        "identical oversized inputs must produce no diff:\n{}",
        &d[..d.len().min(200)]
    );
}

#[test]
fn under_cap_inputs_still_use_real_lcs_diff() {
    let original = "a\nb\nc\nd\ne\n";
    let formatted = "a\nb\nX\nd\ne\n";
    let d = unified_diff("ok.m1scr", original, formatted);
    assert!(!d.contains("diff too large"), "small inputs must not hit the placeholder:\n{d}");
    assert!(d.contains("-c") && d.contains("+X"), "expected real diff:\n{d}");
}

#[test]
fn exact_output_of_a_single_change() {
    let d = unified_diff("f", "a\nb\nc\n", "a\nB\nc\n");
    assert_eq!(
        d,
        "--- f (original)\n+++ f (formatted)\n@@ -1,4 +1,4 @@\n a\n-b\n+B\n c\n \n"
    );
}

#[test]
fn distant_changes_make_two_hunks_and_near_ones_share_one() {
    let original: String = (1..=20).map(|i| format!("l{i}\n")).collect();
    let far = original.replace("l2\n", "X\n").replace("l18\n", "Y\n");
    let d = unified_diff("f", &original, &far);
    assert_eq!(d.matches("@@ -").count(), 2, "{d}");
    assert!(d.contains("@@ -1,5 +1,5 @@\n"), "{d}");
    assert!(d.contains("@@ -15,7 +15,7 @@\n"), "{d}");
    let near = original.replace("l2\n", "X\n").replace("l8\n", "Y\n");
    let d2 = unified_diff("f", &original, &near);
    assert_eq!(d2.matches("@@ -").count(), 1, "{d2}");
    assert!(d2.contains("@@ -1,11 +1,11 @@\n"), "{d2}");
}

#[test]
fn empty_versus_nonempty() {
    let d = unified_diff("f", "", "x");
    assert_eq!(d, "--- f (original)\n+++ f (formatted)\n@@ -1,1 +1,1 @@\n-\n+x\n");
    assert_eq!(unified_diff("f", "", ""), "");
}

#[test]
fn pure_insertion_header_counts() {
    let d = unified_diff("f", "a", "a\nb");
    assert_eq!(d, "--- f (original)\n+++ f (formatted)\n@@ -1,1 +1,2 @@\n a\n+b\n");
}

#[test]
fn windows_line_endings_give_the_same_diff_as_unix_ones() {
    let original = "a\r\nb\r\nc\r\nd\r\n";
    let formatted = "a\r\nB\r\nc\r\nd\r\ne\r\n";
    let crlf = unified_diff("demo.m1scr", original, formatted);
    let lf = unified_diff("demo.m1scr", &original.replace("\r\n", "\n"), &formatted.replace("\r\n", "\n"));
    assert_eq!(crlf, lf);
    assert!(!crlf.is_empty());
    assert!(!crlf.contains('\r'));
    // A mix of endings in one input behaves the same way.
    let mixed = unified_diff("demo.m1scr", "a\r\nb\nc\r\n", "a\nx\nc\n");
    assert_eq!(mixed, unified_diff("demo.m1scr", "a\nb\nc\n", "a\nx\nc\n"));
}
