use pdxscript_lsp::demorgan::{can_rewrite, find_violations, violation_to_action, violations_to_diagnostics};
use pdxscript_lsp::model::DiagnosticSeverity;

fn lines(s: &str) -> Vec<&str> {
    s.lines().collect()
}

#[test]
fn detects_not_or() {
    let script = "NOT = {\n  OR = {\n    a = yes\n    b = yes\n  }\n}";
    let vs = find_violations(&lines(script));
    assert_eq!(vs.len(), 1);
    assert_eq!(vs[0].inner_op, "OR");
    assert_eq!(vs[0].not_line, 0);
}

#[test]
fn detects_not_and() {
    let script = "NOT = {\n  AND = {\n    x = yes\n  }\n}";
    let vs = find_violations(&lines(script));
    assert_eq!(vs.len(), 1);
    assert_eq!(vs[0].inner_op, "AND");
}

#[test]
fn no_violation_for_plain_not() {
    let script = "NOT = {\n  a = yes\n  b = no\n}";
    assert!(find_violations(&lines(script)).is_empty());
}

#[test]
fn no_violation_when_not_wraps_non_logic() {
    // NOT wrapping something that is neither AND nor OR.
    let script = "NOT = {\n  is_ruler = yes\n}";
    assert!(find_violations(&lines(script)).is_empty());
}

#[test]
fn multiple_violations() {
    let script = "NOT = {\n  OR = {\n    a = yes\n  }\n}\nNOT = {\n  AND = {\n    b = yes\n  }\n}";
    let vs = find_violations(&lines(script));
    assert_eq!(vs.len(), 2);
}

#[test]
fn diagnostic_hint_severity() {
    let script = "NOT = {\n  OR = {\n    a = yes\n  }\n}";
    let vs = find_violations(&lines(script));
    let diags = violations_to_diagnostics(&vs);
    assert_eq!(diags.len(), 1);
    assert_eq!(diags[0].severity, Some(DiagnosticSeverity::Hint));
}

#[test]
fn diagnostic_message_mentions_de_morgan() {
    let script = "NOT = {\n  OR = {\n    a = yes\n  }\n}";
    let vs = find_violations(&lines(script));
    let diags = violations_to_diagnostics(&vs);
    assert!(diags[0].message.contains("de-morgan") || diags[0].message.contains("OR"));
}

fn rewrite_text(script: &str) -> String {
    let ls = lines(script);
    let vs = find_violations(&ls);
    assert!(!vs.is_empty(), "no violations found in: {script}");
    let action = violation_to_action(&ls, &vs[0]);
    action.edit.new_text
}

#[test]
fn rewrite_not_or_produces_and_not() {
    let script = "NOT = {\n    OR = {\n        a = yes\n        b = yes\n    }\n}";
    let text = rewrite_text(script);
    assert!(text.contains("AND = {"), "missing AND: {text}");
    assert!(!text.contains("OR = {"), "OR not removed: {text}");
    assert!(!text.contains("NOT = {\n    OR"), "outer NOT not removed: {text}");
    // Both children wrapped in NOT
    assert_eq!(text.matches("NOT = {").count(), 2, "expected 2 NOT wrappers: {text}");
}

#[test]
fn rewrite_not_and_produces_or_not() {
    let script = "NOT = {\n    AND = {\n        x = yes\n    }\n}";
    let text = rewrite_text(script);
    assert!(text.contains("OR = {"), "missing OR: {text}");
    assert!(!text.contains("AND = {"), "AND not removed: {text}");
    assert_eq!(text.matches("NOT = {").count(), 1, "expected 1 NOT wrapper: {text}");
}

#[test]
fn rewrite_not_or_two_has_variable() {
    // A real-world crash case: `has_variable = X` children inside OR.
    let script =
        "NOT = {\n    OR = {\n        has_variable = ismail_var\n        has_variable = hawduqo_var\n    }\n}";
    let text = rewrite_text(script);
    assert!(text.contains("AND = {"), "missing AND: {text}");
    assert!(text.contains("has_variable = ismail_var"), "first child lost: {text}");
    assert!(text.contains("has_variable = hawduqo_var"), "second child lost: {text}");
    assert_eq!(text.matches("NOT = {").count(), 2, "expected 2 NOT wrappers: {text}");
    assert!(!text.contains("AND = {\n}"), "empty AND block: {text}");
}

#[test]
fn rewrite_preserves_indentation() {
    let script = "    NOT = {\n        OR = {\n            a = yes\n        }\n    }";
    let text = rewrite_text(script);
    assert!(text.starts_with("    AND = {"), "wrong indent: {text}");
}

#[test]
fn rewrite_multiline_child_wraps_in_block() {
    // Child spanning multiple lines should produce NOT = { \n ... \n } block form.
    let script = "NOT = {\n    OR = {\n        trigger_if = {\n            limit = { a = yes }\n        }\n    }\n}";
    let text = rewrite_text(script);
    assert!(text.contains("AND = {"), "missing AND: {text}");
    assert!(text.contains("trigger_if"), "multiline child lost: {text}");
}

#[test]
fn rewrite_exact_output() {
    let script = "NOT = {\n  OR = {\n    a = yes\n    b = { c = yes }\n  }\n}";
    let ls = lines(script);
    let vs = find_violations(&ls);
    let fix = violation_to_action(&ls, &vs[0]);
    assert_eq!(fix.edit.new_text, "OR = {\n    NOT = { a = yes }\n    NOT = { b = { c = yes } }\n}".replace("OR = {\n", "AND = {\n"));
    assert_eq!(fix.title, "De Morgan: NOT { OR {…} } → AND { NOT {…} … }");
    assert_eq!(fix.edit.range.start.line, 0);
    assert_eq!(fix.edit.range.end.line, 5);
    assert_eq!(fix.edit.range.end.character, 1);
    assert!(fix.is_preferred);
}

#[test]
fn violation_columns_are_bytes() {
    let script = "NOT = {\n  \u{e9} = 1 OR = {\n  }\n}";
    // Content before OR: no violation.
    assert!(find_violations(&lines(script)).is_empty());
    let script = "NOT = { OR = {\n  a = yes }\n}";
    let vs = find_violations(&lines(script));
    assert_eq!(vs.len(), 1);
    assert_eq!(vs[0].inner_line, 0);
    assert_eq!(vs[0].inner_brace_col, 13);
    assert_eq!(vs[0].inner_close_line, 1);
    assert_eq!(vs[0].inner_close_col, 10);
    assert_eq!(vs[0].not_close_line, 2);
}

#[test]
fn other_content_blocks_violation() {
    let script = "NOT = {\n  OR = {\n    a = yes\n  }\n  b = yes\n}";
    assert!(find_violations(&lines(script)).is_empty());
}

#[test]
fn diagnostic_fields() {
    let script = "NOT = {\n  AND = {\n    a = yes\n  }\n}";
    let vs = find_violations(&lines(script));
    let d = &violations_to_diagnostics(&vs)[0];
    assert_eq!(d.code.as_deref(), Some("de-morgan"));
    assert_eq!(d.source.as_deref(), Some("pdxscript-lsp"));
    assert_eq!(d.range.end.line, 4);
    assert_eq!(d.range.end.character, u32::MAX);
    assert_eq!(d.message, "[de-morgan] NOT { AND { … } } → OR { NOT { … } … }");
}

#[test]
fn rewritable_violations_are_accepted() {
    let ls = lines("NOT = {\n  OR = {\n    a = yes\n  }\n}");
    let vs = find_violations(&ls);
    assert_eq!(vs.len(), 1);
    assert!(can_rewrite(&ls, &vs[0]));
    let other = lines("x = yes");
    assert!(!can_rewrite(&other, &vs[0]));
}

#[test]
fn rewrite_goes_past_a_brace_in_a_comment() {
    let ls = lines("NOT = {\n  OR = {\n    x = { # }\n    }\n  }\n}");
    let vs = find_violations(&ls);
    assert_eq!(vs.len(), 1);
    assert!(can_rewrite(&ls, &vs[0]));
    let fix = violation_to_action(&ls, &vs[0]);
    assert!(fix.edit.new_text.starts_with("AND = {\n"), "{}", fix.edit.new_text);
    assert_eq!(fix.edit.new_text.matches("NOT = {").count(), 1, "{}", fix.edit.new_text);
}

#[test]
fn rewrite_negates_each_child_on_a_line() {
    let text = rewrite_text("NOT = {\n  OR = {\n    a = yes b = yes\n  }\n}");
    assert_eq!(text, "AND = {\n    NOT = { a = yes }\n    NOT = { b = yes }\n}");
    let text = rewrite_text("NOT = {\n  AND = {\n    a = { x = 1 } b = \"s t\" c >= 2\n  }\n}");
    assert_eq!(text, "OR = {\n    NOT = { a = { x = 1 } }\n    NOT = { b = \"s t\" }\n    NOT = { c >= 2 }\n}");
}

#[test]
fn rewrite_keeps_text_after_the_closing_brace() {
    let ls = vec!["NOT = {", "  OR = { a = yes }", "} c = yes"];
    let vs = find_violations(&ls);
    assert_eq!(vs.len(), 1);
    let fix = violation_to_action(&ls, &vs[0]);
    assert_eq!(fix.edit.new_text, "AND = {\n    NOT = { a = yes }\n}");
    assert_eq!((fix.edit.range.start.line, fix.edit.range.start.character), (0, 0));
    assert_eq!((fix.edit.range.end.line, fix.edit.range.end.character), (2, 1));
    let rest = &ls[2][fix.edit.range.end.character as usize..];
    assert_eq!(format!("{}{}", fix.edit.new_text, rest), "AND = {\n    NOT = { a = yes }\n} c = yes");
}

#[test]
fn every_found_violation_can_be_rewritten() {
    let scripts = [
        "NOT = {\n  OR = {\n    x = { # }\n    }\n  }\n}",
        "NOT = { OR = {\n  a = yes }\n}",
        "  NOT = {\n    AND = { \"}\" = yes }\n  }\nNOT = {\n  OR = {\n  }\n}",
    ];
    for script in scripts {
        let ls = lines(script);
        for v in find_violations(&ls) {
            assert!(can_rewrite(&ls, &v), "{script}");
            let fix = violation_to_action(&ls, &v);
            assert!(fix.edit.new_text.ends_with('}'), "{script}");
        }
    }
}
