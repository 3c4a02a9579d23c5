use pdxscript_lsp::editor::{
    code_lens_sites, decimal_text, diagnostic_at, find_enclosing_block_trigger, hints_in_range, message_wiki,
    reference_title, selection_range_at, severity_word, signature_help, value_context_keyword,
};
use pdxscript_lsp::model::{Diagnostic, DiagnosticSeverity, Position, Range, SchemaField};
use pdxscript_lsp::validate::InlayHint;

fn range(sl: u32, sc: u32, el: u32, ec: u32) -> Range {
    Range { start: Position { line: sl, character: sc }, end: Position { line: el, character: ec } }
}

#[test]
fn enclosing_block_names() {
    let lines = vec!["has_trait = {", "  a = { b = 1 }", "  c = "];
    assert_eq!(find_enclosing_block_trigger(&lines, 2, 6).as_deref(), Some("has_trait"));
    assert_eq!(find_enclosing_block_trigger(&lines, 1, 8).as_deref(), Some("a"));
    assert_eq!(find_enclosing_block_trigger(&lines, 0, 3), None);
    assert_eq!(find_enclosing_block_trigger(&lines, 7, 0), None);
    assert_eq!(find_enclosing_block_trigger(&vec!["= {", "x"], 1, 0), None);
}

#[test]
fn value_position_keywords() {
    assert_eq!(value_context_keyword("add_building = ", 15).as_deref(), Some("add_building"));
    assert_eq!(value_context_keyword("  has_trait=", 12).as_deref(), Some("has_trait"));
    assert_eq!(value_context_keyword("x = { ", 6), None);
    assert_eq!(value_context_keyword("no equals here", 5), None);
    assert_eq!(value_context_keyword("a = b = par", 11).as_deref(), Some("b"));
    assert_eq!(value_context_keyword("$x$ = ", 6), None);
    assert_eq!(value_context_keyword("(key = v", 8).as_deref(), Some("key"));
}

#[test]
fn selection_ranges_grow_outward() {
    let lines = vec!["a = {", "  b = { c = yes }", "}"];
    let r = selection_range_at(&lines, Position { line: 1, character: 8 });
    assert_eq!(r, vec![range(1, 8, 1, 9), range(1, 0, 1, 17), range(1, 6, 1, 17), range(0, 4, 2, 1)]);
    let beyond = selection_range_at(&lines, Position { line: 5, character: 2 });
    assert_eq!(beyond, vec![range(5, 2, 5, 3), range(5, 0, 5, 0)]);
}

#[test]
fn selection_skips_blocks_closed_before_the_cursor() {
    let lines = vec!["b = {", " c = { }", " x", "}"];
    let r = selection_range_at(&lines, Position { line: 2, character: 1 });
    assert_eq!(r, vec![range(2, 1, 2, 2), range(2, 0, 2, 2), range(0, 4, 3, 1)]);
}

#[test]
fn signature_of_a_block() {
    let fields = vec![
        SchemaField { name: "target".to_string(), type_hint: "country".to_string(), required: true },
        SchemaField { name: "value".to_string(), type_hint: "number".to_string(), required: false },
    ];
    let s = signature_help("change_relations", &fields);
    assert_eq!(s.label, "change_relations = { target: country  |  ?value: number }");
    assert_eq!(s.parameters, vec!["target: country".to_string(), "?value: number".to_string()]);
    assert!(s.documentation.is_none());
    let empty = signature_help("custom", &[]);
    assert_eq!(empty.label, "custom = { ... }");
    assert!(empty.parameters.is_empty());
    assert!(empty.documentation.unwrap().starts_with("Custom validator"));
}

#[test]
fn reference_counts_in_titles() {
    assert_eq!(decimal_text(0), "0");
    assert_eq!(decimal_text(1207), "1207");
    assert_eq!(reference_title(1), "1 reference");
    assert_eq!(reference_title(0), "0 references");
    assert_eq!(reference_title(12), "12 references");
}

#[test]
fn lens_sites_on_defined_top_level_blocks() {
    let defs = vec!["my_effect".to_string(), "weird name".to_string()];
    let sites = code_lens_sites("my_effect = {  \n  my_effect = {\nweird name = {\nother = {\n", &defs);
    assert_eq!(sites.len(), 2);
    assert_eq!((sites[0].line, sites[0].name.as_str(), sites[0].end), (0, "my_effect", 13));
    assert_eq!((sites[1].line, sites[1].name.as_str()), (2, "weird name"));
}

fn diag(r: Range, code: Option<&str>, message: &str) -> Diagnostic {
    Diagnostic {
        range: r,
        severity: Some(DiagnosticSeverity::Warning),
        code: code.map(|c| c.to_string()),
        source: None,
        message: message.to_string(),
        data: None,
        related: vec![],
    }
}

#[test]
fn diagnostic_under_cursor_and_its_parts() {
    let diags = vec![diag(range(2, 0, 2, 5), None, "m"), diag(range(2, 3, 2, 9), Some("scopes"), "[scopes] x\nhttps://w/Scope \n")];
    assert_eq!(diagnostic_at(&diags, 2, 4), Some(1));
    assert_eq!(diagnostic_at(&diags, 2, 10), None);
    assert_eq!(diagnostic_at(&diags, 1, 4), None);
    assert_eq!(severity_word(Some(DiagnosticSeverity::Information)), "untidy");
    assert_eq!(severity_word(None), "unknown");
    assert_eq!(message_wiki(&diags[1].message).as_deref(), Some("https://w/Scope"));
    assert_eq!(message_wiki("no link"), None);
}

#[test]
fn hints_filtered_by_line() {
    let hints = vec![
        InlayHint { position: Position { line: 1, character: 0 }, label: "a".to_string() },
        InlayHint { position: Position { line: 5, character: 0 }, label: "b".to_string() },
        InlayHint { position: Position { line: 3, character: 0 }, label: "c".to_string() },
    ];
    assert_eq!(hints_in_range(&hints, 2, 5), vec![1, 2]);
    assert!(hints_in_range(&hints, 6, 9).is_empty());
}
