use pdxscript_lsp::completions::DefEntry;
use pdxscript_lsp::fold::folding_ranges;
use pdxscript_lsp::model::{Definition, Location, Position, Range, SymbolKind};
use pdxscript_lsp::symbols::{
    defs_to_locations, defs_with_uris, document_symbols, kind_detail, kind_from_detail, kind_from_path, top_level_key,
    word_at, word_at_ok, workspace_symbols,
};

fn range(sl: u32, sc: u32, el: u32, ec: u32) -> Range {
    Range { start: Position { line: sl, character: sc }, end: Position { line: el, character: ec } }
}

#[test]
fn top_level_key_accepts_column_zero_blocks() {
    assert_eq!(top_level_key("my_effect = {"), Some("my_effect"));
    assert_eq!(top_level_key("ns.1 = {  "), Some("ns.1"));
    assert_eq!(top_level_key("  indented = {"), None);
    assert_eq!(top_level_key("# comment = {"), None);
    assert_eq!(top_level_key("value = yes"), None);
    assert_eq!(top_level_key("= {"), None);
    assert_eq!(top_level_key("bad-name = {"), None);
}

#[test]
fn word_at_finds_identifier_bounds() {
    assert_eq!(word_at("a = foo.bar", 5), Some(("foo.bar".to_string(), 4, 11)));
    assert_eq!(word_at("a = foo", 7), Some(("foo".to_string(), 4, 7)));
    assert_eq!(word_at("a = foo", 2), None);
    assert_eq!(word_at("scope:x = yes", 0), Some(("scope:x".to_string(), 0, 7)));
    assert_eq!(word_at("", 3), None);
}

#[test]
fn kinds_from_detail_and_path() {
    assert_eq!(kind_from_detail("scripted_effect"), SymbolKind::Function);
    assert_eq!(kind_from_detail("event"), SymbolKind::Event);
    assert_eq!(kind_from_detail("block"), SymbolKind::Object);
    assert_eq!(kind_from_path(&["mod", "common", "scripted_triggers", "a.txt"]), SymbolKind::Operator);
    assert_eq!(kind_from_path(&["mod", "events", "a.txt"]), SymbolKind::Event);
    assert_eq!(kind_from_path(&["mod", "common", "buildings", "a.txt"]), SymbolKind::Module);
    assert_eq!(kind_from_path(&["mod", "common"]), SymbolKind::Object);
    assert_eq!(kind_detail(SymbolKind::EnumMember), "decision");
}

#[test]
fn document_symbols_of_top_level_blocks() {
    let text = "my_effect = {\n  x = { y = 1 }\n}\nns.1 = {\n}\n";
    let syms = document_symbols(text, SymbolKind::Function);
    assert_eq!(syms.len(), 2);
    assert_eq!(syms[0].name, "my_effect");
    assert_eq!(syms[0].kind, SymbolKind::Function);
    assert_eq!(syms[0].range, range(0, 0, 2, 1));
    assert_eq!(syms[0].selection_range, range(0, 0, 0, 13));
    assert_eq!(syms[0].detail.as_deref(), Some("scripted_effect"));
    assert_eq!(syms[1].name, "ns.1");
    assert_eq!(syms[1].kind, SymbolKind::Event);
    assert_eq!(syms[1].detail.as_deref(), Some("event"));
}

#[test]
fn document_symbols_ignore_braces_in_strings_and_comments() {
    let text = "a = {\n  t = \"}\" # }\n}\n";
    let syms = document_symbols(text, SymbolKind::Module);
    assert_eq!(syms.len(), 1);
    assert_eq!(syms[0].range, range(0, 0, 2, 1));
}

fn def(name: &str, detail: &str, line: u32) -> Definition {
    Definition {
        name: name.to_string(),
        location: Location { uri: "file:///m/a.txt".to_string(), range: range(line, 0, line, 0) },
        detail: detail.to_string(),
    }
}

#[test]
fn workspace_symbols_match_case_insensitively_in_order() {
    let defs = vec![def("Foo_Effect", "scripted_effect", 1), def("bar", "event", 2), def("xfoo", "other", 3)];
    let found = workspace_symbols("FOO", &defs);
    assert_eq!(found.len(), 2);
    assert_eq!(found[0].name, "Foo_Effect");
    assert_eq!(found[0].kind, SymbolKind::Function);
    assert_eq!(found[1].name, "xfoo");
    assert_eq!(found[1].kind, SymbolKind::Object);
    assert_eq!(found[1].location.range.start.line, 3);
    assert_eq!(workspace_symbols("", &defs).len(), 3);
}

#[test]
fn folding_ranges_of_multiline_blocks() {
    let text = "a = {\n  b = { c = 1 }\n  d = {\n  }\n}\n# {\ne = \"{\"\n";
    let folds = folding_ranges(text);
    assert_eq!(folds.len(), 2);
    assert_eq!((folds[0].start_line, folds[0].end_line), (2, 3));
    assert_eq!((folds[1].start_line, folds[1].end_line), (0, 4));
}

#[test]
fn word_lookup_accepts_boundaries_only() {
    assert!(word_at_ok("foo = bar", 0));
    assert!(word_at_ok("foo = bar", 4));
    assert!(word_at_ok("foo = bar", 100));
    // Column 1 falls inside the two-byte `é`.
    assert!(!word_at_ok("é = x", 1));
    assert!(word_at_ok("é = x", 2));
    assert!(word_at_ok("«é»", 2));
    assert_eq!(word_at("é = x", 0), Some(("é".to_string(), 0, 2)));
}

#[test]
fn word_lookup_slices_by_characters() {
    assert_eq!(word_at("é", 2), Some(("é".to_string(), 0, 2)));
    assert_eq!(word_at("é = x", 2), Some(("é".to_string(), 0, 2)));
    assert_eq!(word_at("«é»", 2), Some(("é".to_string(), 2, 4)));
    assert_eq!(word_at("«é»", 4), Some(("é".to_string(), 2, 4)));
    assert_eq!(word_at("« x", 2), None);
    assert_eq!(word_at("«x", 2), Some(("x".to_string(), 2, 3)));
}

#[test]
fn found_definitions_point_at_their_lines() {
    let defs = vec![
        DefEntry { name: "my_effect".into(), path: "/mod/common/scripted_effects/a.txt".into(), line: 3, detail: "scripted_effect".into() },
        DefEntry { name: "my.1".into(), path: "/mod/events/e.txt".into(), line: 0, detail: "event".into() },
    ];
    let locs = defs_to_locations(defs);
    assert_eq!(locs.len(), 2);
    assert_eq!(locs[0].name, "my_effect");
    assert_eq!(locs[0].detail, "scripted_effect");
    assert_eq!(locs[0].location.uri, "file:///mod/common/scripted_effects/a.txt");
    assert_eq!(locs[0].location.range, range(2, 0, 2, 0));
    assert_eq!(locs[1].location.range, range(0, 0, 0, 0));
    let relative = defs_to_locations(vec![DefEntry { name: "x".into(), path: "relative.txt".into(), line: 1, detail: "event".into() }]);
    assert!(relative.is_empty());
}

#[test]
fn definitions_follow_the_uris_of_their_files() {
    let defs = vec![
        DefEntry { name: "a".into(), path: "/x.txt".into(), line: 5, detail: "event".into() },
        DefEntry { name: "b".into(), path: "/y.txt".into(), line: 1, detail: "scripted_trigger".into() },
    ];
    let out = defs_with_uris(&defs, &[None, Some("file:///y.txt".to_string())]);
    assert_eq!(out.len(), 1);
    assert_eq!(out[0].name, "b");
    assert_eq!(out[0].location.uri, "file:///y.txt");
    assert_eq!(out[0].location.range, range(0, 0, 0, 0));
    assert_eq!(out[0].detail, "scripted_trigger");
}

#[test]
fn definitions_in_relative_paths_have_no_location() {
    let defs = vec![
        DefEntry { name: "a".into(), path: "common/a.txt".into(), line: 1, detail: "scripted_effect".into() },
        DefEntry { name: "b".into(), path: "".into(), line: 1, detail: "event".into() },
        DefEntry { name: "c".into(), path: "/mod/c.txt".into(), line: 4, detail: "scripted_trigger".into() },
    ];
    let locs = defs_to_locations(defs);
    assert_eq!(locs.len(), 1);
    assert_eq!(locs[0].name, "c");
    assert_eq!(locs[0].location.uri, "file:///mod/c.txt");
    assert_eq!(locs[0].location.range, range(3, 0, 3, 0));
}
