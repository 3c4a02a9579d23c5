use pdxscript_lsp::call_hierarchy::{
    containing_symbol, find_top_level_key_line, incoming_calls, make_item, outgoing_calls, prepare, RefSite,
};
use pdxscript_lsp::model::{Definition, Location, Position, Range, SymbolKind};

fn range(sl: u32, sc: u32, el: u32, ec: u32) -> Range {
    Range { start: Position { line: sl, character: sc }, end: Position { line: el, character: ec } }
}

fn loc(uri: &str, r: Range) -> Location {
    Location { uri: uri.to_string(), range: r }
}

fn def(name: &str, uri: &str, line: u32, detail: &str) -> Definition {
    Definition { name: name.to_string(), location: loc(uri, range(line, 0, line, 0)), detail: detail.to_string() }
}

#[test]
fn items_take_kind_from_detail() {
    let item = make_item("x", &loc("file:///a.txt", range(3, 0, 3, 0)), "scripted_trigger");
    assert_eq!(item.kind, SymbolKind::Operator);
    assert_eq!(item.detail.as_deref(), Some("scripted_trigger"));
    assert_eq!(item.range, range(3, 0, 3, 0));
    assert_eq!(item.selection_range, item.range);
    assert_eq!(item.uri, "file:///a.txt");
}

#[test]
fn prepare_finds_item_under_cursor() {
    let defs = vec![def("my_effect", "file:///e.txt", 4, "scripted_effect")];
    let text = "x = {\n  my_effect = yes\n}\n";
    let items = prepare(text, 1, 4, &defs).unwrap();
    assert_eq!(items.len(), 1);
    assert_eq!(items[0].name, "my_effect");
    assert_eq!(items[0].kind, SymbolKind::Function);
    assert!(prepare(text, 0, 0, &defs).is_none());
    assert!(prepare(text, 9, 0, &defs).is_none());
}

#[test]
fn outgoing_calls_group_body_mentions() {
    let defs = vec![def("eff_a", "file:///e.txt", 0, "scripted_effect"), def("trig_b", "file:///t.txt", 5, "scripted_trigger")];
    let text = "caller = {\n  eff_a = yes\n  trig_b = yes # eff_a\n  eff_a = no\n}\n";
    let calls = outgoing_calls(range(0, 0, 4, 1), text, &defs);
    assert_eq!(calls.len(), 2);
    assert_eq!(calls[0].to.name, "eff_a");
    assert_eq!(calls[0].from_ranges, vec![range(1, 2, 1, 7), range(3, 2, 3, 7)]);
    assert_eq!(calls[1].to.name, "trig_b");
    assert_eq!(calls[1].to.kind, SymbolKind::Operator);
    assert_eq!(calls[1].from_ranges, vec![range(2, 2, 2, 8)]);
    // The header line itself is not a call.
    let none = outgoing_calls(range(1, 0, 1, 0), text, &defs);
    assert!(none.is_empty());
}

#[test]
fn top_level_key_lines_and_containers() {
    let text = "first = {\n  a = 1\n}\nsecond = {\n}\n";
    assert_eq!(find_top_level_key_line(text, "second"), Some(3));
    assert_eq!(find_top_level_key_line(text, "a"), None);
    assert_eq!(containing_symbol(text, 1).as_deref(), Some("first"));
    assert_eq!(containing_symbol(text, 4).as_deref(), Some("second"));
    assert_eq!(containing_symbol("  x = 1\n", 0), None);
}

#[test]
fn incoming_calls_group_by_file_and_block() {
    let defs = vec![def("target", "file:///def.txt", 0, "scripted_effect"), def("caller", "file:///c.txt", 0, "scripted_trigger")];
    let text_c = "caller = {\n  target = yes\n  target = no\n}\n".to_string();
    let text_d = "blockname = {\n  target = yes\n}\n".to_string();
    let refs = vec![
        RefSite { location: loc("file:///def.txt", range(0, 0, 0, 0)), text: Some("target = {\n}\n".to_string()) },
        RefSite { location: loc("file:///c.txt", range(1, 2, 1, 8)), text: Some(text_c.clone()) },
        RefSite { location: loc("file:///d.txt", range(1, 2, 1, 8)), text: Some(text_d) },
        RefSite { location: loc("file:///c.txt", range(2, 2, 2, 8)), text: Some(text_c) },
        RefSite { location: loc("file:///gone.txt", range(0, 0, 0, 6)), text: None },
    ];
    let calls = incoming_calls("target", &defs, &refs);
    assert_eq!(calls.len(), 2);
    assert_eq!(calls[0].from.name, "caller");
    assert_eq!(calls[0].from.kind, SymbolKind::Operator);
    assert_eq!(calls[0].from_ranges, vec![range(1, 2, 1, 8), range(2, 2, 2, 8)]);
    assert_eq!(calls[1].from.name, "blockname");
    assert_eq!(calls[1].from.detail.as_deref(), Some("block"));
    assert_eq!(calls[1].from.uri, "file:///d.txt");
    assert_eq!(calls[1].from.range, range(0, 0, 0, 9));
}

#[test]
fn containing_symbol_is_the_enclosing_block() {
    let text = "a = {\n  x = y\n}\nb = {\n  z = w\n}";
    assert_eq!(containing_symbol(text, 4).as_deref(), Some("b"));
    assert_eq!(containing_symbol(text, 3).as_deref(), Some("b"));
    assert_eq!(containing_symbol(text, 2).as_deref(), Some("a"));
    assert_eq!(containing_symbol(text, 40).as_deref(), Some("b"));
}

#[test]
fn outgoing_calls_take_dotted_names_whole() {
    let defs = vec![def("my_events.1", "file:///ev.txt", 2, "event")];
    let text = "caller = {\n  trigger_event = my_events.1\n  my_events.10 = x\n}\n";
    let calls = outgoing_calls(range(0, 0, 3, 1), text, &defs);
    assert_eq!(calls.len(), 1);
    assert_eq!(calls[0].to.name, "my_events.1");
    assert_eq!(calls[0].from_ranges, vec![range(1, 18, 1, 29)]);
}
