use pdxscript_lsp::completions::{
    builtin_completions, choice_completions, extract_value, field_completions, is_iterator_schema,
    item_subdir, item_value_completions, keys_in_text, load_mod_refs, lsp_entries_to_completions, merge_items, parse_variable_def,
    scan_mod_items, scripted_item, single_mod_items, static_keywords, variable_completions,
    CompletionKind, DefEntry, KeyLoc, LoadModRef, LspEntry, ModItems,
};
use pdxscript_lsp::model::{EntryKind, SchemaField};
use pdxscript_lsp::order::sort_dedup;

fn strings(v: &[&str]) -> Vec<String> {
    v.iter().map(|s| s.to_string()).collect()
}

fn empty_items() -> ModItems {
    ModItems {
        scripted_effects: vec![],
        scripted_triggers: vec![],
        scripted_modifiers: vec![],
        events: vec![],
        at_variables: vec![],
        definitions: vec![],
    }
}

fn def(name: &str, path: &str, line: u32, detail: &str) -> DefEntry {
    DefEntry { name: name.to_string(), path: path.to_string(), line, detail: detail.to_string() }
}

#[test]
fn static_keywords_table() {
    let k = static_keywords();
    assert_eq!(k.len(), 26);
    assert_eq!(k[0].label, "AND");
    assert_eq!(k[0].detail.as_deref(), Some("logic"));
    assert_eq!(k[5].label, "if");
    assert_eq!(k[12].label, "limit");
    assert_eq!(k[12].detail.as_deref(), Some("block"));
    assert_eq!(k[25].label, "no");
    assert_eq!(k[25].detail.as_deref(), Some("value"));
    assert!(k.iter().all(|e| e.kind == CompletionKind::Keyword && e.insert_text.is_none() && !e.plain_text));
}

#[test]
fn builtins_insert_an_assignment() {
    let entries = vec![
        LspEntry { name: "has_trait".to_string(), kind: EntryKind::Trigger },
        LspEntry { name: "every_pop".to_string(), kind: EntryKind::Iterator },
    ];
    let c = builtin_completions(&entries);
    assert_eq!(c.len(), 2);
    assert_eq!(c[0].label, "has_trait");
    assert_eq!(c[0].detail.as_deref(), Some("trigger"));
    assert_eq!(c[0].insert_text.as_deref(), Some("has_trait = "));
    assert!(c[0].plain_text);
    assert_eq!(c[1].detail.as_deref(), Some("iterator"));
    assert_eq!(c[1].kind, CompletionKind::Keyword);
}

#[test]
fn variable_definitions_in_text() {
    assert_eq!(parse_variable_def("  @my_var = 5").as_deref(), Some("my_var"));
    assert_eq!(parse_variable_def("@x=1").as_deref(), Some("x"));
    assert_eq!(parse_variable_def("@[expr]"), None);
    assert_eq!(parse_variable_def("@:x"), None);
    assert_eq!(parse_variable_def("@ = 1"), None);
    assert_eq!(parse_variable_def("x = @y"), None);
    let c = variable_completions("@a = 1\nb = @a\n\t@long_name 3\n");
    assert_eq!(c.len(), 2);
    assert_eq!(c[0].label, "@a");
    assert_eq!(c[0].kind, CompletionKind::Variable);
    assert_eq!(c[0].detail.as_deref(), Some("variable"));
    assert_eq!(c[1].label, "@long_name");
}

#[test]
fn mod_items_become_entries_in_order() {
    let mut m = empty_items();
    m.scripted_effects = strings(&["eff"]);
    m.scripted_triggers = strings(&["trig"]);
    m.events = strings(&["ns.1"]);
    m.at_variables = strings(&["v"]);
    let e = m.into_completion_items();
    assert_eq!(e.len(), 4);
    assert_eq!(e[0].label, "eff");
    assert_eq!(e[0].kind, CompletionKind::Function);
    assert_eq!(e[0].insert_text.as_deref(), Some("eff = "));
    assert_eq!(e[1].detail.as_deref(), Some("scripted_trigger"));
    assert_eq!(e[2].label, "ns.1");
    assert_eq!(e[2].kind, CompletionKind::Module);
    assert_eq!(e[2].insert_text, None);
    assert_eq!(e[3].label, "@v");
    assert_eq!(e[3].detail.as_deref(), Some("@variable"));
    let s = scripted_item("x".to_string(), "scripted_modifier");
    assert_eq!(s.insert_text.as_deref(), Some("x = "));
}

#[test]
fn keys_with_one_based_lines() {
    let k = keys_in_text("a = {\n  b = {\n}\nns.2 = {\n", "/m/f.txt");
    assert_eq!(k.len(), 2);
    assert_eq!((k[0].name.as_str(), k[0].line), ("a", 1));
    assert_eq!((k[1].name.as_str(), k[1].line), ("ns.2", 4));
    assert_eq!(k[1].path, "/m/f.txt");
}

fn key(name: &str, line: u32) -> KeyLoc {
    KeyLoc { name: name.to_string(), path: "/p.txt".to_string(), line }
}

#[test]
fn single_mod_keeps_first_definition() {
    let items = single_mod_items(
        vec![key("x", 1), key("y", 2)],
        vec![key("x", 5)],
        vec![],
        vec![key("ns.1", 3), key("not_an_event", 9)],
        strings(&["v"]),
    );
    assert_eq!(items.events, strings(&["ns.1"]));
    assert_eq!(items.scripted_triggers, strings(&["x"]));
    assert_eq!(items.definitions.len(), 3);
    assert_eq!(items.definitions[0].name, "x");
    assert_eq!(items.definitions[0].detail, "scripted_effect");
    assert_eq!(items.definitions[0].line, 1);
    assert_eq!(items.definitions[2].name, "ns.1");
    assert_eq!(items.definitions[2].detail, "event");
}

#[test]
fn merge_and_scan_sort_and_dedup() {
    let mut primary = empty_items();
    primary.scripted_effects = strings(&["b", "a"]);
    primary.definitions = vec![def("a", "/mod/a.txt", 1, "scripted_effect")];
    let mut dep = empty_items();
    dep.scripted_effects = strings(&["c", "a"]);
    dep.definitions = vec![def("a", "/dep/a.txt", 7, "scripted_effect"), def("c", "/dep/c.txt", 2, "scripted_effect")];
    let mut game = empty_items();
    game.events = strings(&["z.1", "y.1", "z.1"]);
    let all = scan_mod_items(primary, vec![dep], Some(game));
    assert_eq!(all.scripted_effects, strings(&["a", "b", "c"]));
    assert_eq!(all.events, strings(&["y.1", "z.1"]));
    assert_eq!(all.definitions.len(), 2);
    assert_eq!(all.definitions[0].path, "/mod/a.txt");
    assert_eq!(all.definitions[1].name, "c");

    let mut dst = empty_items();
    dst.at_variables = strings(&["v"]);
    let mut src = empty_items();
    src.at_variables = strings(&["v", "w"]);
    merge_items(&mut dst, src);
    assert_eq!(dst.at_variables, strings(&["v", "v", "w"]));
}

#[test]
fn sort_dedup_orders_by_code_point() {
    let v = strings(&["b", "B", "a", "ab", "a", "é", "z"]);
    assert_eq!(sort_dedup(&v), strings(&["B", "a", "ab", "b", "z", "é"]));
    assert!(sort_dedup(&vec![]).is_empty());
}

#[test]
fn conf_values() {
    assert_eq!(extract_value("  mod = \"../other\" # dep", "mod").as_deref(), Some("../other"));
    assert_eq!(extract_value("workshop_id=12345", "workshop_id").as_deref(), Some("12345"));
    assert_eq!(extract_value("mod = \"\"", "mod"), None);
    assert_eq!(extract_value("modifier = x", "mod"), None);
    assert_eq!(extract_value("mod = \"", "mod").as_deref(), Some("\""));
}

#[test]
fn load_mod_blocks_name_dependencies() {
    let conf = "# deps\nload_mod = {\n  mod = \"/abs/dep\"\n  workshop_id = 1\n}\nload_mod = {\n  workshop_id = 42\n}\nload_mod = { mod = \"inline\" }\nother = {\n  mod = \"x\"\n}\n";
    let refs = load_mod_refs(conf);
    assert_eq!(refs.len(), 3);
    match &refs[0] {
        LoadModRef::Path(p) => assert_eq!(p, "/abs/dep"),
        LoadModRef::Workshop(_) => panic!("expected a path"),
    }
    match &refs[1] {
        LoadModRef::Workshop(w) => assert_eq!(w, "42"),
        LoadModRef::Path(_) => panic!("expected a workshop id"),
    }
    match &refs[2] {
        LoadModRef::Path(p) => assert_eq!(p, "inline"),
        LoadModRef::Workshop(_) => panic!("expected a path"),
    }
}

#[test]
fn load_mod_values_are_read_whatever_the_layout() {
    let conf = "load_mod = { workshop_id = 7 mod = dep }\nload_mod = {\n  workshop_id=\"9\" }\nload_mod = { modx = a\n  remod = b }\nload_mod = {\n  mod = \"c d\" # note\n}\n";
    let refs = load_mod_refs(conf);
    assert_eq!(refs.len(), 3);
    match &refs[0] {
        LoadModRef::Path(p) => assert_eq!(p, "dep"),
        LoadModRef::Workshop(_) => panic!("expected a path"),
    }
    match &refs[1] {
        LoadModRef::Workshop(w) => assert_eq!(w, "9"),
        LoadModRef::Path(_) => panic!("expected a workshop id"),
    }
    match &refs[2] {
        LoadModRef::Path(p) => assert_eq!(p, "c d"),
        LoadModRef::Workshop(_) => panic!("expected a path"),
    }
}

#[test]
fn value_and_block_completions() {
    let c = choice_completions(&strings(&["oligarchy"]));
    assert_eq!(c[0].label, "oligarchy");
    assert_eq!(c[0].kind, CompletionKind::EnumMember);
    assert_eq!(c[0].insert_text.as_deref(), Some("oligarchy"));
    let fields = vec![SchemaField { name: "scope".to_string(), type_hint: "country".to_string(), required: true }];
    assert!(is_iterator_schema(&fields));
    let f = field_completions(&fields);
    assert_eq!(f[0].kind, CompletionKind::Field);
    assert_eq!(f[0].label_detail.as_deref(), Some(" country"));
    let entries = vec![LspEntry { name: "add_modifier".to_string(), kind: EntryKind::Effect }];
    let s = lsp_entries_to_completions(&entries, "every_state");
    assert_eq!(s[0].detail.as_deref(), Some("effect (scope: every_state)"));
    assert_eq!(s[0].kind, CompletionKind::Function);
}

#[test]
fn item_subdir_is_the_last_path_component() {
    assert_eq!(item_subdir("common/buildings/"), "buildings");
    assert_eq!(item_subdir("common/buildings//"), "buildings");
    assert_eq!(item_subdir("events"), "events");
    assert_eq!(item_subdir("/"), "");
    assert_eq!(item_subdir(""), "");
}

#[test]
fn item_values_are_the_items_of_the_folder() {
    let items = vec![
        ("building_farm".to_string(), "buildings".to_string()),
        ("law_serfdom".to_string(), "laws".to_string()),
        ("building_mine".to_string(), "buildings".to_string()),
    ];
    let out = item_value_completions("buildings", &items);
    assert_eq!(out.len(), 2);
    assert_eq!(out[0].label, "building_farm");
    assert_eq!(out[1].label, "building_mine");
    assert_eq!(out[0].kind, CompletionKind::EnumMember);
    assert_eq!(out[0].detail.as_deref(), Some("buildings"));
    assert_eq!(out[0].insert_text.as_deref(), Some("building_farm"));
    assert_eq!(out[0].label_detail.as_deref(), Some(" buildings"));
    assert!(out[0].plain_text);
    assert!(item_value_completions("decrees", &items).is_empty());
}
