use pdxscript_lsp::completions::LspEntry;
use pdxscript_lsp::hover::{field_hover, hover_builtin, hover_scripted, hover_variable};
use pdxscript_lsp::model::{EntryKind, SchemaField};

#[test]
fn scripted_hover_shows_definition_until_block_closes() {
    let text = "x = 1\nmy_effect = {\n  a = { b = 1 }\n}\nafter = yes\n";
    let h = hover_scripted("my_effect", "scripted_effect", text, 1);
    assert_eq!(
        h,
        "**my_effect** — scripted_effect\n\n```pdxscript\nmy_effect = {\n  a = { b = 1 }\n}\n```\n\n[Wiki: scripted_effect](https://vic3.paradoxwikis.com/Effect)"
    );
}

#[test]
fn scripted_hover_stops_after_twenty_lines_or_at_end() {
    let mut text = String::from("big = {\n");
    for i in 0..30 {
        text.push_str(&format!("  line{i} = yes\n"));
    }
    let h = hover_scripted("big", "event", &text, 0);
    assert!(h.contains("line18 = yes"));
    assert!(!h.contains("line19 = yes"));
    assert!(h.ends_with("[Wiki: event](https://vic3.paradoxwikis.com/Event_modding)"));
    let past = hover_scripted("x", "other", "a = b\n", 5);
    assert_eq!(past, "**x** — other\n\n```pdxscript\n\n```\n\n[Wiki: other](https://vic3.paradoxwikis.com/Modding)");
    let one = hover_scripted("y", "event", "y = yes\nz = 1\n", 0);
    assert!(one.contains("```pdxscript\ny = yes\n```"));
}

#[test]
fn builtin_hover_by_kind() {
    let entries = vec![
        LspEntry { name: "owner".to_string(), kind: EntryKind::Trigger },
        LspEntry { name: "state".to_string(), kind: EntryKind::Iterator },
        LspEntry { name: "owner".to_string(), kind: EntryKind::Effect },
    ];
    assert_eq!(
        hover_builtin("owner", &entries).unwrap(),
        "**owner** — engine effect\n\n[Wiki: Effects](https://vic3.paradoxwikis.com/Effect)"
    );
    let it = hover_builtin("state", &entries).unwrap();
    assert!(it.contains("Expands to: `every_state`, `any_state`, `random_state`, `ordered_state`"));
    assert!(it.ends_with("[Wiki: Scopes](https://vic3.paradoxwikis.com/Scope)"));
    assert!(hover_builtin("nothing", &entries).is_none());
}

#[test]
fn variable_hover_finds_definition_line() {
    let text = "a = 1\n  @width = 40 # px\n@widths = 2\n";
    assert_eq!(
        hover_variable("@width", text).unwrap(),
        "**@width** — variable\n\n`@width = 40 # px`\n\n[Wiki: Variables](https://vic3.paradoxwikis.com/Variable)"
    );
    assert_eq!(hover_variable("@@widths", text).unwrap().lines().nth(2), Some("`@widths = 2`"));
    assert!(hover_variable("@missing", text).is_none());
    assert!(hover_variable("@w", "@w\n").is_some());
}

#[test]
fn field_hover_of_block_fields() {
    let fields = vec![SchemaField { name: "target".to_string(), type_hint: "country".to_string(), required: false }];
    assert_eq!(
        field_hover("target", "change_relations", &fields).unwrap(),
        "**target** — `country` (optional)\n\nField of `change_relations`"
    );
    assert!(field_hover("other", "change_relations", &fields).is_none());
}
