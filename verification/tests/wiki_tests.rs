use pdxscript_lsp::model::EntryKind;
use pdxscript_lsp::wiki::{
    builtin_wiki_url, confidence_doc, fallback_wiki_url, modding_index_url, path_wiki_url,
    scripted_wiki_url, severity_doc, variables_url, wiki_base,
};

#[test]
fn fallback_scopes_key() {
    let url = fallback_wiki_url("scopes").expect("scopes should have a url");
    assert!(url.contains("paradoxwikis.com"));
    assert!(url.to_lowercase().contains("scope"));
}

#[test]
fn fallback_variables_key() {
    let url = fallback_wiki_url("variables").expect("variables should have a url");
    assert!(url.to_lowercase().contains("variable"));
}

#[test]
fn fallback_localization_is_none() {
    assert!(fallback_wiki_url("missing-localization").is_none());
}

#[test]
fn fallback_unknown_returns_modding_index() {
    let url = fallback_wiki_url("some-unknown-key").expect("should fall back to modding index");
    assert!(url.contains("paradoxwikis.com"));
}

#[test]
fn path_scripted_effects_recognized() {
    let url = path_wiki_url("mods/mymod/common/scripted_effects/my_effects.txt");
    assert!(url.is_some());
    let u = url.unwrap();
    assert!(u.contains("paradoxwikis.com"));
}

#[test]
fn path_events_recognized() {
    let url = path_wiki_url("mods/mymod/events/my_events.txt");
    assert!(url.is_some());
    let u = url.unwrap();
    assert!(u.to_lowercase().contains("event"));
}

#[test]
fn path_unrecognized_returns_none() {
    let url = path_wiki_url("/some/totally/random/path/file.txt");
    // It should not panic.
    let _ = url;
}

#[test]
fn severity_doc_known_levels() {
    assert!(!severity_doc("error").is_empty());
    assert!(!severity_doc("warning").is_empty());
    assert!(!severity_doc("fatal").is_empty());
}

#[test]
fn confidence_doc_known_levels() {
    assert!(!confidence_doc("weak").is_empty());
    assert!(!confidence_doc("strong").is_empty());
}

#[test]
fn exact_urls() {
    assert_eq!(wiki_base(), "https://vic3.paradoxwikis.com");
    assert_eq!(variables_url(), "https://vic3.paradoxwikis.com/Variable");
    assert_eq!(modding_index_url(), "https://vic3.paradoxwikis.com/Modding");
    assert_eq!(scripted_wiki_url("scripted_modifier"), "https://vic3.paradoxwikis.com/Modifier_modding");
    assert_eq!(scripted_wiki_url("whatever"), "https://vic3.paradoxwikis.com/Modding");
    assert_eq!(builtin_wiki_url(&EntryKind::Iterator), "https://vic3.paradoxwikis.com/Scope");
    assert_eq!(fallback_wiki_url("unknown-item"), None);
    assert_eq!(fallback_wiki_url("unknown-modifier"), Some("https://vic3.paradoxwikis.com/Modifier_modding"));
}

#[test]
fn path_rules_in_order() {
    assert_eq!(path_wiki_url("mod/common/laws/x.txt"), Some("https://vic3.paradoxwikis.com/Law_modding"));
    assert_eq!(path_wiki_url("mod/common/history/x.txt"), Some("https://vic3.paradoxwikis.com/History_modding"));
    assert_eq!(path_wiki_url("mod/events"), Some("https://vic3.paradoxwikis.com/Event_modding"));
    assert_eq!(path_wiki_url("/some/totally/random/path/file.txt"), None);
    // Scripted effects win over the events directory.
    assert_eq!(path_wiki_url("mod/events/scripted_effects.txt"), Some("https://vic3.paradoxwikis.com/Effect"));
}

#[test]
fn docs_exact() {
    assert_eq!(severity_doc("fatal"), "can cause crashes");
    assert_eq!(severity_doc("nope"), "unknown severity");
    assert_eq!(confidence_doc("reasonable"), "probably a real problem");
    assert_eq!(confidence_doc(""), "unknown confidence");
}

#[test]
fn scripted_pages_match_their_directories() {
    for (detail, dir) in [
        ("scripted_effect", "common/scripted_effects/"),
        ("scripted_trigger", "common/scripted_triggers/"),
        ("scripted_modifier", "common/scripted_modifiers/"),
        ("event", "mod/events/"),
    ] {
        assert_eq!(path_wiki_url(dir), Some(scripted_wiki_url(detail)));
    }
    assert_eq!(scripted_wiki_url("block"), modding_index_url());
}
