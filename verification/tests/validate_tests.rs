use pdxscript_lsp::model::{Diagnostic, DiagnosticSeverity, Position, Range};
use pdxscript_lsp::validate::{
    diagnostics_from_reports, diagnostics_with_uris, hints_with_uris, loc_to_range, message_of, range_fits_check, report_diagnostic,
    report_fits_check, scope_hint, scope_hints, severity_to_lsp,
    tiger_diagnostics, Confidence, Pointer, Report, ScopeAnnotation, Severity,
};

fn range(sl: u32, sc: u32, el: u32, ec: u32) -> Range {
    Range { start: Position { line: sl, character: sc }, end: Position { line: el, character: ec } }
}

fn pointer(path: &str, line: u32, column: u32, length: usize, msg: Option<&str>) -> Pointer {
    Pointer { path: path.to_string(), line, column, length, msg: msg.map(|m| m.to_string()) }
}

fn report(key: &str, confidence: Confidence, wiki: Option<&str>, pointers: Vec<Pointer>) -> Report {
    Report {
        key: key.to_string(),
        msg: "something is off".to_string(),
        info: Some("more detail".to_string()),
        wiki: wiki.map(|w| w.to_string()),
        confidence,
        severity: Severity::Warning,
        pointers,
    }
}

#[test]
fn ranges_from_one_based_places() {
    assert_eq!(loc_to_range(3, 5, 4), range(2, 4, 2, 8));
    assert_eq!(loc_to_range(0, 9, 4), range(0, 0, 0, 4));
    assert_eq!(loc_to_range(1, 0, 0), range(0, 0, 0, 1));
    assert_eq!(loc_to_range(2, 1, usize::MAX), range(1, 0, 1, 1));
}

#[test]
fn severities_map_to_diagnostic_levels() {
    assert_eq!(severity_to_lsp(Severity::Fatal), DiagnosticSeverity::Error);
    assert_eq!(severity_to_lsp(Severity::Error), DiagnosticSeverity::Error);
    assert_eq!(severity_to_lsp(Severity::Warning), DiagnosticSeverity::Warning);
    assert_eq!(severity_to_lsp(Severity::Untidy), DiagnosticSeverity::Information);
    assert_eq!(severity_to_lsp(Severity::Tips), DiagnosticSeverity::Hint);
}

#[test]
fn messages_carry_key_confidence_and_links() {
    let weak = report("scopes", Confidence::Weak, None, vec![]);
    assert_eq!(
        message_of(&weak),
        "[weak] [scopes] something is off\n(low confidence — likely a false positive)\nmore detail\nhttps://vic3.paradoxwikis.com/Scope"
    );
    let strong = report("missing-item", Confidence::Strong, Some("https://wiki/x"), vec![]);
    assert_eq!(message_of(&strong), "[missing-item] something is off\nmore detail\nhttps://wiki/x");
    let plain = report("missing-localization", Confidence::Reasonable, None, vec![]);
    assert_eq!(message_of(&plain), "[missing-localization] something is off\nmore detail");
}

#[test]
fn report_diagnostic_with_related_places() {
    let r = report(
        "dup",
        Confidence::Reasonable,
        None,
        vec![pointer("/m/a.txt", 4, 2, 3, None), pointer("/m/b.txt", 1, 1, 5, Some("first here")), pointer("/m/c.txt", 2, 1, 1, None)],
    );
    let d = report_diagnostic(&r, &[Some("file:///m/b.txt".to_string()), None]);
    assert_eq!(d.range, range(3, 1, 3, 4));
    assert_eq!(d.severity, Some(DiagnosticSeverity::Warning));
    assert_eq!(d.code.as_deref(), Some("dup"));
    assert_eq!(d.source.as_deref(), Some("pdxscript-lsp"));
    assert_eq!(d.data.as_deref(), Some("reasonable"));
    assert_eq!(d.related.len(), 1);
    assert_eq!(d.related[0].uri, "file:///m/b.txt");
    assert_eq!(d.related[0].range, range(0, 0, 0, 5));
    assert_eq!(d.related[0].message, "first here");
    let d2 = report_diagnostic(&r, &[None, Some("file:///m/c.txt".to_string())]);
    assert_eq!(d2.related[0].message, "related");
}

#[test]
fn reports_without_pointers_are_dropped() {
    let reports = vec![
        report("a", Confidence::Strong, None, vec![]),
        report("b", Confidence::Strong, None, vec![pointer("/abs/b.txt", 1, 1, 1, None)]),
    ];
    let out = diagnostics_from_reports(&reports);
    assert_eq!(out.len(), 1);
    assert_eq!(out[0].1.code.as_deref(), Some("b"));
    assert!(out[0].0.starts_with("file://"));
    assert!(out[0].0.ends_with("/abs/b.txt"));
}

#[test]
fn scope_annotations_become_hints() {
    let h = scope_hint(&ScopeAnnotation { path: "/a.txt".to_string(), line: 7, scope: "country".to_string() }).unwrap();
    assert_eq!(h.position, Position { line: 6, character: 0 });
    assert_eq!(h.label, "⟨country⟩");
    assert!(scope_hint(&ScopeAnnotation { path: "/a.txt".to_string(), line: 0, scope: "x".to_string() }).is_none());
}

#[test]
fn demorgan_hints_are_replaced_not_kept() {
    let mk = |code: Option<&str>| Diagnostic {
        range: range(0, 0, 0, 1),
        severity: None,
        code: code.map(|c| c.to_string()),
        source: None,
        message: String::new(),
        data: None,
        related: vec![],
    };
    let kept = tiger_diagnostics(vec![mk(Some("de-morgan")), mk(Some("scopes")), mk(None)]);
    assert_eq!(kept.len(), 2);
    assert_eq!(kept[0].code.as_deref(), Some("scopes"));
    assert!(kept[1].code.is_none());
}

#[test]
fn range_fit_checks() {
    assert!(range_fits_check(3, 5, 4));
    assert!(range_fits_check(1, u32::MAX, 0));
    assert!(!range_fits_check(1, u32::MAX, 2));
    assert!(range_fits_check(0, u32::MAX, 2));
    let ok = report("k", Confidence::Strong, None, vec![pointer("/a.txt", 1, 1, 3, None)]);
    assert!(report_fits_check(&ok));
    let bad = report(
        "k",
        Confidence::Strong,
        None,
        vec![pointer("/a.txt", 1, 1, 3, None), pointer("/b.txt", 2, u32::MAX, 5, None)],
    );
    assert!(!report_fits_check(&bad));
}

#[test]
fn diagnostics_follow_the_uris_of_their_files() {
    let reports = vec![
        report("a-key", Confidence::Strong, None, vec![pointer("/a.txt", 2, 3, 4, None), pointer("/b.txt", 1, 1, 1, None)]),
        report("b-key", Confidence::Strong, None, vec![pointer("/c.txt", 1, 1, 1, None)]),
        report("c-key", Confidence::Strong, None, vec![]),
    ];
    let uris = vec![
        vec![Some("file:///a.txt".to_string()), None],
        vec![None],
        vec![],
    ];
    let out = diagnostics_with_uris(&reports, &uris);
    assert_eq!(out.len(), 1);
    assert_eq!(out[0].0, "file:///a.txt");
    assert_eq!(out[0].1.code.as_deref(), Some("a-key"));
    assert_eq!(out[0].1.range, range(1, 2, 1, 6));
    assert!(out[0].1.related.is_empty());
}

#[test]
fn hints_follow_the_uris_of_their_files() {
    let anns = vec![
        ScopeAnnotation { path: "/a.txt".into(), line: 3, scope: "country".into() },
        ScopeAnnotation { path: "/b.txt".into(), line: 0, scope: "state".into() },
        ScopeAnnotation { path: "/c.txt".into(), line: 5, scope: "pop".into() },
    ];
    let uris = vec![Some("file:///a.txt".to_string()), Some("file:///b.txt".to_string()), None];
    let out = hints_with_uris(&anns, &uris);
    assert_eq!(out.len(), 1);
    assert_eq!(out[0].0, "file:///a.txt");
    assert_eq!(out[0].1.position, Position { line: 2, character: 0 });
    assert_eq!(out[0].1.label, "⟨country⟩");
}

#[test]
fn relative_paths_get_no_uri() {
    let reports = vec![
        report("a", Confidence::Strong, None, vec![pointer("rel/a.txt", 1, 1, 1, None)]),
        report("b", Confidence::Strong, None, vec![pointer("", 1, 1, 1, None)]),
        report("c", Confidence::Strong, None, vec![pointer("/abs/c.txt", 2, 1, 1, None)]),
    ];
    let out = diagnostics_from_reports(&reports);
    assert_eq!(out.len(), 1);
    assert_eq!(out[0].0, "file:///abs/c.txt");
    let anns = vec![
        ScopeAnnotation { path: "x.txt".into(), line: 3, scope: "country".into() },
        ScopeAnnotation { path: "/y.txt".into(), line: 4, scope: "state".into() },
    ];
    let hints = scope_hints(&anns);
    assert_eq!(hints.len(), 1);
    assert_eq!(hints[0].0, "file:///y.txt");
    assert!(hints.iter().all(|h| h.0.starts_with("file://")));
}
