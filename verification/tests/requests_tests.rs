use pdxscript_lsp::model::{Definition, Diagnostic, DiagnosticSeverity, Location, Position, Range};
use pdxscript_lsp::requests::{
    completion_source, diagnostic_hover, hover_of_diagnostic, hover_source, CompletionSource, HoverSource,
};

fn pos(line: u32, character: u32) -> Position {
    Position { line, character }
}

fn range(sl: u32, sc: u32, el: u32, ec: u32) -> Range {
    Range { start: pos(sl, sc), end: pos(el, ec) }
}

fn diag(r: Range, code: Option<&str>, message: &str, data: Option<&str>) -> Diagnostic {
    Diagnostic {
        range: r,
        severity: Some(DiagnosticSeverity::Warning),
        code: code.map(str::to_string),
        source: None,
        message: message.to_string(),
        data: data.map(str::to_string),
        related: vec![],
    }
}

#[test]
fn completion_sources_in_order() {
    let lines = vec!["has_law = law_", "my_block = {", "  x", "}"];
    match completion_source(Some("$"), &lines, pos(0, 14)) {
        CompletionSource::Nothing => {},
        other => panic!("unexpected {other:?}"),
    }
    match completion_source(Some("."), &lines, pos(2, 3)) {
        CompletionSource::Nothing => {},
        other => panic!("unexpected {other:?}"),
    }
    match completion_source(None, &lines, pos(0, 14)) {
        CompletionSource::Value(k) => assert_eq!(k, "has_law"),
        other => panic!("unexpected {other:?}"),
    }
    match completion_source(Some("="), &lines, pos(2, 3)) {
        CompletionSource::Block(b) => assert_eq!(b, "my_block"),
        other => panic!("unexpected {other:?}"),
    }
    match completion_source(None, &lines, pos(3, 1)) {
        CompletionSource::General => {},
        other => panic!("unexpected {other:?}"),
    }
    match completion_source(None, &lines, pos(9, 0)) {
        CompletionSource::General => {},
        other => panic!("unexpected {other:?}"),
    }
}

#[test]
fn hover_sources_in_order() {
    let diags = vec![
        diag(range(1, 0, 1, 4), None, "no code", None),
        diag(range(1, 2, 1, 8), Some("missing-item"), "m", None),
    ];
    let defs = vec![Definition {
        name: "my_effect".to_string(),
        location: Location { uri: "file:///e.txt".to_string(), range: range(0, 0, 0, 0) },
        detail: "scripted_effect".to_string(),
    }];
    assert_eq!(hover_source("@v", &diags, 1, 3, &defs), HoverSource::Variable);
    assert_eq!(hover_source("my_effect", &diags, 1, 3, &defs), HoverSource::Diagnostic(1));
    assert_eq!(hover_source("my_effect", &diags, 1, 9, &defs), HoverSource::Scripted(0));
    assert_eq!(hover_source("other", &diags, 2, 0, &defs), HoverSource::Other);
}

#[test]
fn diagnostic_hover_text() {
    let h = diagnostic_hover("missing-item", "error", "strong", Some("https://w/x"));
    assert_eq!(
        h,
        "**missing-item** — error (strong confidence)\n\nbugs likely to affect gameplay\n\nvery likely a real problem\n\n[Wiki](https://w/x)"
    );
    let plain = diagnostic_hover("k", "tips", "weak", None);
    assert_eq!(
        plain,
        "**k** — tips (weak confidence)\n\nthings that aren't wrong but could be improved\n\nlikely a false positive"
    );
}

#[test]
fn published_diagnostic_hover() {
    let d = diag(range(0, 0, 0, 1), Some("key"), "bad thing\nhttps://wiki/page \nmore", None);
    let h = hover_of_diagnostic(&d);
    assert!(h.starts_with("**key** — warning (reasonable confidence)\n\n"), "{h}");
    assert!(h.ends_with("\n\n[Wiki](https://wiki/page)"), "{h}");
    let d2 = diag(range(0, 0, 0, 1), None, "x", Some("weak"));
    let h2 = hover_of_diagnostic(&d2);
    assert!(h2.starts_with("**** — warning (weak confidence)"), "{h2}");
    assert!(h2.ends_with("likely a false positive"), "{h2}");
}
