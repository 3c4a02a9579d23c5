use pdxscript_lsp::format::{format_document, format_lines};

fn fmt(s: &str) -> String {
    format_lines(&s.lines().collect::<Vec<_>>()).join("\n")
}

#[test]
fn indents_nested_blocks() {
    let input = "foo = {\nbar = yes\n}";
    let out = fmt(input);
    assert_eq!(out, "foo = {\n  bar = yes\n}");
}

#[test]
fn already_formatted_unchanged() {
    let input = "foo = {\n  bar = yes\n}";
    assert_eq!(fmt(input), input);
}

#[test]
fn closing_brace_dedents() {
    let input = "a = {\n  b = {\n  c = yes\n  }\n}";
    let out = fmt(input);
    assert_eq!(out, "a = {\n  b = {\n    c = yes\n  }\n}");
}

#[test]
fn empty_lines_preserved() {
    let input = "a = {\n\nb = yes\n}";
    let out = fmt(input);
    assert_eq!(out, "a = {\n\n  b = yes\n}");
}

#[test]
fn comments_indented() {
    let input = "a = {\n# comment\nb = yes\n}";
    let out = fmt(input);
    assert_eq!(out, "a = {\n  # comment\n  b = yes\n}");
}

#[test]
fn no_change_returns_none() {
    let text = "a = {\n  b = yes\n}\n";
    assert!(format_document(text).is_none());
}

#[test]
fn trailing_newline_preserved() {
    let text = "a={\nb=yes\n}\n";
    let edits = format_document(text).expect("should produce edits");
    assert!(edits[0].new_text.ends_with('\n'));
}

#[test]
fn inline_brace_pair_no_extra_indent() {
    // `trigger = { always = yes }` stays flat.
    let input = "t = { always = yes }";
    assert_eq!(fmt(input), "t = { always = yes }");
}

#[test]
fn braces_in_strings_and_comments_do_not_count() {
    let input = "a = \"{\"\nb = yes # {\nc = yes";
    assert_eq!(fmt(input), input);
}

#[test]
fn depth_never_negative() {
    let input = "}\n}\nx = yes";
    assert_eq!(fmt(input), "}\n}\nx = yes");
}

#[test]
fn whole_document_edit_range() {
    let text = "a = {\nb = yes\n}";
    let edits = format_document(text).expect("edits");
    assert_eq!(edits.len(), 1);
    assert_eq!(edits[0].range.start.line, 0);
    assert_eq!(edits[0].range.end.line, 2);
    assert_eq!(edits[0].range.end.character, 1);
    assert_eq!(edits[0].new_text, "a = {\n  b = yes\n}");
}

#[test]
fn whole_document_range_takes_the_final_newline() {
    let text = "a = {\nb = yes\n}\n";
    let edits = format_document(text).expect("edits");
    assert_eq!(edits[0].new_text, "a = {\n  b = yes\n}\n");
    assert_eq!((edits[0].range.start.line, edits[0].range.start.character), (0, 0));
    assert_eq!((edits[0].range.end.line, edits[0].range.end.character), (3, 0));
}

#[test]
fn whole_document_range_counts_bytes() {
    let text = "x = {\n\u{e9}t\u{e9}";
    let edits = format_document(text).expect("edits");
    assert_eq!(edits[0].range.end.character, 5);
}

#[test]
fn formatting_twice_changes_nothing_more() {
    let inputs = [
        "a={\nb=yes\n  c = {\n d = no }\n}\n",
        "x = {\n\t# note {\n  \"{\" = y\n}",
        "a\n   ",
        "}\n}\nfoo = {\nbar = { baz }\n",
    ];
    for text in inputs {
        let once = match format_document(text) {
            Some(edits) => edits[0].new_text.clone(),
            None => text.to_owned(),
        };
        assert!(format_document(&once).is_none(), "reformatting changed {once:?}");
        let lines_once = format_lines(&text.lines().collect::<Vec<_>>());
        let refs: Vec<&str> = lines_once.iter().map(String::as_str).collect();
        assert_eq!(format_lines(&refs), lines_once);
    }
}

#[test]
fn trailing_blank_line_is_dropped_once() {
    let edits = format_document("a\n ").expect("the blank line loses its space");
    assert_eq!(edits[0].new_text, "a\n");
    assert!(format_document("a\n").is_none());
}

#[test]
fn formatted_text_is_accepted_again_and_kept() {
    for text in ["a = {\nb = {\nc = yes\n}\n}\n", "  x = 1", "}\n{ {\n"] {
        if let Some(edits) = format_document(text) {
            let once = edits[0].new_text.clone();
            assert_eq!(
                once.chars().filter(|c| *c == '{' || *c == '}').count(),
                text.chars().filter(|c| *c == '{' || *c == '}').count()
            );
            assert!(format_document(&once).is_none(), "{once:?}");
        }
    }
}
