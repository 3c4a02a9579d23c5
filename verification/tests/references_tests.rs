use pdxscript_lsp::model::{Location, Position, Range, TextEdit};
use pdxscript_lsp::references::{collect_occurrences, rename_edit, scan_gets_stuck, WorkspaceEdit};

fn fake_uri() -> String {
    "file:///tmp/test.txt".to_string()
}

fn occurrences(name: &str, text: &str) -> Vec<Location> {
    let uri = fake_uri();
    let mut out = Vec::new();
    collect_occurrences(name, text, &uri, &mut out);
    out
}

fn edits_for<'a>(edit: &'a WorkspaceEdit, uri: &str) -> &'a Vec<TextEdit> {
    &edit.changes.iter().find(|f| f.uri == uri).unwrap().edits
}

fn loc(uri: &str, sc: u32, ec: u32) -> Location {
    Location {
        uri: uri.to_string(),
        range: Range {
            start: Position { line: 0, character: sc },
            end: Position { line: 0, character: ec },
        },
    }
}

#[test]
fn finds_simple_occurrence() {
    let locs = occurrences("my_effect", "my_effect = yes\n");
    assert_eq!(locs.len(), 1);
    assert_eq!(locs[0].range.start.character, 0);
}

#[test]
fn finds_multiple_occurrences_same_line() {
    let locs = occurrences("foo", "foo = foo\n");
    assert_eq!(locs.len(), 2);
}

#[test]
fn skips_comment_text() {
    let locs = occurrences("foo", "bar = yes # foo here\n");
    assert_eq!(locs.len(), 0, "should not find foo in a comment");
}

#[test]
fn does_not_match_substring() {
    let locs = occurrences("foo", "foobar = yes\nmyfoo = yes\n");
    assert_eq!(locs.len(), 0);
}

#[test]
fn matches_whole_word_boundary() {
    let locs = occurrences("foo", "a = foo\n");
    assert_eq!(locs.len(), 1);
    assert_eq!(locs[0].range.start.character, 4);
}

#[test]
fn rename_edit_produces_text_edits() {
    let uri = fake_uri();
    let l = loc(&uri, 0, 9);
    let edit = rename_edit(&[l], "new_name");
    let edits = edits_for(&edit, &uri);
    assert_eq!(edits.len(), 1);
    assert_eq!(edits[0].new_text, "new_name");
}

#[test]
fn rename_edit_groups_by_file() {
    let uri1 = "file:///tmp/a.txt";
    let uri2 = "file:///tmp/b.txt";
    let edit = rename_edit(&[loc(uri1, 0, 3), loc(uri2, 0, 3), loc(uri1, 0, 3)], "x");
    assert_eq!(edits_for(&edit, uri1).len(), 2);
    assert_eq!(edits_for(&edit, uri2).len(), 1);
}

#[test]
fn occurrence_ranges_use_lines_and_byte_columns() {
    // Line 1 holds a two-byte character before the name.
    let locs = occurrences("foo", "x = 1\né = foo # foo\nfoo.bar = foo\n");
    assert_eq!(locs.len(), 2);
    assert_eq!(locs[0].range.start, Position { line: 1, character: 5 });
    assert_eq!(locs[0].range.end, Position { line: 1, character: 8 });
    assert_eq!(locs[1].range.start, Position { line: 2, character: 10 });
    assert_eq!(locs[0].uri, fake_uri());
}

#[test]
fn occurrences_are_appended() {
    let mut out = vec![loc("file:///other.txt", 1, 2)];
    collect_occurrences("a", "a a\r\na", "file:///f.txt", &mut out);
    assert_eq!(out.len(), 4);
    assert_eq!(out[0].uri, "file:///other.txt");
    assert_eq!(out[2].range.start.character, 2);
    assert_eq!(out[3].range.start.line, 1);
}

#[test]
fn rename_groups_in_first_appearance_order() {
    let edit = rename_edit(&[loc("b", 0, 1), loc("a", 4, 5), loc("b", 7, 8)], "z");
    assert_eq!(edit.changes.len(), 2);
    assert_eq!(edit.changes[0].uri, "b");
    assert_eq!(edit.changes[1].uri, "a");
    assert_eq!(edit.changes[0].edits[1].range.start.character, 7);
    assert!(rename_edit(&[], "z").changes.is_empty());
}

#[test]
fn scan_gets_stuck_on_empty_or_wide_leading_names() {
    assert!(scan_gets_stuck("", "a = b\n"));
    assert!(!scan_gets_stuck("", ""));
    assert!(scan_gets_stuck("éffect", "x = éffect\n"));
    assert!(!scan_gets_stuck("éffect", "x = effect # éffect\n"));
    assert!(!scan_gets_stuck("effect", "x = effect\n"));
}

#[test]
fn every_reference_gets_an_edit_in_its_file() {
    let refs = vec![loc("file:///a.txt", 0, 3), loc("file:///b.txt", 4, 7), loc("file:///a.txt", 9, 12)];
    let edit = rename_edit(&refs, "renamed");
    assert_eq!(edit.changes.len(), 2);
    assert_eq!(edit.changes[0].uri, "file:///a.txt");
    assert_eq!(edit.changes[1].uri, "file:///b.txt");
    let a = edits_for(&edit, "file:///a.txt");
    assert_eq!(a.len(), 2);
    assert_eq!(a[0].range, refs[0].range);
    assert_eq!(a[1].range, refs[2].range);
    assert!(a.iter().all(|e| e.new_text == "renamed"));
    assert_eq!(edits_for(&edit, "file:///b.txt")[0].range, refs[1].range);
}
