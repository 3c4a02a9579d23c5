use pdxscript_lsp::inline::{document_links, extract_inline_values, find_color_prefix_positions, link_candidates};
use pdxscript_lsp::model::{Position, Range};

fn range(sl: u32, sc: u32, el: u32, ec: u32) -> Range {
    Range { start: Position { line: sl, character: sc }, end: Position { line: el, character: ec } }
}

#[test]
fn inline_values_at_uses() {
    let text = "@size = 10 # big\n@size = 12\nw = @size\nh = @other\n@size_b = 3\n";
    let v = extract_inline_values(text, &range(0, 0, 10, 0));
    assert_eq!(v.len(), 1);
    assert_eq!(v[0].range, range(2, 4, 2, 9));
    assert_eq!(v[0].text, "@size = 12");
    let none = extract_inline_values(text, &range(3, 0, 4, 0));
    assert!(none.is_empty());
}

#[test]
fn inline_value_shown_on_a_longer_definition_line() {
    let text = "@a = 1\n@ab = @a\n";
    let v = extract_inline_values(text, &range(0, 0, 5, 0));
    assert_eq!(v.len(), 1);
    assert_eq!(v[0].range, range(1, 6, 1, 8));
    assert_eq!(v[0].text, "@a = 1");
    let w = extract_inline_values("@x = 5\n@xy = @x", &range(0, 0, 1, 0));
    assert_eq!(w.len(), 1);
    assert_eq!(w[0].range, range(1, 6, 1, 8));
    assert_eq!(w[0].text, "@x = 5");
}

#[test]
fn color_prefix_offsets() {
    assert_eq!(find_color_prefix_positions("color = rgb { 1 2 3 }"), vec![(13, false)]);
    assert_eq!(find_color_prefix_positions("hsv{0.1 0.2 0.3} rgb  {"), vec![(23, false), (4, true)]);
    assert!(find_color_prefix_positions("rgb = 3").is_empty());
    assert_eq!(find_color_prefix_positions("color = { 255 0 0 }"), vec![(9, false)]);
    assert_eq!(find_color_prefix_positions("color1={ 1 2 3 }"), vec![(8, false)]);
    assert_eq!(find_color_prefix_positions("color = rgb { 1 2 3 } color = hsv"), vec![(13, false)]);
}

#[test]
fn links_in_lines() {
    let text = "# see https://example.com/a) and http://x.org\nurl = \"https://y.net/p q\"\n";
    let c = link_candidates(text);
    // An `http://` later on the line is found before an earlier `https://`,
    // and the scan resumes after it.
    assert_eq!(c.len(), 2);
    assert_eq!(c[0].1, "http://x.org");
    assert_eq!(c[0].0, range(0, 33, 0, 45));
    assert_eq!(c[1].1, "https://y.net/p");
    let links = document_links(text);
    assert_eq!(links.len(), 2);
    assert_eq!(links[0].target, "http://x.org/");
    assert_eq!(links[1].range, range(1, 7, 1, 22));
    assert!(document_links("see http://[bad
").is_empty());
}
