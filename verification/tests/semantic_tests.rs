use pdxscript_lsp::semantic::{
    build_semantic_tokens, SemanticToken, COMMENT, DEFINITION, ENUM_MEMBER, FUNCTION, KEYWORD, NAMESPACE, NUMBER,
    STRING, VARIABLE,
};

fn tok(dl: u32, ds: u32, len: u32, ty: u32, m: u32) -> SemanticToken {
    SemanticToken { delta_line: dl, delta_start: ds, length: len, token_type: ty, token_modifiers_bitset: m }
}

fn names(v: &[&str]) -> Vec<String> {
    v.iter().map(|s| s.to_string()).collect()
}

#[test]
fn comments_keywords_numbers_and_functions() {
    let text = "  # note\nmy_eff = {\n  limit = { has_x = yes }\n  x = -1.5\n}\n";
    let toks = build_semantic_tokens(text, &names(&["has_x"]), &names(&["my_eff"]));
    assert_eq!(
        toks,
        vec![
            tok(0, 2, 6, COMMENT, 0),
            tok(1, 0, 6, FUNCTION, DEFINITION),
            tok(1, 2, 5, KEYWORD, 0),
            tok(0, 10, 5, FUNCTION, 0),
            tok(0, 8, 3, KEYWORD, 0),
            tok(1, 6, 4, NUMBER, 0),
        ]
    );
}

#[test]
fn prefix_value_pairs_variables_and_strings() {
    let text = "a = scope:target\nb = @var # c\nt = \"ab\"\n";
    let toks = build_semantic_tokens(text, &[], &[]);
    assert_eq!(
        toks,
        vec![
            tok(0, 4, 5, NAMESPACE, 0),
            tok(0, 6, 6, ENUM_MEMBER, 0),
            tok(1, 4, 4, VARIABLE, 0),
            tok(1, 4, 4, STRING, 0),
        ]
    );
}

#[test]
fn string_token_spans_its_quotes() {
    let text = "x\"ab\"cd e\n";
    let toks = build_semantic_tokens(text, &[], &[]);
    assert_eq!(toks, vec![tok(0, 1, 4, STRING, 0)]);
    assert_eq!(build_semantic_tokens("\"xy\"", &[], &[]), vec![tok(0, 0, 4, STRING, 0)]);
    let wide = build_semantic_tokens("t = \"é\" # c", &[], &[]);
    assert_eq!(wide, vec![tok(0, 4, 4, STRING, 0)]);
    let unclosed = build_semantic_tokens("\"abc\n", &[], &[]);
    assert_eq!(unclosed, vec![tok(0, 0, 4, STRING, 0)]);
}

#[test]
fn definition_marker_only_at_line_start() {
    let text = "foo = bar\n  bar = foo\n";
    let toks = build_semantic_tokens(text, &[], &names(&["foo", "bar"]));
    assert_eq!(
        toks,
        vec![tok(0, 0, 3, FUNCTION, DEFINITION), tok(0, 6, 3, FUNCTION, 0), tok(1, 2, 3, FUNCTION, DEFINITION), tok(0, 6, 3, FUNCTION, 0)]
    );
    assert!(build_semantic_tokens("", &[], &[]).is_empty());
}

#[test]
fn deltas_decode_to_absolute_positions() {
    let text = "a = { b = yes }\n\n  @v = 1\nc = x:y \"s\"\n";
    let toks = build_semantic_tokens(text, &names(&["b"]), &[]);
    let mut line = 0u32;
    let mut start = 0u32;
    let mut absolute = Vec::new();
    for t in &toks {
        if t.delta_line == 0 {
            start += t.delta_start;
        } else {
            line += t.delta_line;
            start = t.delta_start;
        }
        absolute.push((line, start));
    }
    assert_eq!(absolute, vec![(0, 6), (0, 10), (2, 2), (2, 7), (3, 4), (3, 6), (3, 8)]);
}
