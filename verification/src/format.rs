//! Document formatting: re-indent every line by brace depth.
use vstd::prelude::*;
use crate::model::{make_range, span, Range, TextEdit};
use crate::text::{
    byte_len, byte_len_of, chars_eq, chars_of, chars_of_lines, is_whitespace, is_ws, join, lead_ws, trail_ws,
    lemma_lead_ws, lemma_trail_ws, lemma_line_end,
    join_lines, lemma_lead_ws_bound, lemma_trail_ws_bound, lemma_line_end_bound, line_end, lines_of, push_char,
    push_chars, split_lines, str_views, string_views, strip_cr, trim, trim_bounds, trim_start, views,
};

verus! {

/// Brace scan of one trimmed line:
/// `(opens, closes, leading_closes, in_string, found_non_brace, stopped_at_comment)`.
pub open spec fn scan_step(st: (int, int, int, bool, bool, bool), c: char) -> (
    int,
    int,
    int,
    bool,
    bool,
    bool,
) {
    let (o, cl, lc, ins, found, stop) = st;
    if stop {
        st
    } else if c == '"' {
        (o, cl, lc, !ins, true, false)
    } else if ins {
        st
    } else if c == '#' {
        (o, cl, lc, ins, found, true)
    } else if c == '{' {
        (o + 1, cl, lc, ins, true, false)
    } else if c == '}' {
        (o, cl + 1, if found { lc } else { lc + 1 }, ins, found, false)
    } else if !is_ws(c) {
        (o, cl, lc, ins, true, false)
    } else {
        st
    }
}

pub open spec fn brace_scan(t: Seq<char>) -> (int, int, int, bool, bool, bool)
    decreases t.len(),
{
    if t.len() == 0 {
        (0, 0, 0, false, false, false)
    } else {
        scan_step(brace_scan(t.drop_last()), t.last())
    }
}

pub open spec fn max0(x: int) -> int {
    if x < 0 {
        0
    } else {
        x
    }
}

/// `n` levels of two-space indentation.
pub open spec fn indent(n: int) -> Seq<char> {
    Seq::new((2 * n) as nat, |i: int| ' ')
}

/// Depth after a line, given the depth before it.
pub open spec fn next_depth(d: int, line: Seq<char>) -> int {
    let t = trim(line);
    if t.len() == 0 {
        d
    } else {
        max0(d + brace_scan(t).0 - brace_scan(t).1)
    }
}

/// The formatted form of a line, given the depth before it: blank lines become
/// empty, others are trimmed and indented by the depth less their leading `}`s.
pub open spec fn formatted_line(d: int, line: Seq<char>) -> Seq<char> {
    let t = trim(line);
    if t.len() == 0 {
        seq![]
    } else {
        indent(max0(d - brace_scan(t).2)) + t
    }
}

/// Brace depth after all of `ls`.
pub open spec fn depth_after(ls: Seq<Seq<char>>) -> int
    decreases ls.len(),
{
    if ls.len() == 0 {
        0
    } else {
        next_depth(depth_after(ls.drop_last()), ls.last())
    }
}

/// The formatted lines.
pub open spec fn format_spec(ls: Seq<Seq<char>>) -> Seq<Seq<char>> {
    Seq::new(ls.len(), |i: int| formatted_line(depth_after(ls.take(i)), ls[i]))
}

/// Total number of characters over all lines.
pub open spec fn total_len(ls: Seq<Seq<char>>) -> nat
    decreases ls.len(),
{
    if ls.len() == 0 {
        0
    } else {
        total_len(ls.drop_last()) + ls.last().len()
    }
}

pub proof fn lemma_brace_scan_bounds(t: Seq<char>)
    ensures
        0 <= brace_scan(t).0 <= t.len(),
        0 <= brace_scan(t).2 <= brace_scan(t).1 <= t.len(),
    decreases t.len(),
{
    if t.len() > 0 {
        lemma_brace_scan_bounds(t.drop_last());
    }
}

pub proof fn lemma_total_len_take(ls: Seq<Seq<char>>, i: int)
    requires
        0 <= i < ls.len(),
    ensures
        total_len(ls.take(i + 1)) == total_len(ls.take(i)) + ls[i].len(),
        total_len(ls.take(i + 1)) <= total_len(ls),
    decreases ls.len(),
{
    assert(ls.take(i + 1).drop_last() =~= ls.take(i));
    if i + 1 < ls.len() {
        lemma_total_len_take(ls.drop_last(), i);
        assert(ls.drop_last().take(i + 1) =~= ls.take(i + 1));
    } else {
        assert(ls.take(i + 1) =~= ls);
    }
}

pub proof fn lemma_total_len_single(x: Seq<char>)
    ensures
        total_len(seq![x]) == x.len(),
{
    let one: Seq<Seq<char>> = seq![x];
    assert(one.drop_last() =~= Seq::<Seq<char>>::empty());
    assert(total_len(Seq::<Seq<char>>::empty()) == 0);
    assert(one.last() == x);
}

pub proof fn lemma_total_len_concat(a: Seq<Seq<char>>, b: Seq<Seq<char>>)
    ensures
        total_len(a + b) == total_len(a) + total_len(b),
    decreases b.len(),
{
    if b.len() == 0 {
        assert(a + b =~= a);
    } else {
        assert((a + b).drop_last() =~= a + b.drop_last());
        lemma_total_len_concat(a, b.drop_last());
    }
}

pub proof fn lemma_lines_total_len(s: Seq<char>)
    ensures
        total_len(lines_of(s)) <= s.len(),
    decreases s.len(),
{
    if s.len() > 0 && line_end(s) < s.len() {
        let e = line_end(s) as int;
        lemma_line_end_bound(s);
        lemma_lines_total_len(s.skip(e + 1));
        let first: Seq<Seq<char>> = seq![strip_cr(s.take(e))];
        lemma_total_len_concat(first, lines_of(s.skip(e + 1)));
        lemma_total_len_single(strip_cr(s.take(e)));
        assert(lines_of(s) == first + lines_of(s.skip(e + 1)));
    } else if s.len() > 0 {
        lemma_total_len_single(s);
    }
}

pub proof fn lemma_depth_bound(ls: Seq<Seq<char>>)
    ensures
        0 <= depth_after(ls) <= total_len(ls),
    decreases ls.len(),
{
    if ls.len() > 0 {
        lemma_depth_bound(ls.drop_last());
        let t = trim(ls.last());
        lemma_brace_scan_bounds(t);
        lemma_lead_ws_bound(ls.last());
        lemma_trail_ws_bound(trim_start(ls.last()));
    }
}

/// Number of `{` and `}` characters in `s`.
pub open spec fn brace_chars(s: Seq<char>) -> nat
    decreases s.len(),
{
    if s.len() == 0 {
        0
    } else {
        brace_chars(s.drop_last()) + if s.last() == '{' || s.last() == '}' {
            1nat
        } else {
            0nat
        }
    }
}

/// Number of `{` and `}` characters over all lines.
pub open spec fn total_braces(ls: Seq<Seq<char>>) -> nat
    decreases ls.len(),
{
    if ls.len() == 0 {
        0
    } else {
        total_braces(ls.drop_last()) + brace_chars(ls.last())
    }
}

pub proof fn lemma_brace_chars_concat(a: Seq<char>, b: Seq<char>)
    ensures
        brace_chars(a + b) == brace_chars(a) + brace_chars(b),
    decreases b.len(),
{
    if b.len() == 0 {
        assert(a + b =~= a);
    } else {
        assert((a + b).drop_last() =~= a + b.drop_last());
        lemma_brace_chars_concat(a, b.drop_last());
    }
}

proof fn lemma_brace_chars_parts(s: Seq<char>, k: int)
    requires
        0 <= k <= s.len(),
    ensures
        brace_chars(s.take(k)) + brace_chars(s.skip(k)) == brace_chars(s),
{
    assert(s.take(k) + s.skip(k) =~= s);
    lemma_brace_chars_concat(s.take(k), s.skip(k));
}

proof fn lemma_no_braces(s: Seq<char>)
    requires
        forall|j: int| 0 <= j < s.len() ==> #[trigger] s[j] != '{' && s[j] != '}',
    ensures
        brace_chars(s) == 0,
    decreases s.len(),
{
    if s.len() > 0 {
        lemma_no_braces(s.drop_last());
    }
}

proof fn lemma_trim_braces(l: Seq<char>)
    ensures
        brace_chars(trim(l)) <= brace_chars(l),
{
    let u = trim_start(l);
    lemma_lead_ws_bound(l);
    lemma_brace_chars_parts(l, lead_ws(l) as int);
    lemma_trail_ws_bound(u);
    lemma_brace_chars_parts(u, u.len() - trail_ws(u));
}

proof fn lemma_scan_braces(t: Seq<char>)
    ensures
        brace_scan(t).0 + brace_scan(t).1 <= brace_chars(t),
    decreases t.len(),
{
    if t.len() > 0 {
        lemma_scan_braces(t.drop_last());
    }
}

proof fn lemma_formatted_line_braces(d: int, l: Seq<char>)
    ensures
        brace_chars(formatted_line(d, l)) <= brace_chars(l),
{
    let t = trim(l);
    lemma_trim_braces(l);
    if t.len() == 0 {
        lemma_no_braces(formatted_line(d, l));
    } else {
        let ind = indent(max0(d - brace_scan(t).2));
        lemma_no_braces(ind);
        lemma_brace_chars_concat(ind, t);
    }
}

proof fn lemma_depth_braces(ls: Seq<Seq<char>>)
    ensures
        depth_after(ls) <= total_braces(ls),
    decreases ls.len(),
{
    if ls.len() > 0 {
        lemma_depth_braces(ls.drop_last());
        lemma_depth_bound(ls.drop_last());
        let t = trim(ls.last());
        lemma_scan_braces(t);
        lemma_brace_scan_bounds(t);
        lemma_trim_braces(ls.last());
    }
}

pub proof fn lemma_total_braces_concat(a: Seq<Seq<char>>, b: Seq<Seq<char>>)
    ensures
        total_braces(a + b) == total_braces(a) + total_braces(b),
    decreases b.len(),
{
    if b.len() == 0 {
        assert(a + b =~= a);
    } else {
        assert((a + b).drop_last() =~= a + b.drop_last());
        lemma_total_braces_concat(a, b.drop_last());
    }
}

proof fn lemma_total_braces_take(ls: Seq<Seq<char>>, i: int)
    requires
        0 <= i < ls.len(),
    ensures
        total_braces(ls.take(i + 1)) == total_braces(ls.take(i)) + brace_chars(ls[i]),
        total_braces(ls.take(i + 1)) <= total_braces(ls),
{
    assert(ls.take(i + 1).drop_last() =~= ls.take(i));
    assert(ls.take(i + 1) + ls.skip(i + 1) =~= ls);
    lemma_total_braces_concat(ls.take(i + 1), ls.skip(i + 1));
}

/// Lines with no more braces, one for one, hold no more braces in all.
proof fn lemma_total_braces_le(a: Seq<Seq<char>>, b: Seq<Seq<char>>)
    requires
        a.len() == b.len(),
        forall|i: int| 0 <= i < a.len() ==> brace_chars(#[trigger] a[i]) <= brace_chars(b[i]),
    ensures
        total_braces(a) <= total_braces(b),
    decreases a.len(),
{
    if a.len() > 0 {
        assert forall|i: int| 0 <= i < a.len() - 1 implies brace_chars(#[trigger] a.drop_last()[i]) <= brace_chars(
            b.drop_last()[i],
        ) by {
            assert(a.drop_last()[i] == a[i]);
            assert(b.drop_last()[i] == b[i]);
        }
        lemma_total_braces_le(a.drop_last(), b.drop_last());
        assert(brace_chars(a[a.len() - 1]) <= brace_chars(b[b.len() - 1]));
    }
}

proof fn lemma_join_braces(parts: Seq<Seq<char>>)
    ensures
        brace_chars(join(parts, seq!['\n'])) == total_braces(parts),
    decreases parts.len(),
{
    let nl: Seq<char> = seq!['\n'];
    lemma_no_braces(nl);
    if parts.len() == 1 {
        assert(parts.drop_last() =~= Seq::<Seq<char>>::empty());
        assert(total_braces(parts.drop_last()) == 0);
        assert(parts.last() == parts[0]);
        assert(join(parts, nl) == parts[0]);
    } else if parts.len() > 1 {
        lemma_join_braces(parts.drop_last());
        lemma_brace_chars_concat(join(parts.drop_last(), nl), nl);
        lemma_brace_chars_concat(join(parts.drop_last(), nl) + nl, parts.last());
        assert(join(parts, nl) == join(parts.drop_last(), nl) + nl + parts.last());
        assert(brace_chars(nl) == 0);
    } else {
        assert(join(parts, nl) =~= Seq::<char>::empty());
    }
}

proof fn lemma_lines_braces(s: Seq<char>)
    ensures
        total_braces(lines_of(s)) <= brace_chars(s),
    decreases s.len(),
{
    if s.len() > 0 && line_end(s) < s.len() {
        let e = line_end(s) as int;
        lemma_line_end_bound(s);
        lemma_lines_braces(s.skip(e + 1));
        let x = s.take(e);
        let first: Seq<Seq<char>> = seq![strip_cr(x)];
        lemma_total_braces_concat(first, lines_of(s.skip(e + 1)));
        assert(first.drop_last() =~= Seq::<Seq<char>>::empty());
        assert(total_braces(first.drop_last()) == 0);
        assert(first.last() == strip_cr(x));
        assert(total_braces(first) == brace_chars(strip_cr(x)));
        if x.len() > 0 && x.last() == '\r' {
            lemma_brace_chars_parts(x, x.len() - 1);
            assert(x.drop_last() =~= x.take(x.len() - 1));
        }
        assert(brace_chars(strip_cr(x)) <= brace_chars(x));
        lemma_brace_chars_parts(s, e);
        lemma_brace_chars_parts(s.skip(e), 1);
        assert(s.skip(e).skip(1) =~= s.skip(e + 1));
        assert(lines_of(s) == first + lines_of(s.skip(e + 1)));
    } else if s.len() > 0 {
        let one: Seq<Seq<char>> = seq![s];
        assert(one.drop_last() =~= Seq::<Seq<char>>::empty());
        assert(total_braces(one.drop_last()) == 0);
        assert(lines_of(s) == one);
    }
}

/// Two spaces per level, `n` levels.
fn indent_string(n: i64) -> (r: String)
    requires
        0 <= n,
    ensures
        r@ == indent(n as int),
{
    let mut r = String::new();
    let mut k: i64 = 0;
    while k < n
        invariant
            0 <= k <= n,
            r@ == indent(k as int),
        decreases n - k,
    {
        push_char(&mut r, ' ');
        push_char(&mut r, ' ');
        k += 1;
        proof {
            assert(r@ =~= indent(k as int));
        }
    }
    r
}

/// Format one line given the depth before it; also returns the depth after it.
fn format_line(line: &[char], depth: i64) -> (r: (String, i64))
    requires
        0 <= depth <= i32::MAX,
        depth + brace_chars(line@) <= i32::MAX,
    ensures
        r.0@ == formatted_line(depth as int, line@),
        r.1 == next_depth(depth as int, line@),
{
    let (a, b) = trim_bounds(line, 0, line.len());
    proof {
        assert(line@.subrange(0, line@.len() as int) =~= line@);
    }
    if a == b {
        return (String::new(), depth);
    }
    let ghost t = line@.subrange(a as int, b as int);
    proof {
        assert(t == trim(line@));
        lemma_trim_braces(line@);
    }
    let mut opens: i64 = 0;
    let mut closes: i64 = 0;
    let mut leading: i64 = 0;
    let mut in_string = false;
    let mut found = false;
    let mut stopped = false;
    let mut k = a;
    proof {
        assert(t.take(0).len() == 0);
    }
    while k < b
        invariant
            a <= k <= b <= line@.len(),
            0 <= depth,
            t == line@.subrange(a as int, b as int),
            depth + brace_chars(t) <= i32::MAX,
            (opens as int, closes as int, leading as int, in_string, found, stopped) == brace_scan(
                t.take(k - a),
            ),
            0 <= opens,
            0 <= leading <= closes,
            opens + closes <= brace_chars(t),
        decreases b - k,
    {
        let c = line[k];
        proof {
            assert(t.take(k - a + 1).drop_last() =~= t.take(k - a));
            assert(t.take(k - a + 1).last() == c);
            lemma_scan_braces(t.take(k - a + 1));
            lemma_brace_chars_parts(t, k - a + 1);
            lemma_brace_scan_bounds(t.take(k - a + 1));
        }
        if !stopped {
            if c == '"' {
                in_string = !in_string;
                found = true;
            } else if in_string {
            } else if c == '#' {
                stopped = true;
            } else if c == '{' {
                opens += 1;
                found = true;
            } else if c == '}' {
                closes += 1;
                if !found {
                    leading += 1;
                }
            } else if !is_whitespace(c) {
                found = true;
            }
        }
        k += 1;
    }
    proof {
        assert(t.take(b - a) =~= t);
    }
    let ind = if depth - leading < 0 { 0 } else { depth - leading };
    let mut out = indent_string(ind);
    push_chars(&mut out, &line[a..b]);
    let nd = if depth + opens - closes < 0 { 0 } else { depth + opens - closes };
    (out, nd)
}

/// Format already-split lines (characters).
pub fn format_char_lines(lines: &Vec<Vec<char>>) -> (r: Vec<String>)
    requires
        total_braces(views(lines@)) <= i32::MAX,
    ensures
        string_views(r@) == format_spec(views(lines@)),
{
    let ghost ls = views(lines@);
    let mut result: Vec<String> = Vec::new();
    let mut depth: i64 = 0;
    let mut i: usize = 0;
    while i < lines.len()
        invariant
            i <= lines@.len(),
            ls == views(lines@),
            total_braces(ls) <= i32::MAX,
            depth == depth_after(ls.take(i as int)),
            result@.len() == i,
            forall|j: int| 0 <= j < i ==> #[trigger] result@[j]@ == format_spec(ls)[j],
        decreases lines@.len() - i,
    {
        proof {
            lemma_depth_bound(ls.take(i as int));
            lemma_depth_braces(ls.take(i as int));
            lemma_total_braces_take(ls, i as int);
            assert(ls[i as int] == lines@[i as int]@);
        }
        let (text, nd) = format_line(lines[i].as_slice(), depth);
        result.push(text);
        depth = nd;
        proof {
            assert(ls.take(i + 1).drop_last() =~= ls.take(i as int));
        }
        i += 1;
    }
    proof {
        assert(string_views(result@) =~= format_spec(ls));
    }
    result
}

/// Re-indent `lines` by brace depth: two spaces per open block, a line's leading
/// `}`s dedent it, blank lines become empty, braces inside strings or after `#`
/// do not count, and depth never goes below zero.
pub fn format_lines(lines: &[&str]) -> (r: Vec<String>)
    requires
        total_braces(str_views(lines@)) <= i32::MAX,
    ensures
        string_views(r@) == format_spec(str_views(lines@)),
{
    let cl = chars_of_lines(lines);
    format_char_lines(&cl)
}

/// Whether `s` ends with a newline.
pub open spec fn ends_nl(s: Seq<char>) -> bool {
    s.len() > 0 && s.last() == '\n'
}

/// The whole reformatted text: formatted lines joined by `\n`, keeping a final newline.
pub open spec fn formatted_text(text: Seq<char>) -> Seq<char> {
    join(format_spec(lines_of(text)), seq!['\n']) + if ends_nl(text) {
        seq!['\n']
    } else {
        seq![]
    }
}

/// The range an edit of the whole document replaces: from the start to the
/// very end of the text, which is past the final newline when there is one
/// (the start of the line after the last).
pub open spec fn whole_document_range(text: Seq<char>) -> Range {
    let ls = lines_of(text);
    if ends_nl(text) {
        span(0, 0, ls.len() as u32, 0)
    } else {
        span(
            0,
            0,
            (if ls.len() == 0 { 0 } else { ls.len() - 1 }) as u32,
            (if ls.len() == 0 { 0 } else { byte_len(ls.last()) }) as u32,
        )
    }
}

/// A single whole-document edit when the text needs reformatting, else `None`.
pub fn format_document(text: &str) -> (r: Option<Vec<TextEdit>>)
    requires
        brace_chars(text@) <= i32::MAX,
    ensures
        formatted_text(text@) == text@ <==> r is None,
        r matches Some(edits) ==> {
            &&& edits@.len() == 1
            &&& edits@[0].new_text@ == formatted_text(text@)
            &&& edits@[0].range == whole_document_range(text@)
        },
{
    let chars = chars_of(text);
    let lines = split_lines(chars.as_slice());
    proof {
        lemma_lines_braces(text@);
    }
    let formatted = format_char_lines(&lines);
    let mut new_text = join_lines(&formatted);
    let ends = chars.len() > 0 && chars[chars.len() - 1] == '\n';
    if ends {
        push_char(&mut new_text, '\n');
    }
    proof {
        if !ends {
            assert(new_text@ + seq![] =~= new_text@);
        }
    }
    assert(views(lines@) == lines_of(text@));
    assert(string_views(formatted@) == format_spec(lines_of(text@)));
    assert(new_text@ == formatted_text(text@));
    let nt = chars_of(new_text.as_str());
    if chars_eq(nt.as_slice(), chars.as_slice()) {
        return None;
    }
    let n = lines.len();
    let end_line: u32 = if ends {
        #[verifier::truncate] (n as u32)
    } else if n == 0 {
        0
    } else {
        #[verifier::truncate] ((n - 1) as u32)
    };
    let end_char: u32 = if ends || n == 0 {
        0
    } else {
        #[verifier::truncate] (byte_len_of(lines[n - 1].as_slice()) as u32)
    };
    proof {
        if n > 0 {
            assert(views(lines@).last() == lines@[n - 1]@);
        }
    }
    let range = make_range(0, 0, end_line, end_char);
    let mut v: Vec<TextEdit> = Vec::new();
    v.push(TextEdit { range, new_text });
    Some(v)
}

// ─── Laws ────────────────────────────────────────────────────────────────────

proof fn lemma_trim_ends(l: Seq<char>)
    ensures
        trim(l).len() > 0 ==> !is_ws(trim(l)[0]) && !is_ws(trim(l).last()),
        forall|j: int| 0 <= j < trim(l).len() ==> #[trigger] trim(l)[j] == l[lead_ws(l) + j],
{
    let u = trim_start(l);
    lemma_lead_ws_bound(l);
    lemma_trail_ws_bound(u);
    let t = trim(l);
    assert forall|j: int| 0 <= j < t.len() implies #[trigger] t[j] == l[lead_ws(l) + j] by {
        assert(t[j] == u[j]);
    }
    if t.len() > 0 {
        assert(t[0] == u[0]);
        assert(t.last() == u[u.len() - trail_ws(u) - 1]);
    }
}

proof fn lemma_trim_indented(t: Seq<char>, n: int)
    requires
        n >= 0,
        t.len() > 0,
        !is_ws(t[0]),
        !is_ws(t.last()),
    ensures
        trim(indent(n) + t) == t,
{
    let s = indent(n) + t;
    assert forall|j: int| 0 <= j < 2 * n implies is_ws(#[trigger] s[j]) by {
        assert(s[j] == ' ');
    }
    assert(s[2 * n] == t[0]);
    lemma_lead_ws(s, 2 * n);
    assert(trim_start(s) =~= t);
    lemma_trail_ws(t, 0);
    assert(t.take(t.len() as int) =~= t);
}

proof fn lemma_formatted_trim(d: int, l: Seq<char>)
    ensures
        trim(formatted_line(d, l)) == trim(l),
{
    let t = trim(l);
    if t.len() == 0 {
        let e: Seq<char> = seq![];
        lemma_lead_ws_bound(e);
        lemma_trail_ws_bound(trim_start(e));
        assert(trim(e) =~= t);
    } else {
        lemma_trim_ends(l);
        lemma_trim_indented(t, max0(d - brace_scan(t).2));
    }
}

proof fn lemma_depth_formatted(ls: Seq<Seq<char>>, i: int)
    requires
        0 <= i <= ls.len(),
    ensures
        depth_after(format_spec(ls).take(i)) == depth_after(ls.take(i)),
    decreases i,
{
    if i > 0 {
        lemma_depth_formatted(ls, i - 1);
        let f = format_spec(ls);
        assert(f.take(i).drop_last() =~= f.take(i - 1));
        assert(ls.take(i).drop_last() =~= ls.take(i - 1));
        lemma_formatted_trim(depth_after(ls.take(i - 1)), ls[i - 1]);
    }
}

/// Formatting is idempotent: formatting lines that are already formatted
/// gives them back unchanged.
pub proof fn format_is_idempotent(ls: Seq<Seq<char>>)
    ensures
        format_spec(format_spec(ls)) == format_spec(ls),
{
    let f = format_spec(ls);
    assert forall|i: int| 0 <= i < ls.len() implies #[trigger] format_spec(f)[i] == f[i] by {
        lemma_depth_formatted(ls, i);
        lemma_formatted_trim(depth_after(ls.take(i)), ls[i]);
    }
    assert(format_spec(f) =~= f);
}

/// A line that `lines_of` gives back as it is: no `'\n'`, no final `'\r'`.
pub open spec fn plain_line(f: Seq<char>) -> bool {
    &&& forall|j: int| 0 <= j < f.len() ==> #[trigger] f[j] != '\n'
    &&& (f.len() == 0 || f.last() != '\r')
}

proof fn lemma_lines_have_no_newline(s: Seq<char>)
    ensures
        forall|i: int, j: int|
            0 <= i < lines_of(s).len() && 0 <= j < lines_of(s)[i].len() ==> #[trigger] lines_of(s)[i][j]
                != '\n',
    decreases s.len(),
{
    if s.len() > 0 {
        lemma_line_end_bound(s);
        if line_end(s) < s.len() {
            let e = line_end(s) as int;
            lemma_line_end_bound(s);
            lemma_lines_have_no_newline(s.skip(e + 1));
            let first = strip_cr(s.take(e));
            assert forall|i: int, j: int|
                0 <= i < lines_of(s).len() && 0 <= j < lines_of(s)[i].len() implies #[trigger] lines_of(
                s,
            )[i][j] != '\n' by {
                if i == 0 {
                    assert(lines_of(s)[0] == first);
                    assert(first[j] == s[j]);
                } else {
                    assert(lines_of(s)[i] == lines_of(s.skip(e + 1))[i - 1]);
                }
            }
        }
    }
}

proof fn lemma_formatted_plain(d: int, l: Seq<char>)
    requires
        forall|j: int| 0 <= j < l.len() ==> #[trigger] l[j] != '\n',
    ensures
        plain_line(formatted_line(d, l)),
{
    let t = trim(l);
    if t.len() > 0 {
        lemma_trim_ends(l);
        lemma_lead_ws_bound(l);
        lemma_trail_ws_bound(trim_start(l));
        let f = formatted_line(d, l);
        let n = max0(d - brace_scan(t).2);
        assert forall|j: int| 0 <= j < f.len() implies #[trigger] f[j] != '\n' by {
            if j >= 2 * n {
                assert(f[j] == t[j - 2 * n]);
                assert(t[j - 2 * n] == l[lead_ws(l) + j - 2 * n]);
            }
        }
        assert(f.last() == t.last());
    }
}

proof fn lemma_join_front(ps: Seq<Seq<char>>, sep: Seq<char>)
    requires
        ps.len() >= 2,
    ensures
        join(ps, sep) == ps[0] + sep + join(ps.drop_first(), sep),
    decreases ps.len(),
{
    let a = ps.drop_last();
    assert(join(ps, sep) == join(a, sep) + sep + ps.last());
    if ps.len() == 2 {
        assert(join(a, sep) == a[0]);
        assert(a[0] == ps[0]);
        assert(join(ps.drop_first(), sep) == ps.drop_first()[0]);
        assert(ps.drop_first()[0] == ps.last());
    } else {
        lemma_join_front(a, sep);
        let b = ps.drop_first();
        assert(join(b, sep) == join(b.drop_last(), sep) + sep + b.last());
        assert(a.drop_first() =~= b.drop_last());
        assert(b.last() == ps.last());
        assert(a[0] == ps[0]);
        assert(a[0] + sep + join(a.drop_first(), sep) + sep + ps.last() =~= ps[0] + sep + (join(
            b.drop_last(),
            sep,
        ) + sep + b.last()));
    }
}

proof fn lemma_lines_of_join(ps: Seq<Seq<char>>, x: Seq<char>)
    requires
        ps.len() > 0,
        forall|i: int| 0 <= i < ps.len() ==> plain_line(#[trigger] ps[i]),
        x == seq!['\n'] || (x == Seq::<char>::empty() && ps.last().len() > 0),
    ensures
        lines_of(join(ps, seq!['\n']) + x) == ps,
    decreases ps.len(),
{
    let nl: Seq<char> = seq!['\n'];
    let f0 = ps[0];
    assert(plain_line(f0));
    if ps.len() == 1 {
        let s = f0 + x;
        assert(join(ps, nl) == f0);
        if x.len() == 1 {
            assert(s[f0.len() as int] == '\n');
            lemma_line_end(s, f0.len() as int);
            assert(s.take(f0.len() as int) =~= f0);
            assert(strip_cr(f0) == f0);
            assert(s.skip(f0.len() as int + 1) =~= Seq::<char>::empty());
            assert(lines_of(Seq::<char>::empty()) == Seq::<Seq<char>>::empty());
            assert(lines_of(s) == seq![f0] + Seq::<Seq<char>>::empty());
            assert(lines_of(s) =~= ps);
        } else {
            assert(ps.last() == f0);
            assert(s =~= f0);
            lemma_line_end(s, f0.len() as int);
            assert(lines_of(s) == seq![s]);
            assert(lines_of(s) =~= ps);
        }
    } else {
        let rest = ps.drop_first();
        lemma_join_front(ps, nl);
        assert forall|i: int| 0 <= i < rest.len() implies plain_line(#[trigger] rest[i]) by {
            assert(rest[i] == ps[i + 1]);
        }
        lemma_lines_of_join(rest, x);
        let r = join(rest, nl) + x;
        let s = join(ps, nl) + x;
        assert(s =~= f0 + nl + r);
        assert(s[f0.len() as int] == '\n');
        lemma_line_end(s, f0.len() as int);
        assert(s.take(f0.len() as int) =~= f0);
        assert(s.skip(f0.len() as int + 1) =~= r);
        assert(lines_of(s) =~= seq![f0] + rest);
        assert(seq![f0] + rest =~= ps);
    }
}

proof fn lemma_format_prefix(ls: Seq<Seq<char>>, k: int)
    requires
        0 <= k <= ls.len(),
    ensures
        format_spec(ls.take(k)) == format_spec(ls).take(k),
{
    assert forall|i: int| 0 <= i < k implies #[trigger] format_spec(ls.take(k))[i] == format_spec(ls)[i] by {
        assert(ls.take(k).take(i) =~= ls.take(i));
    }
    assert(format_spec(ls.take(k)) =~= format_spec(ls).take(k));
}

proof fn lemma_join_last(ps: Seq<Seq<char>>, sep: Seq<char>)
    requires
        ps.len() > 0,
        ps.last().len() > 0,
    ensures
        join(ps, sep).len() > 0,
        join(ps, sep).last() == ps.last().last(),
{
    if ps.len() > 1 {
        let j = join(ps.drop_last(), sep) + sep + ps.last();
        assert(j.last() == ps.last().last());
    }
}

/// Formatting a document that was just formatted gives it back unchanged, so
/// no further edit is offered for it.
#[verifier::rlimit(40)]
pub proof fn formatted_text_is_stable(text: Seq<char>)
    ensures
        formatted_text(formatted_text(text)) == formatted_text(text),
{
    let nl: Seq<char> = seq!['\n'];
    let ls = lines_of(text);
    let f = format_spec(ls);
    let t1 = formatted_text(text);
    if ls.len() == 0 {
        assert(text.len() == 0);
        assert(t1 =~= Seq::<char>::empty());
        assert(lines_of(t1) =~= Seq::<Seq<char>>::empty());
        assert(format_spec(lines_of(t1)) =~= Seq::<Seq<char>>::empty());
        assert(formatted_text(t1) =~= t1);
    } else {
        lemma_lines_have_no_newline(text);
        assert forall|i: int| 0 <= i < f.len() implies plain_line(#[trigger] f[i]) by {
            assert forall|j: int| 0 <= j < ls[i].len() implies #[trigger] ls[i][j] != '\n' by {}
            lemma_formatted_plain(depth_after(ls.take(i)), ls[i]);
        }
        format_is_idempotent(ls);
        if ends_nl(text) {
            assert(t1 == join(f, nl) + nl);
            lemma_lines_of_join(f, nl);
            assert(ends_nl(t1));
        } else if f.last().len() > 0 {
            assert(t1 =~= join(f, nl) + Seq::<char>::empty());
            lemma_lines_of_join(f, Seq::<char>::empty());
            lemma_join_last(f, nl);
            assert(!is_ws(f.last().last())) by {
                lemma_trim_ends(ls.last());
            }
            assert(!ends_nl(t1));
            assert(formatted_text(t1) =~= t1);
        } else if f.len() == 1 {
            assert(t1 =~= Seq::<char>::empty());
            assert(lines_of(t1) =~= Seq::<Seq<char>>::empty());
            assert(format_spec(lines_of(t1)) =~= Seq::<Seq<char>>::empty());
            assert(formatted_text(t1) =~= t1);
        } else {
            let g = f.drop_last();
            assert(join(f, nl) == join(g, nl) + nl + f.last());
            assert(t1 =~= join(g, nl) + nl);
            assert forall|i: int| 0 <= i < g.len() implies plain_line(#[trigger] g[i]) by {
                assert(g[i] == f[i]);
            }
            lemma_lines_of_join(g, nl);
            lemma_format_prefix(ls, ls.len() - 1);
            assert(g =~= f.take(ls.len() - 1));
            format_is_idempotent(ls.take(ls.len() - 1));
            assert(ends_nl(t1));
        }
    }
}

/// Formatting adds no brace: the formatted lines hold no more `{` and `}`
/// than the lines.
pub proof fn formatting_adds_no_braces(ls: Seq<Seq<char>>)
    ensures
        total_braces(format_spec(ls)) <= total_braces(ls),
{
    let f = format_spec(ls);
    assert forall|i: int| 0 <= i < f.len() implies brace_chars(#[trigger] f[i]) <= brace_chars(ls[i]) by {
        lemma_formatted_line_braces(depth_after(ls.take(i)), ls[i]);
    }
    lemma_total_braces_le(f, ls);
}

/// Lines that `format_lines` accepts format to lines that it accepts again
/// and gives back unchanged.
pub proof fn formatted_lines_are_accepted_again(ls: Seq<Seq<char>>)
    requires
        total_braces(ls) <= i32::MAX,
    ensures
        total_braces(format_spec(ls)) <= i32::MAX,
        format_spec(format_spec(ls)) == format_spec(ls),
{
    formatting_adds_no_braces(ls);
    format_is_idempotent(ls);
}

/// A text that `format_document` accepts formats to a text that it accepts
/// again and leaves as it is (so a second call gives no edit).
pub proof fn formatted_document_is_accepted_again(text: Seq<char>)
    requires
        brace_chars(text) <= i32::MAX,
    ensures
        brace_chars(formatted_text(text)) <= i32::MAX,
        formatted_text(formatted_text(text)) == formatted_text(text),
{
    let nl: Seq<char> = seq!['\n'];
    let f = format_spec(lines_of(text));
    lemma_lines_braces(text);
    formatting_adds_no_braces(lines_of(text));
    lemma_join_braces(f);
    let tail = if ends_nl(text) {
        nl
    } else {
        seq![]
    };
    lemma_no_braces(tail);
    lemma_brace_chars_concat(join(f, nl), tail);
    formatted_text_is_stable(text);
}

} // verus!
