//! Values shown inline: what each `@variable` used in a range stands for,
//! color blocks, and links in comments and strings.
use vstd::prelude::*;
use crate::model::{Position, Range};
use crate::references::uncommented;
use crate::symbols::bcol;
use crate::text::{
    append_str, byte_len, chars_of, find_char, first_of, is_ascii_alnum, is_ascii_alnum_spec, is_ws,
    lemma_byte_len_mono, lemma_byte_len_step, lemma_first_of, lines_of, push_char, push_chars,
    split_lines, string_of, sub_chars, trim, trim_bounds, trim_start, views, width_of,
};

verus! {

// ─── @variable values ────────────────────────────────────────────────────────

/// What follows the `@` of a line whose first non-blank character is `@`.
pub open spec fn after_at(line: Seq<char>) -> Option<Seq<char>> {
    let t = trim_start(line);
    if t.len() == 0 || t[0] != '@' {
        None
    } else {
        Some(t.drop_first())
    }
}

/// The name before the first `=` and the value after it (without a `#`
/// comment), both trimmed.
pub open spec fn var_parts(rest: Seq<char>) -> Option<(Seq<char>, Seq<char>)> {
    let eq = first_of(rest, '=') as int;
    if eq >= rest.len() {
        None
    } else {
        let v0 = rest.skip(eq + 1);
        Some((trim(rest.take(eq)), trim(v0.take(first_of(v0, '#') as int))))
    }
}

/// The `@name` and value a line `@name = value` defines (value without a
/// `#` comment; both trimmed and non-empty).
pub open spec fn var_def(line: Seq<char>) -> Option<(Seq<char>, Seq<char>)> {
    match after_at(line) {
        None => None,
        Some(rest) => match var_parts(rest) {
            None => None,
            Some((name, value)) => if name.len() == 0 || value.len() == 0 {
                None
            } else {
                Some((seq!['@'] + name, value))
            },
        },
    }
}

/// The definitions on the first `i` lines, in order.
pub open spec fn var_defs(ls: Seq<Seq<char>>, i: int) -> Seq<(Seq<char>, Seq<char>)>
    decreases i,
{
    if i <= 0 {
        seq![]
    } else {
        let p = var_defs(ls, i - 1);
        match var_def(ls[i - 1]) {
            Some(d) => p.push(d),
            None => p,
        }
    }
}

/// The value of `key`: its last definition.
pub open spec fn last_value(defs: Seq<(Seq<char>, Seq<char>)>, key: Seq<char>) -> Option<Seq<char>>
    decreases defs.len(),
{
    if defs.len() == 0 {
        None
    } else if defs.last().0 == key {
        Some(defs.last().1)
    } else {
        last_value(defs.drop_last(), key)
    }
}

/// End of the run of ASCII letters, digits and `_` from `k`.
pub open spec fn ascii_word_end(e: Seq<char>, k: int) -> int
    decreases e.len() - k,
{
    if k < 0 || k >= e.len() || !(is_ascii_alnum_spec(e[k]) || e[k] == '_') {
        k
    } else {
        ascii_word_end(e, k + 1)
    }
}

pub proof fn lemma_ascii_word_end(e: Seq<char>, k: int)
    requires
        0 <= k <= e.len(),
    ensures
        k <= ascii_word_end(e, k) <= e.len(),
    decreases e.len() - k,
{
    if k < e.len() && (is_ascii_alnum_spec(e[k]) || e[k] == '_') {
        lemma_ascii_word_end(e, k + 1);
    }
}

/// `word = value`.
pub open spec fn shown(word: Seq<char>, value: Seq<char>) -> Seq<char> {
    word + " = "@ + value
}

/// The name a line defines, if it is an `@name = value` definition.
pub open spec fn defined_name(line: Seq<char>) -> Option<Seq<char>> {
    match var_def(line) {
        Some((n, _v)) => Some(n),
        None => None,
    }
}

/// The inline values of the uncommented line `e` (number `li`) from
/// character `j` on, appended to `acc`: each `@word` with a value, except the
/// word the line itself defines (`own`).
pub open spec fn inline_scan(
    e: Seq<char>,
    li: u32,
    j: int,
    defs: Seq<(Seq<char>, Seq<char>)>,
    acc: Seq<(Range, Seq<char>)>,
    own: Option<Seq<char>>,
) -> Seq<(Range, Seq<char>)>
    decreases e.len() - j,
{
    if j < 0 || j >= e.len() {
        acc
    } else if e[j] == '@' {
        let m = ascii_word_end(e, j + 1);
        proof {
            lemma_ascii_word_end(e, j + 1);
        }
        let w = e.subrange(j, m);
        let next = match last_value(defs, w) {
            Some(v) => if own == Some(w) {
                acc
            } else {
                acc.push((crate::model::span(li, bcol(e, j) as u32, li, bcol(e, m) as u32), shown(w, v)))
            },
            None => acc,
        };
        inline_scan(e, li, m, defs, next, own)
    } else {
        inline_scan(e, li, j + 1, defs, acc, own)
    }
}

/// The inline values of lines `i..` whose number (as `u32`) lies in
/// `start..=end`, appended to `acc`.
pub open spec fn inline_lines(
    ls: Seq<Seq<char>>,
    i: int,
    start: u32,
    end: u32,
    defs: Seq<(Seq<char>, Seq<char>)>,
    acc: Seq<(Range, Seq<char>)>,
) -> Seq<(Range, Seq<char>)>
    decreases ls.len() - i,
{
    if i < 0 || i >= ls.len() {
        acc
    } else {
        let li = i as u32;
        let next = if li < start || li > end {
            acc
        } else {
            inline_scan(uncommented(ls[i]), li, 0, defs, acc, defined_name(ls[i]))
        };
        inline_lines(ls, i + 1, start, end, defs, next)
    }
}

/// Every value of `acc` is shown on one line, within `start..=end`.
pub open spec fn on_lines(acc: Seq<(Range, Seq<char>)>, start: u32, end: u32) -> bool {
    forall|k: int|
        0 <= k < acc.len() ==> start <= (#[trigger] acc[k]).0.start.line <= end && acc[k].0.end.line
            == acc[k].0.start.line
}

proof fn lemma_scan_on_line(
    e: Seq<char>,
    li: u32,
    j: int,
    defs: Seq<(Seq<char>, Seq<char>)>,
    acc: Seq<(Range, Seq<char>)>,
    own: Option<Seq<char>>,
    start: u32,
    end: u32,
)
    requires
        on_lines(acc, start, end),
        start <= li <= end,
    ensures
        on_lines(inline_scan(e, li, j, defs, acc, own), start, end),
    decreases e.len() - j,
{
    if 0 <= j < e.len() {
        if e[j] == '@' {
            let m = ascii_word_end(e, j + 1);
            lemma_ascii_word_end(e, j + 1);
            let w = e.subrange(j, m);
            let next = match last_value(defs, w) {
                Some(v) => if own == Some(w) {
                    acc
                } else {
                    acc.push((crate::model::span(li, bcol(e, j) as u32, li, bcol(e, m) as u32), shown(w, v)))
                },
                None => acc,
            };
            assert(on_lines(next, start, end)) by {
                assert forall|k: int| 0 <= k < next.len() implies start <= (#[trigger] next[k]).0.start.line
                    <= end && next[k].0.end.line == next[k].0.start.line by {
                    if k < acc.len() {
                        assert(next[k] == acc[k]);
                    }
                }
            }
            lemma_scan_on_line(e, li, m, defs, next, own, start, end);
        } else {
            lemma_scan_on_line(e, li, j + 1, defs, acc, own, start, end);
        }
    }
}

proof fn lemma_lines_on_range(
    ls: Seq<Seq<char>>,
    i: int,
    start: u32,
    end: u32,
    defs: Seq<(Seq<char>, Seq<char>)>,
    acc: Seq<(Range, Seq<char>)>,
)
    requires
        on_lines(acc, start, end),
    ensures
        on_lines(inline_lines(ls, i, start, end, defs, acc), start, end),
    decreases ls.len() - i,
{
    if 0 <= i < ls.len() {
        let li = i as u32;
        if li < start || li > end {
            lemma_lines_on_range(ls, i + 1, start, end, defs, acc);
        } else {
            let next = inline_scan(uncommented(ls[i]), li, 0, defs, acc, defined_name(ls[i]));
            lemma_scan_on_line(uncommented(ls[i]), li, 0, defs, acc, defined_name(ls[i]), start, end);
            lemma_lines_on_range(ls, i + 1, start, end, defs, next);
        }
    }
}

/// Inline values are shown only on the requested lines, each on one line.
pub proof fn inline_values_stay_in_range(text: Seq<char>, range: Range)
    ensures
        on_lines(
            inline_lines(
                lines_of(text),
                0,
                range.start.line,
                range.end.line,
                var_defs(lines_of(text), lines_of(text).len() as int),
                seq![],
            ),
            range.start.line,
            range.end.line,
        ),
{
    lemma_lines_on_range(
        lines_of(text),
        0,
        range.start.line,
        range.end.line,
        var_defs(lines_of(text), lines_of(text).len() as int),
        seq![],
    );
}

/// A value shown at a use of a variable.
#[derive(Debug)]
pub struct InlineValue {
    pub range: Range,
    pub text: String,
}

pub open spec fn inline_view(v: InlineValue) -> (Range, Seq<char>) {
    (v.range, v.text@)
}

pub open spec fn inlines_view(s: Seq<InlineValue>) -> Seq<(Range, Seq<char>)> {
    s.map_values(|v: InlineValue| inline_view(v))
}

/// Where what follows the `@` starts (see `after_at`).
fn after_at_exec(l: &[char]) -> (r: Option<usize>)
    ensures
        match after_at(l@) {
            Some(rest) => r.is_some() && r.unwrap() <= l@.len() && rest == l@.subrange(
                r.unwrap() as int,
                l@.len() as int,
            ),
            None => r is None,
        },
{
    let n = l.len();
    let a = crate::text::skip_ws(l, 0, n);
    let ghost t = trim_start(l@);
    proof {
        assert(l@.subrange(0, n as int) =~= l@);
        crate::text::lemma_lead_ws_bound(l@);
        assert(t =~= l@.subrange(a as int, n as int));
    }
    if a >= n || l[a] != '@' {
        proof {
            if a < n {
                assert(t[0] == l@[a as int]);
            }
        }
        return None;
    }
    proof {
        assert(t[0] == l@[a as int]);
        assert(t.drop_first() =~= l@.subrange(a + 1, n as int));
    }
    Some(a + 1)
}

/// The bounds of `var_parts(l[s..])` inside `l`.
fn var_parts_exec(l: &[char], s: usize) -> (r: Option<(usize, usize, usize, usize)>)
    requires
        s <= l@.len(),
    ensures
        match var_parts(l@.subrange(s as int, l@.len() as int)) {
            Some((nm, v)) => r.is_some() && {
                let (a, b, c, d) = r.unwrap();
                a <= b <= l@.len() && c <= d <= l@.len() && nm == l@.subrange(a as int, b as int) && v
                    == l@.subrange(c as int, d as int)
            },
            None => r is None,
        },
{
    let n = l.len();
    let ghost rest = l@.subrange(s as int, n as int);
    let eq = match find_char(l, s, n, '=') {
        Some(x) => x,
        None => n,
    };
    proof {
        assert forall|j: int| 0 <= j < eq - s implies #[trigger] rest[j] != '=' by {
            assert(rest[j] == l@[s + j]);
        }
        if eq < n {
            assert(rest[eq - s] == l@[eq as int]);
        }
        lemma_first_of(rest, '=', eq - s);
    }
    if eq >= n {
        return None;
    }
    let (na, nb) = trim_bounds(l, s, eq);
    proof {
        assert(rest.take(eq - s) =~= l@.subrange(s as int, eq as int));
    }
    let ghost v0 = rest.skip(eq - s + 1);
    proof {
        assert(v0 =~= l@.subrange(eq + 1, n as int));
    }
    let h = match find_char(l, eq + 1, n, '#') {
        Some(x) => x,
        None => n,
    };
    proof {
        assert forall|j: int| 0 <= j < h - eq - 1 implies #[trigger] v0[j] != '#' by {
            assert(v0[j] == l@[eq + 1 + j]);
        }
        if h < n {
            assert(v0[h - eq - 1] == l@[h as int]);
        }
        lemma_first_of(v0, '#', h - eq - 1);
        assert(v0.take(h - eq - 1) =~= l@.subrange(eq + 1, h as int));
    }
    let (va, vb) = trim_bounds(l, eq + 1, h);
    Some((na, nb, va, vb))
}

/// The definition of a line, as owned character vectors.
fn var_def_exec(l: &[char]) -> (r: Option<(Vec<char>, Vec<char>)>)
    ensures
        match var_def(l@) {
            Some((k, v)) => r.is_some() && r.unwrap().0@ == k && r.unwrap().1@ == v,
            None => r is None,
        },
{
    let s = match after_at_exec(l) {
        Some(x) => x,
        None => return None,
    };
    let (na, nb, va, vb) = match var_parts_exec(l, s) {
        Some(x) => x,
        None => return None,
    };
    if na == nb || va == vb {
        return None;
    }
    let mut key: Vec<char> = Vec::new();
    key.push('@');
    let nm = sub_chars(l, na, nb);
    let mut i: usize = 0;
    while i < nm.len()
        invariant
            i <= nm@.len(),
            key@ == seq!['@'] + nm@.take(i as int),
        decreases nm@.len() - i,
    {
        key.push(nm[i]);
        proof {
            assert(key@ =~= seq!['@'] + nm@.take(i + 1));
        }
        i += 1;
    }
    proof {
        assert(nm@.take(nm@.len() as int) =~= nm@);
    }
    Some((key, sub_chars(l, va, vb)))
}

/// The last value of `key` among `keys`/`values`.
fn last_value_exec(keys: &Vec<Vec<char>>, values: &Vec<Vec<char>>, key: &[char]) -> (r: Option<usize>)
    requires
        keys@.len() == values@.len(),
    ensures
        match last_value(pairs(keys@, values@), key@) {
            Some(v) => r.is_some() && r.unwrap() < values@.len() && values@[r.unwrap() as int]@ == v,
            None => r is None,
        },
{
    let ghost ps = pairs(keys@, values@);
    let mut i = keys.len();
    proof {
        assert(ps.take(ps.len() as int) =~= ps);
    }
    while i > 0
        invariant
            i <= keys@.len(),
            keys@.len() == values@.len(),
            ps == pairs(keys@, values@),
            last_value(ps, key@) == last_value(ps.take(i as int), key@),
        decreases i,
    {
        proof {
            assert(ps.take(i as int).drop_last() =~= ps.take(i - 1));
            assert(ps.take(i as int).last() == (keys@[i - 1]@, values@[i - 1]@));
        }
        if crate::text::chars_eq(keys[i - 1].as_slice(), key) {
            return Some(i - 1);
        }
        i -= 1;
    }
    proof {
        assert(ps.take(0) =~= Seq::<(Seq<char>, Seq<char>)>::empty());
    }
    None
}

pub open spec fn pairs(keys: Seq<Vec<char>>, values: Seq<Vec<char>>) -> Seq<(Seq<char>, Seq<char>)> {
    Seq::new(keys.len(), |i: int| (keys[i]@, values[i]@))
}

/// The values of the variables used on the lines `range.start.line ..=
/// range.end.line`: at each `@word` with a definition in the document (its
/// last one), `word = value`, except on the line that defines it.
pub fn extract_inline_values(text: &str, range: &Range) -> (r: Vec<InlineValue>)
    ensures
        inlines_view(r@) == inline_lines(
            lines_of(text@),
            0,
            range.start.line,
            range.end.line,
            var_defs(lines_of(text@), lines_of(text@).len() as int),
            seq![],
        ),
{
    let cs = chars_of(text);
    let ls = split_lines(cs.as_slice());
    let ghost lsv = views(ls@);
    let mut keys: Vec<Vec<char>> = Vec::new();
    let mut values: Vec<Vec<char>> = Vec::new();
    let mut i: usize = 0;
    proof {
        assert(pairs(keys@, values@) =~= var_defs(lsv, 0));
    }
    while i < ls.len()
        invariant
            lsv == views(ls@),
            i <= lsv.len(),
            keys@.len() == values@.len(),
            pairs(keys@, values@) == var_defs(lsv, i as int),
        decreases lsv.len() - i,
    {
        proof {
            assert(ls@[i as int]@ == lsv[i as int]);
        }
        let ghost prev = pairs(keys@, values@);
        match var_def_exec(ls[i].as_slice()) {
            Some((k, v)) => {
                keys.push(k);
                values.push(v);
                proof {
                    assert(pairs(keys@, values@) =~= var_defs(lsv, i + 1));
                }
            },
            None => {},
        }
        i += 1;
    }
    let ghost defs = pairs(keys@, values@);
    let mut out: Vec<InlineValue> = Vec::new();
    let ghost total = inline_lines(lsv, 0, range.start.line, range.end.line, defs, seq![]);
    let mut i: usize = 0;
    proof {
        assert(inlines_view(out@) =~= Seq::<(Range, Seq<char>)>::empty());
    }
    while i < ls.len()
        invariant
            lsv == views(ls@),
            lsv == lines_of(text@),
            i <= lsv.len(),
            keys@.len() == values@.len(),
            defs == pairs(keys@, values@),
            total == inline_lines(lsv, i as int, range.start.line, range.end.line, defs, inlines_view(out@)),
        decreases lsv.len() - i,
    {
        let li = #[verifier::truncate] (i as u32);
        if li < range.start.line || li > range.end.line {
        } else {
            let line = ls[i].as_slice();
            proof {
                assert(line@ == lsv[i as int]);
            }
            let h = match find_char(line, 0, line.len(), '#') {
                Some(x) => x,
                None => line.len(),
            };
            proof {
                lemma_first_of(line@, '#', h as int);
            }
            let e = sub_chars(line, 0, h);
            proof {
                assert(e@ =~= uncommented(lsv[i as int]));
            }
            let own = var_def_exec(line);
            let ghost own_v = defined_name(lsv[i as int]);
            let ghost acc0 = inlines_view(out@);
            let mut j: usize = 0;
            let mut col: u128 = 0;
            proof {
                assert(e@.take(0) =~= Seq::<char>::empty());
            }
            while j < e.len()
                invariant
                    j <= e@.len(),
                    col == bcol(e@, j as int),
                    col <= 4 * j,
                    keys@.len() == values@.len(),
                    defs == pairs(keys@, values@),
                    match var_def(line@) {
                        Some((k, v)) => own.is_some() && own.unwrap().0@ == k && own.unwrap().1@ == v,
                        None => own is None,
                    },
                    own_v == defined_name(line@),
                    inline_scan(e@, li, 0, defs, acc0, own_v) == inline_scan(
                        e@,
                        li,
                        j as int,
                        defs,
                        inlines_view(out@),
                        own_v,
                    ),
                decreases e@.len() - j,
            {
                if e[j] == '@' {
                    let mut m = j + 1;
                    let mut mcol: u128 = col + 1;
                    proof {
                        lemma_byte_len_step(e@, j as int);
                        lemma_ascii_word_end(e@, j + 1);
                    }
                    while m < e.len() && (is_ascii_alnum(e[m]) || e[m] == '_')
                        invariant
                            j < m <= e@.len(),
                            mcol == bcol(e@, m as int),
                            mcol <= 4 * m,
                            ascii_word_end(e@, j + 1) == ascii_word_end(e@, m as int),
                        decreases e@.len() - m,
                    {
                        proof {
                            lemma_byte_len_step(e@, m as int);
                        }
                        mcol = mcol + width_of(e[m]) as u128;
                        m += 1;
                    }
                    let w = sub_chars(e.as_slice(), j, m);
                    match last_value_exec(&keys, &values, w.as_slice()) {
                        Some(vi) => {
                            let is_def = match &own {
                                Some((k, _v)) => crate::text::chars_eq(k.as_slice(), w.as_slice()),
                                None => false,
                            };
                            if !is_def {
                                let mut txt = String::new();
                                push_chars(&mut txt, w.as_slice());
                                append_str(&mut txt, " = ");
                                push_chars(&mut txt, values[vi].as_slice());
                                let iv = InlineValue {
                                    range: Range {
                                        start: Position { line: li, character: #[verifier::truncate] (col as u32) },
                                        end: Position { line: li, character: #[verifier::truncate] (mcol as u32) },
                                    },
                                    text: txt,
                                };
                                let ghost prev = inlines_view(out@);
                                out.push(iv);
                                proof {
                                    assert(inlines_view(out@) =~= prev.push(inline_view(iv)));
                                }
                            }
                        },
                        None => {},
                    }
                    j = m;
                    col = mcol;
                } else {
                    proof {
                        lemma_byte_len_step(e@, j as int);
                    }
                    col = col + width_of(e[j]) as u128;
                    j += 1;
                }
            }
        }
        i += 1;
    }
    out
}


// ─── Color blocks ────────────────────────────────────────────────────────────

/// Where `pat` occurs in `s` at or after `j`, non-overlapping from the left,
/// followed (after blanks, and with `eq` an `=` and blanks) by `{`: the byte
/// offset just past that `{`.
pub open spec fn brace_after(s: Seq<char>, pat: Seq<char>, eq: bool, j: int, acc: Seq<int>) -> Seq<int>
    decreases s.len() - j,
{
    if j < 0 || j >= s.len() || pat.len() == 0 {
        acc
    } else if crate::text::has_prefix_at(s, j, pat) {
        let k = brace_at(s, j + pat.len(), eq);
        let next = if k < s.len() && s[k] == '{' {
            acc.push(bcol(s, k) + 1)
        } else {
            acc
        };
        brace_after(s, pat, eq, j + pat.len(), next)
    } else {
        brace_after(s, pat, eq, j + 1, acc)
    }
}

/// The first index at or after `a` that does not hold an ASCII digit.
pub open spec fn digits_end(s: Seq<char>, a: int) -> int
    decreases s.len() - a,
{
    if a < 0 || a >= s.len() || !('0' <= s[a] && s[a] <= '9') {
        a
    } else {
        digits_end(s, a + 1)
    }
}

/// Where the `{` after a prefix ending at `a` must stand: past white space,
/// and with `eq` (a key such as `color` or `color1`) past digits, white
/// space, an `=` and white space (the length of `s` when the `=` is missing).
pub open spec fn brace_at(s: Seq<char>, a: int, eq: bool) -> int {
    let a2 = if eq {
        digits_end(s, a)
    } else {
        a
    };
    let k1 = a2 + crate::text::lead_ws(s.skip(a2)) as int;
    if !eq {
        k1
    } else if k1 < s.len() && s[k1] == '=' {
        k1 + 1 + crate::text::lead_ws(s.skip(k1 + 1)) as int
    } else {
        s.len() as int
    }
}

/// The color blocks of a lower-cased line: after each `rgb {`, then each
/// `hsv {`, then each `color = {` (or `color1 = {` and the like), the byte
/// offset past the brace and whether it is `hsv`.
pub open spec fn color_prefixes(s: Seq<char>) -> Seq<(int, bool)> {
    brace_after(s, "rgb"@, false, 0, seq![]).map_values(|o: int| (o, false)) + brace_after(
        s,
        "hsv"@,
        false,
        0,
        seq![],
    ).map_values(|o: int| (o, true)) + brace_after(s, "color"@, true, 0, seq![]).map_values(|o: int| (o, false))
}

/// `brace_after` on `s`, as a vector of offsets.
fn brace_after_exec(s: &[char], pat: &[char], eq: bool) -> (r: Vec<usize>)
    requires
        byte_len(s@) < usize::MAX,
    ensures
        r@.map_values(|o: usize| o as int) == brace_after(s@, pat@, eq, 0, seq![]),
{
    let mut out: Vec<usize> = Vec::new();
    let n = s.len();
    let mut j: usize = 0;
    proof {
        assert(out@.map_values(|o: usize| o as int) =~= Seq::<int>::empty());
        assert(s@.take(n as int) =~= s@);
    }
    if pat.len() == 0 {
        return out;
    }
    while j < n
        invariant
            n == s@.len(),
            pat@.len() > 0,
            byte_len(s@) < usize::MAX,
            s@.take(n as int) == s@,
            brace_after(s@, pat@, eq, 0, seq![]) == brace_after(s@, pat@, eq, j as int, out@.map_values(
                |o: usize| o as int,
            )),
        decreases n + pat@.len() - j,
    {
        if pat.len() <= n - j && crate::text::prefix_at(s, j, pat) {
            let a = j + pat.len();
            let mut a2 = a;
            if eq {
                while a2 < n && '0' <= s[a2] && s[a2] <= '9'
                    invariant
                        a <= a2 <= n,
                        n == s@.len(),
                        digits_end(s@, a as int) == digits_end(s@, a2 as int),
                    decreases n - a2,
                {
                    a2 += 1;
                }
            }
            let k1 = crate::text::skip_ws(s, a2, n);
            proof {
                assert(s@.skip(a2 as int) =~= s@.subrange(a2 as int, n as int));
            }
            let k = if !eq {
                k1
            } else if k1 < n && s[k1] == '=' {
                let k2 = crate::text::skip_ws(s, k1 + 1, n);
                proof {
                    assert(s@.skip(k1 + 1) =~= s@.subrange(k1 + 1, n as int));
                }
                k2
            } else {
                n
            };
            proof {
                assert(k == brace_at(s@, a as int, eq));
            }
            if k < n && s[k] == '{' {
                let ghost prev = out@.map_values(|o: usize| o as int);
                let bc = crate::text::byte_len_of(sub_chars(s, 0, k).as_slice());
                proof {
                    assert(s@.subrange(0, k as int) =~= s@.take(k as int));
                    lemma_byte_len_mono(s@, k as int, n as int);
                }
                out.push((bc + 1) as usize);
                proof {
                    assert(out@.map_values(|o: usize| o as int) =~= prev.push(bcol(s@, k as int) + 1));
                }
            }
            j = a;
        } else {
            proof {
                if pat@.len() > n - j {
                    assert(!crate::text::has_prefix_at(s@, j as int, pat@));
                }
            }
            j += 1;
        }
    }
    out
}

pub open spec fn tagged_offsets(offs: Seq<usize>, hsv: bool) -> Seq<(int, bool)> {
    offs.map_values(|o: usize| (o as int, hsv))
}

fn push_tagged(out: &mut Vec<(usize, bool)>, offs: &Vec<usize>, hsv: bool)
    ensures
        final(out)@.map_values(|p: (usize, bool)| (p.0 as int, p.1)) == old(out)@.map_values(
            |p: (usize, bool)| (p.0 as int, p.1),
        ) + tagged_offsets(offs@, hsv),
{
    let ghost start = out@.map_values(|p: (usize, bool)| (p.0 as int, p.1));
    let mut i: usize = 0;
    while i < offs.len()
        invariant
            i <= offs@.len(),
            out@.map_values(|p: (usize, bool)| (p.0 as int, p.1)) == start + tagged_offsets(offs@.take(i as int), hsv),
        decreases offs@.len() - i,
    {
        let ghost prev = out@.map_values(|p: (usize, bool)| (p.0 as int, p.1));
        out.push((offs[i], hsv));
        proof {
            assert(out@.map_values(|p: (usize, bool)| (p.0 as int, p.1)) =~= prev.push((offs@[i as int] as int, hsv)));
            assert(tagged_offsets(offs@.take(i + 1), hsv) =~= tagged_offsets(offs@.take(i as int), hsv).push(
                (offs@[i as int] as int, hsv),
            ));
        }
        i += 1;
    }
    proof {
        assert(offs@.take(offs@.len() as int) =~= offs@);
    }
}

proof fn lemma_tagged(offs: Seq<usize>, b: Seq<int>, hsv: bool)
    requires
        offs.map_values(|o: usize| o as int) == b,
    ensures
        tagged_offsets(offs, hsv) == b.map_values(|o: int| (o, hsv)),
{
    assert forall|k: int| 0 <= k < offs.len() implies tagged_offsets(offs, hsv)[k] == b.map_values(
        |o: int| (o, hsv),
    )[k] by {
        assert(b[k] == offs[k] as int);
    }
    assert(tagged_offsets(offs, hsv) =~= b.map_values(|o: int| (o, hsv)));
}

/// The color blocks of a lower-cased line (see `color_prefixes`).
pub fn find_color_prefix_positions(lower: &str) -> (r: Vec<(usize, bool)>)
    requires
        byte_len(lower@) < usize::MAX,
    ensures
        r@.map_values(|p: (usize, bool)| (p.0 as int, p.1)) == color_prefixes(lower@),
{
    let cs = chars_of(lower);
    let rgb = brace_after_exec(cs.as_slice(), chars_of("rgb").as_slice(), false);
    let hsv = brace_after_exec(cs.as_slice(), chars_of("hsv").as_slice(), false);
    let col = brace_after_exec(cs.as_slice(), chars_of("color").as_slice(), true);
    let mut out: Vec<(usize, bool)> = Vec::new();
    proof {
        assert(out@.map_values(|p: (usize, bool)| (p.0 as int, p.1)) =~= Seq::<(int, bool)>::empty());
    }
    push_tagged(&mut out, &rgb, false);
    push_tagged(&mut out, &hsv, true);
    push_tagged(&mut out, &col, false);
    proof {
        lemma_tagged(rgb@, brace_after(lower@, "rgb"@, false, 0, seq![]), false);
        lemma_tagged(hsv@, brace_after(lower@, "hsv"@, false, 0, seq![]), true);
        lemma_tagged(col@, brace_after(lower@, "color"@, true, 0, seq![]), false);
        assert(out@.map_values(|p: (usize, bool)| (p.0 as int, p.1)) =~= color_prefixes(lower@));
    }
    out
}


// ─── Links ───────────────────────────────────────────────────────────────────

pub open spec fn http_pat() -> Seq<char> {
    seq!['h', 't', 't', 'p', ':', '/', '/']
}

pub open spec fn https_pat() -> Seq<char> {
    seq!['h', 't', 't', 'p', 's', ':', '/', '/']
}

/// First index from `k` on where `p` occurs in `l`.
pub open spec fn find_from(l: Seq<char>, k: int, p: Seq<char>) -> Option<int>
    decreases l.len() - k,
{
    if k < 0 || k >= l.len() {
        None
    } else if crate::text::has_prefix_at(l, k, p) {
        Some(k)
    } else {
        find_from(l, k + 1, p)
    }
}

/// Where the next link starts: the next `http://`, or else the next
/// `https://`.
pub open spec fn link_start(l: Seq<char>, k: int) -> Option<int> {
    match find_from(l, k, http_pat()) {
        Some(x) => Some(x),
        None => find_from(l, k, https_pat()),
    }
}

/// A character that ends a link.
pub open spec fn url_stop(c: char) -> bool {
    is_ws(c) || c == ')' || c == '"' || c == '\''
}

/// First index from `k` on holding a character that ends a link, or the end.
pub open spec fn stop_from(l: Seq<char>, k: int) -> int
    decreases l.len() - k,
{
    if k < 0 || k >= l.len() || url_stop(l[k]) {
        k
    } else {
        stop_from(l, k + 1)
    }
}

pub proof fn lemma_find_from(l: Seq<char>, k: int, p: Seq<char>)
    requires
        0 <= k,
    ensures
        match find_from(l, k, p) {
            Some(x) => k <= x < l.len() && crate::text::has_prefix_at(l, x, p) && forall|j: int|
                k <= j < x ==> !#[trigger] crate::text::has_prefix_at(l, j, p),
            None => forall|j: int| k <= j < l.len() ==> !#[trigger] crate::text::has_prefix_at(l, j, p),
        },
    decreases l.len() - k,
{
    if k < l.len() && !crate::text::has_prefix_at(l, k, p) {
        lemma_find_from(l, k + 1, p);
    }
}

pub proof fn lemma_stop_from(l: Seq<char>, k: int)
    requires
        0 <= k <= l.len(),
    ensures
        k <= stop_from(l, k) <= l.len(),
        forall|j: int| k <= j < stop_from(l, k) ==> !url_stop(#[trigger] l[j]),
        stop_from(l, k) < l.len() ==> url_stop(l[stop_from(l, k)]),
    decreases l.len() - k,
{
    if k < l.len() && !url_stop(l[k]) {
        lemma_stop_from(l, k + 1);
    }
}

pub proof fn lemma_link_progress(l: Seq<char>, k: int)
    requires
        0 <= k,
        link_start(l, k) is Some,
    ensures
        k <= link_start(l, k).unwrap() < stop_from(l, link_start(l, k).unwrap()),
{
    lemma_find_from(l, k, http_pat());
    lemma_find_from(l, k, https_pat());
    let s = link_start(l, k).unwrap();
    assert(l[s] == 'h') by {
        if find_from(l, k, http_pat()) is Some {
            assert(l.subrange(s, s + 7)[0] == l[s]);
        } else {
            assert(l.subrange(s, s + 8)[0] == l[s]);
        }
    }
    assert(!url_stop(l[s]));
    lemma_stop_from(l, s + 1);
}

/// The links of line `l` (number `li`) from character `k` on, appended to
/// `acc`: each `http://` or `https://` up to the next blank, `)`, `"` or
/// `'`, with its byte range.
pub open spec fn link_scan(l: Seq<char>, li: u32, k: int, acc: Seq<(Range, Seq<char>)>) -> Seq<(Range, Seq<char>)>
    decreases l.len() - k,
{
    if k < 0 {
        acc
    } else {
        match link_start(l, k) {
            None => acc,
            Some(s) => {
                let e = stop_from(l, s);
                proof {
                    lemma_link_progress(l, k);
                    lemma_find_from(l, k, http_pat());
                    lemma_find_from(l, k, https_pat());
                    lemma_stop_from(l, s);
                }
                link_scan(
                    l,
                    li,
                    e,
                    acc.push((crate::model::span(li, bcol(l, s) as u32, li, bcol(l, e) as u32), l.subrange(s, e))),
                )
            },
        }
    }
}

/// The link candidates of lines `i..`, appended to `acc`.
pub open spec fn link_lines(ls: Seq<Seq<char>>, i: int, acc: Seq<(Range, Seq<char>)>) -> Seq<(Range, Seq<char>)>
    decreases ls.len() - i,
{
    if i < 0 || i >= ls.len() {
        acc
    } else {
        link_lines(ls, i + 1, link_scan(ls[i], i as u32, 0, acc))
    }
}

fn find_from_exec(l: &[char], k: usize, p: &Vec<char>) -> (r: Option<usize>)
    requires
        k <= l@.len(),
    ensures
        match find_from(l@, k as int, p@) {
            Some(x) => r == Some(x as usize),
            None => r is None,
        },
{
    let mut j = k;
    while j < l.len()
        invariant
            k <= j <= l@.len(),
            find_from(l@, k as int, p@) == find_from(l@, j as int, p@),
        decreases l@.len() - j,
    {
        if p.len() <= l.len() - j && crate::text::prefix_at(l, j, p.as_slice()) {
            return Some(j);
        }
        proof {
            if p@.len() > l@.len() - j {
                assert(!crate::text::has_prefix_at(l@, j as int, p@));
            }
        }
        j += 1;
    }
    None
}

/// Every link-like span of `text` (see `link_lines`), parsable or not.
pub fn link_candidates(text: &str) -> (r: Vec<(Range, String)>)
    ensures
        r@.map_values(|c: (Range, String)| (c.0, c.1@)) == link_lines(lines_of(text@), 0, seq![]),
{
    let cs = chars_of(text);
    let ls = split_lines(cs.as_slice());
    let ghost lsv = views(ls@);
    let http = chars_of("http://");
    let https = chars_of("https://");
    proof {
        reveal_strlit("http://");
        reveal_strlit("https://");
        assert(http@ =~= http_pat());
        assert(https@ =~= https_pat());
    }
    let mut out: Vec<(Range, String)> = Vec::new();
    let ghost total = link_lines(lsv, 0, seq![]);
    let mut i: usize = 0;
    proof {
        assert(out@.map_values(|c: (Range, String)| (c.0, c.1@)) =~= Seq::<(Range, Seq<char>)>::empty());
    }
    while i < ls.len()
        invariant
            lsv == views(ls@),
            lsv == lines_of(text@),
            http@ == http_pat(),
            https@ == https_pat(),
            i <= lsv.len(),
            total == link_lines(lsv, i as int, out@.map_values(|c: (Range, String)| (c.0, c.1@))),
        decreases lsv.len() - i,
    {
        let l = ls[i].as_slice();
        proof {
            assert(l@ == lsv[i as int]);
        }
        let li = #[verifier::truncate] (i as u32);
        let ghost acc0 = out@.map_values(|c: (Range, String)| (c.0, c.1@));
        let mut k: usize = 0;
        loop
            invariant
                k <= l@.len(),
                http@ == http_pat(),
                https@ == https_pat(),
                li == i as u32,
                link_scan(l@, li, 0, acc0) == link_scan(l@, li, k as int, out@.map_values(
                    |c: (Range, String)| (c.0, c.1@),
                )),
            ensures
                link_scan(l@, li, 0, acc0) == out@.map_values(|c: (Range, String)| (c.0, c.1@)),
            decreases l@.len() - k,
        {
            let st = match find_from_exec(l, k, &http) {
                Some(x) => Some(x),
                None => find_from_exec(l, k, &https),
            };
            match st {
                None => {
                    break;
                },
                Some(s0) => {
                    proof {
                        lemma_link_progress(l@, k as int);
                        lemma_stop_from(l@, s0 as int);
                    }
                    let mut e = s0;
                    while e < l.len() && !(is_whitespace_char(l[e]) || l[e] == ')' || l[e] == '"' || l[e] == '\'')
                        invariant
                            s0 <= e <= l@.len(),
                            stop_from(l@, s0 as int) == stop_from(l@, e as int),
                        decreases l@.len() - e,
                    {
                        e += 1;
                    }
                    let b0 = crate::text::byte_len_of(sub_chars(l, 0, s0).as_slice());
                    let b1 = crate::text::byte_len_of(sub_chars(l, 0, e).as_slice());
                    proof {
                        assert(l@.subrange(0, s0 as int) =~= l@.take(s0 as int));
                        assert(l@.subrange(0, e as int) =~= l@.take(e as int));
                    }
                    let r = Range {
                        start: Position { line: li, character: #[verifier::truncate] (b0 as u32) },
                        end: Position { line: li, character: #[verifier::truncate] (b1 as u32) },
                    };
                    let ghost prev = out@.map_values(|c: (Range, String)| (c.0, c.1@));
                    out.push((r, string_of(l, s0, e)));
                    proof {
                        assert(out@.map_values(|c: (Range, String)| (c.0, c.1@)) =~= prev.push(
                            (r, l@.subrange(s0 as int, e as int)),
                        ));
                    }
                    k = e;
                },
            }
        }
        i += 1;
    }
    out
}

fn is_whitespace_char(c: char) -> (b: bool)
    ensures
        b == is_ws(c),
{
    crate::text::is_whitespace(c)
}

/// What `Url::parse` gives for a string, written out (`None` when it does
/// not parse).
pub uninterp spec fn parsed_url(s: Seq<char>) -> Option<Seq<char>>;

/// `Url::parse` (the `url` crate, through `tower_lsp::lsp_types`), its URL
/// written out as a string. Its result is named `parsed_url`: which strings
/// parse, and how the URL is normalised, is the `url` crate's and not stated.
#[verifier::external_body]
fn parse_url(s: &str) -> (r: Option<String>)
    ensures
        match r {
            Some(t) => parsed_url(s@) == Some(t@),
            None => parsed_url(s@) is None,
        },
{
    match tower_lsp::lsp_types::Url::parse(s) {
        Ok(u) => Some(String::from(u)),
        Err(_) => None,
    }
}

/// A link in a document: its range and the URL it points to.
#[derive(Debug)]
pub struct DocumentLink {
    pub range: Range,
    pub target: String,
}

/// The candidates that parse as URLs, with the URL as parsed.
pub open spec fn parsed_links(cands: Seq<(Range, Seq<char>)>) -> Seq<(Range, Seq<char>)>
    decreases cands.len(),
{
    if cands.len() == 0 {
        seq![]
    } else {
        let p = parsed_links(cands.drop_last());
        match parsed_url(cands.last().1) {
            Some(u) => p.push((cands.last().0, u)),
            None => p,
        }
    }
}

/// The links of a document: each link-like span (see `link_candidates`)
/// that parses as a URL.
pub fn document_links(text: &str) -> (r: Vec<DocumentLink>)
    ensures
        r@.map_values(|d: DocumentLink| (d.range, d.target@)) == parsed_links(link_lines(lines_of(text@), 0, seq![])),
{
    let cands = link_candidates(text);
    let ghost cv = cands@.map_values(|c: (Range, String)| (c.0, c.1@));
    let mut out: Vec<DocumentLink> = Vec::new();
    let mut i: usize = 0;
    proof {
        assert(cv.take(0) =~= Seq::<(Range, Seq<char>)>::empty());
        assert(out@.map_values(|d: DocumentLink| (d.range, d.target@)) =~= Seq::<(Range, Seq<char>)>::empty());
    }
    while i < cands.len()
        invariant
            i <= cands@.len(),
            cv == cands@.map_values(|c: (Range, String)| (c.0, c.1@)),
            out@.map_values(|d: DocumentLink| (d.range, d.target@)) == parsed_links(cv.take(i as int)),
        decreases cands@.len() - i,
    {
        proof {
            assert(cv.take(i + 1).drop_last() =~= cv.take(i as int));
            assert(cv.take(i + 1).last() == (cands@[i as int].0, cands@[i as int].1@));
        }
        let ghost prev = out@.map_values(|d: DocumentLink| (d.range, d.target@));
        match parse_url(cands[i].1.as_str()) {
            Some(t) => {
                let d = DocumentLink { range: cands[i].0, target: t };
                out.push(d);
                proof {
                    assert(out@.map_values(|d: DocumentLink| (d.range, d.target@)) =~= prev.push((d.range, d.target@)));
                }
            },
            None => {},
        }
        i += 1;
    }
    proof {
        assert(cv.take(cv.len() as int) =~= cv);
    }
    out
}

} // verus!
