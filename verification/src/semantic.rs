//! Semantic tokens: the classified spans of a script, delta-encoded as the
//! editor protocol sends them.
use vstd::prelude::*;
use crate::symbols::bcol;
use crate::text::{
    byte_len, chars_eq, chars_of, find_char, first_of, is_alphanumeric, is_ascii_digit,
    is_ascii_digit_spec, is_ws, lead_ws, lemma_byte_len_mono, lemma_byte_len_step, lemma_first_of,
    lines_of, skip_ws, split_lines, string_views, sub_chars, unicode_alphanumeric, views, width_of,
};

verus! {

/// Token type: a language keyword (`yes`, `AND`, `if`, ...).
pub const KEYWORD: u32 = 0;
/// Token type: an engine built-in or a scripted item of the mod.
pub const FUNCTION: u32 = 1;
/// Token type: an `@variable`.
pub const VARIABLE: u32 = 2;
/// Token type: a quoted string.
pub const STRING: u32 = 3;
/// Token type: a whole-line comment.
pub const COMMENT: u32 = 4;
/// Token type: a number.
pub const NUMBER: u32 = 5;
/// Token type: the prefix of `prefix:value`.
pub const NAMESPACE: u32 = 6;
/// Token type: the value of `prefix:value`.
pub const ENUM_MEMBER: u32 = 7;
/// Token modifier: the token is where the item is defined.
pub const DEFINITION: u32 = 1;

/// One token relative to the one before it (the first relative to line 0,
/// column 0); columns are UTF-8 byte offsets.
#[derive(Clone, Copy, Debug, PartialEq, Eq)]
pub struct SemanticToken {
    pub delta_line: u32,
    pub delta_start: u32,
    pub length: u32,
    pub token_type: u32,
    pub token_modifiers_bitset: u32,
}

/// A token at an absolute place: (line, byte start, byte length, type, modifiers).
pub type Tok = (int, int, int, u32, u32);

// ─── Character classes ───────────────────────────────────────────────────────

pub open spec fn num_char(c: char) -> bool {
    is_ascii_digit_spec(c) || c == '.'
}

pub open spec fn id_start_char(c: char) -> bool {
    unicode_alphanumeric(c) || c == '_' || c == '@'
}

pub open spec fn id_char(c: char) -> bool {
    unicode_alphanumeric(c) || c == '_' || c == '.' || c == ':'
}

pub open spec fn plain_char(c: char) -> bool {
    unicode_alphanumeric(c) || c == '_'
}

/// End of the run of number characters from `k`.
pub open spec fn num_end(l: Seq<char>, k: int) -> int
    decreases l.len() - k,
{
    if k < 0 || k >= l.len() || !num_char(l[k]) {
        k
    } else {
        num_end(l, k + 1)
    }
}

/// End of the run of identifier characters from `k`.
pub open spec fn id_end(l: Seq<char>, k: int) -> int
    decreases l.len() - k,
{
    if k < 0 || k >= l.len() || !id_char(l[k]) {
        k
    } else {
        id_end(l, k + 1)
    }
}

/// Where a string token that opens at `a` ends: just past its closing
/// quote, or at the end of the line when it has none.
pub open spec fn string_end(l: Seq<char>, a: int) -> int {
    let q = a + 1 + first_of(l.skip(a + 1), '"');
    if q >= l.len() {
        l.len() as int
    } else {
        q + 1
    }
}

/// A word the language reserves.
pub open spec fn keyword(w: Seq<char>) -> bool {
    ||| w == "yes"@
    ||| w == "no"@
    ||| w == "AND"@
    ||| w == "OR"@
    ||| w == "NOT"@
    ||| w == "NOR"@
    ||| w == "NAND"@
    ||| w == "if"@
    ||| w == "else"@
    ||| w == "else_if"@
    ||| w == "trigger_if"@
    ||| w == "trigger_else"@
    ||| w == "trigger_else_if"@
    ||| w == "switch"@
    ||| w == "limit"@
}

/// `w` is `prefix:value` with both parts non-empty and a prefix of letters,
/// digits and `_` (split at the first `:`).
pub open spec fn tagged(w: Seq<char>) -> bool {
    let c = first_of(w, ':');
    &&& c < w.len()
    &&& c > 0
    &&& c + 1 < w.len()
    &&& forall|i: int| 0 <= i < c ==> plain_char(#[trigger] w[i])
}

/// Tokens of line `l` (number `li`) from character `k` on, appended to `acc`.
pub open spec fn line_scan(
    l: Seq<char>,
    li: int,
    k: int,
    acc: Seq<Tok>,
    builtins: Seq<Seq<char>>,
    defs: Seq<Seq<char>>,
) -> Seq<Tok>
    decreases l.len() - k,
{
    if k < 0 || k >= l.len() || l[k] == '#' {
        acc
    } else if l[k] == '"' {
        let e = string_end(l, k);
        proof {
            lemma_string_end(l, k);
        }
        let n = bcol(l, e) - bcol(l, k);
        line_scan(l, li, e, if n > 0 { acc.push((li, bcol(l, k), n, STRING, 0u32)) } else { acc }, builtins, defs)
    } else if is_ascii_digit_spec(l[k]) || (l[k] == '-' && k + 1 < l.len() && is_ascii_digit_spec(l[k + 1])) {
        let e = num_end(l, k + 1);
        proof {
            lemma_num_end(l, k + 1);
        }
        let n = bcol(l, e) - bcol(l, k);
        line_scan(l, li, e, if n > 0 { acc.push((li, bcol(l, k), n, NUMBER, 0u32)) } else { acc }, builtins, defs)
    } else if id_start_char(l[k]) {
        let e = id_end(l, k + 1);
        proof {
            lemma_id_end(l, k + 1);
        }
        let w = l.subrange(k, e);
        let s = bcol(l, k);
        let n = bcol(l, e) - s;
        let next = if tagged(w) {
            let cp = k + first_of(w, ':');
            acc.push((li, s, bcol(l, cp) - s, NAMESPACE, 0u32)).push(
                (li, bcol(l, cp + 1), bcol(l, e) - bcol(l, cp + 1), ENUM_MEMBER, 0u32),
            )
        } else if l[k] == '@' {
            acc.push((li, s, n, VARIABLE, 0u32))
        } else if keyword(w) {
            acc.push((li, s, n, KEYWORD, 0u32))
        } else if builtins.contains(w) {
            acc.push((li, s, n, FUNCTION, 0u32))
        } else if defs.contains(w) {
            let m = if forall|j: int| 0 <= j < k ==> is_ws(#[trigger] l[j]) {
                DEFINITION
            } else {
                0u32
            };
            acc.push((li, s, n, FUNCTION, m))
        } else {
            acc
        };
        line_scan(l, li, e, next, builtins, defs)
    } else {
        line_scan(l, li, k + 1, acc, builtins, defs)
    }
}

/// Tokens of line `i` appended to `acc`: a line whose first non-blank
/// character is `#` is one comment token, any other is scanned.
pub open spec fn line_tokens(ls: Seq<Seq<char>>, i: int, acc: Seq<Tok>, builtins: Seq<Seq<char>>, defs: Seq<Seq<char>>) -> Seq<Tok> {
    let l = ls[i];
    let k0 = lead_ws(l) as int;
    if k0 < l.len() && l[k0] == '#' {
        acc.push((i, bcol(l, k0), bcol(l, l.len() as int) - bcol(l, k0), COMMENT, 0u32))
    } else {
        line_scan(l, i, 0, acc, builtins, defs)
    }
}

/// Tokens of lines `i..`, appended to `acc`.
pub open spec fn doc_tokens(ls: Seq<Seq<char>>, i: int, acc: Seq<Tok>, builtins: Seq<Seq<char>>, defs: Seq<Seq<char>>) -> Seq<Tok>
    decreases ls.len() - i,
{
    if i < 0 || i >= ls.len() {
        acc
    } else {
        doc_tokens(ls, i + 1, line_tokens(ls, i, acc, builtins, defs), builtins, defs)
    }
}

/// Line and start of the token before the last, or the origin.
pub open spec fn prev_of(t: Seq<Tok>) -> (int, int) {
    if t.len() == 0 {
        (0, 0)
    } else {
        (t.last().0, t.last().1)
    }
}

/// `x` relative to the place `p`.
pub open spec fn relative(x: Tok, p: (int, int)) -> SemanticToken {
    SemanticToken {
        delta_line: (x.0 - p.0) as u32,
        delta_start: (if x.0 == p.0 {
            x.1 - p.1
        } else {
            x.1
        }) as u32,
        length: x.2 as u32,
        token_type: x.3,
        token_modifiers_bitset: x.4,
    }
}

/// Each token relative to the one before it.
pub open spec fn delta_encode(t: Seq<Tok>) -> Seq<SemanticToken>
    decreases t.len(),
{
    if t.len() == 0 {
        seq![]
    } else {
        delta_encode(t.drop_last()).push(relative(t.last(), prev_of(t.drop_last())))
    }
}


/// The absolute line and start of each delta-encoded token: a token on the
/// line of the one before it starts that many columns after it, a token on a
/// later line starts at its own column.
pub open spec fn decode(s: Seq<SemanticToken>) -> Seq<(int, int)>
    decreases s.len(),
{
    if s.len() == 0 {
        seq![]
    } else {
        let p = decode(s.drop_last());
        let prev = if p.len() == 0 {
            (0int, 0int)
        } else {
            p.last()
        };
        let d = s.last();
        p.push(
            if d.delta_line == 0 {
                (prev.0, prev.1 + d.delta_start)
            } else {
                (prev.0 + d.delta_line, d.delta_start as int)
            },
        )
    }
}

/// Tokens in document order, with lines, starts and lengths that fit 32 bits.
pub open spec fn in_document_order(t: Seq<Tok>) -> bool {
    &&& forall|j: int|
        0 <= j < t.len() ==> 0 <= (#[trigger] t[j]).0 <= u32::MAX && 0 <= t[j].1 <= u32::MAX && 0 <= t[j].2
            <= u32::MAX
    &&& forall|j: int|
        0 < j < t.len() ==> t[j - 1].0 < (#[trigger] t[j]).0 || (t[j - 1].0 == t[j].0 && t[j - 1].1 <= t[j].1)
}

/// The positions of tokens.
pub open spec fn positions(t: Seq<Tok>) -> Seq<(int, int)> {
    t.map_values(|x: Tok| (x.0, x.1))
}

/// Delta encoding loses nothing: decoding the deltas of tokens in document
/// order gives back each token's line and start.
pub proof fn deltas_decode_to_positions(t: Seq<Tok>)
    requires
        in_document_order(t),
    ensures
        decode(delta_encode(t)) == positions(t),
        delta_encode(t).len() == t.len(),
    decreases t.len(),
{
    if t.len() > 0 {
        let u = t.drop_last();
        assert(in_document_order(u)) by {
            assert forall|j: int| 0 < j < u.len() implies u[j - 1].0 < (#[trigger] u[j]).0 || (u[j - 1].0
                == u[j].0 && u[j - 1].1 <= u[j].1) by {
                assert(u[j] == t[j] && u[j - 1] == t[j - 1]);
            }
        }
        deltas_decode_to_positions(u);
        let e = delta_encode(u);
        let x = t.last();
        let pv = prev_of(u);
        let d = relative(x, pv);
        assert(delta_encode(t) == e.push(d));
        assert(e.push(d).drop_last() =~= e);
        let p = decode(e);
        assert(t[t.len() - 1] == x);
        if u.len() > 0 {
            assert(p.last() == (u.last().0, u.last().1));
            assert(t[t.len() - 2] == u.last());
        }
        assert(decode(e.push(d)) == p.push((x.0, x.1)));
        assert(positions(t) =~= positions(u).push((x.0, x.1)));
    }
}

proof fn lemma_bcol_le(l: Seq<char>, i: int, j: int)
    requires
        0 <= i <= j <= l.len(),
    ensures
        0 <= bcol(l, i) <= bcol(l, j) <= byte_len(l),
{
    lemma_byte_len_mono(l, i, j);
    lemma_byte_len_mono(l, j, l.len() as int);
    assert(l.take(l.len() as int) =~= l);
}

/// `t` ends at or before line `li`, column `c`.
pub open spec fn ends_by(t: Seq<Tok>, li: int, c: int) -> bool {
    t.len() == 0 || t.last().0 < li || (t.last().0 == li && t.last().1 <= c)
}

proof fn lemma_push_ordered(t: Seq<Tok>, x: Tok)
    requires
        in_document_order(t),
        ends_by(t, x.0, x.1),
        0 <= x.0 <= u32::MAX,
        0 <= x.1 <= u32::MAX,
        0 <= x.2 <= u32::MAX,
    ensures
        in_document_order(t.push(x)),
{
    let u = t.push(x);
    assert forall|j: int| 0 <= j < u.len() implies 0 <= (#[trigger] u[j]).0 <= u32::MAX && 0 <= u[j].1
        <= u32::MAX && 0 <= u[j].2 <= u32::MAX by {
        if j < t.len() {
            assert(u[j] == t[j]);
        }
    }
    assert forall|j: int| 0 < j < u.len() implies u[j - 1].0 < (#[trigger] u[j]).0 || (u[j - 1].0 == u[j].0
        && u[j - 1].1 <= u[j].1) by {
        if j < t.len() {
            assert(u[j] == t[j] && u[j - 1] == t[j - 1]);
        } else {
            assert(u[j - 1] == t.last());
        }
    }
}

proof fn lemma_line_scan_ordered(
    l: Seq<char>,
    li: int,
    k: int,
    acc: Seq<Tok>,
    builtins: Seq<Seq<char>>,
    defs: Seq<Seq<char>>,
)
    requires
        0 <= li <= u32::MAX,
        byte_len(l) <= u32::MAX,
        0 <= k <= l.len(),
        in_document_order(acc),
        ends_by(acc, li, bcol(l, k)),
    ensures
        in_document_order(line_scan(l, li, k, acc, builtins, defs)),
        ends_by(line_scan(l, li, k, acc, builtins, defs), li, byte_len(l) as int),
    decreases l.len() - k,
{
    lemma_bcol_le(l, k, l.len() as int);
    if k >= l.len() || l[k] == '#' {
    } else if l[k] == '"' {
        let e = string_end(l, k);
        lemma_string_end(l, k);
        lemma_bcol_le(l, k, e);
        let n = bcol(l, e) - bcol(l, k);
        let next = if n > 0 {
            acc.push((li, bcol(l, k), n, STRING, 0u32))
        } else {
            acc
        };
        if n > 0 {
            lemma_push_ordered(acc, (li, bcol(l, k), n, STRING, 0u32));
        }
        lemma_line_scan_ordered(l, li, e, next, builtins, defs);
    } else if is_ascii_digit_spec(l[k]) || (l[k] == '-' && k + 1 < l.len() && is_ascii_digit_spec(l[k + 1])) {
        let e = num_end(l, k + 1);
        lemma_num_end(l, k + 1);
        lemma_bcol_le(l, k, e);
        let n = bcol(l, e) - bcol(l, k);
        let next = if n > 0 {
            acc.push((li, bcol(l, k), n, NUMBER, 0u32))
        } else {
            acc
        };
        if n > 0 {
            lemma_push_ordered(acc, (li, bcol(l, k), n, NUMBER, 0u32));
        }
        lemma_line_scan_ordered(l, li, e, next, builtins, defs);
    } else if id_start_char(l[k]) {
        let e = id_end(l, k + 1);
        lemma_id_end(l, k + 1);
        lemma_bcol_le(l, k, e);
        let w = l.subrange(k, e);
        let s = bcol(l, k);
        let n = bcol(l, e) - s;
        if tagged(w) {
            let cp = k + first_of(w, ':');
            lemma_bcol_le(l, k, cp);
            lemma_bcol_le(l, cp, cp + 1);
            lemma_bcol_le(l, cp + 1, e);
            let a1 = acc.push((li, s, bcol(l, cp) - s, NAMESPACE, 0u32));
            lemma_push_ordered(acc, (li, s, bcol(l, cp) - s, NAMESPACE, 0u32));
            lemma_push_ordered(a1, (li, bcol(l, cp + 1), bcol(l, e) - bcol(l, cp + 1), ENUM_MEMBER, 0u32));
            lemma_line_scan_ordered(
                l,
                li,
                e,
                a1.push((li, bcol(l, cp + 1), bcol(l, e) - bcol(l, cp + 1), ENUM_MEMBER, 0u32)),
                builtins,
                defs,
            );
        } else if l[k] == '@' {
            lemma_push_ordered(acc, (li, s, n, VARIABLE, 0u32));
            lemma_line_scan_ordered(l, li, e, acc.push((li, s, n, VARIABLE, 0u32)), builtins, defs);
        } else if keyword(w) {
            lemma_push_ordered(acc, (li, s, n, KEYWORD, 0u32));
            lemma_line_scan_ordered(l, li, e, acc.push((li, s, n, KEYWORD, 0u32)), builtins, defs);
        } else if builtins.contains(w) {
            lemma_push_ordered(acc, (li, s, n, FUNCTION, 0u32));
            lemma_line_scan_ordered(l, li, e, acc.push((li, s, n, FUNCTION, 0u32)), builtins, defs);
        } else if defs.contains(w) {
            let m = if forall|j: int| 0 <= j < k ==> is_ws(#[trigger] l[j]) {
                DEFINITION
            } else {
                0u32
            };
            lemma_push_ordered(acc, (li, s, n, FUNCTION, m));
            lemma_line_scan_ordered(l, li, e, acc.push((li, s, n, FUNCTION, m)), builtins, defs);
        } else {
            lemma_line_scan_ordered(l, li, e, acc, builtins, defs);
        }
    } else {
        lemma_bcol_le(l, k, k + 1);
        lemma_line_scan_ordered(l, li, k + 1, acc, builtins, defs);
    }
}

proof fn lemma_doc_tokens_ordered(
    ls: Seq<Seq<char>>,
    i: int,
    acc: Seq<Tok>,
    builtins: Seq<Seq<char>>,
    defs: Seq<Seq<char>>,
)
    requires
        0 <= i,
        ls.len() <= u32::MAX + 1,
        forall|j: int| 0 <= j < ls.len() ==> byte_len(#[trigger] ls[j]) <= u32::MAX,
        in_document_order(acc),
        acc.len() == 0 || acc.last().0 < i,
    ensures
        in_document_order(doc_tokens(ls, i, acc, builtins, defs)),
    decreases ls.len() - i,
{
    if i < ls.len() {
        let l = ls[i];
        let k0 = lead_ws(l) as int;
        let next = line_tokens(ls, i, acc, builtins, defs);
        assert(byte_len(l) <= u32::MAX);
        if k0 < l.len() && l[k0] == '#' {
            lemma_bcol_le(l, k0, l.len() as int);
            lemma_push_ordered(acc, (i, bcol(l, k0), bcol(l, l.len() as int) - bcol(l, k0), COMMENT, 0u32));
        } else {
            assert(bcol(l, 0) == 0) by {
                assert(l.take(0) =~= Seq::<char>::empty());
            }
            lemma_line_scan_ordered(l, i, 0, acc, builtins, defs);
        }
        lemma_doc_tokens_ordered(ls, i + 1, next, builtins, defs);
    }
}

/// The semantic tokens of a document decode to the tokens it is scanned
/// into: the deltas give back each token's line and start.
pub proof fn semantic_tokens_decode(text: Seq<char>, builtins: Seq<Seq<char>>, defs: Seq<Seq<char>>)
    requires
        lines_of(text).len() <= u32::MAX,
        forall|i: int| 0 <= i < lines_of(text).len() ==> byte_len(#[trigger] lines_of(text)[i]) <= u32::MAX,
    ensures
        decode(delta_encode(doc_tokens(lines_of(text), 0, seq![], builtins, defs))) == positions(
            doc_tokens(lines_of(text), 0, seq![], builtins, defs),
        ),
{
    lemma_doc_tokens_ordered(lines_of(text), 0, seq![], builtins, defs);
    deltas_decode_to_positions(doc_tokens(lines_of(text), 0, seq![], builtins, defs));
}

// ─── Scanning ────────────────────────────────────────────────────────────────

/// The byte column of every character of `l`, and of its end.
fn line_columns(l: &[char]) -> (cols: Vec<u32>)
    requires
        byte_len(l@) <= u32::MAX,
    ensures
        cols@.len() == l@.len() + 1,
        forall|i: int| 0 <= i <= l@.len() ==> #[trigger] cols@[i] == bcol(l@, i),
{
    let mut cols: Vec<u32> = Vec::new();
    cols.push(0);
    proof {
        assert(l@.take(0).len() == 0);
        assert(l@.take(l@.len() as int) =~= l@);
    }
    let mut acc: u32 = 0;
    let mut i: usize = 0;
    while i < l.len()
        invariant
            byte_len(l@) <= u32::MAX,
            l@.take(l@.len() as int) == l@,
            i <= l@.len(),
            cols@.len() == i + 1,
            acc == bcol(l@, i as int),
            forall|k: int| 0 <= k <= i ==> #[trigger] cols@[k] == bcol(l@, k),
        decreases l@.len() - i,
    {
        proof {
            lemma_byte_len_step(l@, i as int);
            lemma_byte_len_mono(l@, i + 1, l@.len() as int);
        }
        acc = acc + width_of(l[i]) as u32;
        cols.push(acc);
        i += 1;
    }
    cols
}

proof fn lemma_cols_mono(l: Seq<char>, a: int, b: int)
    requires
        0 <= a <= b <= l.len(),
    ensures
        bcol(l, a) + (b - a) <= bcol(l, b),
{
    lemma_byte_len_mono(l, a, b);
}

/// Append `x` relative to the previous token `(prev_line, prev_start)`.
fn emit(
    out: &mut Vec<SemanticToken>,
    prev_line: &mut u32,
    prev_start: &mut u32,
    line: u32,
    start: u32,
    length: u32,
    token_type: u32,
    mods: u32,
)
    requires
        *old(prev_line) <= line,
        *old(prev_line) == line ==> *old(prev_start) <= start,
    ensures
        final(out)@ == old(out)@.push(
            relative(
                (line as int, start as int, length as int, token_type, mods),
                (*old(prev_line) as int, *old(prev_start) as int),
            ),
        ),
        *final(prev_line) == line,
        *final(prev_start) == start,
{
    let delta_line = line - *prev_line;
    let delta_start = if line == *prev_line {
        start - *prev_start
    } else {
        start
    };
    out.push(SemanticToken { delta_line, delta_start, length, token_type, token_modifiers_bitset: mods });
    *prev_line = line;
    *prev_start = start;
}

proof fn lemma_delta_push(acc: Seq<Tok>, x: Tok)
    ensures
        delta_encode(acc.push(x)) == delta_encode(acc).push(relative(x, prev_of(acc))),
        prev_of(acc.push(x)) == (x.0, x.1),
{
    assert(acc.push(x).drop_last() =~= acc);
}

fn is_keyword(w: &[char]) -> (b: bool)
    ensures
        b == keyword(w@),
{
    chars_eq(w, chars_of("yes").as_slice()) || chars_eq(w, chars_of("no").as_slice()) || chars_eq(
        w,
        chars_of("AND").as_slice(),
    ) || chars_eq(w, chars_of("OR").as_slice()) || chars_eq(w, chars_of("NOT").as_slice()) || chars_eq(
        w,
        chars_of("NOR").as_slice(),
    ) || chars_eq(w, chars_of("NAND").as_slice()) || chars_eq(w, chars_of("if").as_slice()) || chars_eq(
        w,
        chars_of("else").as_slice(),
    ) || chars_eq(w, chars_of("else_if").as_slice()) || chars_eq(w, chars_of("trigger_if").as_slice())
        || chars_eq(w, chars_of("trigger_else").as_slice()) || chars_eq(
        w,
        chars_of("trigger_else_if").as_slice(),
    ) || chars_eq(w, chars_of("switch").as_slice()) || chars_eq(w, chars_of("limit").as_slice())
}

/// Whether `w` is one of `names`.
pub fn contains_word(names: &[String], w: &[char]) -> (b: bool)
    ensures
        b == string_views(names@).contains(w@),
{
    let ghost sv = string_views(names@);
    let mut i: usize = 0;
    while i < names.len()
        invariant
            i <= names@.len(),
            sv == string_views(names@),
            forall|j: int| 0 <= j < i ==> sv[j] != w@,
        decreases names@.len() - i,
    {
        let nc = chars_of(names[i].as_str());
        if chars_eq(nc.as_slice(), w) {
            proof {
                assert(sv[i as int] == w@);
            }
            return true;
        }
        i += 1;
    }
    false
}

fn is_plain(c: char) -> (b: bool)
    ensures
        b == plain_char(c),
{
    is_alphanumeric(c) || c == '_'
}

fn all_plain(l: &[char], from: usize, to: usize) -> (b: bool)
    requires
        from <= to <= l@.len(),
    ensures
        b == forall|j: int| from <= j < to ==> plain_char(#[trigger] l@[j]),
{
    let mut j = from;
    while j < to
        invariant
            from <= j <= to <= l@.len(),
            forall|m: int| from <= m < j ==> plain_char(#[trigger] l@[m]),
        decreases to - j,
    {
        if !is_plain(l[j]) {
            return false;
        }
        j += 1;
    }
    true
}

fn all_ws_before(l: &[char], k: usize) -> (b: bool)
    requires
        k <= l@.len(),
    ensures
        b == forall|j: int| 0 <= j < k ==> is_ws(#[trigger] l@[j]),
{
    skip_ws_is_end(l, k)
}

fn skip_ws_is_end(l: &[char], k: usize) -> (b: bool)
    requires
        k <= l@.len(),
    ensures
        b == forall|j: int| 0 <= j < k ==> is_ws(#[trigger] l@[j]),
{
    let mut j: usize = 0;
    while j < k
        invariant
            j <= k <= l@.len(),
            forall|m: int| 0 <= m < j ==> is_ws(#[trigger] l@[m]),
        decreases k - j,
    {
        if !crate::text::is_whitespace(l[j]) {
            return false;
        }
        j += 1;
    }
    true
}

fn num_end_exec(l: &[char], k: usize) -> (e: usize)
    requires
        k <= l@.len(),
    ensures
        e == num_end(l@, k as int),
{
    proof {
        lemma_num_end(l@, k as int);
    }
    let mut e = k;
    while e < l.len() && (is_ascii_digit(l[e]) || l[e] == '.')
        invariant
            k <= e <= num_end(l@, k as int) <= l@.len(),
            num_end(l@, e as int) == num_end(l@, k as int),
        decreases l@.len() - e,
    {
        proof {
            lemma_num_end(l@, e + 1);
        }
        e += 1;
    }
    e
}

fn id_end_exec(l: &[char], k: usize) -> (e: usize)
    requires
        k <= l@.len(),
    ensures
        e == id_end(l@, k as int),
{
    proof {
        lemma_id_end(l@, k as int);
    }
    let mut e = k;
    while e < l.len() && (is_alphanumeric(l[e]) || l[e] == '_' || l[e] == '.' || l[e] == ':')
        invariant
            k <= e <= id_end(l@, k as int) <= l@.len(),
            id_end(l@, e as int) == id_end(l@, k as int),
        decreases l@.len() - e,
    {
        proof {
            lemma_id_end(l@, e + 1);
        }
        e += 1;
    }
    e
}

fn string_end_exec(l: &[char], a: usize) -> (e: usize)
    requires
        a < l@.len(),
    ensures
        e == string_end(l@, a as int),
        a < e <= l@.len(),
{
    proof {
        lemma_string_end(l@, a as int);
    }
    let ghost t = l@.skip(a + 1);
    let n = l.len();
    match find_char(l, a + 1, n, '"') {
        None => {
            proof {
                assert forall|j: int| 0 <= j < t.len() implies #[trigger] t[j] != '"' by {
                    assert(t[j] == l@[a + 1 + j]);
                }
                lemma_first_of(t, '"', t.len() as int);
            }
            l.len()
        },
        Some(q) => {
            proof {
                assert forall|j: int| 0 <= j < q - a - 1 implies #[trigger] t[j] != '"' by {
                    assert(t[j] == l@[a + 1 + j]);
                }
                assert(t[q - a - 1] == l@[q as int]);
                lemma_first_of(t, '"', q - a - 1);
            }
            q + 1
        },
    }
}


/// The scan state a step of the line scan needs: `out` holds the tokens so far,
/// `prev` is the place of the last one, and it lies at or before column `k`
/// of line `li`.
pub open spec fn scan_ready(
    line: Seq<char>,
    cols: Seq<u32>,
    li: u32,
    k: int,
    out: Seq<SemanticToken>,
    prev_line: u32,
    prev_start: u32,
    acc: Seq<Tok>,
) -> bool {
    &&& 0 <= k <= line.len()
    &&& cols.len() == line.len() + 1
    &&& forall|m: int| 0 <= m <= line.len() ==> #[trigger] cols[m] == bcol(line, m)
    &&& byte_len(line) <= u32::MAX
    &&& out == delta_encode(acc)
    &&& (prev_line as int, prev_start as int) == prev_of(acc)
    &&& prev_line <= li
    &&& prev_line == li ==> prev_start <= cols[k]
}

/// One step of the line scan at an identifier start `k`: the word token, if
/// the word is one to highlight.
fn scan_word(
    line: &[char],
    cols: &Vec<u32>,
    li: u32,
    k: usize,
    builtin_names: &[String],
    definition_names: &[String],
    out: &mut Vec<SemanticToken>,
    prev_line: &mut u32,
    prev_start: &mut u32,
    Ghost(acc): Ghost<Seq<Tok>>,
) -> (res: (usize, Ghost<Seq<Tok>>))
    requires
        k < line@.len(),
        id_start_char(line@[k as int]),
        !is_ascii_digit_spec(line@[k as int]),
        line@[k as int] != '-',
        line@[k as int] != '#',
        line@[k as int] != '"',
        scan_ready(line@, cols@, li, k as int, old(out)@, *old(prev_line), *old(prev_start), acc),
    ensures
        k < res.0 <= line@.len(),
        line_scan(line@, li as int, k as int, acc, string_views(builtin_names@), string_views(definition_names@))
            == line_scan(line@, li as int, res.0 as int, res.1@, string_views(builtin_names@), string_views(definition_names@)),
        scan_ready(line@, cols@, li, res.0 as int, final(out)@, *final(prev_line), *final(prev_start), res.1@),
{
    let ghost mut acc = acc;
    let c = line[k];
    let e = id_end_exec(line, k + 1);
    proof {
        lemma_id_end(line@, k + 1);
        lemma_cols_mono(line@, k as int, e as int);
    }
    let w = sub_chars(line, k, e);
    let cp = match find_char(line, k, e, ':') {
        Some(x) => x,
        None => e,
    };
    proof {
        assert forall|j: int| 0 <= j < cp - k implies #[trigger] w@[j] != ':' by {
            assert(w@[j] == line@[k + j]);
        }
        if cp < e {
            assert(w@[cp - k] == line@[cp as int]);
        }
        lemma_first_of(w@, ':', cp - k);
    }
    let is_tagged = cp < e && cp > k && cp + 1 < e && all_plain(w.as_slice(), 0, cp - k);
    if is_tagged {
        proof {
            lemma_cols_mono(line@, k as int, cp as int);
            lemma_cols_mono(line@, cp as int, cp + 1);
            lemma_cols_mono(line@, cp + 1, e as int);
        }
        let s0 = cols[k];
        emit(out, prev_line, prev_start, li, s0, cols[cp] - s0, NAMESPACE, 0);
        proof {
            let x: Tok = (li as int, s0 as int, (cols[cp as int] - s0) as int, NAMESPACE, 0u32);
            lemma_delta_push(acc, x);
            acc = acc.push(x);
        }
        let s1 = cols[cp + 1];
        emit(out, prev_line, prev_start, li, s1, cols[e] - s1, ENUM_MEMBER, 0);
        proof {
            let x: Tok = (li as int, s1 as int, (cols[e as int] - s1) as int, ENUM_MEMBER, 0u32);
            lemma_delta_push(acc, x);
            acc = acc.push(x);
        }
    } else {
        let s0 = cols[k];
        let len = cols[e] - s0;
        let class: Option<(u32, u32)> = if c == '@' {
            Some((VARIABLE, 0))
        } else if is_keyword(w.as_slice()) {
            Some((KEYWORD, 0))
        } else if contains_word(builtin_names, w.as_slice()) {
            Some((FUNCTION, 0))
        } else if contains_word(definition_names, w.as_slice()) {
            if all_ws_before(line, k) {
                Some((FUNCTION, DEFINITION))
            } else {
                Some((FUNCTION, 0))
            }
        } else {
            None
        };
        match class {
            Some((ty, m)) => {
                emit(out, prev_line, prev_start, li, s0, len, ty, m);
                proof {
                    let x: Tok = (li as int, s0 as int, len as int, ty, m);
                    lemma_delta_push(acc, x);
                    acc = acc.push(x);
                }
            },
            None => {},
        }
    }
    (e, Ghost(acc))
}

/// One step of the line scan at character `k`.
fn scan_step(
    line: &[char],
    cols: &Vec<u32>,
    li: u32,
    k: usize,
    builtin_names: &[String],
    definition_names: &[String],
    out: &mut Vec<SemanticToken>,
    prev_line: &mut u32,
    prev_start: &mut u32,
    Ghost(acc): Ghost<Seq<Tok>>,
) -> (res: (usize, Ghost<Seq<Tok>>))
    requires
        k < line@.len(),
        scan_ready(line@, cols@, li, k as int, old(out)@, *old(prev_line), *old(prev_start), acc),
    ensures
        k < res.0 <= line@.len(),
        line_scan(line@, li as int, k as int, acc, string_views(builtin_names@), string_views(definition_names@))
            == line_scan(line@, li as int, res.0 as int, res.1@, string_views(builtin_names@), string_views(definition_names@)),
        scan_ready(line@, cols@, li, res.0 as int, final(out)@, *final(prev_line), *final(prev_start), res.1@),
{
    let ghost mut acc = acc;
    let n = line.len();
    let c = line[k];
    if c == '#' {
        proof {
            lemma_cols_mono(line@, k as int, n as int);
        }
        (n, Ghost(acc))
    } else if c == '"' {
        let e = string_end_exec(line, k);
        proof {
            lemma_cols_mono(line@, k as int, e as int);
        }
        let len = cols[e] - cols[k];
        if len > 0 {
            emit(out, prev_line, prev_start, li, cols[k], len, STRING, 0);
            proof {
                let x: Tok = (li as int, cols[k as int] as int, len as int, STRING, 0u32);
                lemma_delta_push(acc, x);
                acc = acc.push(x);
            }
        }
        (e, Ghost(acc))
    } else if is_ascii_digit(c) || (c == '-' && k + 1 < n && is_ascii_digit(line[k + 1])) {
        let e = num_end_exec(line, k + 1);
        proof {
            lemma_num_end(line@, k + 1);
            lemma_cols_mono(line@, k as int, e as int);
        }
        let len = cols[e] - cols[k];
        if len > 0 {
            emit(out, prev_line, prev_start, li, cols[k], len, NUMBER, 0);
            proof {
                let x: Tok = (li as int, cols[k as int] as int, len as int, NUMBER, 0u32);
                lemma_delta_push(acc, x);
                acc = acc.push(x);
            }
        }
        (e, Ghost(acc))
    } else if is_alphanumeric(c) || c == '_' || c == '@' {
        scan_word(line, cols, li, k, builtin_names, definition_names, out, prev_line, prev_start, Ghost(acc))
    } else {
        proof {
            lemma_cols_mono(line@, k as int, k + 1);
        }
        (k + 1, Ghost(acc))
    }
}

/// The semantic tokens of a document: whole-line comments, strings, numbers,
/// `prefix:value` pairs, `@variables`, keywords, engine built-ins (named in
/// `builtin_names`) and the mod's scripted items (named in
/// `definition_names`; marked as definitions where only blanks precede them).
pub fn build_semantic_tokens(text: &str, builtin_names: &[String], definition_names: &[String]) -> (r: Vec<
    SemanticToken,
>)
    requires
        lines_of(text@).len() <= u32::MAX,
        forall|i: int| 0 <= i < lines_of(text@).len() ==> byte_len(#[trigger] lines_of(text@)[i]) <= u32::MAX,
    ensures
        r@ == delta_encode(
            doc_tokens(lines_of(text@), 0, seq![], string_views(builtin_names@), string_views(definition_names@)),
        ),
{
    let chars = chars_of(text);
    let ls = split_lines(chars.as_slice());
    let ghost lsv = views(ls@);
    let ghost bs = string_views(builtin_names@);
    let ghost ds = string_views(definition_names@);
    let ghost total = doc_tokens(lsv, 0, seq![], bs, ds);
    let ghost mut acc: Seq<Tok> = seq![];
    let mut out: Vec<SemanticToken> = Vec::new();
    let mut prev_line: u32 = 0;
    let mut prev_start: u32 = 0;
    let mut i: usize = 0;
    while i < ls.len()
        invariant
            lsv == views(ls@),
            lsv == lines_of(text@),
            lsv.len() <= u32::MAX,
            forall|m: int| 0 <= m < lsv.len() ==> byte_len(#[trigger] lsv[m]) <= u32::MAX,
            bs == string_views(builtin_names@),
            ds == string_views(definition_names@),
            i <= lsv.len(),
            total == doc_tokens(lsv, i as int, acc, bs, ds),
            out@ == delta_encode(acc),
            (prev_line as int, prev_start as int) == prev_of(acc),
            prev_line < i || prev_start == 0,
            prev_line <= i,
        decreases lsv.len() - i,
    {
        let line = ls[i].as_slice();
        let n = line.len();
        proof {
            assert(line@ == lsv[i as int]);
        }
        let cols = line_columns(line);
        let li = i as u32;
        let k0 = skip_ws(line, 0, n);
        proof {
            assert(line@.subrange(0, n as int) =~= line@);
        }
        let ghost acc0 = acc;
        if k0 < n && line[k0] == '#' {
            proof {
                lemma_cols_mono(line@, k0 as int, n as int);
            }
            let start = cols[k0];
            emit(&mut out, &mut prev_line, &mut prev_start, li, start, cols[n] - start, COMMENT, 0);
            proof {
                let x: Tok = (i as int, start as int, (cols[n as int] - start) as int, COMMENT, 0u32);
                lemma_delta_push(acc, x);
                acc = acc.push(x);
            }
        } else {
            let mut k: usize = 0;
            while k < n
                invariant
                    n == line@.len(),
                    li == i,
                    bs == string_views(builtin_names@),
                    ds == string_views(definition_names@),
                    line_scan(line@, i as int, 0, acc0, bs, ds) == line_scan(line@, i as int, k as int, acc, bs, ds),
                    scan_ready(line@, cols@, li, k as int, out@, prev_line, prev_start, acc),
                decreases n - k,
            {
                let (k2, Ghost(acc2)) = scan_step(
                    line,
                    &cols,
                    li,
                    k,
                    builtin_names,
                    definition_names,
                    &mut out,
                    &mut prev_line,
                    &mut prev_start,
                    Ghost(acc),
                );
                proof {
                    acc = acc2;
                }
                k = k2;
            }
        }
        proof {
            assert(doc_tokens(lsv, i as int, acc0, bs, ds) == doc_tokens(lsv, i + 1, acc, bs, ds));
        }
        i += 1;
    }
    out
}

// ─── Lemmas ──────────────────────────────────────────────────────────────────

pub proof fn lemma_num_end(l: Seq<char>, k: int)
    requires
        0 <= k <= l.len(),
    ensures
        k <= num_end(l, k) <= l.len(),
        forall|j: int| k <= j < num_end(l, k) ==> num_char(#[trigger] l[j]),
        num_end(l, k) == l.len() || !num_char(l[num_end(l, k)]),
    decreases l.len() - k,
{
    if k < l.len() && num_char(l[k]) {
        lemma_num_end(l, k + 1);
    }
}

pub proof fn lemma_id_end(l: Seq<char>, k: int)
    requires
        0 <= k <= l.len(),
    ensures
        k <= id_end(l, k) <= l.len(),
        forall|j: int| k <= j < id_end(l, k) ==> id_char(#[trigger] l[j]),
        id_end(l, k) == l.len() || !id_char(l[id_end(l, k)]),
    decreases l.len() - k,
{
    if k < l.len() && id_char(l[k]) {
        lemma_id_end(l, k + 1);
    }
}

pub proof fn lemma_string_end(l: Seq<char>, a: int)
    requires
        0 <= a < l.len(),
    ensures
        a < string_end(l, a) <= l.len(),
{
    let t = l.skip(a + 1);
    assert(first_of(t, '"') <= t.len()) by {
        lemma_first_of_bound(t, '"');
    }
}

pub proof fn lemma_first_of_bound(s: Seq<char>, c: char)
    ensures
        first_of(s, c) <= s.len(),
        first_of(s, c) < s.len() ==> s[first_of(s, c) as int] == c,
        forall|j: int| 0 <= j < first_of(s, c) ==> #[trigger] s[j] != c,
    decreases s.len(),
{
    if s.len() > 0 && s[0] != c {
        let t = s.drop_first();
        lemma_first_of_bound(t, c);
        assert forall|j: int| 0 <= j < first_of(s, c) implies #[trigger] s[j] != c by {
            if j > 0 {
                assert(s[j] == t[j - 1]);
            }
        }
    }
}

} // verus!
