//! Editor requests answered from the text around the cursor: the block the
//! cursor is in, the value position after `key =`, and selection ranges.
use vstd::prelude::*;
use crate::model::{Position, Range};
use crate::semantic::plain_char;
use crate::symbols::{bcol, index_of_col};
use crate::text::{
    byte_len, chars_of, is_alphanumeric, is_whitespace, is_ws, lemma_byte_len_mono,
    lemma_byte_len_step, str_views, string_of, width_of,
};

verus! {

// ─── Byte columns ────────────────────────────────────────────────────────────

/// `col` clamped to the line's length in bytes.
pub open spec fn clamp_col(line: Seq<char>, col: int) -> int {
    if col < byte_len(line) {
        col
    } else {
        byte_len(line) as int
    }
}

/// The clamped column falls between two characters (slicing there is
/// allowed).
pub open spec fn on_boundary(line: Seq<char>, col: int) -> bool {
    exists|k: int| 0 <= k <= line.len() && bcol(line, k) == clamp_col(line, col)
}

/// The character index at byte column `clamp_col(line, col)`.
fn index_at_col(line: &[char], col: usize) -> (k: usize)
    requires
        on_boundary(line@, col as int),
    ensures
        k <= line@.len(),
        bcol(line@, k as int) == clamp_col(line@, col as int),
        k == index_of_col(line@, clamp_col(line@, col as int)),
{
    let ghost c = clamp_col(line@, col as int);
    proof {
        assert(line@.take(line@.len() as int) =~= line@);
    }
    let mut k: usize = 0;
    let mut b: u128 = 0;
    while k < line.len() && b < col as u128
        invariant
            k <= line@.len(),
            b == bcol(line@, k as int),
            b <= 4 * k,
            bcol(line@, k as int) <= c,
            on_boundary(line@, col as int),
            c == clamp_col(line@, col as int),
            line@.take(line@.len() as int) == line@,
        decreases line@.len() - k,
    {
        proof {
            lemma_byte_len_step(line@, k as int);
            let w = choose|w: int| 0 <= w <= line@.len() && bcol(line@, w) == c;
            if w < k {
                lemma_strict(line@, w, k as int);
            }
            if w == k {
                lemma_strict(line@, k as int, line@.len() as int);
            }
            if w > k + 1 {
                lemma_strict(line@, k + 1, w);
            }
        }
        b = b + width_of(line[k]) as u128;
        k += 1;
    }
    proof {
        let w = choose|w: int| 0 <= w <= line@.len() && bcol(line@, w) == c;
        if w < k {
            lemma_strict(line@, w, k as int);
        }
        if w > k {
            lemma_strict(line@, k as int, w);
        }
        assert(bcol(line@, k as int) == c);
        lemma_index_unique(line@, c, k as int);
    }
    k
}

proof fn lemma_strict(line: Seq<char>, i: int, j: int)
    requires
        0 <= i < j <= line.len(),
    ensures
        bcol(line, i) < bcol(line, j),
{
    lemma_byte_len_mono(line, i, j);
}

proof fn lemma_index_unique(line: Seq<char>, c: int, k: int)
    requires
        0 <= k <= line.len(),
        bcol(line, k) == c,
    ensures
        index_of_col(line, c) == k,
{
    let j = index_of_col(line, c);
    assert(0 <= j <= line.len() && bcol(line, j) == c);
    if j < k {
        lemma_strict(line, j, k);
    }
    if j > k {
        lemma_strict(line, k, j);
    }
}

// ─── The enclosing block ─────────────────────────────────────────────────────

/// Number of trailing characters that are `=` or blank.
pub open spec fn trailing_eq_ws(s: Seq<char>) -> nat
    decreases s.len(),
{
    if s.len() > 0 && (s.last() == '=' || is_ws(s.last())) {
        1 + trailing_eq_ws(s.drop_last())
    } else {
        0
    }
}

/// Number of trailing letters, digits and `_`.
pub open spec fn trailing_plain(s: Seq<char>) -> nat
    decreases s.len(),
{
    if s.len() > 0 && plain_char(s.last()) {
        1 + trailing_plain(s.drop_last())
    } else {
        0
    }
}

/// The name written before a `{`: what precedes it with trailing `=` and
/// blanks dropped, and then only its last run of letters, digits and `_`.
pub open spec fn name_before(s: Seq<char>) -> Option<Seq<char>> {
    let b = s.take(s.len() - trailing_eq_ws(s));
    let p = trailing_plain(b);
    if p == 0 {
        None
    } else {
        Some(b.skip(b.len() - p))
    }
}

/// The text of line `li` that the backward scan reads: on the cursor line
/// only what precedes the cursor.
pub open spec fn scan_text(ls: Seq<Seq<char>>, cl: int, cidx: int, li: int) -> Seq<char> {
    if li == cl {
        ls[cl].take(cidx)
    } else {
        ls[li]
    }
}

/// Scanning backward from character `k` of line `li` with `depth` closed
/// blocks pending: the name of the first unmatched `{`.
pub open spec fn enclosing_from(ls: Seq<Seq<char>>, cl: int, cidx: int, li: int, k: int, depth: nat) -> Option<
    Seq<char>,
>
    decreases li, k,
{
    if li < 0 || li >= ls.len() || k < 0 {
        None
    } else if k == 0 {
        if li == 0 {
            None
        } else {
            enclosing_from(ls, cl, cidx, li - 1, scan_text(ls, cl, cidx, li - 1).len() as int, depth)
        }
    } else {
        let s = scan_text(ls, cl, cidx, li);
        if k > s.len() {
            None
        } else if s[k - 1] == '}' {
            enclosing_from(ls, cl, cidx, li, k - 1, depth + 1)
        } else if s[k - 1] == '{' {
            if depth == 0 {
                name_before(s.take(k - 1))
            } else {
                enclosing_from(ls, cl, cidx, li, k - 1, (depth - 1) as nat)
            }
        } else {
            enclosing_from(ls, cl, cidx, li, k - 1, depth)
        }
    }
}

/// The name of the block the cursor (line `cl`, byte column `col`) is in:
/// the identifier before the nearest unclosed `name = {` above the cursor.
pub open spec fn enclosing_block(ls: Seq<Seq<char>>, cl: int, col: int) -> Option<Seq<char>> {
    if cl < 0 || cl >= ls.len() {
        None
    } else {
        let cidx = index_of_col(ls[cl], clamp_col(ls[cl], col));
        enclosing_from(ls, cl, cidx, cl, cidx, 0)
    }
}

proof fn lemma_trailing_eq_ws(s: Seq<char>, k: int)
    requires
        0 <= k <= s.len(),
        forall|j: int| s.len() - k <= j < s.len() ==> (#[trigger] s[j] == '=' || is_ws(s[j])),
        k == s.len() || !(s[s.len() - k - 1] == '=' || is_ws(s[s.len() - k - 1])),
    ensures
        trailing_eq_ws(s) == k,
    decreases k,
{
    if k > 0 {
        let t = s.drop_last();
        assert forall|j: int| t.len() - (k - 1) <= j < t.len() implies (#[trigger] t[j] == '=' || is_ws(t[j])) by {
            assert(t[j] == s[j]);
        }
        assert(s.last() == s[s.len() - 1]);
        if k - 1 < t.len() {
            assert(t[t.len() - (k - 1) - 1] == s[s.len() - k - 1]);
        }
        lemma_trailing_eq_ws(t, k - 1);
    }
}

proof fn lemma_trailing_plain(s: Seq<char>, k: int)
    requires
        0 <= k <= s.len(),
        forall|j: int| s.len() - k <= j < s.len() ==> plain_char(#[trigger] s[j]),
        k == s.len() || !plain_char(s[s.len() - k - 1]),
    ensures
        trailing_plain(s) == k,
    decreases k,
{
    if k > 0 {
        let t = s.drop_last();
        assert forall|j: int| t.len() - (k - 1) <= j < t.len() implies plain_char(#[trigger] t[j]) by {
            assert(t[j] == s[j]);
        }
        assert(s.last() == s[s.len() - 1]);
        if k - 1 < t.len() {
            assert(t[t.len() - (k - 1) - 1] == s[s.len() - k - 1]);
        }
        lemma_trailing_plain(t, k - 1);
    }
}

/// `name_before(s[..end])`.
fn name_before_exec(s: &[char], end: usize) -> (r: Option<String>)
    requires
        end <= s@.len(),
    ensures
        match name_before(s@.take(end as int)) {
            Some(w) => r.is_some() && r.unwrap()@ == w,
            None => r is None,
        },
{
    let ghost t = s@.take(end as int);
    let mut b = end;
    while b > 0 && (s[b - 1] == '=' || is_whitespace(s[b - 1]))
        invariant
            b <= end <= s@.len(),
            t == s@.take(end as int),
            forall|j: int| b <= j < end ==> (#[trigger] s@[j] == '=' || is_ws(s@[j])),
        decreases b,
    {
        b -= 1;
    }
    proof {
        assert forall|j: int| t.len() - (end - b) <= j < t.len() implies (#[trigger] t[j] == '=' || is_ws(t[j])) by {
            assert(t[j] == s@[j]);
        }
        if b > 0 {
            assert(t[t.len() - (end - b) - 1] == s@[b - 1]);
        }
        lemma_trailing_eq_ws(t, end - b);
    }
    let ghost bs = t.take(t.len() - trailing_eq_ws(t));
    proof {
        assert(bs =~= s@.take(b as int));
    }
    let mut a = b;
    while a > 0 && (is_alphanumeric(s[a - 1]) || s[a - 1] == '_')
        invariant
            a <= b <= s@.len(),
            forall|j: int| a <= j < b ==> plain_char(#[trigger] s@[j]),
        decreases a,
    {
        a -= 1;
    }
    proof {
        assert forall|j: int| bs.len() - (b - a) <= j < bs.len() implies plain_char(#[trigger] bs[j]) by {
            assert(bs[j] == s@[j]);
        }
        if a > 0 {
            assert(bs[bs.len() - (b - a) - 1] == s@[a - 1]);
        }
        lemma_trailing_plain(bs, b - a);
        assert(bs.skip(bs.len() - (b - a)) =~= s@.subrange(a as int, b as int));
    }
    if a == b {
        None
    } else {
        Some(string_of(s, a, b))
    }
}

/// The name of the block the cursor is in (see `enclosing_block`).
pub fn find_enclosing_block_trigger(lines: &[&str], cursor_line: usize, cursor_col: usize) -> (r: Option<String>)
    requires
        cursor_line < lines@.len() ==> on_boundary(lines@[cursor_line as int]@, cursor_col as int),
    ensures
        match enclosing_block(str_views(lines@), cursor_line as int, cursor_col as int) {
            Some(w) => r.is_some() && r.unwrap()@ == w,
            None => r is None,
        },
{
    let ghost ls = str_views(lines@);
    if cursor_line >= lines.len() {
        return None;
    }
    let cur = chars_of(lines[cursor_line]);
    proof {
        assert(ls[cursor_line as int] == cur@);
    }
    let cidx = index_at_col(cur.as_slice(), cursor_col);
    let ghost cl = cursor_line as int;
    let mut li = cursor_line;
    let mut s: Vec<char> = crate::text::sub_chars(cur.as_slice(), 0, cidx);
    proof {
        assert(s@ =~= cur@.take(cidx as int));
    }
    let mut k = s.len();
    let mut depth: u128 = 0;
    loop
        invariant
            ls == str_views(lines@),
            cl == cursor_line,
            cl < ls.len(),
            cidx <= ls[cl].len(),
            li <= cl,
            s@ == scan_text(ls, cl, cidx as int, li as int),
            k <= s@.len(),
            depth <= (cl - li) * 0x1_0000_0000_0000_0000 + (s@.len() - k),
            s@.len() < 0x1_0000_0000_0000_0000,
            enclosing_block(ls, cl, cursor_col as int) == enclosing_from(ls, cl, cidx as int, li as int, k as int, depth as nat),
        decreases li, k,
    {
        if k == 0 {
            if li == 0 {
                return None;
            }
            li = li - 1;
            s = chars_of(lines[li]);
            proof {
                assert(ls[li as int] == s@);
                assert(scan_text(ls, cl, cidx as int, li as int) == s@);
            }
            k = s.len();
        } else {
            let c = s[k - 1];
            if c == '}' {
                depth = depth + 1;
                k = k - 1;
            } else if c == '{' {
                if depth == 0 {
                    return name_before_exec(s.as_slice(), k - 1);
                }
                depth = depth - 1;
                k = k - 1;
            } else {
                k = k - 1;
            }
        }
    }
}


// ─── Value position ──────────────────────────────────────────────────────────

/// Index of the last `c` in `s`.
pub open spec fn last_of(s: Seq<char>, c: char) -> Option<int>
    decreases s.len(),
{
    if s.len() == 0 {
        None
    } else if s.last() == c {
        Some(s.len() - 1)
    } else {
        last_of(s.drop_last(), c)
    }
}

/// Number of trailing non-blank characters.
pub open spec fn trailing_non_ws(s: Seq<char>) -> nat
    decreases s.len(),
{
    if s.len() > 0 && !is_ws(s.last()) {
        1 + trailing_non_ws(s.drop_last())
    } else {
        0
    }
}

/// Number of leading characters that are neither letters, digits nor `_`.
pub open spec fn leading_non_plain(s: Seq<char>) -> nat
    decreases s.len(),
{
    if s.len() > 0 && !plain_char(s[0]) {
        1 + leading_non_plain(s.drop_first())
    } else {
        0
    }
}

/// The keyword whose value the cursor is at: the text before the cursor
/// ends in `keyword =` followed by anything but a `{`.
pub open spec fn value_keyword(line: Seq<char>, col: int) -> Option<Seq<char>> {
    let before = line.take(index_of_col(line, clamp_col(line, col)));
    let t = crate::text::trim_end(before);
    match last_of(t, '=') {
        None => None,
        Some(p) => {
            let after = crate::text::trim(t.skip(p + 1));
            if after.contains('{') {
                None
            } else {
                keyword_in(crate::text::trim(t.take(p)))
            }
        },
    }
}

/// The keyword of the text before `=` (trimmed): its last blank-separated
/// part without leading punctuation, when that is a non-empty identifier.
pub open spec fn keyword_in(kp: Seq<char>) -> Option<Seq<char>> {
    if kp.len() == 0 {
        None
    } else {
        let seg = kp.skip(kp.len() - trailing_non_ws(kp));
        let kw = seg.skip(leading_non_plain(seg) as int);
        if kw.len() > 0 && forall|i: int| 0 <= i < kw.len() ==> plain_char(#[trigger] kw[i]) {
            Some(kw)
        } else {
            None
        }
    }
}

proof fn lemma_last_of(s: Seq<char>, c: char, k: int)
    requires
        -1 <= k < s.len(),
        forall|j: int| k < j < s.len() ==> #[trigger] s[j] != c,
        k >= 0 ==> s[k] == c,
    ensures
        last_of(s, c) == if k >= 0 {
            Some(k)
        } else {
            None::<int>
        },
    decreases s.len(),
{
    if s.len() > 0 && k < s.len() - 1 {
        let t = s.drop_last();
        assert forall|j: int| k < j < t.len() implies #[trigger] t[j] != c by {
            assert(t[j] == s[j]);
        }
        assert(s.last() == s[s.len() - 1]);
        if k >= 0 {
            assert(t[k] == s[k]);
        }
        lemma_last_of(t, c, k);
    }
}

proof fn lemma_trailing_non_ws(s: Seq<char>, k: int)
    requires
        0 <= k <= s.len(),
        forall|j: int| s.len() - k <= j < s.len() ==> !is_ws(#[trigger] s[j]),
        k == s.len() || is_ws(s[s.len() - k - 1]),
    ensures
        trailing_non_ws(s) == k,
    decreases k,
{
    if k > 0 {
        let t = s.drop_last();
        assert forall|j: int| t.len() - (k - 1) <= j < t.len() implies !is_ws(#[trigger] t[j]) by {
            assert(t[j] == s[j]);
        }
        assert(s.last() == s[s.len() - 1]);
        if k - 1 < t.len() {
            assert(t[t.len() - (k - 1) - 1] == s[s.len() - k - 1]);
        }
        lemma_trailing_non_ws(t, k - 1);
    }
}

proof fn lemma_leading_non_plain(s: Seq<char>, k: int)
    requires
        0 <= k <= s.len(),
        forall|j: int| 0 <= j < k ==> !plain_char(#[trigger] s[j]),
        k == s.len() || plain_char(s[k]),
    ensures
        leading_non_plain(s) == k,
    decreases k,
{
    if k > 0 {
        let t = s.drop_first();
        assert forall|j: int| 0 <= j < k - 1 implies !plain_char(#[trigger] t[j]) by {
            assert(t[j] == s[j + 1]);
        }
        assert(!plain_char(s[0]));
        lemma_leading_non_plain(t, k - 1);
    }
}

/// The keyword of the `keyword = ` before the cursor, when the cursor is in
/// its value (see `value_keyword`).
pub fn value_context_keyword(line: &str, col: usize) -> (r: Option<String>)
    requires
        on_boundary(line@, col as int),
    ensures
        match value_keyword(line@, col as int) {
            Some(w) => r.is_some() && r.unwrap()@ == w,
            None => r is None,
        },
{
    let cs = chars_of(line);
    let ci = index_at_col(cs.as_slice(), col);
    let ghost before = cs@.take(ci as int);
    let e = crate::text::back_ws(cs.as_slice(), 0, ci);
    let ghost t = crate::text::trim_end(before);
    proof {
        assert(cs@.subrange(0, ci as int) =~= before);
        assert(t =~= cs@.subrange(0, e as int));
    }
    let mut p = e;
    while p > 0 && cs[p - 1] != '='
        invariant
            p <= e <= cs@.len(),
            forall|j: int| p <= j < e ==> #[trigger] cs@[j] != '=',
        decreases p,
    {
        p -= 1;
    }
    proof {
        assert forall|j: int| p - 1 < j < t.len() implies #[trigger] t[j] != '=' by {
            assert(t[j] == cs@[j]);
        }
        if p > 0 {
            assert(t[p - 1] == cs@[p - 1]);
        }
        lemma_last_of(t, '=', p - 1);
    }
    if p == 0 {
        return None;
    }
    let q = p - 1;
    let (a1, b1) = crate::text::trim_bounds(cs.as_slice(), q + 1, e);
    proof {
        assert(t.skip(q + 1) =~= cs@.subrange(q + 1, e as int));
    }
    if crate::text::find_char(cs.as_slice(), a1, b1, '{').is_some() {
        proof {
            let after = crate::text::trim(t.skip(q + 1));
            assert(after == cs@.subrange(a1 as int, b1 as int));
            let j = choose|j: int| a1 <= j < b1 && cs@[j] == '{';
            assert(after[j - a1] == '{');
        }
        return None;
    }
    proof {
        let after = crate::text::trim(t.skip(q + 1));
        assert(after == cs@.subrange(a1 as int, b1 as int));
        if after.contains('{') {
            let j = choose|j: int| 0 <= j < after.len() && after[j] == '{';
            assert(cs@[a1 + j] == '{');
        }
    }
    let (a2, b2) = crate::text::trim_bounds(cs.as_slice(), 0, q);
    proof {
        assert(t.take(q as int) =~= cs@.subrange(0, q as int));
    }
    keyword_at(cs.as_slice(), a2, b2)
}

/// `keyword_in(s[a2..b2])`.
fn keyword_at(cs: &[char], a2: usize, b2: usize) -> (r: Option<String>)
    requires
        a2 <= b2 <= cs@.len(),
    ensures
        match keyword_in(cs@.subrange(a2 as int, b2 as int)) {
            Some(w) => r.is_some() && r.unwrap()@ == w,
            None => r is None,
        },
{
    let ghost kp = cs@.subrange(a2 as int, b2 as int);
    if a2 == b2 {
        return None;
    }
    let mut s0 = b2;
    while s0 > a2 && !is_whitespace(cs[s0 - 1])
        invariant
            a2 <= s0 <= b2 <= cs@.len(),
            forall|j: int| s0 <= j < b2 ==> !is_ws(#[trigger] cs@[j]),
        decreases s0,
    {
        s0 -= 1;
    }
    proof {
        assert forall|j: int| kp.len() - (b2 - s0) <= j < kp.len() implies !is_ws(#[trigger] kp[j]) by {
            assert(kp[j] == cs@[a2 + j]);
        }
        if s0 > a2 {
            assert(kp[kp.len() - (b2 - s0) - 1] == cs@[s0 - 1]);
        }
        lemma_trailing_non_ws(kp, b2 - s0);
    }
    let ghost seg = kp.skip(kp.len() - trailing_non_ws(kp));
    proof {
        assert(seg =~= cs@.subrange(s0 as int, b2 as int));
    }
    let mut k0 = s0;
    while k0 < b2 && !(is_alphanumeric(cs[k0]) || cs[k0] == '_')
        invariant
            s0 <= k0 <= b2 <= cs@.len(),
            forall|j: int| s0 <= j < k0 ==> !plain_char(#[trigger] cs@[j]),
        decreases b2 - k0,
    {
        k0 += 1;
    }
    proof {
        assert forall|j: int| 0 <= j < k0 - s0 implies !plain_char(#[trigger] seg[j]) by {
            assert(seg[j] == cs@[s0 + j]);
        }
        if k0 < b2 {
            assert(seg[k0 - s0] == cs@[k0 as int]);
        }
        lemma_leading_non_plain(seg, k0 - s0);
    }
    let ghost kw = seg.skip(leading_non_plain(seg) as int);
    proof {
        assert(kw =~= cs@.subrange(k0 as int, b2 as int));
    }
    let mut m = k0;
    while m < b2 && (is_alphanumeric(cs[m]) || cs[m] == '_')
        invariant
            k0 <= m <= b2 <= cs@.len(),
            forall|j: int| k0 <= j < m ==> plain_char(#[trigger] cs@[j]),
        decreases b2 - m,
    {
        m += 1;
    }
    proof {
        if m < b2 {
            assert(kw[m - k0] == cs@[m as int]);
        } else {
            assert forall|i: int| 0 <= i < kw.len() implies plain_char(#[trigger] kw[i]) by {
                assert(kw[i] == cs@[k0 + i]);
            }
        }
    }
    if k0 < b2 && m == b2 {
        Some(string_of(cs, k0, b2))
    } else {
        None
    }
}


// ─── Selection ranges ────────────────────────────────────────────────────────

/// A `{` is taken when it is at or before the cursor, a `}` when after it.
pub open spec fn before_cursor(b: int, col: int, li: int, ci: int) -> bool {
    b < li || (b == li && col <= ci)
}

/// The brace scan from character `k` of line `b`: every `{` is stacked
/// (line, column) and every `}` closes the last one stacked. A block that
/// opens at or before the cursor and closes after it encloses the cursor and
/// gives its range (blocks closed before the cursor, or opened after it, give
/// none). The scan stops once there are 12 ranges.
pub open spec fn brace_ranges(
    ls: Seq<Seq<char>>,
    li: int,
    ci: int,
    b: int,
    k: int,
    stack: Seq<(int, int)>,
    rs: Seq<Range>,
) -> Seq<Range>
    decreases ls.len() - b, ls[b].len() - k,
{
    if rs.len() >= 12 || b < 0 || b >= ls.len() || k < 0 {
        rs
    } else if k >= ls[b].len() {
        brace_ranges(ls, li, ci, b + 1, 0, stack, rs)
    } else {
        let c = ls[b][k];
        let col = bcol(ls[b], k);
        let bc = before_cursor(b, col, li, ci);
        if c == '{' {
            brace_ranges(ls, li, ci, b, k + 1, stack.push((b, col)), rs)
        } else if c == '}' && stack.len() > 0 {
            let o = stack.last();
            if before_cursor(o.0, o.1, li, ci) && !bc {
                brace_ranges(
                    ls,
                    li,
                    ci,
                    b,
                    k + 1,
                    stack.drop_last(),
                    rs.push(crate::model::span(o.0 as u32, o.1 as u32, b as u32, (col + 1) as u32)),
                )
            } else {
                brace_ranges(ls, li, ci, b, k + 1, stack.drop_last(), rs)
            }
        } else {
            brace_ranges(ls, li, ci, b, k + 1, stack, rs)
        }
    }
}

/// `rs` without runs of equal neighbours (`Vec::dedup`).
pub open spec fn dedup_runs(rs: Seq<Range>) -> Seq<Range>
    decreases rs.len(),
{
    if rs.len() == 0 {
        seq![]
    } else {
        let p = dedup_runs(rs.drop_last());
        if p.len() > 0 && p.last() == rs.last() {
            p
        } else {
            p.push(rs.last())
        }
    }
}

/// The selection ranges around the cursor, innermost first: the word, the
/// line, then the blocks around it, outward.
pub open spec fn selection_spec(ls: Seq<Seq<char>>, line: u32, character: u32) -> Seq<Range> {
    let li = line as int;
    let ci = character as int;
    let l = if li < ls.len() {
        ls[li]
    } else {
        seq![]
    };
    let word = match crate::symbols::word_at_spec(l, ci) {
        Some((_w, s, e)) => crate::model::span(line, s as u32, line, e as u32),
        None => crate::model::span(line, character, line, (ci + 1) as u32),
    };
    let whole = crate::model::span(line, 0, line, byte_len(l) as u32);
    let first = if whole != word {
        seq![word, whole]
    } else {
        seq![word]
    };
    dedup_runs(brace_ranges(ls, li, ci, 0, 0, seq![], first))
}

fn dedup_exec(rs: Vec<Range>) -> (r: Vec<Range>)
    ensures
        r@ == dedup_runs(rs@),
{
    let mut out: Vec<Range> = Vec::new();
    let mut i: usize = 0;
    proof {
        assert(rs@.take(0) =~= Seq::<Range>::empty());
    }
    while i < rs.len()
        invariant
            i <= rs@.len(),
            out@ == dedup_runs(rs@.take(i as int)),
        decreases rs@.len() - i,
    {
        proof {
            assert(rs@.take(i + 1).drop_last() =~= rs@.take(i as int));
            assert(rs@.take(i + 1).last() == rs@[i as int]);
        }
        let n = out.len();
        if n > 0 && crate::call_hierarchy::same_range(out[n - 1], rs[i]) {
        } else {
            out.push(rs[i]);
        }
        i += 1;
    }
    proof {
        assert(rs@.take(rs@.len() as int) =~= rs@);
    }
    out
}

/// Selection ranges for a cursor, innermost first (see `selection_spec`).
pub fn selection_range_at(lines: &[&str], pos: crate::model::Position) -> (r: Vec<crate::model::Range>)
    requires
        (pos.line as int) < lines@.len() ==> crate::symbols::word_at_defined(
            lines@[pos.line as int]@,
            pos.character as int,
        ) && 4 * lines@[pos.line as int]@.len() <= usize::MAX,
    ensures
        r@ == selection_spec(str_views(lines@), pos.line, pos.character),
{
    let ghost ls = str_views(lines@);
    let li = pos.line as usize;
    let ci = pos.character as usize;
    let line: Vec<char> = if li < lines.len() {
        chars_of(lines[li])
    } else {
        Vec::new()
    };
    proof {
        if li < lines@.len() {
            assert(ls[li as int] == line@);
        } else {
            assert(line@ =~= Seq::<char>::empty());
            assert(crate::symbols::word_at_defined(line@, ci as int)) by {
                assert(line@.take(0) =~= line@);
                assert(bcol(line@, 0) == 0);
            }
        }
    }
    let lstr = string_of(line.as_slice(), 0, line.len());
    proof {
        assert(line@.subrange(0, line@.len() as int) =~= line@);
    }
    let word_range = match crate::symbols::word_at(lstr.as_str(), ci) {
        Some((_w, s, e)) => Range {
            start: Position { line: pos.line, character: #[verifier::truncate] (s as u32) },
            end: Position { line: pos.line, character: #[verifier::truncate] (e as u32) },
        },
        None => Range {
            start: pos,
            end: Position { line: pos.line, character: #[verifier::truncate] ((pos.character as u64 + 1) as u32) },
        },
    };
    let total = crate::text::byte_len_of(line.as_slice());
    let whole = Range {
        start: Position { line: pos.line, character: 0 },
        end: Position { line: pos.line, character: #[verifier::truncate] (total as u32) },
    };
    let mut ranges: Vec<Range> = Vec::new();
    ranges.push(word_range);
    if !crate::call_hierarchy::same_range(whole, word_range) {
        ranges.push(whole);
    }
    proof {
        assert(ranges@ =~= if whole != word_range {
            seq![word_range, whole]
        } else {
            seq![word_range]
        });
    }
    let mut stack: Vec<(usize, u128)> = Vec::new();
    let ghost first = ranges@;
    let mut b: usize = 0;
    proof {
        assert(stack@.map_values(|p: (usize, u128)| (p.0 as int, p.1 as int)) =~= Seq::<(int, int)>::empty());
    }
    let mut done = false;
    while b < lines.len() && !done
        invariant
            ls == str_views(lines@),
            li == pos.line,
            ci == pos.character,
            b <= lines@.len(),
            done == (ranges@.len() >= 12),
            brace_ranges(ls, li as int, ci as int, 0, 0, seq![], first) == brace_ranges(
                ls,
                li as int,
                ci as int,
                b as int,
                0,
                stack@.map_values(|p: (usize, u128)| (p.0 as int, p.1 as int)),
                ranges@,
            ),
        decreases lines@.len() - b,
    {
        let l = chars_of(lines[b]);
        proof {
            assert(ls[b as int] == l@);
        }
        let mut k: usize = 0;
        let mut col: u128 = 0;
        proof {
            assert(l@.take(0) =~= Seq::<char>::empty());
        }
        while k < l.len() && !done
            invariant
                ls == str_views(lines@),
                b < ls.len(),
                ls[b as int] == l@,
                k <= l@.len(),
                col == bcol(l@, k as int),
                col <= 4 * k,
                done == (ranges@.len() >= 12),
                brace_ranges(ls, li as int, ci as int, 0, 0, seq![], first) == brace_ranges(
                    ls,
                    li as int,
                    ci as int,
                    b as int,
                    k as int,
                    stack@.map_values(|p: (usize, u128)| (p.0 as int, p.1 as int)),
                    ranges@,
                ),
            decreases l@.len() - k,
        {
            let c = l[k];
            let bc = b < li || (b == li && col <= ci as u128);
            let ghost sv = stack@.map_values(|p: (usize, u128)| (p.0 as int, p.1 as int));
            proof {
                lemma_byte_len_step(l@, k as int);
            }
            if c == '{' {
                stack.push((b, col));
                proof {
                    assert(stack@.map_values(|p: (usize, u128)| (p.0 as int, p.1 as int)) =~= sv.push(
                        (b as int, col as int),
                    ));
                }
            } else if c == '}' && stack.len() > 0 {
                let o = stack.pop().unwrap();
                proof {
                    assert(stack@.map_values(|p: (usize, u128)| (p.0 as int, p.1 as int)) =~= sv.drop_last());
                    assert(sv.last() == (o.0 as int, o.1 as int));
                }
                let encloses = (o.0 < li || (o.0 == li && o.1 <= ci as u128)) && !bc;
                if encloses {
                ranges.push(
                    Range {
                        start: Position {
                            line: #[verifier::truncate] (o.0 as u32),
                            character: #[verifier::truncate] (o.1 as u32),
                        },
                        end: Position {
                            line: #[verifier::truncate] (b as u32),
                            character: #[verifier::truncate] ((col + 1) as u32),
                        },
                    },
                );
                done = ranges.len() >= 12;
                }
            }
            col = col + width_of(c) as u128;
            k += 1;
        }
        b += 1;
    }
    dedup_exec(ranges)
}


// ─── Signature help ──────────────────────────────────────────────────────────

/// A block's signature: its label, one label per field, and a note when the
/// block has no fixed fields.
#[derive(Debug)]
pub struct Signature {
    pub label: String,
    pub parameters: Vec<String>,
    pub documentation: Option<String>,
}

/// `name: type`, with a leading `?` for an optional field.
pub open spec fn param_label(f: crate::model::SchemaField) -> Seq<char> {
    (if f.required {
        seq![]
    } else {
        seq!['?']
    }) + f.name@ + ": "@ + f.type_hint@
}

pub open spec fn param_labels(fields: Seq<crate::model::SchemaField>) -> Seq<Seq<char>> {
    fields.map_values(|f: crate::model::SchemaField| param_label(f))
}

/// The parameter list of the label: the field labels joined by `  |  `, or
/// `...` for a block with no fixed fields.
pub open spec fn param_list(fields: Seq<crate::model::SchemaField>) -> Seq<char> {
    if fields.len() == 0 {
        "..."@
    } else {
        crate::text::join(param_labels(fields), "  |  "@)
    }
}

pub open spec fn signature_label(name: Seq<char>, fields: Seq<crate::model::SchemaField>) -> Seq<char> {
    name + " = { "@ + param_list(fields) + " }"@
}

fn param_label_exec(f: &crate::model::SchemaField) -> (r: String)
    ensures
        r@ == param_label(*f),
{
    let mut r = String::new();
    if !f.required {
        crate::text::push_char(&mut r, '?');
    }
    crate::text::append_str(&mut r, f.name.as_str());
    crate::text::append_str(&mut r, ": ");
    crate::text::append_str(&mut r, f.type_hint.as_str());
    proof {
        assert(r@ =~= param_label(*f));
    }
    r
}

/// The signature help for the block `name` with the given fields.
pub fn signature_help(name: &str, fields: &[crate::model::SchemaField]) -> (r: Signature)
    ensures
        r.label@ == signature_label(name@, fields@),
        r.parameters@.map_values(|p: String| p@) == param_labels(fields@),
        fields@.len() == 0 ==> r.documentation.is_some() && r.documentation.unwrap()@
            == "Custom validator — no static schema available. Consult game documentation."@,
        fields@.len() > 0 ==> r.documentation is None,
{
    let mut params: Vec<String> = Vec::new();
    let mut list = String::new();
    let mut i: usize = 0;
    proof {
        assert(param_labels(fields@).take(0) =~= Seq::<Seq<char>>::empty());
    }
    while i < fields.len()
        invariant
            i <= fields@.len(),
            params@.map_values(|p: String| p@) == param_labels(fields@).take(i as int),
            list@ == crate::text::join(param_labels(fields@).take(i as int), "  |  "@),
        decreases fields@.len() - i,
    {
        let l = param_label_exec(&fields[i]);
        let ghost pl = param_labels(fields@);
        proof {
            assert(pl[i as int] == l@);
            assert(pl.take(i + 1).drop_last() =~= pl.take(i as int));
            assert(pl.take(i + 1).last() == l@);
        }
        if i > 0 {
            crate::text::append_str(&mut list, "  |  ");
        }
        crate::text::append_str(&mut list, l.as_str());
        proof {
            if i == 0 {
                assert(pl.take(1).len() == 1);
                assert(pl.take(1)[0] == l@);
                assert(list@ =~= crate::text::join(pl.take(1), "  |  "@));
            } else {
                assert(list@ =~= crate::text::join(pl.take(i + 1), "  |  "@));
            }
        }
        let ghost prev = params@.map_values(|p: String| p@);
        params.push(l);
        proof {
            assert(params@.map_values(|p: String| p@) =~= prev.push(pl[i as int]));
            assert(pl.take(i + 1) =~= pl.take(i as int).push(pl[i as int]));
        }
        i += 1;
    }
    proof {
        assert(param_labels(fields@).take(fields@.len() as int) =~= param_labels(fields@));
    }
    let mut label = String::new();
    crate::text::append_str(&mut label, name);
    crate::text::append_str(&mut label, " = { ");
    if fields.len() == 0 {
        crate::text::append_str(&mut label, "...");
    } else {
        crate::text::append_str(&mut label, list.as_str());
    }
    crate::text::append_str(&mut label, " }");
    proof {
        assert(label@ =~= signature_label(name@, fields@));
    }
    let documentation = if fields.len() == 0 {
        Some("Custom validator — no static schema available. Consult game documentation.".to_owned())
    } else {
        None
    };
    Signature { label, parameters: params, documentation }
}

// ─── Numbers as text ─────────────────────────────────────────────────────────

pub open spec fn digit_char(d: nat) -> char {
    if d == 0 {
        '0'
    } else if d == 1 {
        '1'
    } else if d == 2 {
        '2'
    } else if d == 3 {
        '3'
    } else if d == 4 {
        '4'
    } else if d == 5 {
        '5'
    } else if d == 6 {
        '6'
    } else if d == 7 {
        '7'
    } else if d == 8 {
        '8'
    } else {
        '9'
    }
}

/// The decimal digits of `n`.
pub open spec fn decimal(n: nat) -> Seq<char>
    decreases n,
{
    if n < 10 {
        seq![digit_char(n)]
    } else {
        decimal(n / 10) + seq![digit_char(n % 10)]
    }
}

/// `n` in decimal.
pub fn decimal_text(n: usize) -> (r: String)
    ensures
        r@ == decimal(n as nat),
{
    let mut digits: Vec<char> = Vec::new();
    let mut m = n;
    proof {
        assert(decimal(n as nat) == decimal(m as nat) + digits@);
    }
    while m >= 10
        invariant
            decimal(n as nat) == decimal(m as nat) + digits@,
        decreases m,
    {
        let d = m % 10;
        let c = digit_exec(d);
        let ghost old_digits = digits@;
        digits.insert(0, c);
        proof {
            assert(decimal(m as nat) == decimal((m / 10) as nat) + seq![digit_char((m % 10) as nat)]);
            assert(digits@ =~= seq![c] + old_digits);
            assert(decimal(n as nat) =~= decimal((m / 10) as nat) + digits@);
        }
        m = m / 10;
    }
    let c = digit_exec(m);
    digits.insert(0, c);
    proof {
        assert(decimal(n as nat) =~= digits@);
    }
    let mut r = String::new();
    crate::text::push_chars(&mut r, digits.as_slice());
    proof {
        assert(r@ =~= digits@);
    }
    r
}

fn digit_exec(d: usize) -> (c: char)
    requires
        d < 10,
    ensures
        c == digit_char(d as nat),
{
    if d == 0 {
        '0'
    } else if d == 1 {
        '1'
    } else if d == 2 {
        '2'
    } else if d == 3 {
        '3'
    } else if d == 4 {
        '4'
    } else if d == 5 {
        '5'
    } else if d == 6 {
        '6'
    } else if d == 7 {
        '7'
    } else if d == 8 {
        '8'
    } else {
        '9'
    }
}

// ─── Code lenses ─────────────────────────────────────────────────────────────

/// `N reference` or `N references`.
pub open spec fn references_title(n: nat) -> Seq<char> {
    decimal(n) + " reference"@ + if n == 1 {
        seq![]
    } else {
        seq!['s']
    }
}

/// The title of a code lens over an item referenced `count` times.
pub fn reference_title(count: usize) -> (r: String)
    ensures
        r@ == references_title(count as nat),
{
    let mut r = decimal_text(count);
    crate::text::append_str(&mut r, " reference");
    if count != 1 {
        crate::text::push_char(&mut r, 's');
    }
    proof {
        assert(r@ =~= references_title(count as nat));
    }
    r
}

/// The name of a line `name = {` that starts at column 0 (any name, as
/// written before the `=`).
pub open spec fn lens_name(line: Seq<char>) -> Option<Seq<char>> {
    let t = crate::text::trim_end(line);
    if t.len() == 0 || t.last() != '{' || (line.len() > 0 && is_ws(line[0])) {
        None
    } else {
        let before = crate::text::trim_end(t.drop_last());
        if before.len() == 0 || before.last() != '=' {
            None
        } else {
            Some(crate::text::trim_end(before.drop_last()))
        }
    }
}

/// Where a code lens goes: the line, the defined name, and the byte length
/// of the line without trailing blanks.
#[derive(Debug)]
pub struct LensSite {
    pub line: u32,
    pub name: String,
    pub end: u32,
}

pub open spec fn lens_view(l: LensSite) -> (u32, Seq<char>, u32) {
    (l.line, l.name@, l.end)
}

/// The lens sites of lines before `i` whose name is one of `defs`.
pub open spec fn lens_sites(ls: Seq<Seq<char>>, defs: Seq<Seq<char>>, i: int) -> Seq<(u32, Seq<char>, u32)>
    decreases i,
{
    if i <= 0 {
        seq![]
    } else {
        let p = lens_sites(ls, defs, i - 1);
        match lens_name(ls[i - 1]) {
            Some(n) => if defs.contains(n) {
                p.push(((i - 1) as u32, n, byte_len(crate::text::trim_end(ls[i - 1])) as u32))
            } else {
                p
            },
            None => p,
        }
    }
}

/// `lens_name` of a line, as the end of the name inside it.
fn lens_name_end(l: &[char]) -> (r: Option<usize>)
    ensures
        match r {
            Some(e) => e <= l@.len() && lens_name(l@) == Some(l@.take(e as int)),
            None => lens_name(l@) is None,
        },
{
    let n = l.len();
    let te = crate::text::back_ws(l, 0, n);
    let ghost t = crate::text::trim_end(l@);
    proof {
        assert(l@.subrange(0, n as int) =~= l@);
        assert(t =~= l@.subrange(0, te as int));
    }
    if te == 0 || l[te - 1] != '{' || (n > 0 && is_whitespace(l[0])) {
        proof {
            if te > 0 {
                assert(t.last() == l@[te - 1]);
            }
        }
        return None;
    }
    proof {
        assert(t.last() == l@[te - 1]);
    }
    let be = crate::text::back_ws(l, 0, te - 1);
    let ghost before = crate::text::trim_end(t.drop_last());
    proof {
        assert(t.drop_last() =~= l@.subrange(0, te - 1));
        assert(before =~= l@.subrange(0, be as int));
    }
    if be == 0 || l[be - 1] != '=' {
        proof {
            if be > 0 {
                assert(before.last() == l@[be - 1]);
            }
        }
        return None;
    }
    proof {
        assert(before.last() == l@[be - 1]);
    }
    let ne = crate::text::back_ws(l, 0, be - 1);
    proof {
        assert(before.drop_last() =~= l@.subrange(0, be - 1));
        assert(crate::text::trim_end(before.drop_last()) =~= l@.take(ne as int));
    }
    Some(ne)
}

/// The lines of `text` that define one of `definition_names` as `name = {`
/// at column 0, where a code lens counting its references goes.
pub fn code_lens_sites(text: &str, definition_names: &[String]) -> (r: Vec<LensSite>)
    ensures
        r@.map_values(|l: LensSite| lens_view(l)) == lens_sites(
            crate::text::lines_of(text@),
            crate::text::string_views(definition_names@),
            crate::text::lines_of(text@).len() as int,
        ),
{
    let cs = chars_of(text);
    let ls = crate::text::split_lines(cs.as_slice());
    let ghost lsv = crate::text::views(ls@);
    let ghost dv = crate::text::string_views(definition_names@);
    let mut out: Vec<LensSite> = Vec::new();
    let mut i: usize = 0;
    proof {
        assert(out@.map_values(|l: LensSite| lens_view(l)) =~= Seq::<(u32, Seq<char>, u32)>::empty());
    }
    while i < ls.len()
        invariant
            lsv == crate::text::views(ls@),
            lsv == crate::text::lines_of(text@),
            dv == crate::text::string_views(definition_names@),
            i <= lsv.len(),
            out@.map_values(|l: LensSite| lens_view(l)) == lens_sites(lsv, dv, i as int),
        decreases lsv.len() - i,
    {
        let line = ls[i].as_slice();
        proof {
            assert(line@ == lsv[i as int]);
        }
        match lens_name_end(line) {
            Some(e) => {
                let nm = crate::text::sub_chars(line, 0, e);
                proof {
                    assert(nm@ =~= line@.take(e as int));
                }
                if crate::semantic::contains_word(definition_names, nm.as_slice()) {
                    let te = crate::text::back_ws(line, 0, line.len());
                    let width = crate::text::byte_len_of(crate::text::sub_chars(line, 0, te).as_slice());
                    proof {
                        assert(line@.subrange(0, line@.len() as int) =~= line@);
                    }
                    let site = LensSite {
                        line: #[verifier::truncate] (i as u32),
                        name: string_of(nm.as_slice(), 0, nm.len()),
                        end: #[verifier::truncate] (width as u32),
                    };
                    let ghost prev = out@.map_values(|l: LensSite| lens_view(l));
                    out.push(site);
                    proof {
                        assert(nm@.subrange(0, nm@.len() as int) =~= nm@);
                        assert(out@.map_values(|l: LensSite| lens_view(l)) =~= prev.push(lens_view(site)));
                    }
                }
            },
            None => {},
        }
        i += 1;
    }
    out
}


// ─── Ranges of requests ──────────────────────────────────────────────────────

/// A violation's NOT block overlaps the lines `start..=end`.
pub fn violation_in_range(v: &crate::demorgan::Violation, start: u32, end: u32) -> (b: bool)
    ensures
        b == (v.not_line <= end && v.not_close_line >= start),
{
    v.not_line <= end && v.not_close_line >= start
}

/// The hints on the lines `start..=end`, in order.
pub fn hints_in_range(hints: &[crate::validate::InlayHint], start: u32, end: u32) -> (r: Vec<usize>)
    ensures
        r@.map_values(|i: usize| i as int) == Seq::new(hints@.len(), |i: int| i).filter(
            |i: int| start <= hints@[i].position.line <= end,
        ),
{
    let ghost all = Seq::new(hints@.len(), |i: int| i);
    let ghost pf = |i: int| start <= hints@[i].position.line <= end;
    let mut out: Vec<usize> = Vec::new();
    let mut i: usize = 0;
    proof {
        assert(all.take(0).filter(pf) =~= Seq::<int>::empty());
        assert(out@.map_values(|i: usize| i as int) =~= Seq::<int>::empty());
    }
    while i < hints.len()
        invariant
            i <= hints@.len(),
            all == Seq::new(hints@.len(), |i: int| i),
            pf == (|i: int| start <= hints@[i].position.line <= end),
            out@.map_values(|i: usize| i as int) == all.take(i as int).filter(pf),
        decreases hints@.len() - i,
    {
        proof {
            assert(all.take(i + 1) =~= all.take(i as int).push(i as int));
            all.take(i as int).lemma_filter_push(i as int, pf);
        }
        let ghost prev = out@.map_values(|i: usize| i as int);
        let l = hints[i].position.line;
        if start <= l && l <= end {
            out.push(i);
            proof {
                assert(out@.map_values(|i: usize| i as int) =~= prev.push(i as int));
            }
        }
        i += 1;
    }
    proof {
        assert(all.take(hints@.len() as int) =~= all);
    }
    out
}

// ─── The diagnostic under the cursor ─────────────────────────────────────────

/// The diagnostic is on line `line`, spans column `character`, and has a code.
pub open spec fn diag_under(d: crate::model::Diagnostic, line: u32, character: u32) -> bool {
    &&& d.range.start.line == line
    &&& d.range.start.character <= character <= d.range.end.character
    &&& d.code is Some
}

/// The first diagnostic with a code whose range holds the cursor on its
/// first line.
pub fn diagnostic_at(diags: &[crate::model::Diagnostic], line: u32, character: u32) -> (r: Option<usize>)
    ensures
        match r {
            Some(i) => i < diags@.len() && diag_under(diags@[i as int], line, character) && forall|j: int|
                0 <= j < i ==> !diag_under(#[trigger] diags@[j], line, character),
            None => forall|j: int| 0 <= j < diags@.len() ==> !diag_under(#[trigger] diags@[j], line, character),
        },
{
    let mut i: usize = 0;
    while i < diags.len()
        invariant
            i <= diags@.len(),
            forall|j: int| 0 <= j < i ==> !diag_under(#[trigger] diags@[j], line, character),
        decreases diags@.len() - i,
    {
        let d = &diags[i];
        if d.range.start.line == line && d.range.start.character <= character && character <= d.range.end.character
            && d.code.is_some() {
            return Some(i);
        }
        i += 1;
    }
    None
}

pub open spec fn severity_word_spec(s: Option<crate::model::DiagnosticSeverity>) -> Seq<char> {
    match s {
        Some(crate::model::DiagnosticSeverity::Error) => "error"@,
        Some(crate::model::DiagnosticSeverity::Warning) => "warning"@,
        Some(crate::model::DiagnosticSeverity::Information) => "untidy"@,
        Some(crate::model::DiagnosticSeverity::Hint) => "tips"@,
        None => "unknown"@,
    }
}

/// The validator's word for a diagnostic's severity.
pub fn severity_word(s: Option<crate::model::DiagnosticSeverity>) -> (r: &'static str)
    ensures
        r@ == severity_word_spec(s),
{
    match s {
        Some(crate::model::DiagnosticSeverity::Error) => "error",
        Some(crate::model::DiagnosticSeverity::Warning) => "warning",
        Some(crate::model::DiagnosticSeverity::Information) => "untidy",
        Some(crate::model::DiagnosticSeverity::Hint) => "tips",
        None => "unknown",
    }
}

/// The first line of a message that starts with `http`, trimmed: the
/// report's wiki link.
pub open spec fn wiki_line(ls: Seq<Seq<char>>, i: int) -> Option<Seq<char>>
    decreases ls.len() - i,
{
    if i < 0 || i >= ls.len() {
        None
    } else if crate::completions::starts_with(ls[i], "http"@) {
        Some(crate::text::trim(ls[i]))
    } else {
        wiki_line(ls, i + 1)
    }
}

/// The wiki link of a diagnostic's message (see `wiki_line`).
pub fn message_wiki(message: &str) -> (r: Option<String>)
    ensures
        match wiki_line(crate::text::lines_of(message@), 0) {
            Some(w) => r.is_some() && r.unwrap()@ == w,
            None => r is None,
        },
{
    let cs = chars_of(message);
    let ls = crate::text::split_lines(cs.as_slice());
    let ghost lsv = crate::text::views(ls@);
    let http = chars_of("http");
    let mut i: usize = 0;
    while i < ls.len()
        invariant
            lsv == crate::text::views(ls@),
            lsv == crate::text::lines_of(message@),
            http@ == "http"@,
            i <= lsv.len(),
            wiki_line(lsv, 0) == wiki_line(lsv, i as int),
        decreases lsv.len() - i,
    {
        let l = ls[i].as_slice();
        proof {
            assert(l@ == lsv[i as int]);
            if http@.len() <= l@.len() {
                assert(l@.take(http@.len() as int) =~= l@.subrange(0, http@.len() as int));
            }
        }
        if http.len() <= l.len() && crate::text::prefix_at(l, 0, http.as_slice()) {
            let (a, b) = crate::text::trim_bounds(l, 0, l.len());
            proof {
                assert(l@.subrange(0, l@.len() as int) =~= l@);
            }
            return Some(string_of(l, a, b));
        }
        i += 1;
    }
    None
}

} // verus!
