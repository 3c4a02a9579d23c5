//! Character-level text primitives shared by every analysis: whitespace,
//! trimming, line splitting, identifier classes and UTF-8 byte columns.
use vstd::prelude::*;

verus! {

// ─── Characters ──────────────────────────────────────────────────────────────

/// Unicode `White_Space`, the property that `char::is_whitespace` tests.
pub open spec fn is_ws(c: char) -> bool {
    ||| c == '\t'
    ||| c == '\n'
    ||| c == '\x0B'
    ||| c == '\x0C'
    ||| c == '\r'
    ||| c == ' '
    ||| c == '\u{85}'
    ||| c == '\u{A0}'
    ||| c == '\u{1680}'
    ||| ('\u{2000}' <= c && c <= '\u{200A}')
    ||| c == '\u{2028}'
    ||| c == '\u{2029}'
    ||| c == '\u{202F}'
    ||| c == '\u{205F}'
    ||| c == '\u{3000}'
}

/// Whether `c` is white space (same set as `char::is_whitespace`).
pub fn is_whitespace(c: char) -> (b: bool)
    ensures
        b == is_ws(c),
{
    c == '\t' || c == '\n' || c == '\x0B' || c == '\x0C' || c == '\r' || c == ' ' || c == '\u{85}'
        || c == '\u{A0}' || c == '\u{1680}' || ('\u{2000}' <= c && c <= '\u{200A}') || c
        == '\u{2028}' || c == '\u{2029}' || c == '\u{202F}' || c == '\u{205F}' || c == '\u{3000}'
}

pub open spec fn is_ascii_digit_spec(c: char) -> bool {
    '0' <= c && c <= '9'
}

pub open spec fn is_ascii_alnum_spec(c: char) -> bool {
    ||| ('0' <= c && c <= '9')
    ||| ('a' <= c && c <= 'z')
    ||| ('A' <= c && c <= 'Z')
}

pub fn is_ascii_digit(c: char) -> (b: bool)
    ensures
        b == is_ascii_digit_spec(c),
{
    '0' <= c && c <= '9'
}

pub fn is_ascii_alnum(c: char) -> (b: bool)
    ensures
        b == is_ascii_alnum_spec(c),
{
    ('0' <= c && c <= '9') || ('a' <= c && c <= 'z') || ('A' <= c && c <= 'Z')
}

/// What `char::is_alphanumeric` answers for `c`: Unicode `Alphabetic` or `Numeric`.
pub uninterp spec fn unicode_alphanumeric(c: char) -> bool;

/// `char::is_alphanumeric`. Its result is named `unicode_alphanumeric`; on ASCII
/// it is stated exactly (letters and digits). Which non-ASCII characters are
/// alphabetic or numeric is left to the Unicode tables and not stated.
#[verifier::external_body]
pub(crate) fn is_alphanumeric(c: char) -> (b: bool)
    ensures
        b == unicode_alphanumeric(c),
        (c as u32) < 0x80 ==> (b == is_ascii_alnum_spec(c)),
{
    c.is_alphanumeric()
}

// ─── Trimming ────────────────────────────────────────────────────────────────

/// Number of leading white-space characters.
pub open spec fn lead_ws(s: Seq<char>) -> nat
    decreases s.len(),
{
    if s.len() > 0 && is_ws(s[0]) {
        1 + lead_ws(s.drop_first())
    } else {
        0
    }
}

/// Number of trailing white-space characters.
pub open spec fn trail_ws(s: Seq<char>) -> nat
    decreases s.len(),
{
    if s.len() > 0 && is_ws(s.last()) {
        1 + trail_ws(s.drop_last())
    } else {
        0
    }
}

/// `str::trim_start`.
pub open spec fn trim_start(s: Seq<char>) -> Seq<char> {
    s.skip(lead_ws(s) as int)
}

/// `str::trim_end`.
pub open spec fn trim_end(s: Seq<char>) -> Seq<char> {
    s.take(s.len() - trail_ws(s))
}

/// `str::trim`.
pub open spec fn trim(s: Seq<char>) -> Seq<char> {
    trim_end(trim_start(s))
}

pub proof fn lemma_lead_ws(s: Seq<char>, k: int)
    requires
        0 <= k <= s.len(),
        forall|j: int| 0 <= j < k ==> is_ws(#[trigger] s[j]),
        k == s.len() || !is_ws(s[k]),
    ensures
        lead_ws(s) == k,
    decreases k,
{
    if k > 0 {
        let t = s.drop_first();
        assert forall|j: int| 0 <= j < k - 1 implies is_ws(#[trigger] t[j]) by {
            assert(t[j] == s[j + 1]);
        }
        assert(is_ws(s[0]));
        lemma_lead_ws(t, k - 1);
    }
}

pub proof fn lemma_trail_ws(s: Seq<char>, k: int)
    requires
        0 <= k <= s.len(),
        forall|j: int| s.len() - k <= j < s.len() ==> is_ws(#[trigger] s[j]),
        k == s.len() || !is_ws(s[s.len() - k - 1]),
    ensures
        trail_ws(s) == k,
    decreases k,
{
    if k > 0 {
        let t = s.drop_last();
        assert forall|j: int| t.len() - (k - 1) <= j < t.len() implies is_ws(#[trigger] t[j]) by {
            assert(t[j] == s[j]);
        }
        assert(is_ws(s[s.len() - 1]));
        lemma_trail_ws(t, k - 1);
    }
}

pub proof fn lemma_lead_ws_bound(s: Seq<char>)
    ensures
        lead_ws(s) <= s.len(),
        forall|j: int| 0 <= j < lead_ws(s) ==> is_ws(#[trigger] s[j]),
        lead_ws(s) == s.len() || !is_ws(s[lead_ws(s) as int]),
    decreases s.len(),
{
    if s.len() > 0 && is_ws(s[0]) {
        let t = s.drop_first();
        lemma_lead_ws_bound(t);
        assert forall|j: int| 0 <= j < lead_ws(s) implies is_ws(#[trigger] s[j]) by {
            if j > 0 {
                assert(s[j] == t[j - 1]);
            }
        }
        if lead_ws(s) < s.len() {
            assert(s[lead_ws(s) as int] == t[lead_ws(t) as int]);
        }
    }
}

pub proof fn lemma_trail_ws_bound(s: Seq<char>)
    ensures
        trail_ws(s) <= s.len(),
        forall|j: int| s.len() - trail_ws(s) <= j < s.len() ==> is_ws(#[trigger] s[j]),
        trail_ws(s) == s.len() || !is_ws(s[s.len() - trail_ws(s) - 1]),
    decreases s.len(),
{
    if s.len() > 0 && is_ws(s.last()) {
        let t = s.drop_last();
        lemma_trail_ws_bound(t);
        assert forall|j: int| s.len() - trail_ws(s) <= j < s.len() implies is_ws(
            #[trigger] s[j],
        ) by {
            if j < s.len() - 1 {
                assert(s[j] == t[j]);
            }
        }
        if trail_ws(s) < s.len() {
            assert(s[s.len() - trail_ws(s) - 1] == t[t.len() - trail_ws(t) - 1]);
        }
    }
}

/// First index in `from..to` that is not white space (`to` if there is none).
pub fn skip_ws(s: &[char], from: usize, to: usize) -> (k: usize)
    requires
        from <= to <= s@.len(),
    ensures
        k == from + lead_ws(s@.subrange(from as int, to as int)),
        from <= k <= to,
{
    let mut k = from;
    while k < to && is_whitespace(s[k])
        invariant
            from <= k <= to <= s@.len(),
            forall|j: int| from <= j < k ==> is_ws(#[trigger] s@[j]),
        decreases to - k,
    {
        k += 1;
    }
    proof {
        let t = s@.subrange(from as int, to as int);
        assert forall|j: int| 0 <= j < k - from implies is_ws(#[trigger] t[j]) by {
            assert(t[j] == s@[from + j]);
        }
        if k < to {
            assert(t[k - from] == s@[k as int]);
        }
        lemma_lead_ws(t, k - from);
    }
    k
}

/// One past the last index in `from..to` that is not white space (`from` if there is none).
pub fn back_ws(s: &[char], from: usize, to: usize) -> (k: usize)
    requires
        from <= to <= s@.len(),
    ensures
        k == to - trail_ws(s@.subrange(from as int, to as int)),
        from <= k <= to,
{
    let mut k = to;
    while k > from && is_whitespace(s[k - 1])
        invariant
            from <= k <= to <= s@.len(),
            forall|j: int| k <= j < to ==> is_ws(#[trigger] s@[j]),
        decreases k - from,
    {
        k -= 1;
    }
    proof {
        let t = s@.subrange(from as int, to as int);
        assert forall|j: int| t.len() - (to - k) <= j < t.len() implies is_ws(#[trigger] t[j]) by {
            assert(t[j] == s@[from + j]);
        }
        if k > from {
            assert(t[t.len() - (to - k) - 1] == s@[k - 1]);
        }
        lemma_trail_ws(t, (to - k) as int);
    }
    k
}

/// Bounds `(a, b)` of `trim(s[from..to])` inside `s`.
pub fn trim_bounds(s: &[char], from: usize, to: usize) -> (r: (usize, usize))
    requires
        from <= to <= s@.len(),
    ensures
        from <= r.0 <= r.1 <= to,
        s@.subrange(r.0 as int, r.1 as int) == trim(s@.subrange(from as int, to as int)),
        r.0 == from + lead_ws(s@.subrange(from as int, to as int)),
{
    let a = skip_ws(s, from, to);
    let b = back_ws(s, a, to);
    proof {
        let t = s@.subrange(from as int, to as int);
        lemma_lead_ws_bound(t);
        assert(trim_start(t) =~= s@.subrange(a as int, to as int));
        assert(trim(t) =~= s@.subrange(a as int, b as int));
    }
    (a, b)
}

// ─── Prefixes and searching ──────────────────────────────────────────────────

/// `s[at..]` starts with `p`.
pub open spec fn has_prefix_at(s: Seq<char>, at: int, p: Seq<char>) -> bool {
    &&& 0 <= at
    &&& at + p.len() <= s.len()
    &&& s.subrange(at, at + p.len()) == p
}

pub fn prefix_at(s: &[char], at: usize, p: &[char]) -> (b: bool)
    requires
        at <= s@.len(),
    ensures
        b == has_prefix_at(s@, at as int, p@),
{
    if p.len() > s.len() - at {
        return false;
    }
    let mut i: usize = 0;
    while i < p.len()
        invariant
            at + p@.len() <= s@.len(),
            s@.len() <= usize::MAX,
            i <= p@.len(),
            forall|j: int| 0 <= j < i ==> s@[at + j] == p@[j],
        decreases p@.len() - i,
    {
        if s[at + i] != p[i] {
            proof {
                assert(s@.subrange(at as int, at + p@.len())[i as int] != p@[i as int]);
            }
            return false;
        }
        i += 1;
    }
    proof {
        assert(s@.subrange(at as int, at + p@.len()) =~= p@);
    }
    true
}

/// Whether `t` occurs inside `s` (`str::contains` with a string pattern).
pub open spec fn contains_seq(s: Seq<char>, t: Seq<char>) -> bool {
    exists|i: int| #[trigger] has_prefix_at(s, i, t)
}

pub fn contains_chars(s: &[char], t: &[char]) -> (b: bool)
    ensures
        b == contains_seq(s@, t@),
{
    if t.len() > s.len() {
        proof {
            assert forall|i: int| !#[trigger] has_prefix_at(s@, i, t@) by {}
        }
        return false;
    }
    let last = s.len() - t.len();
    let mut i: usize = 0;
    loop
        invariant
            t@.len() <= s@.len(),
            last == s@.len() - t@.len(),
            i <= last,
            forall|j: int| 0 <= j < i ==> !#[trigger] has_prefix_at(s@, j, t@),
        ensures
            forall|j: int| 0 <= j <= last ==> !#[trigger] has_prefix_at(s@, j, t@),
        decreases last - i,
    {
        if prefix_at(s, i, t) {
            return true;
        }
        if i == last {
            break;
        }
        i += 1;
    }
    proof {
        assert forall|j: int| !#[trigger] has_prefix_at(s@, j, t@) by {
            if 0 <= j <= last {
            }
        }
    }
    false
}

/// Index of the first `c` in `s`, or `s.len()` when there is none.
pub open spec fn first_of(s: Seq<char>, c: char) -> nat
    decreases s.len(),
{
    if s.len() == 0 || s[0] == c {
        0
    } else {
        1 + first_of(s.drop_first(), c)
    }
}

pub proof fn lemma_first_of(s: Seq<char>, c: char, k: int)
    requires
        0 <= k <= s.len(),
        forall|j: int| 0 <= j < k ==> #[trigger] s[j] != c,
        k == s.len() || s[k] == c,
    ensures
        first_of(s, c) == k,
    decreases k,
{
    if k > 0 {
        let t = s.drop_first();
        assert forall|j: int| 0 <= j < k - 1 implies #[trigger] t[j] != c by {
            assert(t[j] == s[j + 1]);
        }
        assert(s[0] != c);
        lemma_first_of(t, c, k - 1);
    }
}

/// Whether `c` occurs in `s`.
pub open spec fn contains_char(s: Seq<char>, c: char) -> bool {
    exists|j: int| 0 <= j < s.len() && s[j] == c
}

/// Index of the first `c` in `s[from..to]`, if any.
pub fn find_char(s: &[char], from: usize, to: usize, c: char) -> (r: Option<usize>)
    requires
        from <= to <= s@.len(),
    ensures
        match r {
            Some(k) => from <= k < to && s@[k as int] == c && forall|j: int|
                from <= j < k ==> s@[j] != c,
            None => forall|j: int| from <= j < to ==> s@[j] != c,
        },
{
    let mut k = from;
    while k < to
        invariant
            from <= k <= to <= s@.len(),
            forall|j: int| from <= j < k ==> s@[j] != c,
        decreases to - k,
    {
        if s[k] == c {
            return Some(k);
        }
        k += 1;
    }
    None
}

// ─── Lines ───────────────────────────────────────────────────────────────────

/// Index of the first `'\n'` in `s`, or `s.len()`.
pub open spec fn line_end(s: Seq<char>) -> nat
    decreases s.len(),
{
    if s.len() == 0 || s[0] == '\n' {
        0
    } else {
        1 + line_end(s.drop_first())
    }
}

/// `s` without one trailing `'\r'`.
pub open spec fn strip_cr(s: Seq<char>) -> Seq<char> {
    if s.len() > 0 && s.last() == '\r' {
        s.drop_last()
    } else {
        s
    }
}

/// `str::lines`: pieces split at `'\n'`; a piece that ended in `'\n'` also loses
/// one `'\r'` before it; no empty piece after a final `'\n'`.
pub open spec fn lines_of(s: Seq<char>) -> Seq<Seq<char>>
    decreases s.len(),
{
    if s.len() == 0 {
        seq![]
    } else if line_end(s) >= s.len() {
        seq![s]
    } else {
        seq![strip_cr(s.take(line_end(s) as int))] + lines_of(s.skip(line_end(s) as int + 1))
    }
}

pub proof fn lemma_line_end_bound(s: Seq<char>)
    ensures
        line_end(s) <= s.len(),
        line_end(s) < s.len() ==> s[line_end(s) as int] == '\n',
        forall|j: int| 0 <= j < line_end(s) ==> #[trigger] s[j] != '\n',
    decreases s.len(),
{
    if s.len() > 0 && s[0] != '\n' {
        let t = s.drop_first();
        lemma_line_end_bound(t);
        assert forall|j: int| 0 <= j < line_end(s) implies #[trigger] s[j] != '\n' by {
            if j > 0 {
                assert(s[j] == t[j - 1]);
            }
        }
        if line_end(s) < s.len() {
            assert(s[line_end(s) as int] == t[line_end(t) as int]);
        }
    }
}

pub proof fn lemma_line_end(s: Seq<char>, k: int)
    requires
        0 <= k <= s.len(),
        forall|j: int| 0 <= j < k ==> #[trigger] s[j] != '\n',
        k == s.len() || s[k] == '\n',
    ensures
        line_end(s) == k,
    decreases k,
{
    if k > 0 {
        let t = s.drop_first();
        assert forall|j: int| 0 <= j < k - 1 implies #[trigger] t[j] != '\n' by {
            assert(t[j] == s[j + 1]);
        }
        assert(s[0] != '\n');
        lemma_line_end(t, k - 1);
    }
}

/// The views of a sequence of character vectors.
pub open spec fn views(v: Seq<Vec<char>>) -> Seq<Seq<char>> {
    v.map_values(|l: Vec<char>| l@)
}

/// Split `s` into lines exactly as `str::lines` does.
pub fn split_lines(s: &[char]) -> (r: Vec<Vec<char>>)
    ensures
        views(r@) == lines_of(s@),
{
    let mut r: Vec<Vec<char>> = Vec::new();
    let mut start: usize = 0;
    let mut cur: Vec<char> = Vec::new();
    let mut i: usize = 0;
    proof {
        assert(s@.skip(0) =~= s@);
        assert(views(r@) =~= seq![]);
        assert(views(r@) + lines_of(s@) =~= lines_of(s@));
        assert(cur@ =~= s@.subrange(0, 0));
    }
    while i < s.len()
        invariant
            start <= i <= s@.len(),
            cur@ == s@.subrange(start as int, i as int),
            forall|j: int| start <= j < i ==> #[trigger] s@[j] != '\n',
            views(r@) + lines_of(s@.skip(start as int)) == lines_of(s@),
        decreases s@.len() - i,
    {
        if s[i] == '\n' {
            let ghost rest = s@.skip(start as int);
            proof {
                assert forall|j: int| 0 <= j < i - start implies #[trigger] rest[j] != '\n' by {
                    assert(rest[j] == s@[start + j]);
                }
                lemma_line_end(rest, i - start);
                assert(rest.take(i - start) =~= cur@);
                assert(rest.skip(i - start + 1) =~= s@.skip(i + 1));
            }
            let mut line = cur;
            if line.len() > 0 && line[line.len() - 1] == '\r' {
                line.pop();
                proof {
                    assert(line@ =~= strip_cr(rest.take(i - start)));
                }
            }
            proof {
                assert(line@ == strip_cr(rest.take(i - start)));
            }
            let ghost prev = r@;
            r.push(line);
            proof {
                assert(r@.drop_last() =~= prev);
                assert(views(r@) =~= views(prev) + seq![line@]);
                assert(views(prev) + seq![line@] + lines_of(s@.skip(i + 1)) =~= views(prev)
                    + lines_of(rest));
            }
            cur = Vec::new();
            start = i + 1;
            proof {
                assert(cur@ =~= s@.subrange(start as int, start as int));
            }
        } else {
            cur.push(s[i]);
            proof {
                assert(cur@ =~= s@.subrange(start as int, i + 1));
            }
        }
        i += 1;
    }
    if start < s.len() {
        let ghost rest = s@.skip(start as int);
        proof {
            assert forall|j: int| 0 <= j < rest.len() implies #[trigger] rest[j] != '\n' by {
                assert(rest[j] == s@[start + j]);
            }
            lemma_line_end(rest, rest.len() as int);
            assert(rest =~= cur@);
            assert(lines_of(rest) == seq![rest]);
        }
        r.push(cur);
        proof {
            assert(views(r@) =~= views(r@.drop_last()).push(rest));
            assert(views(r@.drop_last()) + seq![rest] =~= views(r@));
        }
    } else {
        proof {
            assert(s@.skip(start as int).len() == 0);
            assert(views(r@) + seq![] =~= views(r@));
        }
    }
    r
}

/// The lines of `text`.
pub fn lines_of_str(text: &str) -> (r: Vec<Vec<char>>)
    ensures
        views(r@) == lines_of(text@),
{
    let cs = chars_of(text);
    split_lines(cs.as_slice())
}

/// The characters of `s`, in order.
pub fn chars_of(s: &str) -> (v: Vec<char>)
    ensures
        v@ == s@,
{
    let mut v: Vec<char> = Vec::new();
    for c in it: s.chars()
        invariant
            v@ == it.seq().take(it.index() as int),
            it.seq() == s@,
    {
        v.push(c);
    }
    v
}

// ─── Building strings ────────────────────────────────────────────────────────

/// `String::push`.
#[verifier::external_body]
pub(crate) fn push_char(s: &mut String, c: char)
    ensures
        final(s)@ == old(s)@.push(c),
{
    s.push(c);
}

/// A `String` holding `s[from..to]`.
pub fn string_of(s: &[char], from: usize, to: usize) -> (r: String)
    requires
        from <= to <= s@.len(),
    ensures
        r@ == s@.subrange(from as int, to as int),
{
    let mut r = String::new();
    let mut i = from;
    while i < to
        invariant
            from <= i <= to <= s@.len(),
            r@ == s@.subrange(from as int, i as int),
        decreases to - i,
    {
        push_char(&mut r, s[i]);
        proof {
            assert(r@ =~= s@.subrange(from as int, i + 1));
        }
        i += 1;
    }
    r
}

/// The characters `s[from..to]`.
pub fn sub_chars(s: &[char], from: usize, to: usize) -> (v: Vec<char>)
    requires
        from <= to <= s@.len(),
    ensures
        v@ == s@.subrange(from as int, to as int),
{
    let mut v: Vec<char> = Vec::new();
    let mut i = from;
    while i < to
        invariant
            from <= i <= to <= s@.len(),
            v@ == s@.subrange(from as int, i as int),
        decreases to - i,
    {
        v.push(s[i]);
        proof {
            assert(v@ =~= s@.subrange(from as int, i + 1));
        }
        i += 1;
    }
    v
}

/// Append the string `s` to `out`.
pub fn append_str(out: &mut String, s: &str)
    ensures
        final(out)@ == old(out)@ + s@,
{
    let cs = chars_of(s);
    push_chars(out, cs.as_slice());
}

/// Append all of `s` to `out`.
pub fn push_chars(out: &mut String, s: &[char])
    ensures
        final(out)@ == old(out)@ + s@,
{
    let mut i: usize = 0;
    while i < s.len()
        invariant
            i <= s@.len(),
            out@ == old(out)@ + s@.take(i as int),
        decreases s@.len() - i,
    {
        push_char(out, s[i]);
        proof {
            assert(old(out)@ + s@.take(i + 1) =~= old(out)@ + s@.take(i as int) + seq![s@[i as int]]);
        }
        i += 1;
    }
    proof {
        assert(s@.take(s@.len() as int) =~= s@);
    }
}

// ─── UTF-8 byte columns ──────────────────────────────────────────────────────

/// Number of bytes in the UTF-8 encoding of `c` (`char::len_utf8`).
pub open spec fn char_width(c: char) -> nat {
    if (c as u32) < 0x80 {
        1
    } else if (c as u32) < 0x800 {
        2
    } else if (c as u32) < 0x10000 {
        3
    } else {
        4
    }
}

/// Number of bytes in the UTF-8 encoding of `s`: the byte column that
/// `str::char_indices` reports for the character after `s`.
pub open spec fn byte_len(s: Seq<char>) -> nat
    decreases s.len(),
{
    if s.len() == 0 {
        0
    } else {
        byte_len(s.drop_last()) + char_width(s.last())
    }
}

pub fn width_of(c: char) -> (w: usize)
    ensures
        w == char_width(c),
{
    if (c as u32) < 0x80 {
        1
    } else if (c as u32) < 0x800 {
        2
    } else if (c as u32) < 0x10000 {
        3
    } else {
        4
    }
}

pub proof fn lemma_byte_len_step(s: Seq<char>, i: int)
    requires
        0 <= i < s.len(),
    ensures
        byte_len(s.take(i + 1)) == byte_len(s.take(i)) + char_width(s[i]),
{
    assert(s.take(i + 1).drop_last() =~= s.take(i));
}

pub proof fn lemma_byte_len_mono(s: Seq<char>, i: int, j: int)
    requires
        0 <= i <= j <= s.len(),
    ensures
        byte_len(s.take(i)) + (j - i) <= byte_len(s.take(j)),
        byte_len(s.take(j)) <= byte_len(s.take(i)) + 4 * (j - i),
    decreases j - i,
{
    if i < j {
        lemma_byte_len_mono(s, i, j - 1);
        lemma_byte_len_step(s, j - 1);
    }
}

/// `byte_len(s[..i])` for each `i` in `0..=s.len()`: the byte column of each
/// character, and of the end.
pub fn byte_columns(s: &[char]) -> (cols: Vec<usize>)
    requires
        4 * s@.len() <= usize::MAX,
    ensures
        cols@.len() == s@.len() + 1,
        forall|i: int| 0 <= i <= s@.len() ==> #[trigger] cols@[i] == byte_len(s@.take(i)),
{
    let mut cols: Vec<usize> = Vec::new();
    cols.push(0);
    proof {
        assert(s@.take(0).len() == 0);
    }
    let mut acc: usize = 0;
    let mut i: usize = 0;
    while i < s.len()
        invariant
            4 * s@.len() <= usize::MAX,
            i <= s@.len(),
            cols@.len() == i + 1,
            acc == byte_len(s@.take(i as int)),
            acc <= 4 * i,
            forall|k: int| 0 <= k <= i ==> #[trigger] cols@[k] == byte_len(s@.take(k)),
        decreases s@.len() - i,
    {
        proof {
            lemma_byte_len_step(s@, i as int);
        }
        acc = acc + width_of(s[i]);
        cols.push(acc);
        i += 1;
    }
    cols
}


/// `byte_len(s)`, computed.
pub fn byte_len_of(s: &[char]) -> (n: u128)
    ensures
        n == byte_len(s@),
{
    let mut acc: u128 = 0;
    let mut i: usize = 0;
    while i < s.len()
        invariant
            i <= s@.len(),
            acc == byte_len(s@.take(i as int)),
            acc <= 4 * i,
        decreases s@.len() - i,
    {
        proof {
            lemma_byte_len_step(s@, i as int);
        }
        acc = acc + width_of(s[i]) as u128;
        i += 1;
    }
    proof {
        assert(s@.take(s@.len() as int) =~= s@);
    }
    acc
}

/// The views of a sequence of string slices.
pub open spec fn str_views(v: Seq<&str>) -> Seq<Seq<char>> {
    v.map_values(|l: &str| l@)
}

/// Each line of `lines` as characters.
pub fn chars_of_lines(lines: &[&str]) -> (r: Vec<Vec<char>>)
    ensures
        views(r@) == str_views(lines@),
{
    let mut r: Vec<Vec<char>> = Vec::new();
    let mut i: usize = 0;
    while i < lines.len()
        invariant
            i <= lines@.len(),
            views(r@) == str_views(lines@.take(i as int)),
        decreases lines@.len() - i,
    {
        let v = chars_of(lines[i]);
        let ghost prev = r@;
        r.push(v);
        proof {
            assert(r@.drop_last() =~= prev);
            assert(views(prev).len() == prev.len());
            assert(str_views(lines@.take(i as int)).len() == i);
            assert(prev.len() == i);
            assert(r@.len() == i + 1);
            assert(views(r@)[i as int] == v@);
            assert(str_views(lines@.take(i + 1))[i as int] == lines@[i as int]@);
            assert forall|k: int| 0 <= k < i + 1 implies views(r@)[k] == str_views(
                lines@.take(i + 1),
            )[k] by {
                if k < i {
                    assert(views(prev)[k] == str_views(lines@.take(i as int))[k]);
                }
            }
            assert(views(r@) =~= str_views(lines@.take(i + 1)));
        }
        i += 1;
    }
    proof {
        assert(lines@.take(lines@.len() as int) =~= lines@);
    }
    r
}

/// `parts` joined with `sep` between neighbours (`[T]::join`).
pub open spec fn join(parts: Seq<Seq<char>>, sep: Seq<char>) -> Seq<char>
    decreases parts.len(),
{
    if parts.len() == 0 {
        seq![]
    } else if parts.len() == 1 {
        parts[0]
    } else {
        join(parts.drop_last(), sep) + sep + parts.last()
    }
}

/// The views of a sequence of strings.
pub open spec fn string_views(v: Seq<String>) -> Seq<Seq<char>> {
    v.map_values(|p: String| p@)
}

/// `join(parts, "\n")` as a `String`.
pub fn join_lines(parts: &Vec<String>) -> (r: String)
    ensures
        r@ == join(string_views(parts@), seq!['\n']),
{
    let ghost pv = string_views(parts@);
    let mut r = String::new();
    let mut i: usize = 0;
    while i < parts.len()
        invariant
            i <= parts@.len(),
            pv == string_views(parts@),
            r@ == join(pv.take(i as int), seq!['\n']),
        decreases parts@.len() - i,
    {
        let piece = chars_of(parts[i].as_str());
        if i > 0 {
            push_char(&mut r, '\n');
        }
        push_chars(&mut r, piece.as_slice());
        proof {
            assert(pv.take(i + 1).drop_last() =~= pv.take(i as int));
            if i == 0 {
                assert(pv.take(1) =~= seq![pv[0]]);
                assert(r@ =~= pv[0]);
            }
        }
        i += 1;
    }
    proof {
        assert(pv.take(parts@.len() as int) =~= pv);
    }
    r
}

/// Whether two character sequences are equal.
pub fn chars_eq(a: &[char], b: &[char]) -> (r: bool)
    ensures
        r == (a@ == b@),
{
    if a.len() != b.len() {
        return false;
    }
    let mut i: usize = 0;
    while i < a.len()
        invariant
            a@.len() == b@.len(),
            i <= a@.len(),
            forall|j: int| 0 <= j < i ==> a@[j] == b@[j],
        decreases a@.len() - i,
    {
        if a[i] != b[i] {
            return false;
        }
        i += 1;
    }
    proof {
        assert(a@ =~= b@);
    }
    true
}

/// Whether `s` equals the string `lit`.
pub fn str_is(s: &str, lit: &str) -> (r: bool)
    ensures
        r == (s@ == lit@),
{
    let a = chars_of(s);
    let b = chars_of(lit);
    chars_eq(a.as_slice(), b.as_slice())
}

/// `parts` joined with `sep` between neighbours, as characters.
pub fn join_chars(parts: &Vec<Vec<char>>, sep: char) -> (r: Vec<char>)
    ensures
        r@ == join(views(parts@), seq![sep]),
{
    let ghost pv = views(parts@);
    let mut r: Vec<char> = Vec::new();
    let mut i: usize = 0;
    while i < parts.len()
        invariant
            i <= parts@.len(),
            pv == views(parts@),
            r@ == join(pv.take(i as int), seq![sep]),
        decreases parts@.len() - i,
    {
        if i > 0 {
            r.push(sep);
        }
        let p = &parts[i];
        let mut j: usize = 0;
        let ghost base = r@;
        while j < p.len()
            invariant
                j <= p@.len(),
                r@ == base + p@.take(j as int),
            decreases p@.len() - j,
        {
            r.push(p[j]);
            proof {
                assert(base + p@.take(j + 1) =~= (base + p@.take(j as int)).push(p@[j as int]));
            }
            j += 1;
        }
        proof {
            assert(p@.take(p@.len() as int) =~= p@);
            assert(pv[i as int] == p@);
            assert(pv.take(i + 1).drop_last() =~= pv.take(i as int));
            if i == 0 {
                assert(pv.take(1) =~= seq![pv[0]]);
                assert(r@ =~= pv[0]);
            }
        }
        i += 1;
    }
    proof {
        assert(pv.take(parts@.len() as int) =~= pv);
    }
    r
}

pub proof fn lemma_byte_len_concat(a: Seq<char>, b: Seq<char>)
    ensures
        byte_len(a + b) == byte_len(a) + byte_len(b),
    decreases b.len(),
{
    if b.len() == 0 {
        assert(a + b =~= a);
    } else {
        assert((a + b).drop_last() =~= a + b.drop_last());
        lemma_byte_len_concat(a, b.drop_last());
    }
}

/// The byte columns of every line.
pub fn all_columns(ls: &Vec<Vec<char>>) -> (cols: Vec<Vec<usize>>)
    requires
        forall|l: int| 0 <= l < ls@.len() ==> 4 * (#[trigger] ls@[l]@.len()) <= usize::MAX,
    ensures
        cols@.len() == ls@.len(),
        forall|l: int|
            0 <= l < ls@.len() ==> (#[trigger] cols@[l])@.len() == ls@[l]@.len() + 1 && forall|
                i: int,
            | 0 <= i <= ls@[l]@.len() ==> #[trigger] cols@[l]@[i] == byte_len(ls@[l]@.take(i)),
{
    let mut cols: Vec<Vec<usize>> = Vec::new();
    let mut l: usize = 0;
    while l < ls.len()
        invariant
            l <= ls@.len(),
            cols@.len() == l,
            forall|l: int| 0 <= l < ls@.len() ==> 4 * (#[trigger] ls@[l]@.len()) <= usize::MAX,
            forall|k: int|
                0 <= k < l ==> (#[trigger] cols@[k])@.len() == ls@[k]@.len() + 1 && forall|i: int|
                    0 <= i <= ls@[k]@.len() ==> #[trigger] cols@[k]@[i] == byte_len(
                        ls@[k]@.take(i),
                    ),
        decreases ls@.len() - l,
    {
        let c = byte_columns(ls[l].as_slice());
        cols.push(c);
        l += 1;
    }
    cols
}

/// What `str::to_lowercase` gives for `s` (Unicode lower-case mapping).
pub uninterp spec fn lowercase(s: Seq<char>) -> Seq<char>;

/// `str::to_lowercase`. Its result is named `lowercase`; the Unicode case
/// mapping itself is not stated.
#[verifier::external_body]
pub(crate) fn to_lowercase(s: &str) -> (r: String)
    ensures
        r@ == lowercase(s@),
{
    s.to_lowercase()
}

} // verus!
