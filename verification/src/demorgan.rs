//! De Morgan detection and rewrite: `NOT = { AND/OR = { ... } }` becomes
//! `OR/AND = { NOT = { ... } ... }`.
use vstd::prelude::*;
use crate::format::{lemma_total_len_take, total_len};
use crate::model::{make_range, span, Diagnostic, DiagnosticSeverity, TextEdit};
use crate::text::{
    byte_len, chars_eq, chars_of, chars_of_lines, contains_char, is_ws, join, lines_of, trim, trim_end, find_char, first_of, lemma_first_of, has_prefix_at, lead_ws, lemma_byte_len_step,
    lemma_lead_ws_bound, lemma_trail_ws_bound, trim_bounds, join_chars, lemma_byte_len_concat, push_char, push_chars, split_lines, string_views, all_columns, join_lines, back_ws, is_whitespace, prefix_at, skip_ws, str_views, string_of, sub_chars, trim_start, views, width_of,
};

verus! {

/// A De Morgan violation found in a document. Lines are 0-based; columns are
/// 0-based byte offsets.
#[derive(Debug, Clone)]
pub struct Violation {
    /// Line of the `NOT = {` opener.
    pub not_line: u32,
    /// Line of the closing `}` of the NOT block.
    pub not_close_line: u32,
    /// The inner operator: "AND" or "OR".
    pub inner_op: String,
    /// Line of the `AND/OR = {` opener.
    pub inner_line: u32,
    /// Column of the `{` on `inner_line`.
    pub inner_brace_col: u32,
    /// Line of the closing `}` of the inner block.
    pub inner_close_line: u32,
    /// Column of the `}` on `inner_close_line`.
    pub inner_close_col: u32,
    /// Column of the `}` on `not_close_line`.
    pub not_close_col: u32,
}

/// Byte column of character `k` of `line`.
pub open spec fn bcol(line: Seq<char>, k: int) -> int {
    byte_len(line.take(k)) as int
}

pub open spec fn and_op() -> Seq<char> {
    seq!['A', 'N', 'D']
}

pub open spec fn or_op() -> Seq<char> {
    seq!['O', 'R']
}

pub open spec fn not_kw() -> Seq<char> {
    seq!['N', 'O', 'T']
}

// ─── Matching close brace ────────────────────────────────────────────────────

/// The matching `}` for the `{` at character `sk` of line `sl`, scanning from
/// position `(l, k)` with brace depth `depth` and string state `in_s`. Each
/// line is scanned from its start (line `sl` from `sk`), quotes toggle a
/// string that ends with the line, `#` outside a string ends the line, braces
/// inside strings do not count. Returns `(line, character)`.
pub open spec fn close_from(
    ls: Seq<Seq<char>>,
    sl: int,
    sk: int,
    l: int,
    k: int,
    depth: int,
    in_s: bool,
) -> Option<(int, int)>
    decreases ls.len() - l, ls[l].len() - k,
{
    if l < 0 || l >= ls.len() || k < 0 {
        None
    } else if k >= ls[l].len() {
        close_from(ls, sl, sk, l + 1, 0, depth, false)
    } else {
        let ch = ls[l][k];
        if l == sl && k < sk {
            close_from(ls, sl, sk, l, k + 1, depth, in_s)
        } else if ch == '"' {
            close_from(ls, sl, sk, l, k + 1, depth, !in_s)
        } else if ch == '#' && !in_s {
            close_from(ls, sl, sk, l + 1, 0, depth, false)
        } else if ch == '{' && !in_s {
            close_from(ls, sl, sk, l, k + 1, depth + 1, in_s)
        } else if ch == '}' && !in_s {
            if depth - 1 == 0 {
                Some((l, k))
            } else {
                close_from(ls, sl, sk, l, k + 1, depth - 1, in_s)
            }
        } else {
            close_from(ls, sl, sk, l, k + 1, depth, in_s)
        }
    }
}

pub open spec fn find_close_spec(ls: Seq<Seq<char>>, sl: int, sk: int) -> Option<(int, int)> {
    close_from(ls, sl, sk, sl, 0, 0, false)
}

fn find_close(ls: &Vec<Vec<char>>, sl: usize, sk: usize) -> (r: Option<(usize, usize)>)
    requires
        sl < ls@.len(),
        sk < ls@[sl as int]@.len(),
        ls@[sl as int]@[sk as int] == '{',
        total_len(views(ls@)) <= usize::MAX,
    ensures
        match r {
            Some((a, b)) => find_close_spec(views(ls@), sl as int, sk as int) == Some(
                (a as int, b as int),
            ) && a < ls@.len() && b < ls@[a as int]@.len(),
            None => find_close_spec(views(ls@), sl as int, sk as int) is None,
        },
{
    let ghost v = views(ls@);
    let mut depth: usize = 0;
    let mut l = sl;
    while l < ls.len()
        invariant
            v == views(ls@),
            sl <= l <= ls@.len(),
            sk < v[sl as int].len(),
            v[sl as int][sk as int] == '{',
            (l == sl && depth == 0) || depth >= 1,
            total_len(v) <= usize::MAX,
            depth <= total_len(v.take(l as int)),
            find_close_spec(v, sl as int, sk as int) == close_from(
                v,
                sl as int,
                sk as int,
                l as int,
                0,
                depth as int,
                false,
            ),
        decreases ls@.len() - l,
    {
        let line = &ls[l];
        proof {
            lemma_total_len_take(v, l as int);
        }
        let mut in_string = false;
        let mut k: usize = 0;
        while k < line.len()
            invariant
                v == views(ls@),
                sl <= l < ls@.len(),
                line@ == v[l as int],
                k <= line@.len(),
                sk < v[sl as int].len(),
                v[sl as int][sk as int] == '{',
                (l == sl && k <= sk && depth == 0 && !in_string) || depth >= 1,
                total_len(v) <= usize::MAX,
                total_len(v.take(l as int + 1)) == total_len(v.take(l as int)) + line@.len(),
                total_len(v.take(l as int + 1)) <= total_len(v),
                depth <= total_len(v.take(l as int)) + k,
                find_close_spec(v, sl as int, sk as int) == close_from(
                    v,
                    sl as int,
                    sk as int,
                    l as int,
                    k as int,
                    depth as int,
                    in_string,
                ),
            ensures
                depth >= 1,
                depth <= total_len(v.take(l as int + 1)),
                find_close_spec(v, sl as int, sk as int) == close_from(
                    v,
                    sl as int,
                    sk as int,
                    l as int + 1,
                    0,
                    depth as int,
                    false,
                ),
            decreases line@.len() - k,
        {
            let ch = line[k];
            if l == sl && k < sk {
            } else if ch == '"' {
                in_string = !in_string;
            } else if ch == '#' && !in_string {
                break;
            } else if ch == '{' && !in_string {
                depth += 1;
            } else if ch == '}' && !in_string {
                depth -= 1;
                if depth == 0 {
                    return Some((l, k));
                }
            }
            k += 1;
        }
        l += 1;
    }
    None
}

// ─── The NOT header and the inner operator ───────────────────────────────────

/// The line opens a NOT block: after leading white space, `NOT`, `=`, `{`,
/// with optional white space between them.
pub open spec fn not_header(line: Seq<char>) -> bool {
    op_at(line, not_kw()) is Some
}

/// Index of the first `{` of `line` (0 when there is none).
pub open spec fn first_brace(line: Seq<char>) -> int {
    if first_of(line, '{') < line.len() {
        first_of(line, '{') as int
    } else {
        0
    }
}

/// If `seg` (after leading white space) is `op`, `=`, `{` with optional white
/// space between them, the offsets in `seg` of the operator and of the `{`.
pub open spec fn op_at(seg: Seq<char>, op: Seq<char>) -> Option<(int, int)> {
    let sp = lead_ws(seg) as int;
    let t = seg.skip(sp);
    if has_prefix_at(t, 0, op) {
        let w1 = lead_ws(t.skip(op.len() as int)) as int;
        let a = t.skip(op.len() + w1);
        if a.len() > 0 && a[0] == '=' {
            let w2 = lead_ws(a.skip(1)) as int;
            let b = a.skip(1 + w2);
            if b.len() > 0 && b[0] == '{' {
                Some((sp, sp + op.len() + w1 + 1 + w2))
            } else {
                None
            }
        } else {
            None
        }
    } else {
        None
    }
}

/// The part of line `l` that lies inside the NOT block, as character bounds.
pub open spec fn inner_seg_bounds(
    ls: Seq<Seq<char>>,
    nl: int,
    nk: int,
    cl: int,
    ck: int,
    l: int,
) -> (int, int) {
    let to = if l == cl {
        if ck < ls[l].len() {
            ck
        } else {
            ls[l].len() as int
        }
    } else {
        ls[l].len() as int
    };
    let from = if l == nl {
        nk + 1
    } else {
        0
    };
    (if from < to {
        from
    } else {
        to
    }, to)
}

/// Search lines `l..=cl` for the inner `AND = {` / `OR = {`: blank and comment
/// segments are skipped, anything else ends the search. Returns
/// `(op, line, op character, brace character)`.
pub open spec fn inner_from(
    ls: Seq<Seq<char>>,
    nl: int,
    nk: int,
    cl: int,
    ck: int,
    l: int,
) -> Option<(Seq<char>, int, int, int)>
    decreases cl + 1 - l,
{
    if l > cl || l < 0 || l >= ls.len() {
        None
    } else {
        let (from, to) = inner_seg_bounds(ls, nl, nk, cl, ck, l);
        let seg = ls[l].subrange(from, to);
        let t = trim_start(seg);
        if t.len() == 0 || t[0] == '#' {
            inner_from(ls, nl, nk, cl, ck, l + 1)
        } else {
            match op_at(seg, and_op()) {
                Some((o, b)) => Some((and_op(), l, from + o, from + b)),
                None => match op_at(seg, or_op()) {
                    Some((o, b)) => Some((or_op(), l, from + o, from + b)),
                    None => None,
                },
            }
        }
    }
}

/// `op_at`, computed on `s[from..to]` with offsets made absolute.
fn op_at_exec(s: &[char], from: usize, to: usize, op: &[char]) -> (r: Option<(usize, usize)>)
    requires
        from <= to <= s@.len(),
        op@.len() <= 3,
    ensures
        match r {
            Some((o, b)) => op_at(s@.subrange(from as int, to as int), op@) == Some(
                ((o - from) as int, (b - from) as int),
            ) && from <= o <= b < to && s@[b as int] == '{',
            None => op_at(s@.subrange(from as int, to as int), op@) is None,
        },
{
    let ghost seg = s@.subrange(from as int, to as int);
    let o = skip_ws(s, from, to);
    let ghost t = seg.skip((o - from) as int);
    proof {
        assert(t =~= s@.subrange(o as int, to as int));
    }
    if op.len() > to - o || !prefix_at(s, o, op) {
        proof {
            if has_prefix_at(t, 0, op@) {
                assert(s@.subrange(o as int, o + op@.len()) =~= t.subrange(0, op@.len() as int));
            }
        }
        return None;
    }
    proof {
        assert(t.subrange(0, op@.len() as int) =~= s@.subrange(o as int, o + op@.len()));
    }
    let p = o + op.len();
    let a = skip_ws(s, p, to);
    proof {
        assert(t.skip(op@.len() as int) =~= s@.subrange(p as int, to as int));
        assert(t.skip(op@.len() + (a - p)) =~= s@.subrange(a as int, to as int));
    }
    if a >= to || s[a] != '=' {
        return None;
    }
    let q = a + 1;
    let b = skip_ws(s, q, to);
    proof {
        let aa = t.skip(op@.len() + (a - p));
        assert(aa.skip(1) =~= s@.subrange(q as int, to as int));
        assert(aa.skip(1 + (b - q)) =~= s@.subrange(b as int, to as int));
    }
    if b >= to || s[b] != '{' {
        return None;
    }
    Some((o, b))
}

fn inner_bounds(
    ls: &Vec<Vec<char>>,
    nl: usize,
    nk: usize,
    cl: usize,
    ck: usize,
    l: usize,
) -> (r: (usize, usize))
    requires
        l < ls@.len(),
        nk < usize::MAX,
    ensures
        (r.0 as int, r.1 as int) == inner_seg_bounds(
            views(ls@),
            nl as int,
            nk as int,
            cl as int,
            ck as int,
            l as int,
        ),
        r.0 <= r.1 <= ls@[l as int]@.len(),
{
    let len = ls[l].len();
    let to = if l == cl {
        if ck < len {
            ck
        } else {
            len
        }
    } else {
        len
    };
    let from = if l == nl {
        nk + 1
    } else {
        0
    };
    (if from < to {
        from
    } else {
        to
    }, to)
}

fn find_inner_op(ls: &Vec<Vec<char>>, nl: usize, nk: usize, cl: usize, ck: usize) -> (r: Option<
    (bool, usize, usize, usize),
>)
    requires
        nl <= cl < ls@.len(),
        nk < usize::MAX,
    ensures
        match r {
            Some((is_and, l, o, b)) => {
                &&& inner_from(views(ls@), nl as int, nk as int, cl as int, ck as int, nl as int)
                    == Some(
                    (
                        if is_and {
                            and_op()
                        } else {
                            or_op()
                        },
                        l as int,
                        o as int,
                        b as int,
                    ),
                )
                &&& nl <= l <= cl
                &&& o <= b < ls@[l as int]@.len()
                &&& ls@[l as int]@[b as int] == '{'
            },
            None => inner_from(views(ls@), nl as int, nk as int, cl as int, ck as int, nl as int)
                is None,
        },
{
    let ghost v = views(ls@);
    let n = ls.len();
    let and_lit: [char; 3] = ['A', 'N', 'D'];
    let or_lit: [char; 2] = ['O', 'R'];
    let mut l = nl;
    while l <= cl
        invariant
            v == views(ls@),
            nl <= l <= cl + 1,
            cl < ls@.len(),
            n == ls@.len(),
            nk < usize::MAX,
            and_lit@ == and_op(),
            or_lit@ == or_op(),
            inner_from(v, nl as int, nk as int, cl as int, ck as int, nl as int) == inner_from(
                v,
                nl as int,
                nk as int,
                cl as int,
                ck as int,
                l as int,
            ),
        decreases cl + 1 - l,
    {
        let (from, to) = inner_bounds(ls, nl, nk, cl, ck, l);
        let line = ls[l].as_slice();
        proof {
            assert(line@ == v[l as int]);
        }
        let t0 = skip_ws(line, from, to);
        proof {
            let seg = line@.subrange(from as int, to as int);
            lemma_lead_ws_bound(seg);
            if t0 < to {
                assert(trim_start(seg)[0] == line@[t0 as int]);
            }
        }
        if t0 == to || line[t0] == '#' {
            l += 1;
        } else {
            match op_at_exec(line, from, to, and_lit.as_slice()) {
                Some((o, b)) => {
                    return Some((true, l, o, b));
                },
                None => match op_at_exec(line, from, to, or_lit.as_slice()) {
                    Some((o, b)) => {
                        return Some((false, l, o, b));
                    },
                    None => {
                        return None;
                    },
                },
            }
        }
    }
    None
}

pub proof fn lemma_close_from_forward(
    ls: Seq<Seq<char>>,
    sl: int,
    sk: int,
    l: int,
    k: int,
    depth: int,
    in_s: bool,
)
    ensures
        close_from(ls, sl, sk, l, k, depth, in_s) matches Some((a, b)) ==> {
            &&& l <= a < ls.len()
            &&& 0 <= b < ls[a].len()
            &&& ls[a][b] == '}'
        },
    decreases ls.len() - l, ls[l].len() - k,
{
    if l < 0 || l >= ls.len() || k < 0 {
    } else if k >= ls[l].len() {
        lemma_close_from_forward(ls, sl, sk, l + 1, 0, depth, false);
    } else {
        let ch = ls[l][k];
        if l == sl && k < sk {
            lemma_close_from_forward(ls, sl, sk, l, k + 1, depth, in_s);
        } else if ch == '"' {
            lemma_close_from_forward(ls, sl, sk, l, k + 1, depth, !in_s);
        } else if ch == '#' && !in_s {
            lemma_close_from_forward(ls, sl, sk, l + 1, 0, depth, false);
        } else if ch == '{' && !in_s {
            lemma_close_from_forward(ls, sl, sk, l, k + 1, depth + 1, in_s);
        } else if ch == '}' && !in_s {
            if depth - 1 != 0 {
                lemma_close_from_forward(ls, sl, sk, l, k + 1, depth - 1, in_s);
            }
        } else {
            lemma_close_from_forward(ls, sl, sk, l, k + 1, depth, in_s);
        }
    }
}

// ─── Other content inside the NOT block ──────────────────────────────────────

/// Bounds of the NOT block's interior on line `l`, in characters.
pub open spec fn not_interior(ls: Seq<Seq<char>>, nl: int, nk: int, cl: int, ck: int, l: int) -> (
    int,
    int,
) {
    (if l == nl {
        nk + 1
    } else {
        0
    }, if l == cl {
        ck
    } else {
        ls[l].len() as int
    })
}

/// Character `k` of line `l` lies in the inner block's extent, which starts
/// at the operator keyword and ends after its closing brace.
pub open spec fn in_inner(il: int, ik: int, icl: int, ick: int, l: int, k: int) -> bool {
    &&& il <= l <= icl
    &&& (l == il ==> k >= ik)
    &&& (l == icl ==> k < ick + 1)
}

/// Whether, from position `(l, k)` on, the NOT block holds anything but white
/// space (space or tab), stray `}`, comments, and the inner block.
pub open spec fn other_from(
    ls: Seq<Seq<char>>,
    nl: int,
    nk: int,
    cl: int,
    ck: int,
    il: int,
    ik: int,
    icl: int,
    ick: int,
    l: int,
    k: int,
) -> bool
    decreases cl + 1 - l, ls[l].len() - k,
{
    if l > cl || l < 0 || l >= ls.len() || k < 0 {
        false
    } else if k >= ls[l].len() {
        other_from(ls, nl, nk, cl, ck, il, ik, icl, ick, l + 1, 0)
    } else {
        let (from, to) = not_interior(ls, nl, nk, cl, ck, l);
        let ch = ls[l][k];
        if k < from || k >= to || in_inner(il, ik, icl, ick, l, k) || ch == ' ' || ch == '\t'
            || ch == '}' {
            other_from(ls, nl, nk, cl, ck, il, ik, icl, ick, l, k + 1)
        } else if ch == '#' {
            other_from(ls, nl, nk, cl, ck, il, ik, icl, ick, l + 1, 0)
        } else {
            true
        }
    }
}

fn has_other_content(
    ls: &Vec<Vec<char>>,
    nl: usize,
    nk: usize,
    cl: usize,
    ck: usize,
    il: usize,
    ik: usize,
    icl: usize,
    ick: usize,
) -> (r: bool)
    requires
        nl <= cl < ls@.len(),
        nk < usize::MAX,
        ick < usize::MAX,
    ensures
        r == other_from(views(ls@), nl as int, nk as int, cl as int, ck as int, il as int, ik as int,
            icl as int, ick as int, nl as int, 0),
{
    let ghost v = views(ls@);
    let n = ls.len();
    let mut l = nl;
    while l <= cl
        invariant
            v == views(ls@),
            n == ls@.len(),
            cl < n,
            nl <= l,
            l <= cl + 1,
            nk < usize::MAX,
            ick < usize::MAX,
            other_from(v, nl as int, nk as int, cl as int, ck as int, il as int, ik as int,
                icl as int, ick as int, nl as int, 0) == other_from(v, nl as int, nk as int, cl as int,
                ck as int, il as int, ik as int, icl as int, ick as int, l as int, 0),
        decreases cl + 1 - l,
    {
        let line = ls[l].as_slice();
        let from = if l == nl {
            nk + 1
        } else {
            0
        };
        let to = if l == cl {
            ck
        } else {
            line.len()
        };
        let mut k: usize = 0;
        while k < line.len()
            invariant
                v == views(ls@),
                n == ls@.len(),
                nl <= l <= cl < n,
                ick < usize::MAX,
                line@ == v[l as int],
                k <= line@.len(),
                (from as int, to as int) == not_interior(v, nl as int, nk as int, cl as int, ck as int, l as int),
                other_from(v, nl as int, nk as int, cl as int, ck as int, il as int, ik as int,
                    icl as int, ick as int, nl as int, 0) == other_from(v, nl as int, nk as int, cl as int,
                    ck as int, il as int, ik as int, icl as int, ick as int, l as int, k as int),
            ensures
                other_from(v, nl as int, nk as int, cl as int, ck as int, il as int, ik as int,
                    icl as int, ick as int, nl as int, 0) == other_from(v, nl as int, nk as int, cl as int,
                    ck as int, il as int, ik as int, icl as int, ick as int, l as int + 1, 0),
            decreases line@.len() - k,
        {
            let ch = line[k];
            let inside = il <= l && l <= icl && (l != il || k >= ik) && (l != icl || k < ick + 1);
            if k < from || k >= to || inside || ch == ' ' || ch == '\t' || ch == '}' {
            } else if ch == '#' {
                break;
            } else {
                return true;
            }
            k += 1;
        }
        l += 1;
    }
    false
}

// ─── Detection ───────────────────────────────────────────────────────────────

/// The view of a violation: every field, the operator as characters.
pub open spec fn vview(v: Violation) -> (u32, u32, Seq<char>, u32, u32, u32, u32, u32) {
    (
        v.not_line,
        v.not_close_line,
        v.inner_op@,
        v.inner_line,
        v.inner_brace_col,
        v.inner_close_line,
        v.inner_close_col,
        v.not_close_col,
    )
}

/// The violation whose NOT opens on line `i`, if any: the line is a NOT
/// header, its block closes, the first thing inside it is an `AND = {` or
/// `OR = {` block that closes, and nothing else sits inside the NOT block.
pub open spec fn violation_at(ls: Seq<Seq<char>>, i: int) -> Option<
    (u32, u32, Seq<char>, u32, u32, u32, u32, u32),
> {
    if !not_header(ls[i]) {
        None
    } else {
        let nk = first_brace(ls[i]);
        match find_close_spec(ls, i, nk) {
            None => None,
            Some((cl, ck)) => match inner_from(ls, i, nk, cl, ck, i) {
                None => None,
                Some((op, il, ik, ibk)) => match find_close_spec(ls, il, ibk) {
                    None => None,
                    Some((icl, ick)) => if other_from(
                        ls,
                        i,
                        nk,
                        cl,
                        ck,
                        il,
                        ik,
                        icl,
                        ick,
                        i,
                        0,
                    ) {
                        None
                    } else {
                        Some(
                            (
                                i as u32,
                                cl as u32,
                                op,
                                il as u32,
                                bcol(ls[il], ibk) as u32,
                                icl as u32,
                                bcol(ls[icl], ick) as u32,
                                bcol(ls[cl], ck) as u32,
                            ),
                        )
                    },
                },
            },
        }
    }
}

/// All violations from line `i` on, in line order.
pub open spec fn violations_from(ls: Seq<Seq<char>>, i: int) -> Seq<
    (u32, u32, Seq<char>, u32, u32, u32, u32, u32),
>
    decreases ls.len() - i,
{
    if i < 0 || i >= ls.len() {
        seq![]
    } else {
        match violation_at(ls, i) {
            Some(v) => seq![v] + violations_from(ls, i + 1),
            None => violations_from(ls, i + 1),
        }
    }
}

/// Byte column of character `k` of `line`.
fn byte_col(line: &[char], k: usize) -> (r: u128)
    requires
        k <= line@.len(),
    ensures
        r == bcol(line@, k as int),
{
    let mut acc: u128 = 0;
    let mut i: usize = 0;
    while i < k
        invariant
            i <= k <= line@.len(),
            acc == byte_len(line@.take(i as int)),
            acc <= 4 * i,
        decreases k - i,
    {
        proof {
            lemma_byte_len_step(line@, i as int);
        }
        acc = acc + width_of(line[i]) as u128;
        i += 1;
    }
    acc
}

/// `first_brace`, computed.
fn first_brace_exec(line: &[char]) -> (k: usize)
    ensures
        k == first_brace(line@),
        (exists|j: int| 0 <= j < line@.len() && line@[j] == '{') ==> k < line@.len()
            && line@[k as int] == '{',
{
    match find_char(line, 0, line.len(), '{') {
        Some(k) => {
            proof {
                lemma_first_of(line@, '{', k as int);
            }
            k
        },
        None => {
            proof {
                lemma_first_of(line@, '{', line@.len() as int);
            }
            0
        },
    }
}

/// For a NOT header line, its first `{`.
fn header_brace(line: &[char]) -> (r: Option<usize>)
    ensures
        r is Some <==> not_header(line@),
        r matches Some(k) ==> k == first_brace(line@) && k < line@.len() && line@[k as int] == '{',
{
    proof {
        assert(line@.subrange(0, line@.len() as int) =~= line@);
    }
    let not_lit: [char; 3] = ['N', 'O', 'T'];
    match op_at_exec(line, 0, line.len(), not_lit.as_slice()) {
        None => None,
        Some((_o, b)) => {
            assert(line@[b as int] == '{');
            let nk = first_brace_exec(line);
            Some(nk)
        },
    }
}

#[verifier::spinoff_prover]
#[verifier::rlimit(60)]
fn violation_at_exec(ls: &Vec<Vec<char>>, i: usize) -> (r: Option<Violation>)
    requires
        i < ls@.len(),
        total_len(views(ls@)) <= usize::MAX,
    ensures
        match r {
            Some(v) => violation_at(views(ls@), i as int) == Some(vview(v)),
            None => violation_at(views(ls@), i as int) is None,
        },
{
    let ghost v = views(ls@);
    let line = ls[i].as_slice();
    proof {
        assert(line@ == v[i as int]);
    }
    let n = line.len();
    let nk = match header_brace(line) {
        Some(k) => k,
        None => {
            return None;
        },
    };
    assert(nk < n);
    let (cl, ck) = match find_close(ls, i, nk) {
        Some(p) => p,
        None => {
            return None;
        },
    };
    proof {
        lemma_close_from_forward(v, i as int, nk as int, i as int, 0, 0, false);
    }
    let (is_and, il, ik, ibk) = match find_inner_op(ls, i, nk, cl, ck) {
        Some(q) => q,
        None => {
            return None;
        },
    };
    let (icl, ick) = match find_close(ls, il, ibk) {
        Some(p) => p,
        None => {
            return None;
        },
    };
    let m = ls[icl].len();
    assert(ick < m);
    if has_other_content(ls, i, nk, cl, ck, il, ik, icl, ick) {
        return None;
    }
    let op = if is_and {
        string_of(and_lit_chars().as_slice(), 0, 3)
    } else {
        string_of(or_lit_chars().as_slice(), 0, 2)
    };
    let ibc = byte_col(ls[il].as_slice(), ibk);
    let icc = byte_col(ls[icl].as_slice(), ick);
    let ncc = byte_col(ls[cl].as_slice(), ck);
    proof {
        assert(ls@[il as int]@ == v[il as int]);
        assert(ls@[icl as int]@ == v[icl as int]);
        assert(ls@[cl as int]@ == v[cl as int]);
    }
    Some(
        Violation {
            not_line: #[verifier::truncate] (i as u32),
            not_close_line: #[verifier::truncate] (cl as u32),
            inner_op: op,
            inner_line: #[verifier::truncate] (il as u32),
            inner_brace_col: #[verifier::truncate] (ibc as u32),
            inner_close_line: #[verifier::truncate] (icl as u32),
            inner_close_col: #[verifier::truncate] (icc as u32),
            not_close_col: #[verifier::truncate] (ncc as u32),
        },
    )
}

fn and_lit_chars() -> (v: Vec<char>)
    ensures
        v@ == and_op(),
{
    let mut v: Vec<char> = Vec::new();
    v.push('A');
    v.push('N');
    v.push('D');
    proof {
        assert(v@ =~= and_op());
    }
    v
}

fn or_lit_chars() -> (v: Vec<char>)
    ensures
        v@ == or_op(),
{
    let mut v: Vec<char> = Vec::new();
    v.push('O');
    v.push('R');
    proof {
        assert(v@ =~= or_op());
    }
    v
}

/// Every violation over already-split lines (characters), in line order.
pub fn find_violations_chars(ls: &Vec<Vec<char>>) -> (r: Vec<Violation>)
    requires
        total_len(views(ls@)) <= usize::MAX,
    ensures
        r@.map_values(|v: Violation| vview(v)) == violations_from(views(ls@), 0),
{
    let ghost v = views(ls@);
    let mut out: Vec<Violation> = Vec::new();
    let mut i: usize = 0;
    while i < ls.len()
        invariant
            v == views(ls@),
            i <= ls@.len(),
            total_len(v) <= usize::MAX,
            out@.map_values(|x: Violation| vview(x)) + violations_from(v, i as int)
                == violations_from(v, 0),
        decreases ls@.len() - i,
    {
        let ghost prev = out@.map_values(|x: Violation| vview(x));
        match violation_at_exec(ls, i) {
            Some(viol) => {
                let ghost vv = vview(viol);
                out.push(viol);
                proof {
                    assert(out@.map_values(|x: Violation| vview(x)) =~= prev.push(vv));
                    assert(prev + violations_from(v, i as int) =~= prev.push(vv)
                        + violations_from(v, i + 1));
                }
            },
            None => {},
        }
        i += 1;
    }
    proof {
        assert(violations_from(v, i as int) =~= seq![]);
        assert(out@.map_values(|x: Violation| vview(x)) + seq![] =~= out@.map_values(
            |x: Violation| vview(x),
        ));
    }
    out
}

/// Scan all lines and return every De Morgan violation, in line order.
pub fn find_violations(lines: &[&str]) -> (r: Vec<Violation>)
    requires
        total_len(str_views(lines@)) <= usize::MAX,
    ensures
        r@.map_values(|v: Violation| vview(v)) == violations_from(str_views(lines@), 0),
{
    let ls = chars_of_lines(lines);
    find_violations_chars(&ls)
}


// ─── Diagnostics ─────────────────────────────────────────────────────────────

/// The operator a rewrite produces: `AND` for `OR`, `OR` otherwise.
pub open spec fn new_op_spec(op: Seq<char>) -> Seq<char> {
    if op == or_op() {
        and_op()
    } else {
        or_op()
    }
}

fn new_op_of(op: &String) -> (r: &'static str)
    ensures
        r@ == new_op_spec(op@),
{
    let o = chars_of(op.as_str());
    let or_l: [char; 2] = ['O', 'R'];
    proof {
        reveal_strlit("AND");
        reveal_strlit("OR");
    }
    if chars_eq(o.as_slice(), or_l.as_slice()) {
        "AND"
    } else {
        "OR"
    }
}

/// The hint message for a violation with inner operator `op`.
pub open spec fn diagnostic_message(op: Seq<char>) -> Seq<char> {
    "[de-morgan] NOT { "@ + op + " { … } } → "@ + new_op_spec(op) + " { NOT { … } … }"@
}

/// The quick-fix title for a violation with inner operator `op`.
pub open spec fn action_title(op: Seq<char>) -> Seq<char> {
    "De Morgan: NOT { "@ + op + " {…} } → "@ + new_op_spec(op) + " { NOT {…} … }"@
}

/// Hint diagnostics for a set of violations: one per violation, spanning the
/// NOT block's lines, with code `de-morgan`.
pub fn violations_to_diagnostics(violations: &[Violation]) -> (r: Vec<Diagnostic>)
    ensures
        r@.len() == violations@.len(),
        forall|i: int|
            0 <= i < r@.len() ==> {
                let d = #[trigger] r@[i];
                let v = violations@[i];
                &&& d.range == span(v.not_line, 0, v.not_close_line, u32::MAX)
                &&& d.severity == Some(DiagnosticSeverity::Hint)
                &&& d.code matches Some(c) && c@ == "de-morgan"@
                &&& d.source matches Some(c) && c@ == "pdxscript-lsp"@
                &&& d.message@ == diagnostic_message(v.inner_op@)
                &&& d.data is None
                &&& d.related.len() == 0
            },
{
    let mut out: Vec<Diagnostic> = Vec::new();
    let mut i: usize = 0;
    while i < violations.len()
        invariant
            i <= violations@.len(),
            out@.len() == i,
            forall|j: int|
                0 <= j < i ==> {
                    let d = #[trigger] out@[j];
                    let v = violations@[j];
                    &&& d.range == span(v.not_line, 0, v.not_close_line, u32::MAX)
                    &&& d.severity == Some(DiagnosticSeverity::Hint)
                    &&& d.code matches Some(c) && c@ == "de-morgan"@
                    &&& d.source matches Some(c) && c@ == "pdxscript-lsp"@
                    &&& d.message@ == diagnostic_message(v.inner_op@)
                    &&& d.data is None
                    &&& d.related.len() == 0
                },
        decreases violations@.len() - i,
    {
        let v = &violations[i];
        let new_op = new_op_of(&v.inner_op);
        let mut message = String::from_str("[de-morgan] NOT { ");
        message.append(v.inner_op.as_str());
        message.append(" { … } } → ");
        message.append(new_op);
        message.append(" { NOT { … } … }");
        let d = Diagnostic {
            range: make_range(v.not_line, 0, v.not_close_line, u32::MAX),
            severity: Some(DiagnosticSeverity::Hint),
            code: Some(String::from_str("de-morgan")),
            source: Some(String::from_str("pdxscript-lsp")),
            message,
            data: None,
            related: Vec::new(),
        };
        out.push(d);
        i += 1;
    }
    out
}

// ─── Rewrite ─────────────────────────────────────────────────────────────────

/// Number of characters of `line` that start before byte column `x`.
pub open spec fn idx_from(line: Seq<char>, x: int, k: int) -> int
    decreases line.len() - k,
{
    if k < 0 || k >= line.len() {
        line.len() as int
    } else if bcol(line, k) >= x {
        k
    } else {
        idx_from(line, x, k + 1)
    }
}

/// The character index of byte column `x` (the first character at or after it).
pub open spec fn char_index(line: Seq<char>, x: int) -> int {
    idx_from(line, x, 0)
}

/// The characters of `line` from byte column `a` through byte column `b`.
pub open spec fn byte_slice(line: Seq<char>, a: int, b_excl: int) -> Seq<char> {
    line.subrange(char_index(line, a), char_index(line, b_excl))
}

/// A child of a block: `(start line, start byte, end line, end byte)`, the end inclusive.
pub type Child = (int, int, int, int);

/// A character that compares or assigns: `=`, `<`, `>`, `!`, `?`.
pub open spec fn op_char(c: char) -> bool {
    c == '=' || c == '<' || c == '>' || c == '!' || c == '?'
}

/// Where a statement stands at depth 0: `(stage, after_blank, last)`, with
/// stage 0 before any key, 1 in the key, 2 after the operator, 3 in the
/// value; whether the previous character was blank; and the byte column of
/// the last character of the statement so far.
pub type StmtState = (int, bool, int);

/// The stage after a character at depth 0 that starts or continues an atom
/// (a word, a string or a brace group): a first atom starts the key, an atom
/// after the operator starts the value.
pub open spec fn atom_stage(st: StmtState, has_start: bool) -> int {
    if !has_start {
        1
    } else if st.0 == 2 {
        3
    } else {
        st.0
    }
}

/// An atom at depth 0 that follows a complete statement after a blank starts
/// the next child.
pub open spec fn splits(st: StmtState, has_start: bool) -> bool {
    has_start && st.0 == 3 && st.1
}

/// Scan of the inner block's interior for its direct children. `bnd` is
/// `(open line, open byte col, close line, close byte col)`; `(l, k)` the
/// position, `depth` the brace depth below the block, `start` where the
/// current child began, `st` where its statement stands. A quote toggles a
/// string that runs across lines; at depth 0 a `#` outside a string ends the
/// line. A child is one statement: a key, an operator and a value (a word, a
/// string or a brace group); a brace group closing at depth 0 ends its child,
/// an atom after a complete statement and a blank starts the next one, and
/// the end of a line ends the child on it when the line holds more than
/// white space. A `}` with no open brace below the block is passed over.
pub open spec fn children_from(
    ls: Seq<Seq<char>>,
    bnd: (int, int, int, int),
    l: int,
    k: int,
    depth: int,
    start: Option<(int, int)>,
    in_s: bool,
    st: StmtState,
    acc: Seq<Child>,
) -> Seq<Child>
    decreases bnd.2 + 1 - l, ls[l].len() - k,
{
    let (ol, oc, cl, cc) = bnd;
    if l > cl || l < 0 || l >= ls.len() || k < 0 {
        acc
    } else if k >= ls[l].len() {
        let line = ls[l];
        let col_to = if l == cl {
            cc
        } else {
            byte_len(line) as int
        };
        let fresh = (0int, true, 0int);
        if depth == 0 {
            match start {
                Some((sl, sc)) => {
                    let seg = if l == cl {
                        byte_slice(line, 0, cc)
                    } else {
                        line
                    };
                    let keep = sc <= byte_len(seg) && trim_end(
                        seg.skip(char_index(seg, sc)),
                    ).len() > 0;
                    let acc2 = if keep {
                        acc.push((sl, sc, l, if col_to > 0 { col_to - 1 } else { 0 }))
                    } else {
                        acc
                    };
                    children_from(ls, bnd, l + 1, 0, depth, None, in_s, fresh, acc2)
                },
                None => children_from(ls, bnd, l + 1, 0, depth, None, in_s, fresh, acc),
            }
        } else {
            children_from(ls, bnd, l + 1, 0, depth, start, in_s, (st.0, true, st.2), acc)
        }
    } else {
        let line = ls[l];
        let ch = line[k];
        let c = bcol(line, k);
        let col_from = if l == ol {
            oc + 1
        } else {
            0
        };
        let col_to = if l == cl {
            cc
        } else {
            byte_len(line) as int
        };
        let has = start is Some;
        // An atom starting here at depth 0: the child it belongs to, and the
        // children so far.
        let split = depth == 0 && splits(st, has);
        let here = if depth == 0 && (start is None || split) {
            Some((l, c))
        } else {
            start
        };
        let acc_a = if split {
            acc.push((start.unwrap().0, start.unwrap().1, l, st.2))
        } else {
            acc
        };
        let st_a = if depth == 0 {
            (if split { 1 } else { atom_stage(st, has) }, false, c)
        } else {
            st
        };
        if c < col_from || c >= col_to {
            children_from(ls, bnd, l, k + 1, depth, start, in_s, st, acc)
        } else if ch == '"' {
            if in_s {
                children_from(
                    ls,
                    bnd,
                    l,
                    k + 1,
                    depth,
                    start,
                    false,
                    if depth == 0 { (st.0, false, c) } else { st },
                    acc,
                )
            } else {
                children_from(ls, bnd, l, k + 1, depth, here, true, st_a, acc_a)
            }
        } else if in_s {
            children_from(ls, bnd, l, k + 1, depth, start, in_s, st, acc)
        } else if ch == '#' && depth == 0 {
            children_from(ls, bnd, l, line.len() as int, depth, start, in_s, st, acc)
        } else if ch == '{' {
            children_from(ls, bnd, l, k + 1, depth + 1, here, in_s, st_a, acc_a)
        } else if ch == '}' {
            if depth == 0 {
                children_from(ls, bnd, l, k + 1, depth, start, in_s, st, acc)
            } else if depth - 1 == 0 {
                match start {
                    Some((sl, sc)) => children_from(
                        ls,
                        bnd,
                        l,
                        k + 1,
                        0,
                        None,
                        in_s,
                        (0int, false, c),
                        acc.push((sl, sc, l, c)),
                    ),
                    None => children_from(ls, bnd, l, k + 1, 0, None, in_s, (0int, false, c), acc),
                }
            } else {
                children_from(ls, bnd, l, k + 1, depth - 1, start, in_s, st, acc)
            }
        } else if is_ws(ch) {
            children_from(
                ls,
                bnd,
                l,
                k + 1,
                depth,
                start,
                in_s,
                if depth == 0 { (st.0, true, st.2) } else { st },
                acc,
            )
        } else if depth == 0 && op_char(ch) {
            children_from(
                ls,
                bnd,
                l,
                k + 1,
                depth,
                if start is None { Some((l, c)) } else { start },
                in_s,
                (if st.0 == 1 || st.0 == 3 { 2 } else { st.0 }, false, c),
                acc,
            )
        } else if depth == 0 {
            children_from(ls, bnd, l, k + 1, depth, here, in_s, st_a, acc_a)
        } else {
            children_from(ls, bnd, l, k + 1, depth, start, in_s, st, acc)
        }
    }
}

/// The direct children of the inner block of `v`.
pub open spec fn children_spec(ls: Seq<Seq<char>>, v: Violation) -> Seq<Child> {
    children_from(
        ls,
        (
            v.inner_line as int,
            v.inner_brace_col as int,
            v.inner_close_line as int,
            v.inner_close_col as int,
        ),
        v.inner_line as int,
        0,
        0,
        None,
        false,
        (0int, true, 0int),
        seq![],
    )
}

/// The text of a child: a one-line child trimmed; a multi-line child as its
/// lines (first trimmed at the end, the rest trimmed) joined by `\n`.
pub open spec fn child_text_spec(ls: Seq<Seq<char>>, ch: Child) -> Seq<char> {
    let (sl, sc, el, ec) = ch;
    if sl == el {
        let line = ls[sl];
        let lb = byte_len(line) as int;
        let a = if sc < lb {
            sc
        } else {
            lb
        };
        let b = if ec < lb - 1 {
            ec
        } else if lb > 0 {
            lb - 1
        } else {
            0
        };
        if a <= b {
            trim(byte_slice(line, a, b + 1))
        } else {
            seq![]
        }
    } else {
        let first = ls[sl];
        let lb = byte_len(first) as int;
        let a = if sc < lb {
            sc
        } else {
            lb
        };
        let last = ls[el];
        let lb2 = byte_len(last) as int;
        let b = if ec < lb2 - 1 {
            ec
        } else if lb2 > 0 {
            lb2 - 1
        } else {
            0
        };
        let parts = seq![trim_end(first.skip(char_index(first, a)))] + Seq::new(
            (if el - sl - 1 > 0 { el - sl - 1 } else { 0 }) as nat,
            |j: int| trim(ls[sl + 1 + j]),
        ) + seq![trim(byte_slice(last, 0, b + 1))];
        join(parts, seq!['\n'])
    }
}

/// Indentation of the NOT line: as many spaces as the bytes of its leading white space.
pub open spec fn indent_spec(line: Seq<char>) -> Seq<char> {
    Seq::new((byte_len(line) - byte_len(trim_start(line))) as nat, |i: int| ' ')
}

/// The lines that replace a child: `NOT = { text }`, or for a multi-line
/// child a `NOT = {` block with each of its lines.
pub open spec fn child_lines(ind: Seq<char>, text: Seq<char>) -> Seq<Seq<char>> {
    if contains_char(text, '\n') {
        seq![ind + "    NOT = {"@] + lines_of(text).map_values(|p: Seq<char>| ind + "        "@ + p)
            + seq![ind + "    }"@]
    } else {
        seq![ind + "    NOT = { "@ + text + " }"@]
    }
}

/// Lines for children `i..` of `cs`.
pub open spec fn children_lines(
    ls: Seq<Seq<char>>,
    ind: Seq<char>,
    cs: Seq<Child>,
    i: int,
) -> Seq<Seq<char>>
    decreases cs.len() - i,
{
    if i < 0 || i >= cs.len() {
        seq![]
    } else {
        child_lines(ind, child_text_spec(ls, cs[i])) + children_lines(ls, ind, cs, i + 1)
    }
}

/// The replacement text for a violation: the flipped operator's block with
/// each child of the inner block wrapped in NOT, at the NOT line's indentation.
pub open spec fn rewrite_spec(ls: Seq<Seq<char>>, v: Violation) -> Seq<char> {
    let ind = indent_spec(ls[v.not_line as int]);
    let cs = children_spec(ls, v);
    join(
        seq![ind + new_op_spec(v.inner_op@) + " = {"@] + children_lines(ls, ind, cs, 0) + seq![ind
            + "}"@],
        seq!['\n'],
    )
}

/// Byte column `x` of `line` starts a character or lies at or past its end.
pub open spec fn at_boundary(line: Seq<char>, x: int) -> bool {
    x >= byte_len(line) || exists|j: int| 0 <= j < line.len() && bcol(line, j) == x
}

/// `v` can be rewritten over `ls`: its lines exist, its close column falls on
/// a character boundary, and the child scan never closes more blocks than it opened.
pub open spec fn rewritable(ls: Seq<Seq<char>>, v: Violation) -> bool {
    &&& v.not_line < ls.len()
    &&& v.not_close_line < ls.len()
    &&& v.inner_line <= v.inner_close_line ==> v.inner_close_line < ls.len()
    &&& v.inner_line <= v.inner_close_line ==> at_boundary(
        ls[v.inner_close_line as int],
        v.inner_close_col as int,
    )
}

/// Each violation that the scan from line `i` reports is found at some line.
proof fn lemma_violation_found_at(ls: Seq<Seq<char>>, i: int, j: int)
    requires
        0 <= j < violations_from(ls, i).len(),
    ensures
        exists|n: int| 0 <= n < ls.len() && violation_at(ls, n) == Some(violations_from(ls, i)[j]),
    decreases ls.len() - i,
{
    if 0 <= i < ls.len() {
        match violation_at(ls, i) {
            Some(v) => {
                if j == 0 {
                    assert(violation_at(ls, i) == Some(violations_from(ls, i)[j]));
                } else {
                    assert(violations_from(ls, i)[j] == violations_from(ls, i + 1)[j - 1]);
                    lemma_violation_found_at(ls, i + 1, j - 1);
                }
            },
            None => lemma_violation_found_at(ls, i + 1, j),
        }
    }
}

/// Every violation that the scan reports can be rewritten, when line numbers
/// and byte columns fit in `u32`.
pub proof fn found_violations_can_be_rewritten(ls: Seq<Seq<char>>, v: Violation)
    requires
        ls.len() <= u32::MAX,
        forall|l: int| 0 <= l < ls.len() ==> byte_len(#[trigger] ls[l]) <= u32::MAX,
        violations_from(ls, 0).contains(vview(v)),
    ensures
        rewritable(ls, v),
{
    let j = choose|j: int| 0 <= j < violations_from(ls, 0).len() && violations_from(ls, 0)[j] == vview(v);
    lemma_violation_found_at(ls, 0, j);
    let n = choose|n: int| 0 <= n < ls.len() && violation_at(ls, n) == Some(violations_from(ls, 0)[j]);
    let nk = first_brace(ls[n]);
    lemma_close_from_forward(ls, n, nk, n, 0, 0, false);
    let (cl, ck) = find_close_spec(ls, n, nk).unwrap();
    let (op, il, ik, ibk) = inner_from(ls, n, nk, cl, ck, n).unwrap();
    lemma_close_from_forward(ls, il, ibk, il, 0, 0, false);
    let (icl, ick) = find_close_spec(ls, il, ibk).unwrap();
    let line = ls[icl];
    crate::text::lemma_byte_len_mono(line, ick, line.len() as int);
    assert(line.take(line.len() as int) =~= line);
    assert(v.inner_close_line as int == icl);
    assert(v.inner_close_col as int == bcol(line, ick));
    assert(at_boundary(line, v.inner_close_col as int));
}

/// A quick fix: its title and the edit it applies to the document.
pub struct QuickFix {
    pub title: String,
    pub edit: TextEdit,
    pub is_preferred: bool,
}


/// The view of an optional child start.
pub open spec fn start_view(s: Option<(usize, u64)>) -> Option<(int, int)> {
    match s {
        Some((a, b)) => Some((a as int, b as int)),
        None => None,
    }
}

/// The view of computed children.
pub open spec fn children_view(v: Seq<(usize, u64, usize, u64)>) -> Seq<Child> {
    v.map_values(|c: (usize, u64, usize, u64)| (c.0 as int, c.1 as int, c.2 as int, c.3 as int))
}

/// `lc` holds the byte column of each character of `line`, and of its end.
pub open spec fn line_cols_ok(line: Seq<char>, lc: Seq<usize>) -> bool {
    &&& lc.len() == line.len() + 1
    &&& forall|i: int| 0 <= i <= line.len() ==> #[trigger] lc[i] == bcol(line, i)
}

/// `cols` holds the byte columns of every line.
pub open spec fn cols_ok(ls: Seq<Seq<char>>, cols: Seq<Vec<usize>>) -> bool {
    &&& cols.len() == ls.len()
    &&& forall|l: int| 0 <= l < ls.len() ==> #[trigger] line_cols_ok(ls[l], cols[l]@)
}

/// `char_index(line[..n], x)`, given the byte columns of `line`.
fn char_index_exec(line: &[char], cols: &Vec<usize>, n: usize, x: u64) -> (r: usize)
    requires
        n <= line@.len(),
        line_cols_ok(line@, cols@),
    ensures
        r == char_index(line@.take(n as int), x as int),
        r <= n,
{
    let ghost seg = line@.take(n as int);
    let mut k: usize = 0;
    while k < n && (cols[k] as u64) < x
        invariant
            k <= n <= line@.len(),
            seg == line@.take(n as int),
            cols@.len() == line@.len() + 1,
            forall|i: int| 0 <= i <= line@.len() ==> #[trigger] cols@[i] == bcol(line@, i),
            char_index(seg, x as int) == idx_from(seg, x as int, k as int),
        decreases n - k,
    {
        proof {
            assert(seg.take(k as int) =~= line@.take(k as int));
        }
        k += 1;
    }
    proof {
        if k < n {
            assert(seg.take(k as int) =~= line@.take(k as int));
        }
    }
    k
}

/// The direct children of the block from `(ol, oc)` to `(cl, cc)`, as
/// `(start line, start byte, end line, end byte)`.
#[verifier::rlimit(80)]
#[verifier::spinoff_prover]
fn extract_children(
    ls: &Vec<Vec<char>>,
    cols: &Vec<Vec<usize>>,
    viol: &Violation,
) -> (r: Vec<(usize, u64, usize, u64)>)
    requires
        cols_ok(views(ls@), cols@),
        total_len(views(ls@)) <= usize::MAX,
        viol.inner_line <= viol.inner_close_line ==> viol.inner_close_line < ls@.len(),
    ensures
        children_view(r@) == children_spec(views(ls@), *viol),
{
    let ghost v = views(ls@);
    let ol = viol.inner_line as usize;
    let oc = viol.inner_brace_col as u64;
    let cl = viol.inner_close_line as usize;
    let cc = viol.inner_close_col as u64;
    let ghost bnd = (ol as int, oc as int, cl as int, cc as int);
    let n = ls.len();
    let mut children: Vec<(usize, u64, usize, u64)> = Vec::new();
    let mut depth: usize = 0;
    let mut start: Option<(usize, u64)> = None;
    let mut in_string = false;
    let mut stage: u8 = 0;
    let mut blank = true;
    let mut last: u64 = 0;
    let mut l = ol;
    proof {
        assert(children_view(children@) =~= seq![]);
    }
    while l <= cl && l < n
        invariant
            v == views(ls@),
            n == ls@.len(),
            cols_ok(v, cols@),
            oc <= u32::MAX,
            cc <= u32::MAX,
            total_len(v) <= usize::MAX,
            bnd == (ol as int, oc as int, cl as int, cc as int),
            ol <= l,
            stage <= 3,
            depth <= total_len(v.take(l as int)),
            children_spec(v, *viol) == children_from(v, bnd, l as int, 0, depth as int, start_view(start),
                in_string, (stage as int, blank, last as int), children_view(children@)),
        decreases cl + 1 - l,
    {
        let line = ls[l].as_slice();
        let lc = &cols[l];
        proof {
            assert(line@ == v[l as int]);
            lemma_total_len_take(v, l as int);
            assert(line_cols_ok(v[l as int], cols@[l as int]@));
            assert(line@.take(line@.len() as int) =~= line@);
        }
        let lb = lc[line.len()] as u64;
        let col_from: u64 = if l == ol {
            oc + 1
        } else {
            0
        };
        let col_to: u64 = if l == cl {
            cc
        } else {
            lb
        };
        let mut k: usize = 0;
        while k < line.len()
            invariant
                v == views(ls@),
                n == ls@.len(),
                l < n,
                line@ == v[l as int],
                line_cols_ok(line@, lc@),
                lb == byte_len(line@),
                col_from == (if l == ol { oc + 1 } else { 0 }),
                col_to == (if l == cl { cc as int } else { byte_len(line@) as int }),
                bnd == (ol as int, oc as int, cl as int, cc as int),
                l <= cl,
                k <= line@.len(),
                stage <= 3,
                total_len(v) <= usize::MAX,
                total_len(v.take(l as int + 1)) == total_len(v.take(l as int)) + line@.len(),
                total_len(v.take(l as int + 1)) <= total_len(v),
                depth <= total_len(v.take(l as int)) + k,
                children_spec(v, *viol) == children_from(v, bnd, l as int, k as int, depth as int,
                    start_view(start), in_string, (stage as int, blank, last as int), children_view(children@)),
            ensures
                stage <= 3,
                depth <= total_len(v.take(l as int + 1)),
                children_spec(v, *viol) == children_from(v, bnd, l as int, line@.len() as int,
                    depth as int, start_view(start), in_string, (stage as int, blank, last as int),
                    children_view(children@)),
            decreases line@.len() - k,
        {
            let ch = line[k];
            let c = lc[k] as u64;
            proof {
                assert(line@.take(line@.len() as int) =~= line@);
            }
            // An atom at depth 0 starts here: split off a complete statement,
            // or start or continue the current one.
            let atom = depth == 0 && (c >= col_from && c < col_to) && !in_string && (ch == '"' || ch == '{'
                || (ch != '}' && ch != '#' && !is_whitespace(ch) && !is_op_char(ch)));
            if atom {
                match start {
                    Some((sl, sc)) => {
                        if stage == 3 && blank {
                            let ghost prev = children@;
                            children.push((sl, sc, l, last));
                            proof {
                                assert(children_view(children@) =~= children_view(prev).push(
                                    (sl as int, sc as int, l as int, last as int),
                                ));
                            }
                            start = Some((l, c));
                            stage = 1;
                        } else if stage == 2 {
                            stage = 3;
                        }
                    },
                    None => {
                        start = Some((l, c));
                        stage = 1;
                    },
                }
                blank = false;
                last = c;
            }
            if c < col_from || c >= col_to {
            } else if ch == '"' {
                if in_string {
                    in_string = false;
                    if depth == 0 {
                        blank = false;
                        last = c;
                    }
                } else {
                    in_string = true;
                }
            } else if in_string {
            } else if ch == '#' && depth == 0 {
                break;
            } else if ch == '{' {
                depth += 1;
            } else if ch == '}' {
                if depth > 0 {
                    depth -= 1;
                    if depth == 0 {
                        match start {
                            Some((sl, sc)) => {
                                let ghost prev = children@;
                                children.push((sl, sc, l, c));
                                proof {
                                    assert(children_view(children@) =~= children_view(prev).push(
                                        (sl as int, sc as int, l as int, c as int),
                                    ));
                                }
                            },
                            None => {},
                        }
                        start = None;
                        stage = 0;
                        blank = false;
                        last = c;
                    }
                }
            } else if is_whitespace(ch) {
                if depth == 0 {
                    blank = true;
                }
            } else if depth == 0 && is_op_char(ch) {
                if start.is_none() {
                    start = Some((l, c));
                }
                if stage == 1 || stage == 3 {
                    stage = 2;
                }
                blank = false;
                last = c;
            }
            k += 1;
        }
        if depth == 0 {
            match start {
                Some((sl, sc)) => {
                    let seg_n = if l == cl {
                        char_index_exec(line, lc, line.len(), cc)
                    } else {
                        line.len()
                    };
                    let ghost seg = line@.take(seg_n as int);
                    proof {
                        if l == cl {
                            assert(line@.take(line@.len() as int) =~= line@);
                            assert(seg == byte_slice(line@, 0, cc as int)) by {
                                assert(char_index(line@, 0) == 0);
                                assert(line@.subrange(0, seg_n as int) =~= seg);
                            }
                        } else {
                            assert(seg =~= line@);
                        }
                        assert(seg.take(seg_n as int) =~= line@.take(seg_n as int));
                    }
                    let seg_bytes = lc[seg_n] as u64;
                    let si = char_index_exec(line, lc, seg_n, sc);
                    let keep = if sc <= seg_bytes {
                        let e = back_ws(line, si, seg_n);
                        proof {
                            assert(seg.skip(si as int) =~= line@.subrange(si as int, seg_n as int));
                            lemma_trail_ws_bound(seg.skip(si as int));
                        }
                        e > si
                    } else {
                        false
                    };
                    proof {
                        assert(byte_len(seg) == bcol(line@, seg_n as int));
                    }
                    if keep {
                        let end = if col_to > 0 {
                            col_to - 1
                        } else {
                            0
                        };
                        let ghost prev = children@;
                        children.push((sl, sc, l, end));
                        proof {
                            assert(children_view(children@) =~= children_view(prev).push(
                                (sl as int, sc as int, l as int, end as int),
                            ));
                        }
                    }
                },
                None => {},
            }
            start = None;
            stage = 0;
            last = 0;
        }
        blank = true;
        l += 1;
    }
    proof {
        assert(children_from(v, bnd, l as int, 0, depth as int, start_view(start), in_string,
            (stage as int, blank, last as int), children_view(children@)) == children_view(children@));
    }
    children
}

fn is_op_char(c: char) -> (b: bool)
    ensures
        b == op_char(c),
{
    c == '=' || c == '<' || c == '>' || c == '!' || c == '?'
}

/// `char_index(line, x)` for a whole line.
fn char_index_line(line: &[char], cols: &Vec<usize>, x: u64) -> (r: usize)
    requires
        line_cols_ok(line@, cols@),
    ensures
        r == char_index(line@, x as int),
        r <= line@.len(),
{
    proof {
        assert(line@.take(line@.len() as int) =~= line@);
    }
    char_index_exec(line, cols, line.len(), x)
}

/// The view of a computed child.
pub open spec fn child_view(c: (usize, u64, usize, u64)) -> Child {
    (c.0 as int, c.1 as int, c.2 as int, c.3 as int)
}

/// The text of a child span.
#[verifier::rlimit(40)]
fn child_text(ls: &Vec<Vec<char>>, cols: &Vec<Vec<usize>>, ch: (usize, u64, usize, u64)) -> (r: Vec<
    char,
>)
    requires
        cols_ok(views(ls@), cols@),
        ch.0 <= ch.2 < ls@.len(),
    ensures
        r@ == child_text_spec(views(ls@), child_view(ch)),
{
    let ghost v = views(ls@);
    let (sl, sc, el, ec) = ch;
    proof {
        assert(line_cols_ok(v[sl as int], cols@[sl as int]@));
        assert(line_cols_ok(v[el as int], cols@[el as int]@));
        assert(ls@[sl as int]@ == v[sl as int]);
        assert(ls@[el as int]@ == v[el as int]);
    }
    if sl == el {
        let line = ls[sl].as_slice();
        let lc = &cols[sl];
        proof {
            assert(line@.take(line@.len() as int) =~= line@);
        }
        let lb = lc[line.len()] as u64;
        let a = if sc < lb {
            sc
        } else {
            lb
        };
        let b = if lb > 0 && ec < lb - 1 {
            ec
        } else if lb > 0 {
            lb - 1
        } else {
            0
        };
        if a <= b {
            let i0 = char_index_line(line, lc, a);
            let i1 = char_index_line(line, lc, b + 1);
            if i0 <= i1 {
                let (x, y) = trim_bounds(line, i0, i1);
                let mut out: Vec<char> = Vec::new();
                let mut j = x;
                while j < y
                    invariant
                        x <= j <= y <= line@.len(),
                        out@ == line@.subrange(x as int, j as int),
                    decreases y - j,
                {
                    out.push(line[j]);
                    proof {
                        assert(out@ =~= line@.subrange(x as int, j + 1));
                    }
                    j += 1;
                }
                return out;
            } else {
                proof {
                    assert(false) by {
                        lemma_char_index_mono(line@, a as int, b + 1);
                    }
                }
                return Vec::new();
            }
        } else {
            return Vec::new();
        }
    }
    let mut parts: Vec<Vec<char>> = Vec::new();
    let first = ls[sl].as_slice();
    let fc = &cols[sl];
    proof {
        assert(first@.take(first@.len() as int) =~= first@);
    }
    let lb = fc[first.len()] as u64;
    let a = if sc < lb {
        sc
    } else {
        lb
    };
    let i0 = char_index_line(first, fc, a);
    let e0 = back_ws(first, i0, first.len());
    parts.push(sub_chars(first, i0, e0));
    proof {
        assert(first@.skip(i0 as int) =~= first@.subrange(i0 as int, first@.len() as int));
        lemma_trail_ws_bound(first@.skip(i0 as int));
        assert(trim_end(first@.skip(i0 as int)) =~= first@.subrange(i0 as int, e0 as int));
    }
    let ghost p0 = trim_end(first@.skip(char_index(first@, a as int)));
    let ghost mid = Seq::new(
        (if el - sl - 1 > 0 { el - sl - 1 } else { 0 }) as nat,
        |j: int| trim(v[sl + 1 + j]),
    );
    let mut l = sl + 1;
    proof {
        assert(views(parts@) =~= seq![p0] + mid.take(0));
    }
    while l < el
        invariant
            v == views(ls@),
            sl < l <= el < ls@.len(),
            mid == Seq::new(
                (if el - sl - 1 > 0 { el - sl - 1 } else { 0 }) as nat,
                |j: int| trim(v[sl + 1 + j]),
            ),
            views(parts@) == seq![p0] + mid.take(l - sl - 1),
        decreases el - l,
    {
        let line = ls[l].as_slice();
        let (x, y) = trim_bounds(line, 0, line.len());
        let ghost prev = parts@;
        parts.push(sub_chars(line, x, y));
        proof {
            assert(line@ == v[l as int]);
            assert(line@.subrange(0, line@.len() as int) =~= line@);
            assert(parts@.drop_last() =~= prev);
            assert(mid.take(l - sl) =~= mid.take(l - sl - 1).push(trim(v[l as int])));
            assert(views(parts@) =~= views(prev).push(trim(v[l as int])));
        }
        l += 1;
    }
    let last = ls[el].as_slice();
    let lc = &cols[el];
    proof {
        assert(last@.take(last@.len() as int) =~= last@);
    }
    let lb2 = lc[last.len()] as u64;
    let b = if lb2 > 0 && ec < lb2 - 1 {
        ec
    } else if lb2 > 0 {
        lb2 - 1
    } else {
        0
    };
    let i1 = char_index_line(last, lc, b + 1);
    let (x, y) = trim_bounds(last, 0, i1);
    let ghost prev = parts@;
    parts.push(sub_chars(last, x, y));
    proof {
        assert(char_index(last@, 0) == 0);
        assert(byte_slice(last@, 0, b + 1) =~= last@.subrange(0, i1 as int));
        assert(parts@.drop_last() =~= prev);
        assert(mid.take(el - sl - 1) =~= mid);
        assert(views(parts@) =~= views(prev).push(trim(byte_slice(last@, 0, b + 1))));
        assert(views(parts@) =~= seq![p0] + mid + seq![trim(byte_slice(last@, 0, b + 1))]);
    }
    join_chars(&parts, '\n')
}

pub proof fn lemma_char_index_mono(line: Seq<char>, a: int, b: int)
    requires
        a <= b,
    ensures
        char_index(line, a) <= char_index(line, b),
{
    lemma_idx_from_mono(line, a, b, 0);
}

proof fn lemma_idx_from_mono(line: Seq<char>, a: int, b: int, k: int)
    requires
        a <= b,
    ensures
        idx_from(line, a, k) <= idx_from(line, b, k),
        k >= 0 ==> idx_from(line, a, k) >= k || k >= line.len(),
    decreases line.len() - k,
{
    if k >= 0 && k < line.len() {
        lemma_idx_from_mono(line, a, b, k + 1);
    }
}

/// Every child lies on existing lines and ends no earlier than it starts.
pub open spec fn child_ok(ls: Seq<Seq<char>>, c: Child) -> bool {
    0 <= c.0 <= c.2 < ls.len()
}

/// Every child of `cs` lies on existing lines.
pub open spec fn children_ok(ls: Seq<Seq<char>>, cs: Seq<Child>) -> bool {
    forall|i: int| 0 <= i < cs.len() ==> child_ok(ls, #[trigger] cs[i])
}

pub proof fn lemma_children_ok(
    ls: Seq<Seq<char>>,
    bnd: (int, int, int, int),
    l: int,
    k: int,
    depth: int,
    start: Option<(int, int)>,
    in_s: bool,
    st: StmtState,
    acc: Seq<Child>,
)
    requires
        children_ok(ls, acc),
        start matches Some((a, b)) ==> 0 <= a <= l && a < ls.len(),
        l >= 0,
    ensures
        children_ok(ls, children_from(ls, bnd, l, k, depth, start, in_s, st, acc)),
    decreases bnd.2 + 1 - l, ls[l].len() - k,
{
    let (ol, oc, cl, cc) = bnd;
    if l > cl || l < 0 || l >= ls.len() || k < 0 {
    } else if k >= ls[l].len() {
        let line = ls[l];
        let col_to = if l == cl {
            cc
        } else {
            byte_len(line) as int
        };
        let fresh = (0int, true, 0int);
        if depth == 0 {
            match start {
                Some((sl, sc)) => {
                    let seg = if l == cl {
                        byte_slice(line, 0, cc)
                    } else {
                        line
                    };
                    let keep = sc <= byte_len(seg) && trim_end(
                        seg.skip(char_index(seg, sc)),
                    ).len() > 0;
                    let acc2 = if keep {
                        acc.push((sl, sc, l, if col_to > 0 { col_to - 1 } else { 0 }))
                    } else {
                        acc
                    };
                    assert(children_ok(ls, acc2)) by {
                        assert forall|i: int| 0 <= i < acc2.len() implies child_ok(ls, #[trigger] acc2[i]) by {
                            if i < acc.len() {
                                assert(acc2[i] == acc[i]);
                            }
                        }
                    }
                    lemma_children_ok(ls, bnd, l + 1, 0, depth, None, in_s, fresh, acc2);
                },
                None => lemma_children_ok(ls, bnd, l + 1, 0, depth, None, in_s, fresh, acc),
            }
        } else {
            lemma_children_ok(ls, bnd, l + 1, 0, depth, start, in_s, (st.0, true, st.2), acc);
        }
    } else {
        let line = ls[l];
        let ch = line[k];
        let c = bcol(line, k);
        let col_from = if l == ol {
            oc + 1
        } else {
            0
        };
        let col_to = if l == cl {
            cc
        } else {
            byte_len(line) as int
        };
        let has = start is Some;
        let split = depth == 0 && splits(st, has);
        let here = if depth == 0 && (start is None || split) {
            Some((l, c))
        } else {
            start
        };
        let acc_a = if split {
            acc.push((start.unwrap().0, start.unwrap().1, l, st.2))
        } else {
            acc
        };
        let st_a = if depth == 0 {
            (if split { 1 } else { atom_stage(st, has) }, false, c)
        } else {
            st
        };
        assert(children_ok(ls, acc_a)) by {
            assert forall|i: int| 0 <= i < acc_a.len() implies child_ok(ls, #[trigger] acc_a[i]) by {
                if i < acc.len() {
                    assert(acc_a[i] == acc[i]);
                }
            }
        }
        if c < col_from || c >= col_to {
            lemma_children_ok(ls, bnd, l, k + 1, depth, start, in_s, st, acc);
        } else if ch == '"' {
            if in_s {
                lemma_children_ok(
                    ls,
                    bnd,
                    l,
                    k + 1,
                    depth,
                    start,
                    false,
                    if depth == 0 { (st.0, false, c) } else { st },
                    acc,
                );
            } else {
                lemma_children_ok(ls, bnd, l, k + 1, depth, here, true, st_a, acc_a);
            }
        } else if in_s {
            lemma_children_ok(ls, bnd, l, k + 1, depth, start, in_s, st, acc);
        } else if ch == '#' && depth == 0 {
            lemma_children_ok(ls, bnd, l, line.len() as int, depth, start, in_s, st, acc);
        } else if ch == '{' {
            lemma_children_ok(ls, bnd, l, k + 1, depth + 1, here, in_s, st_a, acc_a);
        } else if ch == '}' {
            if depth == 0 {
                lemma_children_ok(ls, bnd, l, k + 1, depth, start, in_s, st, acc);
            } else if depth - 1 == 0 {
                match start {
                    Some((sl, sc)) => {
                        let acc2 = acc.push((sl, sc, l, c));
                        assert(children_ok(ls, acc2)) by {
                            assert forall|i: int| 0 <= i < acc2.len() implies child_ok(
                                ls,
                                #[trigger] acc2[i],
                            ) by {
                                if i < acc.len() {
                                    assert(acc2[i] == acc[i]);
                                }
                            }
                        }
                        lemma_children_ok(ls, bnd, l, k + 1, 0, None, in_s, (0int, false, c), acc2);
                    },
                    None => lemma_children_ok(ls, bnd, l, k + 1, 0, None, in_s, (0int, false, c), acc),
                }
            } else {
                lemma_children_ok(ls, bnd, l, k + 1, depth - 1, start, in_s, st, acc);
            }
        } else if is_ws(ch) {
            lemma_children_ok(
                ls,
                bnd,
                l,
                k + 1,
                depth,
                start,
                in_s,
                if depth == 0 { (st.0, true, st.2) } else { st },
                acc,
            );
        } else if depth == 0 && op_char(ch) {
            lemma_children_ok(
                ls,
                bnd,
                l,
                k + 1,
                depth,
                if start is None { Some((l, c)) } else { start },
                in_s,
                (if st.0 == 1 || st.0 == 3 { 2 } else { st.0 }, false, c),
                acc,
            );
        } else if depth == 0 {
            lemma_children_ok(ls, bnd, l, k + 1, depth, here, in_s, st_a, acc_a);
        } else {
            lemma_children_ok(ls, bnd, l, k + 1, depth, start, in_s, st, acc);
        }
    }
}

/// `n` spaces.
fn spaces(n: usize) -> (r: String)
    ensures
        r@ == Seq::new(n as nat, |i: int| ' '),
{
    let mut r = String::new();
    let mut k: usize = 0;
    while k < n
        invariant
            k <= n,
            r@ == Seq::new(k as nat, |i: int| ' '),
        decreases n - k,
    {
        push_char(&mut r, ' ');
        k += 1;
        proof {
            assert(r@ =~= Seq::new(k as nat, |i: int| ' '));
        }
    }
    r
}

/// The indentation of a line, as spaces.
fn indent_of(line: &[char], lc: &Vec<usize>) -> (r: String)
    requires
        line_cols_ok(line@, lc@),
    ensures
        r@ == indent_spec(line@),
{
    let t = skip_ws(line, 0, line.len());
    proof {
        assert(line@.subrange(0, line@.len() as int) =~= line@);
        lemma_lead_ws_bound(line@);
        lemma_byte_len_concat(line@.take(t as int), line@.skip(t as int));
        assert(line@.take(t as int) + line@.skip(t as int) =~= line@);
        assert(line@.take(line@.len() as int) =~= line@);
        assert(trim_start(line@) == line@.skip(t as int));
    }
    let n = lc[t];
    proof {
        assert(lc@[t as int] == byte_len(line@.take(t as int)));
        assert(byte_len(line@) == byte_len(line@.take(t as int)) + byte_len(line@.skip(t as int)));
        assert(n == byte_len(line@) - byte_len(trim_start(line@)));
    }
    spaces(n)
}

/// `ind` followed by `lit`.
fn with_lit(ind: &String, lit: &str) -> (r: String)
    ensures
        r@ == ind@ + lit@,
{
    let mut x = ind.clone();
    x.append(lit);
    x
}

/// Append the lines that replace one child.
fn push_child_lines(out: &mut Vec<String>, ind: &String, text: &Vec<char>)
    ensures
        string_views(final(out)@) == string_views(old(out)@) + child_lines(ind@, text@),
{
    let ghost base = string_views(out@);
    let has_nl = find_char(text.as_slice(), 0, text.len(), '\n').is_some();
    proof {
        assert(text@.subrange(0, text@.len() as int) =~= text@);
    }
    if has_nl {
        out.push(with_lit(ind, "    NOT = {"));
        let parts = split_lines(text.as_slice());
        let ghost pv = views(parts@);
        let mut j: usize = 0;
        proof {
            assert(string_views(out@) =~= base + seq![ind@ + "    NOT = {"@] + pv.take(0).map_values(
                |p: Seq<char>| ind@ + "        "@ + p,
            ));
        }
        while j < parts.len()
            invariant
                j <= parts@.len(),
                pv == views(parts@),
                pv == lines_of(text@),
                string_views(out@) == base + seq![ind@ + "    NOT = {"@] + pv.take(j as int).map_values(
                    |p: Seq<char>| ind@ + "        "@ + p,
                ),
            decreases parts@.len() - j,
        {
            let mut x = with_lit(ind, "        ");
            push_chars(&mut x, parts[j].as_slice());
            let ghost prev = string_views(out@);
            out.push(x);
            proof {
                assert(pv[j as int] == parts@[j as int]@);
                assert(pv.take(j + 1).map_values(|p: Seq<char>| ind@ + "        "@ + p) =~= pv.take(
                    j as int,
                ).map_values(|p: Seq<char>| ind@ + "        "@ + p).push(x@));
                assert(string_views(out@) =~= prev.push(x@));
            }
            j += 1;
        }
        let ghost prev = string_views(out@);
        out.push(with_lit(ind, "    }"));
        proof {
            assert(pv.take(parts@.len() as int) =~= pv);
            assert(string_views(out@) =~= prev.push(ind@ + "    }"@));
            assert(string_views(out@) =~= base + child_lines(ind@, text@));
        }
    } else {
        let mut x = with_lit(ind, "    NOT = { ");
        push_chars(&mut x, text.as_slice());
        x.append(" }");
        out.push(x);
        proof {
            assert(string_views(out@) =~= base + child_lines(ind@, text@));
        }
    }
}

/// The edit that rewrites violation `v`.
#[verifier::rlimit(40)]
fn build_edit(ls: &Vec<Vec<char>>, cols: &Vec<Vec<usize>>, v: &Violation) -> (r: TextEdit)
    requires
        cols_ok(views(ls@), cols@),
        total_len(views(ls@)) <= usize::MAX,
        rewritable(views(ls@), *v),
    ensures
        r.new_text@ == rewrite_spec(views(ls@), *v),
        r.range == span(v.not_line, 0, v.not_close_line, (v.not_close_col + 1) as u32),
{
    let ghost lv = views(ls@);
    let nl = v.not_line as usize;
    let ncl = v.not_close_line as usize;
    proof {
        assert(line_cols_ok(lv[nl as int], cols@[nl as int]@));
        assert(line_cols_ok(lv[ncl as int], cols@[ncl as int]@));
        assert(ls@[nl as int]@ == lv[nl as int]);
        assert(ls@[ncl as int]@ == lv[ncl as int]);
    }
    let ind = indent_of(ls[nl].as_slice(), &cols[nl]);
    let new_op = new_op_of(&v.inner_op);
    let children = extract_children(ls, cols, v);
    let ghost cs = children_view(children@);
    proof {
        lemma_children_ok(
            lv,
            (
                v.inner_line as int,
                v.inner_brace_col as int,
                v.inner_close_line as int,
                v.inner_close_col as int,
            ),
            v.inner_line as int,
            0,
            0,
            None,
            false,
            (0int, true, 0int),
            seq![],
        );
        assert(children_spec(lv, *v) == cs);
        assert(children_ok(lv, cs));
    }
    let mut out: Vec<String> = Vec::new();
    let mut h = ind.clone();
    h.append(new_op);
    h.append(" = {");
    out.push(h);
    let ghost header = ind@ + new_op_spec(v.inner_op@) + " = {"@;
    let mut i: usize = 0;
    proof {
        assert(string_views(out@) =~= seq![header]);
        assert(string_views(out@) + children_lines(lv, ind@, cs, 0) =~= seq![header]
            + children_lines(lv, ind@, cs, 0));
    }
    while i < children.len()
        invariant
            lv == views(ls@),
            cols_ok(lv, cols@),
            i <= children@.len(),
            cs == children_view(children@),
            forall|j: int| 0 <= j < cs.len() ==> child_ok(lv, #[trigger] cs[j]),
            string_views(out@) + children_lines(lv, ind@, cs, i as int) == seq![header]
                + children_lines(lv, ind@, cs, 0),
        decreases children@.len() - i,
    {
        proof {
            assert(child_ok(lv, cs[i as int]));
            assert(cs[i as int] == child_view(children@[i as int]));
        }
        let text = child_text(ls, cols, children[i]);
        let ghost prev = string_views(out@);
        push_child_lines(&mut out, &ind, &text);
        proof {
            assert(children_lines(lv, ind@, cs, i as int) == child_lines(
                ind@,
                child_text_spec(lv, cs[i as int]),
            ) + children_lines(lv, ind@, cs, i + 1));
            assert(string_views(out@) + children_lines(lv, ind@, cs, i + 1) =~= prev
                + children_lines(lv, ind@, cs, i as int));
        }
        i += 1;
    }
    let ghost before = string_views(out@);
    out.push(with_lit(&ind, "}"));
    proof {
        assert(string_views(out@) =~= before.push(ind@ + "}"@));
        assert(string_views(out@) =~= seq![header] + children_lines(lv, ind@, cs, 0) + seq![ind@ + "}"@]);
    }
    let new_text = join_lines(&out);
    let end: u32 = #[verifier::truncate] ((v.not_close_col as u64 + 1) as u32);
    TextEdit { range: make_range(v.not_line, 0, v.not_close_line, end), new_text }
}

/// The title of the quick fix for `v`.
fn action_title_of(v: &Violation) -> (r: String)
    ensures
        r@ == action_title(v.inner_op@),
{
    let new_op = new_op_of(&v.inner_op);
    let mut t = String::from_str("De Morgan: NOT { ");
    t.append(v.inner_op.as_str());
    t.append(" {…} } → ");
    t.append(new_op);
    t.append(" { NOT {…} … }");
    t
}

/// The quick fix for `violation`: replace the whole NOT block, from the start
/// of its first line through its closing brace, with the rewritten block.
pub fn violation_to_action(lines: &[&str], violation: &Violation) -> (r: QuickFix)
    requires
        rewritable(str_views(lines@), *violation),
        total_len(str_views(lines@)) <= usize::MAX,
        forall|l: int| 0 <= l < lines@.len() ==> 4 * (#[trigger] lines@[l]@.len()) <= usize::MAX,
    ensures
        r.title@ == action_title(violation.inner_op@),
        r.edit.new_text@ == rewrite_spec(str_views(lines@), *violation),
        r.edit.range == span(
            violation.not_line,
            0,
            violation.not_close_line,
            (violation.not_close_col + 1) as u32,
        ),
        r.is_preferred,
{
    let ls = chars_of_lines(lines);
    let ghost lv = views(ls@);
    proof {
        assert forall|l: int| 0 <= l < ls@.len() implies 4 * (#[trigger] ls@[l]@.len()) <= usize::MAX by {
            assert(ls@[l]@ == lv[l]);
            assert(lv[l] == lines@[l]@);
        }
    }
    let cols = all_columns(&ls);
    proof {
        assert forall|l: int| 0 <= l < lv.len() implies #[trigger] line_cols_ok(lv[l], cols@[l]@) by {
            assert(ls@[l]@ == lv[l]);
        }
        assert(lv[violation.not_close_line as int] == lines@[violation.not_close_line as int]@);
    }
    let edit = build_edit(&ls, &cols, violation);
    QuickFix { title: action_title_of(violation), edit, is_preferred: true }
}

/// Whether `violation_to_action` accepts the violation over these lines (what
/// it requires): the lines fit the machine's arithmetic and the violation is
/// rewritable over them.
pub fn can_rewrite(lines: &[&str], v: &Violation) -> (b: bool)
    ensures
        b == (rewritable(str_views(lines@), *v) && total_len(str_views(lines@)) <= usize::MAX && forall|
            l: int,
        | 0 <= l < lines@.len() ==> 4 * (#[trigger] lines@[l]@.len()) <= usize::MAX),
{
    let ls = chars_of_lines(lines);
    let ghost lv = views(ls@);
    let n = ls.len();
    let mut total: usize = 0;
    let mut i: usize = 0;
    proof {
        assert(lv.take(0) =~= Seq::<Seq<char>>::empty());
    }
    while i < n
        invariant
            n == ls@.len(),
            lv == views(ls@),
            lv == str_views(lines@),
            i <= n,
            total == total_len(lv.take(i as int)),
            forall|l: int| 0 <= l < i ==> 4 * (#[trigger] lines@[l]@.len()) <= usize::MAX,
        decreases n - i,
    {
        let len = ls[i].len();
        proof {
            assert(ls@[i as int]@ == lv[i as int]);
            assert(lv[i as int] == lines@[i as int]@);
            lemma_total_len_take(lv, i as int);
        }
        if len > usize::MAX / 4 {
            return false;
        }
        if total > usize::MAX - len {
            return false;
        }
        total = total + len;
        i += 1;
    }
    proof {
        assert(lv.take(n as int) =~= lv);
        assert forall|l: int| 0 <= l < ls@.len() implies 4 * (#[trigger] ls@[l]@.len()) <= usize::MAX by {
            assert(ls@[l]@ == lv[l]);
            assert(lv[l] == lines@[l]@);
        }
    }
    if v.not_line as usize >= n || v.not_close_line as usize >= n {
        return false;
    }
    let cols = all_columns(&ls);
    proof {
        assert forall|l: int| 0 <= l < lv.len() implies #[trigger] line_cols_ok(lv[l], cols@[l]@) by {
            assert(ls@[l]@ == lv[l]);
        }
    }
    if v.inner_line <= v.inner_close_line {
        let icl = v.inner_close_line as usize;
        if icl >= n {
            return false;
        }
        let line = ls[icl].as_slice();
        let lc = &cols[icl];
        let x = v.inner_close_col as usize;
        proof {
            assert(line@ == lv[icl as int]);
            assert(line_cols_ok(lv[icl as int], lc@));
            assert(line@.take(line@.len() as int) =~= line@);
        }
        if x < lc[line.len()] {
            let mut j: usize = 0;
            while j < line.len() && lc[j] != x
                invariant
                    j <= line@.len(),
                    line_cols_ok(line@, lc@),
                    forall|k: int| 0 <= k < j ==> bcol(line@, k) != x,
                decreases line@.len() - j,
            {
                j += 1;
            }
            if j == line.len() {
                proof {
                    assert(!at_boundary(lv[icl as int], x as int));
                }
                return false;
            }
        }
    }
    true
}

} // verus!
