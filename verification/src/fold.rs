//! Folding ranges from brace structure.
use vstd::prelude::*;
use crate::model::FoldingRange;
use crate::text::{chars_of, lines_of, split_lines, views};

verus! {

// ─── Folding ranges ──────────────────────────────────────────────────────────

/// Folding scan from line `i`, character `k`: every `{` outside a string
/// pushes its line, every `}` pops one and, when it closes a later line than
/// it opened, yields that region.
pub open spec fn folds_from(
    ls: Seq<Seq<char>>,
    i: int,
    k: int,
    stack: Seq<u32>,
    in_s: bool,
    acc: Seq<FoldingRange>,
) -> Seq<FoldingRange>
    decreases ls.len() - i, ls[i].len() - k,
{
    if i < 0 || i >= ls.len() || k < 0 {
        acc
    } else if k >= ls[i].len() {
        folds_from(ls, i + 1, 0, stack, false, acc)
    } else {
        let ch = ls[i][k];
        let lnum = i as u32;
        if ch == '"' {
            folds_from(ls, i, k + 1, stack, !in_s, acc)
        } else if ch == '#' && !in_s {
            folds_from(ls, i + 1, 0, stack, false, acc)
        } else if ch == '{' && !in_s {
            folds_from(ls, i, k + 1, stack.push(lnum), in_s, acc)
        } else if ch == '}' && !in_s {
            if stack.len() > 0 {
                let start = stack.last();
                folds_from(
                    ls,
                    i,
                    k + 1,
                    stack.drop_last(),
                    in_s,
                    if lnum > start {
                        acc.push(FoldingRange { start_line: start, end_line: lnum })
                    } else {
                        acc
                    },
                )
            } else {
                folds_from(ls, i, k + 1, stack, in_s, acc)
            }
        } else {
            folds_from(ls, i, k + 1, stack, in_s, acc)
        }
    }
}

/// Folding ranges from brace structure.
pub fn folding_ranges(text: &str) -> (r: Vec<FoldingRange>)
    ensures
        r@ == folds_from(lines_of(text@), 0, 0, seq![], false, seq![]),
{
    let chars = chars_of(text);
    let ls = split_lines(chars.as_slice());
    let ghost v = views(ls@);
    let mut ranges: Vec<FoldingRange> = Vec::new();
    let mut stack: Vec<u32> = Vec::new();
    let mut i: usize = 0;
    while i < ls.len()
        invariant
            v == views(ls@),
            v == lines_of(text@),
            i <= ls@.len(),
            folds_from(v, 0, 0, seq![], false, seq![]) == folds_from(v, i as int, 0, stack@, false, ranges@),
        decreases ls@.len() - i,
    {
        let line = ls[i].as_slice();
        let lnum = #[verifier::truncate] (i as u32);
        let mut in_str = false;
        let mut k: usize = 0;
        proof {
            assert(line@ == v[i as int]);
        }
        while k < line.len()
            invariant
                v == views(ls@),
                i < ls@.len(),
                line@ == v[i as int],
                lnum == i as u32,
                k <= line@.len(),
                folds_from(v, 0, 0, seq![], false, seq![]) == folds_from(v, i as int, k as int, stack@, in_str, ranges@),
            ensures
                folds_from(v, 0, 0, seq![], false, seq![]) == folds_from(v, i as int + 1, 0, stack@, false, ranges@),
            decreases line@.len() - k,
        {
            let ch = line[k];
            if ch == '"' {
                in_str = !in_str;
            } else if ch == '#' && !in_str {
                break;
            } else if ch == '{' && !in_str {
                stack.push(lnum);
            } else if ch == '}' && !in_str {
                match stack.pop() {
                    Some(start) => {
                        if lnum > start {
                            ranges.push(FoldingRange { start_line: start, end_line: lnum });
                        }
                    },
                    None => {},
                }
            }
            k += 1;
        }
        i += 1;
    }
    ranges
}

/// Every range of `acc` spans at least two lines.
pub open spec fn all_multiline(acc: Seq<FoldingRange>) -> bool {
    forall|j: int| 0 <= j < acc.len() ==> (#[trigger] acc[j]).start_line < acc[j].end_line
}

proof fn lemma_folds_multiline(
    ls: Seq<Seq<char>>,
    i: int,
    k: int,
    stack: Seq<u32>,
    in_s: bool,
    acc: Seq<FoldingRange>,
)
    requires
        all_multiline(acc),
    ensures
        all_multiline(folds_from(ls, i, k, stack, in_s, acc)),
    decreases ls.len() - i, ls[i].len() - k,
{
    if i < 0 || i >= ls.len() || k < 0 {
    } else if k >= ls[i].len() {
        lemma_folds_multiline(ls, i + 1, 0, stack, false, acc);
    } else {
        let ch = ls[i][k];
        let lnum = i as u32;
        if ch == '"' {
            lemma_folds_multiline(ls, i, k + 1, stack, !in_s, acc);
        } else if ch == '#' && !in_s {
            lemma_folds_multiline(ls, i + 1, 0, stack, false, acc);
        } else if ch == '{' && !in_s {
            lemma_folds_multiline(ls, i, k + 1, stack.push(lnum), in_s, acc);
        } else if ch == '}' && !in_s {
            if stack.len() > 0 {
                let start = stack.last();
                let acc2 = if lnum > start {
                    acc.push(FoldingRange { start_line: start, end_line: lnum })
                } else {
                    acc
                };
                assert(all_multiline(acc2)) by {
                    if lnum > start {
                        assert forall|j: int| 0 <= j < acc2.len() implies (#[trigger] acc2[j]).start_line
                            < acc2[j].end_line by {
                            if j < acc.len() {
                                assert(acc2[j] == acc[j]);
                            }
                        }
                    }
                }
                lemma_folds_multiline(ls, i, k + 1, stack.drop_last(), in_s, acc2);
            } else {
                lemma_folds_multiline(ls, i, k + 1, stack, in_s, acc);
            }
        } else {
            lemma_folds_multiline(ls, i, k + 1, stack, in_s, acc);
        }
    }
}

/// Every folding range spans at least two lines: a block that opens and
/// closes on one line is not folded.
pub proof fn folds_span_several_lines(text: Seq<char>)
    ensures
        all_multiline(folds_from(lines_of(text), 0, 0, seq![], false, seq![])),
{
    lemma_folds_multiline(lines_of(text), 0, 0, seq![], false, seq![]);
}

/// Whether an odd number of quotes stands in `s` (a string is open after it).
pub open spec fn odd_quotes(s: Seq<char>) -> bool
    decreases s.len(),
{
    if s.len() == 0 {
        false
    } else {
        odd_quotes(s.drop_last()) != (s.last() == '"')
    }
}

/// The folding ranges of `ls`.
pub open spec fn folds_of(ls: Seq<Seq<char>>) -> Seq<FoldingRange> {
    folds_from(ls, 0, 0, seq![], false, seq![])
}

/// The scan from line `i` on reads only lines `i..`.
proof fn lemma_folds_read_later_lines(
    a: Seq<Seq<char>>,
    b: Seq<Seq<char>>,
    i: int,
    k: int,
    stack: Seq<u32>,
    in_s: bool,
    acc: Seq<FoldingRange>,
)
    requires
        a.len() == b.len(),
        forall|m: int| i <= m < a.len() ==> #[trigger] a[m] == b[m],
    ensures
        folds_from(a, i, k, stack, in_s, acc) == folds_from(b, i, k, stack, in_s, acc),
    decreases a.len() - i, a[i].len() - k,
{
    if i < 0 || i >= a.len() || k < 0 {
    } else if k >= a[i].len() {
        lemma_folds_read_later_lines(a, b, i + 1, 0, stack, false, acc);
    } else {
        assert(a[i] == b[i]);
        let ch = a[i][k];
        let lnum = i as u32;
        if ch == '"' {
            lemma_folds_read_later_lines(a, b, i, k + 1, stack, !in_s, acc);
        } else if ch == '#' && !in_s {
            lemma_folds_read_later_lines(a, b, i + 1, 0, stack, false, acc);
        } else if ch == '{' && !in_s {
            lemma_folds_read_later_lines(a, b, i, k + 1, stack.push(lnum), in_s, acc);
        } else if ch == '}' && !in_s {
            if stack.len() > 0 {
                let start = stack.last();
                lemma_folds_read_later_lines(
                    a,
                    b,
                    i,
                    k + 1,
                    stack.drop_last(),
                    in_s,
                    if lnum > start {
                        acc.push(FoldingRange { start_line: start, end_line: lnum })
                    } else {
                        acc
                    },
                );
            } else {
                lemma_folds_read_later_lines(a, b, i, k + 1, stack, in_s, acc);
            }
        } else {
            lemma_folds_read_later_lines(a, b, i, k + 1, stack, in_s, acc);
        }
    }
}

/// Up to a `#` outside a string at character `c` of line `i`, the scans of
/// `a` and of `b`, whose line `i` agrees with `a`'s through that `#`, agree.
proof fn lemma_folds_up_to_comment(
    a: Seq<Seq<char>>,
    b: Seq<Seq<char>>,
    i: int,
    c: int,
    k: int,
    stack: Seq<u32>,
    acc: Seq<FoldingRange>,
)
    requires
        a.len() == b.len(),
        0 <= i < a.len(),
        forall|m: int| 0 <= m < a.len() && m != i ==> #[trigger] a[m] == b[m],
        0 <= k <= c < a[i].len(),
        c < b[i].len(),
        forall|j: int| 0 <= j <= c ==> #[trigger] a[i][j] == b[i][j],
        a[i][c] == '#',
        !odd_quotes(a[i].take(c)),
    ensures
        folds_from(a, i, k, stack, odd_quotes(a[i].take(k)), acc) == folds_from(
            b,
            i,
            k,
            stack,
            odd_quotes(a[i].take(k)),
            acc,
        ),
    decreases c - k,
{
    let in_s = odd_quotes(a[i].take(k));
    let ch = a[i][k];
    assert(b[i][k] == ch);
    assert(a[i].take(k + 1).drop_last() =~= a[i].take(k));
    assert(a[i].take(k + 1).last() == ch);
    let lnum = i as u32;
    if k == c {
        lemma_folds_read_later_lines(a, b, i + 1, 0, stack, false, acc);
    } else if ch == '"' {
        lemma_folds_up_to_comment(a, b, i, c, k + 1, stack, acc);
    } else if ch == '#' && !in_s {
        lemma_folds_read_later_lines(a, b, i + 1, 0, stack, false, acc);
    } else if ch == '{' && !in_s {
        lemma_folds_up_to_comment(a, b, i, c, k + 1, stack.push(lnum), acc);
    } else if ch == '}' && !in_s {
        if stack.len() > 0 {
            let start = stack.last();
            lemma_folds_up_to_comment(
                a,
                b,
                i,
                c,
                k + 1,
                stack.drop_last(),
                if lnum > start {
                    acc.push(FoldingRange { start_line: start, end_line: lnum })
                } else {
                    acc
                },
            );
        } else {
            lemma_folds_up_to_comment(a, b, i, c, k + 1, stack, acc);
        }
    } else {
        lemma_folds_up_to_comment(a, b, i, c, k + 1, stack, acc);
    }
}

/// The scan of `ls` from its first line reaches line `i` with no string open.
proof fn lemma_folds_at_line(ls: Seq<Seq<char>>, b: Seq<Seq<char>>, i: int)
    requires
        ls.len() == b.len(),
        0 < i < ls.len(),
        forall|m: int| 0 <= m < i ==> #[trigger] ls[m] == b[m],
    ensures
        exists|stack: Seq<u32>, acc: Seq<FoldingRange>|
            folds_of(ls) == #[trigger] folds_from(ls, i, 0, stack, false, acc) && folds_of(b) == folds_from(
                b,
                i,
                0,
                stack,
                false,
                acc,
            ),
{
    lemma_folds_to_line(ls, b, 0, 0, seq![], false, seq![], i);
}

/// From `(l, k)` on a line before `i`, the two scans reach line `i` in the
/// same state.
proof fn lemma_folds_to_line(
    a: Seq<Seq<char>>,
    b: Seq<Seq<char>>,
    l: int,
    k: int,
    stack: Seq<u32>,
    in_s: bool,
    acc: Seq<FoldingRange>,
    i: int,
)
    requires
        a.len() == b.len(),
        0 <= l < i < a.len(),
        0 <= k,
        forall|m: int| 0 <= m < i ==> #[trigger] a[m] == b[m],
    ensures
        exists|st: Seq<u32>, ac: Seq<FoldingRange>|
            folds_from(a, l, k, stack, in_s, acc) == #[trigger] folds_from(a, i, 0, st, false, ac) && folds_from(
                b,
                l,
                k,
                stack,
                in_s,
                acc,
            ) == folds_from(b, i, 0, st, false, ac),
    decreases i - l, a[l].len() - k,
{
    assert(a[l] == b[l]);
    if k >= a[l].len() {
        if l + 1 == i {
            assert(folds_from(a, i, 0, stack, false, acc) == folds_from(a, l, k, stack, in_s, acc));
        } else {
            lemma_folds_to_line(a, b, l + 1, 0, stack, false, acc, i);
        }
    } else {
        let ch = a[l][k];
        let lnum = l as u32;
        if ch == '"' {
            lemma_folds_to_line(a, b, l, k + 1, stack, !in_s, acc, i);
        } else if ch == '#' && !in_s {
            if l + 1 == i {
                assert(folds_from(a, i, 0, stack, false, acc) == folds_from(a, l, k, stack, in_s, acc));
            } else {
                lemma_folds_to_line(a, b, l + 1, 0, stack, false, acc, i);
            }
        } else if ch == '{' && !in_s {
            lemma_folds_to_line(a, b, l, k + 1, stack.push(lnum), in_s, acc, i);
        } else if ch == '}' && !in_s {
            if stack.len() > 0 {
                let start = stack.last();
                lemma_folds_to_line(
                    a,
                    b,
                    l,
                    k + 1,
                    stack.drop_last(),
                    in_s,
                    if lnum > start {
                        acc.push(FoldingRange { start_line: start, end_line: lnum })
                    } else {
                        acc
                    },
                    i,
                );
            } else {
                lemma_folds_to_line(a, b, l, k + 1, stack, in_s, acc, i);
            }
        } else {
            lemma_folds_to_line(a, b, l, k + 1, stack, in_s, acc, i);
        }
    }
}

/// A `#` outside a string ends its line for folding: whatever follows it on
/// the line may be replaced by any text (a commented-out `{` or `}`
/// included) and the folding ranges stay the same.
pub proof fn comments_do_not_fold(ls: Seq<Seq<char>>, i: int, c: int, tail: Seq<char>)
    requires
        0 <= i < ls.len(),
        0 <= c < ls[i].len(),
        ls[i][c] == '#',
        !odd_quotes(ls[i].take(c)),
    ensures
        folds_of(ls.update(i, ls[i].take(c + 1) + tail)) == folds_of(ls),
{
    let b = ls.update(i, ls[i].take(c + 1) + tail);
    assert forall|j: int| 0 <= j <= c implies #[trigger] ls[i][j] == b[i][j] by {
        assert(b[i][j] == ls[i].take(c + 1)[j]);
    }
    assert forall|m: int| 0 <= m < ls.len() && m != i implies #[trigger] ls[m] == b[m] by {}
    assert(ls[i].take(0) =~= Seq::<char>::empty());
    if i == 0 {
        lemma_folds_up_to_comment(ls, b, 0, c, 0, seq![], seq![]);
    } else {
        lemma_folds_at_line(ls, b, i);
        let (st, ac) = choose|st: Seq<u32>, ac: Seq<FoldingRange>|
            folds_of(ls) == #[trigger] folds_from(ls, i, 0, st, false, ac) && folds_of(b) == folds_from(
                b,
                i,
                0,
                st,
                false,
                ac,
            );
        lemma_folds_up_to_comment(ls, b, i, c, 0, st, ac);
    }
}

/// Two lines that agree from characters `ka` and `kb` on, with the same
/// lines after them, scan alike from there.
proof fn lemma_folds_same_rest(
    a: Seq<Seq<char>>,
    b: Seq<Seq<char>>,
    i: int,
    ka: int,
    kb: int,
    stack: Seq<u32>,
    in_s: bool,
    acc: Seq<FoldingRange>,
)
    requires
        a.len() == b.len(),
        0 <= i < a.len(),
        forall|m: int| i < m < a.len() ==> #[trigger] a[m] == b[m],
        0 <= ka <= a[i].len(),
        0 <= kb <= b[i].len(),
        a[i].skip(ka) == b[i].skip(kb),
    ensures
        folds_from(a, i, ka, stack, in_s, acc) == folds_from(b, i, kb, stack, in_s, acc),
    decreases a[i].len() - ka,
{
    assert(a[i].skip(ka).len() == b[i].skip(kb).len());
    assert(a[i].skip(ka).len() == a[i].len() - ka);
    assert(b[i].skip(kb).len() == b[i].len() - kb);
    if ka >= a[i].len() {
        lemma_folds_read_later_lines(a, b, i + 1, 0, stack, false, acc);
    } else {
        let ch = a[i][ka];
        assert(a[i].skip(ka)[0] == ch);
        assert(b[i].skip(kb)[0] == b[i][kb]);
        assert(a[i].skip(ka + 1) =~= a[i].skip(ka).drop_first());
        assert(b[i].skip(kb + 1) =~= b[i].skip(kb).drop_first());
        let lnum = i as u32;
        if ch == '"' {
            lemma_folds_same_rest(a, b, i, ka + 1, kb + 1, stack, !in_s, acc);
        } else if ch == '#' && !in_s {
            lemma_folds_read_later_lines(a, b, i + 1, 0, stack, false, acc);
        } else if ch == '{' && !in_s {
            lemma_folds_same_rest(a, b, i, ka + 1, kb + 1, stack.push(lnum), in_s, acc);
        } else if ch == '}' && !in_s {
            if stack.len() > 0 {
                let start = stack.last();
                lemma_folds_same_rest(
                    a,
                    b,
                    i,
                    ka + 1,
                    kb + 1,
                    stack.drop_last(),
                    in_s,
                    if lnum > start {
                        acc.push(FoldingRange { start_line: start, end_line: lnum })
                    } else {
                        acc
                    },
                );
            } else {
                lemma_folds_same_rest(a, b, i, ka + 1, kb + 1, stack, in_s, acc);
            }
        } else {
            lemma_folds_same_rest(a, b, i, ka + 1, kb + 1, stack, in_s, acc);
        }
    }
}

/// Inside a string, characters other than a quote change nothing.
proof fn lemma_folds_in_string(
    a: Seq<Seq<char>>,
    i: int,
    k: int,
    c: int,
    stack: Seq<u32>,
    acc: Seq<FoldingRange>,
)
    requires
        0 <= i < a.len(),
        0 <= k <= c <= a[i].len(),
        forall|j: int| k <= j < c ==> #[trigger] a[i][j] != '"',
    ensures
        folds_from(a, i, k, stack, true, acc) == folds_from(a, i, c, stack, true, acc),
    decreases c - k,
{
    if k < c {
        lemma_folds_in_string(a, i, k + 1, c, stack, acc);
    }
}

/// Before character `c` of line `i`, where both lines agree, the scans of
/// `a` and `b` agree whenever they agree from `c` on outside a string.
proof fn lemma_folds_same_prefix(
    a: Seq<Seq<char>>,
    b: Seq<Seq<char>>,
    i: int,
    c: int,
    k: int,
    stack: Seq<u32>,
    acc: Seq<FoldingRange>,
)
    requires
        a.len() == b.len(),
        0 <= i < a.len(),
        forall|m: int| i < m < a.len() ==> #[trigger] a[m] == b[m],
        0 <= k <= c <= a[i].len(),
        c <= b[i].len(),
        forall|j: int| 0 <= j < c ==> #[trigger] a[i][j] == b[i][j],
        !odd_quotes(a[i].take(c)),
        forall|st: Seq<u32>, ac: Seq<FoldingRange>|
            #[trigger] folds_from(a, i, c, st, false, ac) == folds_from(b, i, c, st, false, ac),
    ensures
        folds_from(a, i, k, stack, odd_quotes(a[i].take(k)), acc) == folds_from(
            b,
            i,
            k,
            stack,
            odd_quotes(a[i].take(k)),
            acc,
        ),
    decreases c - k,
{
    let in_s = odd_quotes(a[i].take(k));
    if k == c {
    } else {
        let ch = a[i][k];
        assert(b[i][k] == ch);
        assert(a[i].take(k + 1).drop_last() =~= a[i].take(k));
        assert(a[i].take(k + 1).last() == ch);
        let lnum = i as u32;
        if ch == '"' {
            lemma_folds_same_prefix(a, b, i, c, k + 1, stack, acc);
        } else if ch == '#' && !in_s {
            lemma_folds_read_later_lines(a, b, i + 1, 0, stack, false, acc);
        } else if ch == '{' && !in_s {
            lemma_folds_same_prefix(a, b, i, c, k + 1, stack.push(lnum), acc);
        } else if ch == '}' && !in_s {
            if stack.len() > 0 {
                let start = stack.last();
                lemma_folds_same_prefix(
                    a,
                    b,
                    i,
                    c,
                    k + 1,
                    stack.drop_last(),
                    if lnum > start {
                        acc.push(FoldingRange { start_line: start, end_line: lnum })
                    } else {
                        acc
                    },
                );
            } else {
                lemma_folds_same_prefix(a, b, i, c, k + 1, stack, acc);
            }
        } else {
            lemma_folds_same_prefix(a, b, i, c, k + 1, stack, acc);
        }
    }
}

/// Braces inside a string do not fold: the text between a quote that opens
/// a string and the quote that closes it may be replaced by any text without
/// quotes, and the folding ranges stay the same.
pub proof fn strings_do_not_fold(ls: Seq<Seq<char>>, i: int, c1: int, c2: int, t: Seq<char>)
    requires
        0 <= i < ls.len(),
        0 <= c1 < c2 < ls[i].len(),
        ls[i][c1] == '"',
        ls[i][c2] == '"',
        !odd_quotes(ls[i].take(c1)),
        forall|j: int| c1 < j < c2 ==> #[trigger] ls[i][j] != '"',
        forall|j: int| 0 <= j < t.len() ==> #[trigger] t[j] != '"',
    ensures
        folds_of(ls.update(i, ls[i].take(c1 + 1) + t + ls[i].skip(c2))) == folds_of(ls),
{
    let line = ls[i];
    let nl = line.take(c1 + 1) + t + line.skip(c2);
    let b = ls.update(i, nl);
    let kb = c1 + 1 + t.len();
    assert(b[i] == nl);
    assert forall|m: int| 0 <= m < ls.len() && m != i implies #[trigger] ls[m] == b[m] by {}
    assert forall|m: int| i < m < ls.len() implies #[trigger] ls[m] == b[m] by {}
    assert forall|j: int| 0 <= j < c1 implies #[trigger] line[j] == nl[j] by {
        assert(nl[j] == line.take(c1 + 1)[j]);
    }
    assert(nl[c1] == '"') by {
        assert(nl[c1] == line.take(c1 + 1)[c1]);
    }
    assert forall|j: int| c1 + 1 <= j < kb implies #[trigger] nl[j] != '"' by {
        assert(nl[j] == t[j - c1 - 1]);
    }
    assert(nl.skip(kb) =~= line.skip(c2));
    assert forall|st: Seq<u32>, ac: Seq<FoldingRange>|
        #[trigger] folds_from(ls, i, c1, st, false, ac) == folds_from(b, i, c1, st, false, ac) by {
        lemma_folds_in_string(ls, i, c1 + 1, c2, st, ac);
        lemma_folds_in_string(b, i, c1 + 1, kb, st, ac);
        lemma_folds_same_rest(ls, b, i, c2, kb, st, true, ac);
    }
    assert(line.take(0) =~= Seq::<char>::empty());
    if i == 0 {
        lemma_folds_same_prefix(ls, b, 0, c1, 0, seq![], seq![]);
    } else {
        assert forall|m: int| 0 <= m < i implies #[trigger] ls[m] == b[m] by {}
        lemma_folds_at_line(ls, b, i);
        let (st, ac) = choose|st: Seq<u32>, ac: Seq<FoldingRange>|
            folds_of(ls) == #[trigger] folds_from(ls, i, 0, st, false, ac) && folds_of(b) == folds_from(
                b,
                i,
                0,
                st,
                false,
                ac,
            );
        lemma_folds_same_prefix(ls, b, i, c1, 0, st, ac);
    }
}

} // verus!
