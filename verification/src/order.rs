//! The order of `String`s (code points compared one by one, a prefix first)
//! and sorting a list into its distinct elements.
use vstd::prelude::*;
use crate::text::chars_of;

verus! {

/// Length of the common prefix of `a` and `b` from index `i` on.
pub open spec fn common_len(a: Seq<char>, b: Seq<char>, i: int) -> int
    decreases a.len() - i,
{
    if 0 <= i < a.len() && i < b.len() && a[i] == b[i] {
        common_len(a, b, i + 1)
    } else {
        i
    }
}

/// `a < b` for strings: at the first difference the smaller code point, or
/// `a` a proper prefix of `b`.
pub open spec fn lex_lt(a: Seq<char>, b: Seq<char>) -> bool {
    let k = common_len(a, b, 0);
    ||| k == a.len() && k < b.len()
    ||| k < a.len() && k < b.len() && a[k] < b[k]
}

/// Strictly increasing: sorted, nothing twice.
pub open spec fn strictly_sorted(s: Seq<Seq<char>>) -> bool {
    forall|i: int, j: int| 0 <= i < j < s.len() ==> lex_lt(#[trigger] s[i], #[trigger] s[j])
}

/// `r` is the distinct elements of `s` in increasing order.
pub open spec fn sorted_set_of(r: Seq<Seq<char>>, s: Seq<Seq<char>>) -> bool {
    &&& strictly_sorted(r)
    &&& forall|x: Seq<char>| r.contains(x) <==> s.contains(x)
}

proof fn lemma_common_len(a: Seq<char>, b: Seq<char>, i: int)
    requires
        0 <= i,
        i <= a.len(),
        i <= b.len(),
        forall|j: int| 0 <= j < i ==> a[j] == b[j],
    ensures
        i <= common_len(a, b, i) <= a.len(),
        common_len(a, b, i) <= b.len(),
        forall|j: int| 0 <= j < common_len(a, b, i) ==> a[j] == b[j],
        common_len(a, b, i) == a.len() || common_len(a, b, i) == b.len() || a[common_len(a, b, i)]
            != b[common_len(a, b, i)],
    decreases a.len() - i,
{
    if i < a.len() && i < b.len() && a[i] == b[i] {
        lemma_common_len(a, b, i + 1);
    }
}

/// The common prefix length is the first place where `a` and `b` differ.
proof fn lemma_common_at(a: Seq<char>, b: Seq<char>, k: int)
    requires
        0 <= k <= a.len(),
        k <= b.len(),
        forall|j: int| 0 <= j < k ==> a[j] == b[j],
        k == a.len() || k == b.len() || a[k] != b[k],
    ensures
        common_len(a, b, 0) == k,
{
    lemma_common_len(a, b, 0);
    let c = common_len(a, b, 0);
    if c < k {
        assert(a[c] == b[c]);
    }
    if c > k {
        assert(a[k] == b[k]);
    }
}

pub proof fn lemma_lex_irreflexive(a: Seq<char>)
    ensures
        !lex_lt(a, a),
{
    lemma_common_at(a, a, a.len() as int);
}

/// Two different strings are ordered one way or the other, never both.
pub proof fn lemma_lex_total(a: Seq<char>, b: Seq<char>)
    ensures
        a != b ==> lex_lt(a, b) || lex_lt(b, a),
        !(lex_lt(a, b) && lex_lt(b, a)),
        lex_lt(a, b) ==> a != b,
{
    lemma_common_len(a, b, 0);
    let k = common_len(a, b, 0);
    lemma_common_at(b, a, k);
    lemma_lex_irreflexive(a);
    if a != b {
        if k == a.len() && k == b.len() {
            assert(a =~= b);
        } else if k < a.len() && k < b.len() {
            assert(a[k] != b[k]);
        }
    }
}

pub proof fn lemma_lex_transitive(a: Seq<char>, b: Seq<char>, c: Seq<char>)
    requires
        lex_lt(a, b),
        lex_lt(b, c),
    ensures
        lex_lt(a, c),
{
    lemma_common_len(a, b, 0);
    lemma_common_len(b, c, 0);
    let k1 = common_len(a, b, 0);
    let k2 = common_len(b, c, 0);
    if k1 < k2 {
        assert(forall|j: int| 0 <= j < k1 ==> a[j] == c[j]);
        if k1 == a.len() {
            lemma_common_at(a, c, k1);
        } else {
            assert(b[k1] == c[k1]);
            lemma_common_at(a, c, k1);
        }
    } else if k1 > k2 {
        assert(forall|j: int| 0 <= j < k2 ==> a[j] == c[j]);
        assert(a[k2] == b[k2]);
        lemma_common_at(a, c, k2);
    } else {
        assert(forall|j: int| 0 <= j < k1 ==> a[j] == c[j]);
        lemma_common_at(a, c, k1);
    }
}

/// `lex_lt`, computed.
pub fn lex_less(a: &[char], b: &[char]) -> (r: bool)
    ensures
        r == lex_lt(a@, b@),
{
    let mut i: usize = 0;
    while i < a.len() && i < b.len() && a[i] == b[i]
        invariant
            i <= a@.len(),
            i <= b@.len(),
            forall|j: int| 0 <= j < i ==> a@[j] == b@[j],
        decreases a@.len() - i,
    {
        i += 1;
    }
    proof {
        lemma_common_at(a@, b@, i as int);
    }
    if i == a.len() {
        i < b.len()
    } else if i == b.len() {
        false
    } else {
        a[i] < b[i]
    }
}

pub open spec fn string_seq(v: Seq<String>) -> Seq<Seq<char>> {
    v.map_values(|s: String| s@)
}

/// The distinct elements of `v`, sorted (what `sort_unstable` then `dedup`
/// leave).
pub fn sort_dedup(v: &Vec<String>) -> (r: Vec<String>)
    ensures
        sorted_set_of(string_seq(r@), string_seq(v@)),
{
    let ghost vs = string_seq(v@);
    let mut out: Vec<String> = Vec::new();
    let mut i: usize = 0;
    while i < v.len()
        invariant
            i <= v@.len(),
            vs == string_seq(v@),
            sorted_set_of(string_seq(out@), vs.take(i as int)),
        decreases v@.len() - i,
    {
        let s = &v[i];
        let sc = chars_of(s.as_str());
        let ghost os = string_seq(out@);
        let mut p: usize = 0;
        while p < out.len() && lex_less(chars_of(out[p].as_str()).as_slice(), sc.as_slice())
            invariant
                p <= out@.len(),
                os == string_seq(out@),
                sc@ == s@,
                forall|q: int| 0 <= q < p ==> lex_lt(#[trigger] os[q], s@),
            decreases out@.len() - p,
        {
            p += 1;
        }
        let ghost t0 = vs.take(i as int);
        let ghost t1 = vs.take(i + 1);
        proof {
            assert(t1 =~= t0.push(s@));
            assert(vs[i as int] == s@);
        }
        if p < out.len() && out[p] == *s {
            proof {
                assert forall|x: Seq<char>| os.contains(x) <==> t1.contains(x) by {
                    if x == s@ {
                        assert(os[p as int] == x);
                    }
                    if t1.contains(x) && x != s@ {
                        let m = choose|m: int| 0 <= m < i + 1 && t1[m] == x;
                        assert(t0[m] == x);
                    }
                    if t0.contains(x) {
                        let m = choose|m: int| 0 <= m < i && t0[m] == x;
                        assert(t1[m] == x);
                    }
                }
            }
        } else {
            proof {
                if p < out@.len() {
                    lemma_lex_total(os[p as int], s@);
                }
            }
            out.insert(p, s.clone());
            proof {
                let ns = string_seq(out@);
                assert(ns =~= os.insert(p as int, s@));
                assert forall|a: int, b: int| 0 <= a < b < ns.len() implies lex_lt(#[trigger] ns[a], #[trigger] ns[b]) by {
                    if b < p {
                        assert(ns[a] == os[a] && ns[b] == os[b]);
                    } else if b == p {
                        assert(ns[a] == os[a]);
                    } else if a == p {
                        assert(ns[b] == os[b - 1]);
                        if b - 1 > p {
                            lemma_lex_transitive(s@, os[p as int], os[b - 1]);
                        }
                    } else if a < p {
                        assert(ns[a] == os[a] && ns[b] == os[b - 1]);
                    } else {
                        assert(ns[a] == os[a - 1] && ns[b] == os[b - 1]);
                    }
                }
                assert forall|x: Seq<char>| ns.contains(x) <==> t1.contains(x) by {
                    if ns.contains(x) {
                        let m = choose|m: int| 0 <= m < ns.len() && ns[m] == x;
                        if m < p {
                            assert(os[m] == x);
                        } else if m > p {
                            assert(os[m - 1] == x);
                        }
                        if x == s@ {
                            assert(t1[i as int] == x);
                        } else {
                            assert(os.contains(x));
                            assert(t0.contains(x));
                            let m2 = choose|m2: int| 0 <= m2 < i && t0[m2] == x;
                            assert(t1[m2] == x);
                        }
                    }
                    if t1.contains(x) {
                        let m = choose|m: int| 0 <= m < i + 1 && t1[m] == x;
                        if m == i {
                            assert(ns[p as int] == x);
                        } else {
                            assert(t0[m] == x);
                            assert(t0.contains(x));
                            assert(os.contains(x));
                            let m2 = choose|m2: int| 0 <= m2 < os.len() && os[m2] == x;
                            if m2 < p {
                                assert(ns[m2] == x);
                            } else {
                                assert(ns[m2 + 1] == x);
                            }
                        }
                    }
                }
            }
        }
        i += 1;
    }
    proof {
        assert(vs.take(vs.len() as int) =~= vs);
    }
    out
}

} // verus!
