//! Whole-token occurrences of a name in script text, and the edit that renames
//! every one of them.
use vstd::prelude::*;
use crate::model::{span, Location, Position, Range, TextEdit};
use crate::text::{
    byte_len, byte_len_of, chars_of, find_char, first_of, has_prefix_at, is_ascii_alnum,
    is_ascii_alnum_spec, lemma_byte_len_mono, lemma_byte_len_step, lemma_first_of, lines_of, lines_of_str, prefix_at,
    views, width_of,
};

verus! {

// ─── Occurrences ─────────────────────────────────────────────────────────────

/// A byte that continues a token: ASCII alphanumerics, `_` and `.`.
pub open spec fn ref_ident(c: char) -> bool {
    is_ascii_alnum_spec(c) || c == '_' || c == '.'
}

fn is_ref_ident(c: char) -> (b: bool)
    ensures
        b == ref_ident(c),
{
    is_ascii_alnum(c) || c == '_' || c == '.'
}

/// The part of a line before its first `#`.
pub open spec fn uncommented(l: Seq<char>) -> Seq<char> {
    l.take(first_of(l, '#') as int)
}

/// `name` starts at index `j` of `e` and is not glued to a token character
/// on either side.
pub open spec fn token_at(e: Seq<char>, j: int, name: Seq<char>) -> bool {
    &&& has_prefix_at(e, j, name)
    &&& (j == 0 || !ref_ident(e[j - 1]))
    &&& (j + name.len() >= e.len() || !ref_ident(e[j + name.len()]))
}

/// The range reported for a hit on line `li` at byte column `col`.
pub open spec fn hit_range(li: int, col: int, width: int) -> Range {
    span(li as u32, col as u32, li as u32, (col + width) as u32)
}

/// Hits of `name` at the character indices below `j` of the uncommented
/// line `e`, which is line `li`, in order.
pub open spec fn line_hits(e: Seq<char>, name: Seq<char>, li: int, j: int) -> Seq<Range>
    decreases j,
{
    if j <= 0 {
        seq![]
    } else {
        let p = line_hits(e, name, li, j - 1);
        if token_at(e, j - 1, name) {
            p.push(hit_range(li, byte_len(e.take(j - 1)) as int, byte_len(name) as int))
        } else {
            p
        }
    }
}

/// Hits in the first `i` lines, line by line.
pub open spec fn hits_upto(ls: Seq<Seq<char>>, name: Seq<char>, i: int) -> Seq<Range>
    decreases i,
{
    if i <= 0 {
        seq![]
    } else {
        let e = uncommented(ls[i - 1]);
        hits_upto(ls, name, i - 1) + line_hits(e, name, i - 1, e.len() as int)
    }
}

/// Every whole-token occurrence of `name` in `text`, outside comments, as the
/// range it covers (lines of `str::lines`, byte columns).
pub open spec fn occurrences(text: Seq<char>, name: Seq<char>) -> Seq<Range> {
    hits_upto(lines_of(text), name, lines_of(text).len() as int)
}

/// The scan cannot step past the first character of a match: an empty name
/// on any line, or a match of a name whose first character is not ASCII.
pub open spec fn scan_is_stuck(text: Seq<char>, name: Seq<char>) -> bool {
    let ls = lines_of(text);
    ||| name.len() == 0 && ls.len() > 0
    ||| name.len() > 0 && (name[0] as u32) >= 0x80 && exists|i: int, j: int|
        0 <= i < ls.len() && #[trigger] has_prefix_at(uncommented(ls[i]), j, name)
}

/// Whether the occurrence scan of `name` over `text` would get stuck (what
/// `collect_occurrences` rules out).
pub fn scan_gets_stuck(name: &str, text: &str) -> (b: bool)
    ensures
        b == scan_is_stuck(text@, name@),
{
    let name_c = chars_of(name);
    let ls = lines_of_str(text);
    let ghost lsv = views(ls@);
    if name_c.len() == 0 {
        return ls.len() > 0;
    }
    if (name_c[0] as u32) < 0x80 {
        proof {
            assert(name@[0] == name_c@[0]);
        }
        return false;
    }
    proof {
        assert(name@[0] == name_c@[0]);
    }
    let mut i: usize = 0;
    while i < ls.len()
        invariant
            lsv == views(ls@),
            lsv == lines_of(text@),
            name_c@ == name@,
            name@.len() > 0,
            (name@[0] as u32) >= 0x80,
            i <= ls@.len(),
            forall|i2: int, j: int|
                0 <= i2 < i ==> !#[trigger] has_prefix_at(uncommented(lsv[i2]), j, name@),
        decreases ls@.len() - i,
    {
        let line = ls[i].as_slice();
        let end: usize = match find_char(line, 0, line.len(), '#') {
            Some(k) => k,
            None => line.len(),
        };
        proof {
            assert(line@ == lsv[i as int]);
            lemma_first_of(line@, '#', end as int);
        }
        let e = crate::text::sub_chars(line, 0, end);
        proof {
            assert(e@ =~= uncommented(lsv[i as int]));
        }
        if crate::text::contains_chars(e.as_slice(), name_c.as_slice()) {
            proof {
                let j = choose|j: int| #[trigger] has_prefix_at(e@, j, name@);
                assert(has_prefix_at(uncommented(lsv[i as int]), j, name@));
            }
            return true;
        }
        i += 1;
    }
    false
}

pub open spec fn loc_view(l: Location) -> (Seq<char>, Range) {
    (l.uri@, l.range)
}

pub open spec fn locs_view(s: Seq<Location>) -> Seq<(Seq<char>, Range)> {
    s.map_values(|l: Location| loc_view(l))
}

/// Each range paired with `uri`.
pub open spec fn at_uri(uri: Seq<char>, rs: Seq<Range>) -> Seq<(Seq<char>, Range)> {
    rs.map_values(|r: Range| (uri, r))
}

/// Append to `out` every whole-token occurrence of `name` in `text`
/// (comments after `#` skipped), located in the file `uri`.
pub fn collect_occurrences(name: &str, text: &str, uri: &str, out: &mut Vec<Location>)
    requires
        !scan_is_stuck(text@, name@),
    ensures
        locs_view(final(out)@) == locs_view(old(out)@) + at_uri(uri@, occurrences(text@, name@)),
{
    let name_c = chars_of(name);
    let n = name_c.len();
    let width: u128 = byte_len_of(name_c.as_slice());
    let ls = lines_of_str(text);
    let ghost lsv = views(ls@);
    let ghost start = locs_view(out@);
    proof {
        lemma_byte_len_mono(name@, 0, n as int);
        assert(name@.take(n as int) =~= name@);
    }
    let mut i: usize = 0;
    proof {
        assert(at_uri(uri@, hits_upto(lsv, name@, 0)) =~= seq![]);
        assert(locs_view(out@) =~= start + at_uri(uri@, hits_upto(lsv, name@, 0)));
    }
    while i < ls.len()
        invariant
            lsv == views(ls@),
            lsv == lines_of(text@),
            name_c@ == name@,
            n == name@.len(),
            width == byte_len(name@),
            width <= 4 * n,
            !scan_is_stuck(text@, name@),
            i <= ls@.len(),
            locs_view(out@) == start + at_uri(uri@, hits_upto(lsv, name@, i as int)),
        decreases ls@.len() - i,
    {
        let line = ls[i].as_slice();
        let end: usize = match find_char(line, 0, line.len(), '#') {
            Some(k) => k,
            None => line.len(),
        };
        let ghost e = line@.take(end as int);
        proof {
            assert(line@ == lsv[i as int]);
            lemma_first_of(line@, '#', end as int);
        }
        let ghost before = locs_view(out@);
        let mut col: u128 = 0;
        let mut j: usize = 0;
        proof {
            assert(e.take(0) =~= seq![]);
            assert(at_uri(uri@, line_hits(e, name@, i as int, 0)) =~= seq![]);
            assert(locs_view(out@) =~= before + at_uri(uri@, line_hits(e, name@, i as int, 0)));
        }
        while j < end
            invariant
                lsv == views(ls@),
                lsv == lines_of(text@),
                i < ls@.len(),
                line@ == lsv[i as int],
                end <= line@.len(),
                e == line@.take(end as int),
                e == uncommented(lsv[i as int]),
                name_c@ == name@,
                n == name@.len(),
                width == byte_len(name@),
                width <= 4 * n,
                !scan_is_stuck(text@, name@),
                j <= end,
                col == byte_len(e.take(j as int)),
                col <= 4 * j,
                locs_view(out@) == before + at_uri(uri@, line_hits(e, name@, i as int, j as int)),
            decreases end - j,
        {
            let fits = n <= end - j;
            let hit = fits && prefix_at(line, j, name_c.as_slice()) && (j == 0 || !is_ref_ident(line[j - 1]))
                && (n >= end - j || !is_ref_ident(line[j + n]));
            proof {
                if fits {
                    assert(e.subrange(j as int, j + n) =~= line@.subrange(j as int, j + n));
                }
                if j > 0 {
                    assert(e[j - 1] == line@[j - 1]);
                }
                if fits && n < end - j {
                    assert(e[j + n] == line@[j + n]);
                }
                assert(hit == token_at(e, j as int, name@));
            }
            let ghost prev = locs_view(out@);
            if hit {
                let lnum = #[verifier::truncate] (i as u32);
                let c0 = #[verifier::truncate] (col as u32);
                let c1 = #[verifier::truncate] ((col + width) as u32);
                out.push(
                    Location {
                        uri: uri.to_owned(),
                        range: Range {
                            start: Position { line: lnum, character: c0 },
                            end: Position { line: lnum, character: c1 },
                        },
                    },
                );
                proof {
                    let r = hit_range(i as int, col as int, width as int);
                    assert(locs_view(out@) =~= prev.push((uri@, r)));
                    let lh = line_hits(e, name@, i as int, j as int);
                    assert(at_uri(uri@, lh.push(r)) =~= at_uri(uri@, lh).push((uri@, r)));
                }
            }
            proof {
                lemma_byte_len_step(e, j as int);
                assert(e[j as int] == line@[j as int]);
            }
            col = col + width_of(line[j]) as u128;
            j += 1;
        }
        proof {
            assert(hits_upto(lsv, name@, i + 1) == hits_upto(lsv, name@, i as int) + line_hits(
                e,
                name@,
                i as int,
                e.len() as int,
            ));
            assert(at_uri(uri@, hits_upto(lsv, name@, i + 1)) =~= at_uri(uri@, hits_upto(lsv, name@, i as int))
                + at_uri(uri@, line_hits(e, name@, i as int, e.len() as int)));
        }
        i += 1;
    }
}


// ─── Rename ──────────────────────────────────────────────────────────────────

/// The edits for one file.
pub struct FileEdits {
    pub uri: String,
    pub edits: Vec<TextEdit>,
}

/// Edits grouped by file, files in the order in which they first appear.
pub struct WorkspaceEdit {
    pub changes: Vec<FileEdits>,
}

/// The distinct elements of `s`, in the order of their first appearance.
pub open spec fn first_appearances(s: Seq<Seq<char>>) -> Seq<Seq<char>>
    decreases s.len(),
{
    if s.len() == 0 {
        seq![]
    } else {
        let p = first_appearances(s.drop_last());
        if p.contains(s.last()) {
            p
        } else {
            p.push(s.last())
        }
    }
}

pub open spec fn ref_uris(refs: Seq<Location>) -> Seq<Seq<char>> {
    refs.map_values(|l: Location| l.uri@)
}

pub open spec fn in_file(u: Seq<char>) -> spec_fn(Location) -> bool {
    |l: Location| l.uri@ == u
}

/// The edits renaming the references in file `u` to `new_name`, in order.
pub open spec fn renames_in(refs: Seq<Location>, u: Seq<char>, new_name: Seq<char>) -> Seq<(Range, Seq<char>)> {
    refs.filter(in_file(u)).map_values(|l: Location| (l.range, new_name))
}

pub open spec fn edit_view(e: TextEdit) -> (Range, Seq<char>) {
    (e.range, e.new_text@)
}

pub open spec fn edits_view(es: Seq<TextEdit>) -> Seq<(Range, Seq<char>)> {
    es.map_values(|e: TextEdit| edit_view(e))
}

pub(crate) fn contains_string(v: &Vec<String>, s: &String) -> (b: bool)
    ensures
        b == v@.map_values(|x: String| x@).contains(s@),
{
    let ghost vs = v@.map_values(|x: String| x@);
    let mut k: usize = 0;
    while k < v.len()
        invariant
            k <= v@.len(),
            vs == v@.map_values(|x: String| x@),
            forall|m: int| 0 <= m < k ==> vs[m] != s@,
        decreases v@.len() - k,
    {
        if v[k] == *s {
            proof {
                assert(vs[k as int] == s@);
            }
            return true;
        }
        k += 1;
    }
    false
}

/// The files of `refs`, each once, in order of first appearance.
fn distinct_uris(refs: &[Location]) -> (r: Vec<String>)
    ensures
        r@.map_values(|x: String| x@) == first_appearances(ref_uris(refs@)),
{
    let mut r: Vec<String> = Vec::new();
    let mut i: usize = 0;
    proof {
        assert(ref_uris(refs@.take(0)) =~= seq![]);
        assert(r@.map_values(|x: String| x@) =~= seq![]);
    }
    while i < refs.len()
        invariant
            i <= refs@.len(),
            r@.map_values(|x: String| x@) == first_appearances(ref_uris(refs@.take(i as int))),
        decreases refs@.len() - i,
    {
        let u = &refs[i].uri;
        let ghost prev = r@.map_values(|x: String| x@);
        proof {
            let t = ref_uris(refs@.take(i + 1));
            assert(t.drop_last() =~= ref_uris(refs@.take(i as int)));
            assert(t.last() == u@);
        }
        if !contains_string(&r, u) {
            r.push(u.clone());
            proof {
                assert(r@.map_values(|x: String| x@) =~= prev.push(u@));
            }
        }
        i += 1;
    }
    proof {
        assert(refs@.take(refs@.len() as int) =~= refs@);
    }
    r
}

/// The edits of `refs` that lie in file `u`, each renaming to `new_name`.
fn edits_for(refs: &[Location], u: &String, new_name: &str) -> (r: Vec<TextEdit>)
    ensures
        edits_view(r@) == renames_in(refs@, u@, new_name@),
{
    let mut r: Vec<TextEdit> = Vec::new();
    let ghost pf = in_file(u@);
    let mut i: usize = 0;
    proof {
        assert(refs@.take(0).filter(pf) =~= seq![]);
        assert(edits_view(r@) =~= renames_in(refs@.take(0), u@, new_name@));
    }
    while i < refs.len()
        invariant
            i <= refs@.len(),
            pf == in_file(u@),
            edits_view(r@) == renames_in(refs@.take(i as int), u@, new_name@),
        decreases refs@.len() - i,
    {
        let l = &refs[i];
        let ghost prev = edits_view(r@);
        let ghost fl = refs@.take(i as int).filter(pf);
        proof {
            assert(refs@.take(i + 1) =~= refs@.take(i as int).push(*l));
            refs@.take(i as int).lemma_filter_push(*l, pf);
        }
        if l.uri == *u {
            r.push(TextEdit { range: l.range, new_text: new_name.to_owned() });
            proof {
                assert(pf(*l));
                assert(edits_view(r@) =~= prev.push((l.range, new_name@)));
                assert(fl.push(*l).map_values(|x: Location| (x.range, new_name@)) =~= fl.map_values(
                    |x: Location| (x.range, new_name@),
                ).push((l.range, new_name@)));
            }
        } else {
            proof {
                assert(!pf(*l));
            }
        }
        i += 1;
    }
    proof {
        assert(refs@.take(refs@.len() as int) =~= refs@);
    }
    r
}

/// The edit that replaces every reference with `new_name`: one group per
/// file, files in order of first appearance, each group's edits in the order
/// of the references.
pub fn rename_edit(refs: &[Location], new_name: &str) -> (r: WorkspaceEdit)
    ensures
        r.changes@.len() == first_appearances(ref_uris(refs@)).len(),
        forall|k: int|
            0 <= k < r.changes@.len() ==> {
                &&& (#[trigger] r.changes@[k]).uri@ == first_appearances(ref_uris(refs@))[k]
                &&& edits_view(r.changes@[k].edits@) == renames_in(refs@, r.changes@[k].uri@, new_name@)
            },
{
    let uris = distinct_uris(refs);
    let ghost fa = first_appearances(ref_uris(refs@));
    let mut changes: Vec<FileEdits> = Vec::new();
    let mut k: usize = 0;
    while k < uris.len()
        invariant
            k <= uris@.len(),
            uris@.map_values(|x: String| x@) == fa,
            fa == first_appearances(ref_uris(refs@)),
            changes@.len() == k,
            forall|m: int|
                0 <= m < k ==> {
                    &&& (#[trigger] changes@[m]).uri@ == fa[m]
                    &&& edits_view(changes@[m].edits@) == renames_in(refs@, changes@[m].uri@, new_name@)
                },
        decreases uris@.len() - k,
    {
        let u = &uris[k];
        proof {
            assert(fa[k as int] == u@);
        }
        let edits = edits_for(refs, u, new_name);
        changes.push(FileEdits { uri: u.clone(), edits });
        k += 1;
    }
    WorkspaceEdit { changes }
}


/// The groups of a rename are exactly the files of the references: each
/// reference's file has a group, no file has two, and every group's file is
/// the file of some reference.
pub proof fn rename_groups_are_the_files(refs: Seq<Location>)
    ensures
        forall|i: int| 0 <= i < refs.len() ==> first_appearances(ref_uris(refs)).contains(#[trigger] refs[i].uri@),
        first_appearances(ref_uris(refs)).no_duplicates(),
        forall|u: Seq<char>| first_appearances(ref_uris(refs)).contains(u) ==> ref_uris(refs).contains(u),
{
    lemma_first_appearances(ref_uris(refs));
    assert forall|i: int| 0 <= i < refs.len() implies first_appearances(ref_uris(refs)).contains(
        #[trigger] refs[i].uri@,
    ) by {
        assert(ref_uris(refs)[i] == refs[i].uri@);
        assert(ref_uris(refs).contains(refs[i].uri@));
    }
}

/// Membership in `first_appearances(s)` is membership in `s`, and it holds
/// nothing twice.
pub proof fn lemma_first_appearances_pub(s: Seq<Seq<char>>)
    ensures
        forall|x: Seq<char>| s.contains(x) <==> #[trigger] first_appearances(s).contains(x),
        first_appearances(s).no_duplicates(),
{
    lemma_first_appearances(s);
}

proof fn lemma_first_appearances(s: Seq<Seq<char>>)
    ensures
        forall|x: Seq<char>| s.contains(x) <==> #[trigger] first_appearances(s).contains(x),
        first_appearances(s).no_duplicates(),
    decreases s.len(),
{
    if s.len() > 0 {
        let t = s.drop_last();
        let l = s.last();
        let p = first_appearances(t);
        lemma_first_appearances(t);
        assert(first_appearances(s) == if p.contains(l) { p } else { p.push(l) });
        assert forall|x: Seq<char>| s.contains(x) <==> #[trigger] first_appearances(s).contains(x) by {
            if s.contains(x) {
                let j = choose|j: int| 0 <= j < s.len() && s[j] == x;
                if j < t.len() {
                    assert(t[j] == x);
                    assert(t.contains(x));
                    assert(p.contains(x));
                    if !p.contains(l) {
                        let m = choose|m: int| 0 <= m < p.len() && p[m] == x;
                        assert(p.push(l)[m] == x);
                    }
                } else {
                    assert(x == l);
                    if !p.contains(l) {
                        assert(p.push(l)[p.len() as int] == l);
                    }
                }
            }
            if first_appearances(s).contains(x) {
                if p.contains(x) {
                    assert(t.contains(x));
                    let j = choose|j: int| 0 <= j < t.len() && t[j] == x;
                    assert(s[j] == x);
                } else {
                    let m = choose|m: int| 0 <= m < p.push(l).len() && p.push(l)[m] == x;
                    if m < p.len() {
                        assert(p[m] == x);
                    }
                    assert(x == l);
                    assert(s[s.len() - 1] == x);
                }
            }
        }
        if !p.contains(l) {
            assert forall|i: int, j: int| 0 <= i < j < p.push(l).len() implies p.push(l)[i] != p.push(l)[j] by {
                if j == p.len() {
                    assert(p[i] == p.push(l)[i]);
                }
            }
        }
    }
}

/// Every reference is renamed: the edits for its file include one that
/// replaces its range by the new name.
pub proof fn every_reference_is_renamed(refs: Seq<Location>, new_name: Seq<char>)
    ensures
        forall|i: int|
            0 <= i < refs.len() ==> #[trigger] renames_in(refs, refs[i].uri@, new_name).contains(
                (refs[i].range, new_name),
            ),
{
    assert forall|i: int| 0 <= i < refs.len() implies #[trigger] renames_in(refs, refs[i].uri@, new_name).contains(
        (refs[i].range, new_name),
    ) by {
        let u = refs[i].uri@;
        let f = refs.filter(in_file(u));
        refs.lemma_filter_contains(in_file(u), i);
        let j = choose|j: int| 0 <= j < f.len() && f[j] == refs[i];
        let m = renames_in(refs, u, new_name);
        assert(m[j] == (refs[i].range, new_name));
    }
}

// ─── Occurrences are whole tokens ────────────────────────────────────────────

/// A character that would glue onto a name and make a longer token: an
/// ASCII letter or digit, `_` or `.`.
pub open spec fn glue_char(c: char) -> bool {
    ||| ('a' <= c && c <= 'z')
    ||| ('A' <= c && c <= 'Z')
    ||| ('0' <= c && c <= '9')
    ||| c == '_'
    ||| c == '.'
}

/// `name` stands at character `j` of `line` as a whole token, before any
/// `#` of the line: neither neighbour glues onto it.
pub open spec fn whole_token_at(line: Seq<char>, j: int, name: Seq<char>) -> bool {
    &&& 0 <= j
    &&& j + name.len() <= line.len()
    &&& line.subrange(j, j + name.len()) == name
    &&& forall|m: int| 0 <= m < j + name.len() ==> line[m] != '#'
    &&& (j == 0 || !glue_char(line[j - 1]))
    &&& (j + name.len() == line.len() || !glue_char(line[j + name.len()]))
}

/// `r` is the range of a whole-token hit of `name` before character `j` of `e`.
spec fn token_hit(e: Seq<char>, name: Seq<char>, li: int, j: int, r: Range) -> bool {
    exists|p: int|
        0 <= p < j && #[trigger] token_at(e, p, name) && r == hit_range(
            li,
            byte_len(e.take(p)) as int,
            byte_len(name) as int,
        )
}

/// `r` is the range of a whole-token hit of `name` on one of the first `i`
/// uncommented lines of `ls`.
spec fn line_token_hit(ls: Seq<Seq<char>>, name: Seq<char>, i: int, r: Range) -> bool {
    exists|li: int| 0 <= li < i && #[trigger] token_hit(uncommented(ls[li]), name, li, uncommented(ls[li]).len() as int, r)
}

proof fn lemma_line_hits_are_tokens(e: Seq<char>, name: Seq<char>, li: int, j: int)
    ensures
        forall|m: int|
            0 <= m < line_hits(e, name, li, j).len() ==> token_hit(
                e,
                name,
                li,
                j,
                #[trigger] line_hits(e, name, li, j)[m],
            ),
    decreases j,
{
    if j > 0 {
        lemma_line_hits_are_tokens(e, name, li, j - 1);
        let p = line_hits(e, name, li, j - 1);
        assert forall|m: int| 0 <= m < line_hits(e, name, li, j).len() implies token_hit(
            e,
            name,
            li,
            j,
            #[trigger] line_hits(e, name, li, j)[m],
        ) by {
            if m < p.len() {
                assert(line_hits(e, name, li, j)[m] == p[m]);
                assert(token_hit(e, name, li, j - 1, p[m]));
                let p2 = choose|p2: int|
                    0 <= p2 < j - 1 && #[trigger] token_at(e, p2, name) && p[m] == hit_range(
                        li,
                        byte_len(e.take(p2)) as int,
                        byte_len(name) as int,
                    );
                assert(token_at(e, p2, name));
            } else {
                assert(token_at(e, j - 1, name));
            }
        }
    }
}

proof fn lemma_hits_are_tokens(ls: Seq<Seq<char>>, name: Seq<char>, i: int)
    requires
        i <= ls.len(),
    ensures
        forall|m: int|
            0 <= m < hits_upto(ls, name, i).len() ==> line_token_hit(ls, name, i, #[trigger] hits_upto(ls, name, i)[m]),
    decreases i,
{
    if i > 0 {
        lemma_hits_are_tokens(ls, name, i - 1);
        let e = uncommented(ls[i - 1]);
        let a = hits_upto(ls, name, i - 1);
        let b = line_hits(e, name, i - 1, e.len() as int);
        assert(hits_upto(ls, name, i) == a + b);
        lemma_line_hits_are_tokens(e, name, i - 1, e.len() as int);
        assert forall|m: int| 0 <= m < hits_upto(ls, name, i).len() implies line_token_hit(
            ls,
            name,
            i,
            #[trigger] hits_upto(ls, name, i)[m],
        ) by {
            if m < a.len() {
                assert(hits_upto(ls, name, i)[m] == a[m]);
                assert(line_token_hit(ls, name, i - 1, a[m]));
                let li = choose|li: int|
                    0 <= li < i - 1 && #[trigger] token_hit(
                        uncommented(ls[li]),
                        name,
                        li,
                        uncommented(ls[li]).len() as int,
                        a[m],
                    );
                assert(token_hit(uncommented(ls[li]), name, li, uncommented(ls[li]).len() as int, a[m]));
            } else {
                assert(hits_upto(ls, name, i)[m] == b[m - a.len()]);
                assert(token_hit(e, name, i - 1, e.len() as int, b[m - a.len()]));
            }
        }
    }
}

/// Every occurrence that the reference search reports is a whole token: on
/// some line of the text, at some character, `name` stands before any `#`,
/// no letter, digit, `_` or `.` touches it on either side, and the range
/// reported runs over it in byte columns.
pub proof fn occurrences_are_whole_tokens(text: Seq<char>, name: Seq<char>, k: int)
    requires
        0 <= k < occurrences(text, name).len(),
    ensures
        exists|li: int, j: int|
            0 <= li < lines_of(text).len() && #[trigger] whole_token_at(lines_of(text)[li], j, name)
                && occurrences(text, name)[k] == span(
                li as u32,
                byte_len(lines_of(text)[li].take(j)) as u32,
                li as u32,
                (byte_len(lines_of(text)[li].take(j)) + byte_len(name)) as u32,
            ),
{
    let ls = lines_of(text);
    lemma_hits_are_tokens(ls, name, ls.len() as int);
    assert(line_token_hit(ls, name, ls.len() as int, occurrences(text, name)[k]));
    let li = choose|li: int|
        0 <= li < ls.len() && #[trigger] token_hit(
            uncommented(ls[li]),
            name,
            li,
            uncommented(ls[li]).len() as int,
            occurrences(text, name)[k],
        );
    let p = choose|p: int|
        0 <= p < uncommented(ls[li]).len() && #[trigger] token_at(uncommented(ls[li]), p, name)
            && occurrences(text, name)[k] == hit_range(
            li,
            byte_len(uncommented(ls[li]).take(p)) as int,
            byte_len(name) as int,
        );
    let line = ls[li];
    let e = uncommented(line);
    let h = first_of(line, '#') as int;
    crate::semantic::lemma_first_of_bound(line, '#');
    assert(e.take(p) =~= line.take(p));
    assert(line.subrange(p, p + name.len()) =~= e.subrange(p, p + name.len()));
    assert forall|m: int| 0 <= m < p + name.len() implies line[m] != '#' by {
        assert(line[m] == line[m]);
    }
    if p > 0 {
        assert(e[p - 1] == line[p - 1]);
    }
    if p + name.len() < line.len() {
        if p + name.len() < e.len() {
            assert(e[p + name.len()] == line[p + name.len()]);
        } else {
            assert(line[h] == '#');
        }
    }
    assert(whole_token_at(line, p, name));
}

proof fn lemma_line_hits_complete(e: Seq<char>, name: Seq<char>, li: int, j: int, p: int)
    requires
        0 <= p < j,
        token_at(e, p, name),
    ensures
        line_hits(e, name, li, j).contains(hit_range(li, byte_len(e.take(p)) as int, byte_len(name) as int)),
    decreases j,
{
    let x = hit_range(li, byte_len(e.take(p)) as int, byte_len(name) as int);
    let prev = line_hits(e, name, li, j - 1);
    if p == j - 1 {
        let q = prev.push(x);
        assert(q[prev.len() as int] == x);
    } else {
        lemma_line_hits_complete(e, name, li, j - 1, p);
        let k = choose|k: int| 0 <= k < prev.len() && prev[k] == x;
        if token_at(e, j - 1, name) {
            let q = prev.push(hit_range(li, byte_len(e.take(j - 1)) as int, byte_len(name) as int));
            assert(q[k] == x);
        }
    }
}

proof fn lemma_hits_complete(ls: Seq<Seq<char>>, name: Seq<char>, i: int, li: int, p: int)
    requires
        0 <= li < i <= ls.len(),
        name.len() > 0,
        token_at(uncommented(ls[li]), p, name),
    ensures
        hits_upto(ls, name, i).contains(
            hit_range(li, byte_len(uncommented(ls[li]).take(p)) as int, byte_len(name) as int),
        ),
    decreases i,
{
    let x = hit_range(li, byte_len(uncommented(ls[li]).take(p)) as int, byte_len(name) as int);
    let e = uncommented(ls[i - 1]);
    let a = hits_upto(ls, name, i - 1);
    let b = line_hits(e, name, i - 1, e.len() as int);
    assert(hits_upto(ls, name, i) == a + b);
    if li == i - 1 {
        lemma_line_hits_complete(e, name, li, e.len() as int, p);
        let k = choose|k: int| 0 <= k < b.len() && b[k] == x;
        assert((a + b)[a.len() + k] == x);
    } else {
        lemma_hits_complete(ls, name, i - 1, li, p);
        let k = choose|k: int| 0 <= k < a.len() && a[k] == x;
        assert((a + b)[k] == x);
    }
}

/// Every whole token of a (non-empty) `name` before the `#` of its line is
/// reported: the search misses no occurrence.
pub proof fn whole_tokens_are_occurrences(text: Seq<char>, name: Seq<char>, li: int, j: int)
    requires
        name.len() > 0,
        0 <= li < lines_of(text).len(),
        whole_token_at(lines_of(text)[li], j, name),
    ensures
        occurrences(text, name).contains(
            span(
                li as u32,
                byte_len(lines_of(text)[li].take(j)) as u32,
                li as u32,
                (byte_len(lines_of(text)[li].take(j)) + byte_len(name)) as u32,
            ),
        ),
{
    let ls = lines_of(text);
    let line = ls[li];
    let e = uncommented(line);
    let h = first_of(line, '#') as int;
    crate::semantic::lemma_first_of_bound(line, '#');
    if h < j + name.len() {
        assert(line[h] == '#');
    }
    assert(e.take(j) =~= line.take(j));
    assert(e.subrange(j, j + name.len()) =~= line.subrange(j, j + name.len()));
    if j > 0 {
        assert(e[j - 1] == line[j - 1]);
    }
    if j + name.len() < e.len() {
        assert(e[j + name.len()] == line[j + name.len()]);
    }
    assert(token_at(e, j, name));
    lemma_hits_complete(ls, name, ls.len() as int, li, j);
}

} // verus!
