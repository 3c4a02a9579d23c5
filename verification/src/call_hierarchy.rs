//! Call hierarchy of scripted items: the item under the cursor, the items an
//! item's body mentions, and the blocks that mention an item.
use vstd::prelude::*;
use crate::model::{span, Definition, Location, Position, Range, SymbolKind};
use crate::completions::brace_delta;
use crate::format::{lemma_lines_total_len, lemma_total_len_take, total_len};
use crate::references::first_appearances;
use crate::symbols::{
    bcol, key_len, kind_from_detail, kind_from_detail_spec, top_level_key_spec, word_at,
    word_at_defined, word_at_spec,
};
use crate::text::{
    byte_len, chars_of, find_char, first_of, is_alphanumeric, lemma_byte_len_mono, lemma_first_of,
    lines_of, split_lines, string_of, sub_chars, views,
};

verus! {

// ─── Items ───────────────────────────────────────────────────────────────────

/// A node of the call hierarchy.
#[derive(Debug)]
pub struct CallHierarchyItem {
    pub name: String,
    pub kind: SymbolKind,
    pub detail: Option<String>,
    pub uri: String,
    pub range: Range,
    pub selection_range: Range,
}

pub type ItemView = (Seq<char>, SymbolKind, Option<Seq<char>>, Seq<char>, Range, Range);

pub open spec fn item_view(i: CallHierarchyItem) -> ItemView {
    (
        i.name@,
        i.kind,
        match i.detail {
            Some(d) => Some(d@),
            None => None,
        },
        i.uri@,
        i.range,
        i.selection_range,
    )
}

/// The item for a scripted definition `name` at `loc` with `detail`.
pub open spec fn item_spec(name: Seq<char>, uri: Seq<char>, range: Range, detail: Seq<char>) -> ItemView {
    (name, kind_from_detail_spec(detail), Some(detail), uri, range, range)
}

/// The call-hierarchy item for a scripted definition.
pub fn make_item(name: &str, loc: &Location, detail: &str) -> (r: CallHierarchyItem)
    ensures
        item_view(r) == item_spec(name@, loc.uri@, loc.range, detail@),
{
    CallHierarchyItem {
        name: name.to_owned(),
        kind: kind_from_detail(detail),
        detail: Some(detail.to_owned()),
        uri: loc.uri.clone(),
        range: loc.range,
        selection_range: loc.range,
    }
}

// ─── Definitions by name ─────────────────────────────────────────────────────

/// The names of the definitions.
pub open spec fn def_names(defs: Seq<Definition>) -> Seq<Seq<char>> {
    defs.map_values(|d: Definition| d.name@)
}

/// Index of the definition of `name`, if any (the first, should there be
/// several).
pub open spec fn def_index(defs: Seq<Definition>, name: Seq<char>) -> Option<int> {
    def_names(defs).index_of_first(name)
}

/// The index of the definition named `name`.
pub fn find_definition(defs: &[Definition], name: &[char]) -> (r: Option<usize>)
    ensures
        match r {
            Some(i) => def_index(defs@, name@) == Some(i as int) && i < defs@.len(),
            None => def_index(defs@, name@) is None,
        },
{
    let ghost dn = def_names(defs@);
    let mut i: usize = 0;
    while i < defs.len()
        invariant
            i <= defs@.len(),
            dn == def_names(defs@),
            forall|j: int| 0 <= j < i ==> dn[j] != name@,
        decreases defs@.len() - i,
    {
        let nc = chars_of(defs[i].name.as_str());
        proof {
            assert(dn[i as int] == defs@[i as int].name@);
        }
        if crate::text::chars_eq(nc.as_slice(), name) {
            proof {
                assert(dn[i as int] == name@);
                lemma_first_index(dn, name@, i as int);
            }
            return Some(i);
        }
        i += 1;
    }
    proof {
        dn.index_of_first_ensures(name@);
        if dn.contains(name@) {
            let k = choose|k: int| 0 <= k < dn.len() && dn[k] == name@;
            assert(dn[k] != name@);
        }
    }
    None
}

/// `index_of_first` finds the first occurrence.
pub proof fn lemma_first_index(s: Seq<Seq<char>>, x: Seq<char>, i: int)
    requires
        0 <= i < s.len(),
        s[i] == x,
        forall|j: int| 0 <= j < i ==> s[j] != x,
    ensures
        s.index_of_first(x) == Some(i),
{
    s.index_of_first_ensures(x);
    assert(s.contains(x));
    let k = s.index_of_first(x).unwrap();
    if k < i {
        assert(s[k] != x);
    }
    if k > i {
        assert(s[i] != x);
    }
}

// ─── Prepare ─────────────────────────────────────────────────────────────────

/// The item under the cursor, when the word there is a scripted item.
pub open spec fn prepare_spec(text: Seq<char>, line: int, col: int, defs: Seq<Definition>) -> Option<ItemView> {
    let ls = lines_of(text);
    if line >= ls.len() {
        None
    } else {
        match word_at_spec(ls[line], col) {
            None => None,
            Some((w, _s, _e)) => match def_index(defs, w) {
                None => None,
                Some(k) => Some(item_spec(w, defs[k].location.uri@, defs[k].location.range, defs[k].detail@)),
            },
        }
    }
}

/// The cursor line has a word boundary at its column (the only cursors the
/// word lookup accepts).
pub open spec fn cursor_ok(text: Seq<char>, line: int, col: int) -> bool {
    let ls = lines_of(text);
    line < ls.len() ==> word_at_defined(ls[line], col) && 4 * ls[line].len() <= usize::MAX
}

/// The call-hierarchy item for the scripted item under the cursor.
pub fn prepare(text: &str, line: u32, character: u32, definitions: &[Definition]) -> (r: Option<
    Vec<CallHierarchyItem>,
>)
    requires
        cursor_ok(text@, line as int, character as int),
    ensures
        match prepare_spec(text@, line as int, character as int, definitions@) {
            Some(v) => r.is_some() && r.unwrap()@.len() == 1 && item_view(r.unwrap()@[0]) == v,
            None => r.is_none(),
        },
{
    let cs = chars_of(text);
    let ls = split_lines(cs.as_slice());
    let li = line as usize;
    if li >= ls.len() {
        return None;
    }
    let lstr = string_of(ls[li].as_slice(), 0, ls[li].len());
    proof {
        assert(ls[li as int]@.subrange(0, ls[li as int]@.len() as int) =~= ls[li as int]@);
        assert(views(ls@)[li as int] == ls[li as int]@);
    }
    match word_at(lstr.as_str(), character as usize) {
        None => None,
        Some((w, _s, _e)) => {
            let wc = chars_of(w.as_str());
            match find_definition(definitions, wc.as_slice()) {
                None => None,
                Some(k) => {
                    let d = &definitions[k];
                    let item = make_item(w.as_str(), &d.location, d.detail.as_str());
                    let mut v: Vec<CallHierarchyItem> = Vec::new();
                    v.push(item);
                    Some(v)
                },
            }
        },
    }
}

// ─── Top-level keys ──────────────────────────────────────────────────────────

/// First line whose top-level key is `name`.
pub open spec fn key_line(ls: Seq<Seq<char>>, name: Seq<char>, i: int) -> Option<int>
    decreases ls.len() - i,
{
    if i < 0 || i >= ls.len() {
        None
    } else if top_level_key_spec(ls[i]) == Some(name) {
        Some(i)
    } else {
        key_line(ls, name, i + 1)
    }
}

/// The 0-based line of `name = {` at column 0.
pub fn find_top_level_key_line(text: &str, name: &str) -> (r: Option<u32>)
    ensures
        match key_line(lines_of(text@), name@, 0) {
            Some(i) => r == Some(i as u32),
            None => r is None,
        },
{
    let cs = chars_of(text);
    let ls = split_lines(cs.as_slice());
    let ghost lsv = views(ls@);
    let nc = chars_of(name);
    let mut i: usize = 0;
    while i < ls.len()
        invariant
            lsv == views(ls@),
            lsv == lines_of(text@),
            nc@ == name@,
            i <= lsv.len(),
            key_line(lsv, name@, 0) == key_line(lsv, name@, i as int),
        decreases lsv.len() - i,
    {
        let line = ls[i].as_slice();
        proof {
            assert(line@ == lsv[i as int]);
        }
        match key_len(line) {
            Some(n) => {
                let k = sub_chars(line, 0, n);
                if crate::text::chars_eq(k.as_slice(), nc.as_slice()) {
                    proof {
                        assert(line@.take(n as int) =~= line@.subrange(0, n as int));
                    }
                    return Some(#[verifier::truncate] (i as u32));
                }
                proof {
                    assert(line@.take(n as int) =~= line@.subrange(0, n as int));
                }
            },
            None => {},
        }
        i += 1;
    }
    None
}

/// The brace depth at the start of line `j`: `{` minus `}` over the lines
/// before it.
pub open spec fn depth_before(ls: Seq<Seq<char>>, j: int) -> int
    decreases j,
{
    if j <= 0 {
        0
    } else {
        depth_before(ls, j - 1) + brace_delta(ls[j - 1])
    }
}

/// The line where the top-level statement holding line `idx` starts: the
/// last line at or before `idx` that starts at depth 0 or less.
pub open spec fn block_start(ls: Seq<Seq<char>>, idx: int) -> int
    decreases idx,
{
    if idx <= 0 {
        0
    } else if depth_before(ls, idx) <= 0 {
        idx
    } else {
        block_start(ls, idx - 1)
    }
}

/// The top-level block that holds line `line_idx` (a line past the end counts
/// as the last line): the key of the `name = {` line where its top-level
/// statement starts, if that line is one.
pub open spec fn containing_symbol_spec(text: Seq<char>, line_idx: int) -> Option<Seq<char>> {
    let ls = lines_of(text);
    let idx = if line_idx < ls.len() {
        line_idx
    } else {
        ls.len() - 1
    };
    top_level_key_spec(ls[block_start(ls, idx)])
}

/// The name of the top-level `name = {` block that contains line `line_idx`.
pub fn containing_symbol(text: &str, line_idx: u32) -> (r: Option<String>)
    requires
        lines_of(text@).len() > 0,
    ensures
        match containing_symbol_spec(text@, line_idx as int) {
            Some(k) => r.is_some() && r.unwrap()@ == k,
            None => r is None,
        },
{
    let cs = chars_of(text);
    let ls = split_lines(cs.as_slice());
    let ghost lsv = views(ls@);
    let ncs = cs.len();
    proof {
        lemma_lines_total_len(text@);
        assert(cs@.len() == ncs);
    }
    let idx: usize = if (line_idx as usize) < ls.len() {
        line_idx as usize
    } else {
        ls.len() - 1
    };
    let mut d: i128 = 0;
    let mut j: usize = 0;
    let mut i: usize = 0;
    while i <= idx
        invariant
            lsv == views(ls@),
            lsv == lines_of(text@),
            idx < lsv.len(),
            i <= idx + 1,
            j <= idx,
            d == depth_before(lsv, i as int),
            -total_len(lsv.take(i as int)) <= d <= total_len(lsv.take(i as int)),
            total_len(lsv) <= text@.len(),
            text@.len() <= usize::MAX,
            idx < ls@.len(),
            i > 0 ==> j == block_start(lsv, i - 1),
        decreases idx + 1 - i,
    {
        if d <= 0 {
            j = i;
        }
        proof {
            assert(j == block_start(lsv, i as int));
            lemma_total_len_take(lsv, i as int);
            assert(ls@[i as int]@ == lsv[i as int]);
            assert(lsv.take(i + 1).drop_last() =~= lsv.take(i as int));
        }
        let delta = crate::completions::brace_count(ls[i].as_slice());
        d = d + delta;
        i += 1;
    }
    let first = ls[j].as_slice();
    proof {
        assert(lsv[j as int] == first@);
    }
    match key_len(first) {
        Some(n) => {
            proof {
                assert(first@.take(n as int) =~= first@.subrange(0, n as int));
            }
            Some(string_of(first, 0, n))
        },
        None => None,
    }
}


// ─── Grouping mentions ───────────────────────────────────────────────────────

/// A mention of a name: the name and the range it covers.
pub type Mention = (Seq<char>, Range);

pub open spec fn mention_keys(m: Seq<Mention>) -> Seq<Seq<char>> {
    m.map_values(|x: Mention| x.0)
}

pub open spec fn with_key(k: Seq<char>) -> spec_fn(Mention) -> bool {
    |x: Mention| x.0 == k
}

/// The ranges of the mentions of `k`, in order.
pub open spec fn ranges_with_key(m: Seq<Mention>, k: Seq<char>) -> Seq<Range> {
    m.filter(with_key(k)).map_values(|x: Mention| x.1)
}

/// The mentions `keys[i]` at `ranges[i]`.
pub open spec fn zip_mentions(keys: Seq<String>, ranges: Seq<Range>) -> Seq<Mention> {
    Seq::new(keys.len(), |i: int| (keys[i]@, ranges[i]))
}

/// Each key once, in order of first appearance.
fn distinct_keys(keys: &Vec<String>) -> (r: Vec<String>)
    ensures
        r@.map_values(|x: String| x@) == first_appearances(keys@.map_values(|x: String| x@)),
{
    let ghost kv = keys@.map_values(|x: String| x@);
    let mut r: Vec<String> = Vec::new();
    let mut i: usize = 0;
    proof {
        assert(kv.take(0) =~= seq![]);
        assert(r@.map_values(|x: String| x@) =~= seq![]);
    }
    while i < keys.len()
        invariant
            i <= keys@.len(),
            kv == keys@.map_values(|x: String| x@),
            r@.map_values(|x: String| x@) == first_appearances(kv.take(i as int)),
        decreases keys@.len() - i,
    {
        let k = &keys[i];
        let ghost prev = r@.map_values(|x: String| x@);
        proof {
            assert(kv.take(i + 1).drop_last() =~= kv.take(i as int));
            assert(kv.take(i + 1).last() == k@);
        }
        if !crate::references::contains_string(&r, k) {
            r.push(k.clone());
            proof {
                assert(r@.map_values(|x: String| x@) =~= prev.push(k@));
            }
        }
        i += 1;
    }
    proof {
        assert(kv.take(kv.len() as int) =~= kv);
    }
    r
}

/// The ranges whose key is `k`, in order.
fn ranges_for(keys: &Vec<String>, ranges: &Vec<Range>, k: &String) -> (r: Vec<Range>)
    requires
        keys@.len() == ranges@.len(),
    ensures
        r@ == ranges_with_key(zip_mentions(keys@, ranges@), k@),
{
    let ghost m = zip_mentions(keys@, ranges@);
    let ghost pf = with_key(k@);
    let mut r: Vec<Range> = Vec::new();
    let mut i: usize = 0;
    proof {
        assert(m.take(0).filter(pf) =~= seq![]);
        assert(r@ =~= m.take(0).filter(pf).map_values(|x: Mention| x.1));
    }
    while i < keys.len()
        invariant
            i <= keys@.len(),
            keys@.len() == ranges@.len(),
            m == zip_mentions(keys@, ranges@),
            pf == with_key(k@),
            r@ == m.take(i as int).filter(pf).map_values(|x: Mention| x.1),
        decreases keys@.len() - i,
    {
        let ghost fl = m.take(i as int).filter(pf);
        proof {
            assert(m.take(i + 1) =~= m.take(i as int).push(m[i as int]));
            m.take(i as int).lemma_filter_push(m[i as int], pf);
            assert(m[i as int] == (keys@[i as int]@, ranges@[i as int]));
        }
        if keys[i] == *k {
            r.push(ranges[i]);
            proof {
                assert(fl.push(m[i as int]).map_values(|x: Mention| x.1) =~= fl.map_values(|x: Mention| x.1).push(
                    ranges@[i as int],
                ));
            }
        }
        i += 1;
    }
    proof {
        assert(m.take(m.len() as int) =~= m);
    }
    r
}

// ─── Outgoing calls ──────────────────────────────────────────────────────────

/// A callee of an item and where the item's body mentions it.
#[derive(Debug)]
pub struct OutgoingCall {
    pub to: CallHierarchyItem,
    pub from_ranges: Vec<Range>,
}

/// A character of a token: a letter, a digit, `_` or `.` (event ids such as
/// `my_events.1` are one token).
pub open spec fn token_char(c: char) -> bool {
    crate::semantic::plain_char(c) || c == '.'
}

/// End of the run of token characters from `k`.
pub open spec fn plain_end(e: Seq<char>, k: int) -> int
    decreases e.len() - k,
{
    if k < 0 || k >= e.len() || !token_char(e[k]) {
        k
    } else {
        plain_end(e, k + 1)
    }
}

proof fn lemma_plain_end(e: Seq<char>, k: int)
    requires
        0 <= k <= e.len(),
    ensures
        k <= plain_end(e, k) <= e.len(),
    decreases e.len() - k,
{
    if k < e.len() && token_char(e[k]) {
        lemma_plain_end(e, k + 1);
    }
}

/// A token (maximal run of token characters) starts at `p`.
pub open spec fn word_start(e: Seq<char>, p: int) -> bool {
    0 <= p < e.len() && token_char(e[p]) && (p == 0 || !token_char(e[p - 1]))
}

/// The words starting before index `j` of the uncommented line `e` (line
/// `li`) that are among `names`, with their byte ranges.
pub open spec fn line_mentions(e: Seq<char>, li: int, names: Seq<Seq<char>>, j: int) -> Seq<Mention>
    decreases j,
{
    if j <= 0 {
        seq![]
    } else {
        let p = line_mentions(e, li, names, j - 1);
        let s = j - 1;
        if word_start(e, s) && names.contains(e.subrange(s, plain_end(e, s))) {
            let t = plain_end(e, s);
            p.push((e.subrange(s, t), span(li as u32, bcol(e, s) as u32, li as u32, bcol(e, t) as u32)))
        } else {
            p
        }
    }
}

/// The mentions on the lines before `i` that lie after line `start` and no
/// later than line `end` (comments skipped).
pub open spec fn body_mentions(ls: Seq<Seq<char>>, start: int, end: int, names: Seq<Seq<char>>, i: int) -> Seq<
    Mention,
>
    decreases i,
{
    if i <= 0 {
        seq![]
    } else {
        let p = body_mentions(ls, start, end, names, i - 1);
        let li = i - 1;
        if start < li && li <= end {
            let e = crate::references::uncommented(ls[li]);
            p + line_mentions(e, li, names, e.len() as int)
        } else {
            p
        }
    }
}

pub open spec fn outgoing_view(c: OutgoingCall) -> (ItemView, Seq<Range>) {
    (item_view(c.to), c.from_ranges@)
}

/// The outgoing calls for the mentions `m`: one per callee, callees in order
/// of first mention, each with the ranges of its mentions.
pub open spec fn outgoing_spec(m: Seq<Mention>, defs: Seq<Definition>) -> Seq<(ItemView, Seq<Range>)> {
    first_appearances(mention_keys(m)).map_values(
        |k: Seq<char>| {
            let d = defs[def_index(defs, k).unwrap()];
            (item_spec(k, d.location.uri@, d.location.range, d.detail@), ranges_with_key(m, k))
        },
    )
}

/// The mentions of scripted items in the body of the item spanning lines
/// `start_line..=end_line` (its first line, the header, excluded).
fn scan_body(text: &str, start_line: u32, end_line: u32, definitions: &[Definition]) -> (r: (Vec<String>, Vec<Range>))
    ensures
        r.0@.len() == r.1@.len(),
        zip_mentions(r.0@, r.1@) == body_mentions(
            lines_of(text@),
            start_line as int,
            end_line as int,
            def_names(definitions@),
            lines_of(text@).len() as int,
        ),
{
    let cs = chars_of(text);
    let ls = split_lines(cs.as_slice());
    let ghost lsv = views(ls@);
    let ghost dn = def_names(definitions@);
    let mut words: Vec<String> = Vec::new();
    let mut ranges: Vec<Range> = Vec::new();
    let mut i: usize = 0;
    proof {
        assert(zip_mentions(words@, ranges@) =~= seq![]);
    }
    while i < ls.len()
        invariant
            lsv == views(ls@),
            lsv == lines_of(text@),
            dn == def_names(definitions@),
            i <= lsv.len(),
            words@.len() == ranges@.len(),
            zip_mentions(words@, ranges@) == body_mentions(lsv, start_line as int, end_line as int, dn, i as int),
        decreases lsv.len() - i,
    {
        let ghost before = zip_mentions(words@, ranges@);
        if (start_line as usize) < i && i <= (end_line as usize) {
            let line = ls[i].as_slice();
            proof {
                assert(line@ == lsv[i as int]);
            }
            let h = match find_char(line, 0, line.len(), '#') {
                Some(x) => x,
                None => line.len(),
            };
            proof {
                lemma_first_of(line@, '#', h as int);
            }
            let e = sub_chars(line, 0, h);
            proof {
                assert(e@ =~= crate::references::uncommented(lsv[i as int]));
            }
            let lnum = #[verifier::truncate] (i as u32);
            let mut col: u128 = 0;
            let mut j: usize = 0;
            proof {
                assert(e@.take(0) =~= seq![]);
            }
            while j < e.len()
                invariant
                    j <= e@.len(),
                    dn == def_names(definitions@),
                    lnum == i as u32,
                    words@.len() == ranges@.len(),
                    col == bcol(e@, j as int),
                    col <= 4 * j,
                    zip_mentions(words@, ranges@) == before + line_mentions(e@, i as int, dn, j as int),
                decreases e@.len() - j,
            {
                let c = e[j];
                let start = is_alphanumeric(c) || c == '_' || c == '.';
                let prev_plain = j > 0 && (is_alphanumeric(e[j - 1]) || e[j - 1] == '_' || e[j - 1] == '.');
                if start && !prev_plain {
                    let mut t = j + 1;
                    let mut tcol: u128 = col + crate::text::width_of(c) as u128;
                    proof {
                        crate::text::lemma_byte_len_step(e@, j as int);
                        lemma_plain_end(e@, j as int);
                        assert(plain_end(e@, j as int) == plain_end(e@, j + 1));
                    }
                    while t < e.len() && (is_alphanumeric(e[t]) || e[t] == '_' || e[t] == '.')
                        invariant
                            j < t <= e@.len(),
                            tcol == bcol(e@, t as int),
                            tcol <= 4 * t,
                            plain_end(e@, j as int) == plain_end(e@, t as int),
                        decreases e@.len() - t,
                    {
                        proof {
                            crate::text::lemma_byte_len_step(e@, t as int);
                        }
                        tcol = tcol + crate::text::width_of(e[t]) as u128;
                        t += 1;
                    }
                    let w = sub_chars(e.as_slice(), j, t);
                    let found = find_definition(definitions, w.as_slice());
                    proof {
                        dn.index_of_first_ensures(w@);
                    }
                    if found.is_some() {
                        let ghost prev = zip_mentions(words@, ranges@);
                        words.push(string_of(e.as_slice(), j, t));
                        ranges.push(
                            Range {
                                start: Position { line: lnum, character: #[verifier::truncate] (col as u32) },
                                end: Position { line: lnum, character: #[verifier::truncate] (tcol as u32) },
                            },
                        );
                        proof {
                            assert(zip_mentions(words@, ranges@) =~= prev.push(
                                (
                                    e@.subrange(j as int, t as int),
                                    span(
                                        i as u32,
                                        bcol(e@, j as int) as u32,
                                        i as u32,
                                        bcol(e@, t as int) as u32,
                                    ),
                                ),
                            ));
                        }
                    }
                }
                proof {
                    crate::text::lemma_byte_len_step(e@, j as int);
                }
                col = col + crate::text::width_of(c) as u128;
                j += 1;
            }
            proof {
                assert(body_mentions(lsv, start_line as int, end_line as int, dn, i + 1) == before
                    + line_mentions(e@, i as int, dn, e@.len() as int));
            }
        }
        i += 1;
    }
    (words, ranges)
}

/// What the item spanning `item_range` calls: the scripted items its body
/// (the lines after its header, up to its last line) mentions.
pub fn outgoing_calls(item_range: Range, text: &str, definitions: &[Definition]) -> (r: Vec<OutgoingCall>)
    ensures
        r@.map_values(|c: OutgoingCall| outgoing_view(c)) == outgoing_spec(
            body_mentions(
                lines_of(text@),
                item_range.start.line as int,
                item_range.end.line as int,
                def_names(definitions@),
                lines_of(text@).len() as int,
            ),
            definitions@,
        ),
{
    let (words, ranges) = scan_body(text, item_range.start.line, item_range.end.line, definitions);
    let ghost m = zip_mentions(words@, ranges@);
    let keys = distinct_keys(&words);
    let ghost fa = first_appearances(mention_keys(m));
    proof {
        assert(mention_keys(m) =~= words@.map_values(|x: String| x@));
    }
    let mut out: Vec<OutgoingCall> = Vec::new();
    let mut k: usize = 0;
    while k < keys.len()
        invariant
            k <= keys@.len(),
            words@.len() == ranges@.len(),
            m == zip_mentions(words@, ranges@),
            keys@.map_values(|x: String| x@) == fa,
            fa == first_appearances(mention_keys(m)),
            mention_keys(m) == words@.map_values(|x: String| x@),
            m == body_mentions(
                lines_of(text@),
                item_range.start.line as int,
                item_range.end.line as int,
                def_names(definitions@),
                lines_of(text@).len() as int,
            ),
            out@.map_values(|c: OutgoingCall| outgoing_view(c)) == outgoing_spec(m, definitions@).take(k as int),
        decreases keys@.len() - k,
    {
        let key = &keys[k];
        let kc = chars_of(key.as_str());
        proof {
            assert(fa[k as int] == key@);
            lemma_first_appearances_in(mention_keys(m), k as int);
            lemma_mentions_defined(
                lines_of(text@),
                item_range.start.line as int,
                item_range.end.line as int,
                def_names(definitions@),
                lines_of(text@).len() as int,
                key@,
            );
            def_names(definitions@).index_of_first_ensures(key@);
        }
        let d = find_definition(definitions, kc.as_slice());
        match d {
            Some(di) => {
                let def = &definitions[di];
                let call = OutgoingCall {
                    to: make_item(key.as_str(), &def.location, def.detail.as_str()),
                    from_ranges: ranges_for(&words, &ranges, key),
                };
                let ghost prev = out@.map_values(|c: OutgoingCall| outgoing_view(c));
                out.push(call);
                proof {
                    assert(out@.map_values(|c: OutgoingCall| outgoing_view(c)) =~= prev.push(outgoing_view(call)));
                    assert(outgoing_spec(m, definitions@).take(k + 1) =~= outgoing_spec(m, definitions@).take(
                        k as int,
                    ).push(outgoing_spec(m, definitions@)[k as int]));
                }
            },
            None => {},
        }
        k += 1;
    }
    proof {
        assert(outgoing_spec(m, definitions@).take(keys@.len() as int) =~= outgoing_spec(m, definitions@));
    }
    out
}

/// Every key of `first_appearances(s)` occurs in `s`.
proof fn lemma_first_appearances_in(s: Seq<Seq<char>>, k: int)
    requires
        0 <= k < first_appearances(s).len(),
    ensures
        s.contains(first_appearances(s)[k]),
{
    crate::references::lemma_first_appearances_pub(s);
    assert(first_appearances(s).contains(first_appearances(s)[k]));
}

/// Every mentioned name is a definition's name.
proof fn lemma_mentions_defined(
    ls: Seq<Seq<char>>,
    start: int,
    end: int,
    names: Seq<Seq<char>>,
    i: int,
    x: Seq<char>,
)
    ensures
        mention_keys(body_mentions(ls, start, end, names, i)).contains(x) ==> names.contains(x),
    decreases i,
{
    if i > 0 {
        lemma_mentions_defined(ls, start, end, names, i - 1, x);
        let li = i - 1;
        if start < li && li <= end {
            let e = crate::references::uncommented(ls[li]);
            let p = body_mentions(ls, start, end, names, i - 1);
            lemma_line_mentions_defined(e, li, names, e.len() as int, x);
            let q = line_mentions(e, li, names, e.len() as int);
            assert(mention_keys(p + q) =~= mention_keys(p) + mention_keys(q));
            if mention_keys(p + q).contains(x) {
                let m = choose|m: int| 0 <= m < mention_keys(p + q).len() && mention_keys(p + q)[m] == x;
                if m < p.len() {
                    assert(mention_keys(p)[m] == x);
                } else {
                    assert(mention_keys(q)[m - p.len()] == x);
                }
            }
        }
    }
}

proof fn lemma_line_mentions_defined(e: Seq<char>, li: int, names: Seq<Seq<char>>, j: int, x: Seq<char>)
    ensures
        mention_keys(line_mentions(e, li, names, j)).contains(x) ==> names.contains(x),
    decreases j,
{
    if j > 0 {
        lemma_line_mentions_defined(e, li, names, j - 1, x);
        let p = line_mentions(e, li, names, j - 1);
        let s = j - 1;
        if word_start(e, s) && names.contains(e.subrange(s, plain_end(e, s))) {
            let t = plain_end(e, s);
            let y = (e.subrange(s, t), span(li as u32, bcol(e, s) as u32, li as u32, bcol(e, t) as u32));
            assert(mention_keys(p.push(y)) =~= mention_keys(p).push(y.0));
            if mention_keys(p.push(y)).contains(x) && x != y.0 {
                let m = choose|m: int| 0 <= m < mention_keys(p.push(y)).len() && mention_keys(p.push(y))[m] == x;
                assert(mention_keys(p)[m] == x);
            }
        }
    }
}


// ─── Incoming calls ──────────────────────────────────────────────────────────

/// A reference to the item, with the text of its file when that could be
/// read.
#[derive(Debug)]
pub struct RefSite {
    pub location: Location,
    pub text: Option<String>,
}

/// A caller of an item and where it mentions the item.
#[derive(Debug)]
pub struct IncomingCall {
    pub from: CallHierarchyItem,
    pub from_ranges: Vec<Range>,
}

/// The item for a caller `c` found in the file `uri` with text `t`: its
/// definition if it has one, else a `block` at its `c = {` line (or line 0).
pub open spec fn caller_item(defs: Seq<Definition>, c: Seq<char>, uri: Seq<char>, t: Seq<char>) -> ItemView {
    match def_index(defs, c) {
        Some(k) => item_spec(c, defs[k].location.uri@, defs[k].location.range, defs[k].detail@),
        None => {
            let l: u32 = match key_line(lines_of(t), c, 0) {
                Some(x) => x as u32,
                None => 0u32,
            };
            item_spec(c, uri, span(l, 0, l, byte_len(c) as u32), "block"@)
        },
    }
}

/// What a reference contributes: nothing when it is the definition itself,
/// its file is unreadable or it lies in no named block; otherwise the key
/// `uri#caller`, the caller's item and the reference's range.
pub open spec fn ref_entry(defs: Seq<Definition>, name: Seq<char>, r: RefSite) -> Option<(Seq<char>, ItemView, Range)> {
    let is_def = match def_index(defs, name) {
        Some(k) => defs[k].location.uri@ == r.location.uri@ && defs[k].location.range == r.location.range,
        None => false,
    };
    if is_def {
        None
    } else {
        match r.text {
            None => None,
            Some(t) => match containing_symbol_spec(t@, r.location.range.start.line as int) {
                None => None,
                Some(c) => Some((r.location.uri@ + seq!['#'] + c, caller_item(defs, c, r.location.uri@, t@), r.location.range)),
            },
        }
    }
}

/// The contributions of the first `i` references.
pub open spec fn entries_upto(defs: Seq<Definition>, name: Seq<char>, refs: Seq<RefSite>, i: int) -> Seq<
    (Seq<char>, ItemView, Range),
>
    decreases i,
{
    if i <= 0 {
        seq![]
    } else {
        let p = entries_upto(defs, name, refs, i - 1);
        match ref_entry(defs, name, refs[i - 1]) {
            Some(x) => p.push(x),
            None => p,
        }
    }
}

pub open spec fn entry_keys(e: Seq<(Seq<char>, ItemView, Range)>) -> Seq<Seq<char>> {
    e.map_values(|x: (Seq<char>, ItemView, Range)| x.0)
}

pub open spec fn entry_mentions(e: Seq<(Seq<char>, ItemView, Range)>) -> Seq<Mention> {
    e.map_values(|x: (Seq<char>, ItemView, Range)| (x.0, x.2))
}

/// One call per key `uri#caller`, in order of first appearance: the caller's
/// item as its first reference found it, and the ranges of all its references.
pub open spec fn incoming_spec(e: Seq<(Seq<char>, ItemView, Range)>) -> Seq<(ItemView, Seq<Range>)> {
    first_appearances(entry_keys(e)).map_values(
        |k: Seq<char>| (e[entry_keys(e).index_of_first(k).unwrap()].1, ranges_with_key(entry_mentions(e), k)),
    )
}

pub open spec fn incoming_view(c: IncomingCall) -> (ItemView, Seq<Range>) {
    (item_view(c.from), c.from_ranges@)
}

/// A reference whose contribution needs its file's first line has one.
pub open spec fn refs_readable(defs: Seq<Definition>, name: Seq<char>, refs: Seq<RefSite>) -> bool {
    forall|i: int|
        0 <= i < refs.len() ==> match (#[trigger] refs[i]).text {
            Some(t) => lines_of(t@).len() > 0,
            None => true,
        }
}

pub(crate) fn same_range(a: Range, b: Range) -> (r: bool)
    ensures
        r == (a == b),
{
    a.start.line == b.start.line && a.start.character == b.start.character && a.end.line == b.end.line
        && a.end.character == b.end.character
}

fn copy_item(i: &CallHierarchyItem) -> (r: CallHierarchyItem)
    ensures
        item_view(r) == item_view(*i),
{
    CallHierarchyItem {
        name: i.name.clone(),
        kind: i.kind,
        detail: match &i.detail {
            Some(d) => Some(d.clone()),
            None => None,
        },
        uri: i.uri.clone(),
        range: i.range,
        selection_range: i.selection_range,
    }
}

/// `byte_len(c)` as a `u32`, truncated.
fn byte_len_u32(c: &[char]) -> (r: u32)
    ensures
        r == byte_len(c@) as u32,
{
    let n = crate::text::byte_len_of(c);
    #[verifier::truncate] (n as u32)
}

/// The contribution of one reference (see `ref_entry`).
fn entry_of(definitions: &[Definition], name: &[char], def_at: Option<usize>, r: &RefSite) -> (res: Option<
    (String, CallHierarchyItem, Range),
>)
    requires
        def_at.is_some() == def_index(definitions@, name@).is_some(),
        def_at.is_some() ==> def_index(definitions@, name@) == Some(def_at.unwrap() as int) && def_at.unwrap()
            < definitions@.len(),
        match r.text {
            Some(t) => lines_of(t@).len() > 0,
            None => true,
        },
    ensures
        match ref_entry(definitions@, name@, *r) {
            Some((k, it, rg)) => res.is_some() && res.unwrap().0@ == k && item_view(res.unwrap().1) == it
                && res.unwrap().2 == rg,
            None => res is None,
        },
{
    let is_def = match def_at {
        Some(k) => definitions[k].location.uri == r.location.uri && same_range(definitions[k].location.range, r.location.range),
        None => false,
    };
    if is_def {
        return None;
    }
    match &r.text {
        None => None,
        Some(t) => match containing_symbol(t.as_str(), r.location.range.start.line) {
            None => None,
            Some(c) => {
                let cc = chars_of(c.as_str());
                let mut key = r.location.uri.clone();
                crate::text::push_char(&mut key, '#');
                crate::text::push_chars(&mut key, cc.as_slice());
                let item = match find_definition(definitions, cc.as_slice()) {
                    Some(k) => make_item(c.as_str(), &definitions[k].location, definitions[k].detail.as_str()),
                    None => {
                        let l = match find_top_level_key_line(t.as_str(), c.as_str()) {
                            Some(x) => x,
                            None => 0,
                        };
                        let loc = Location {
                            uri: r.location.uri.clone(),
                            range: Range {
                                start: Position { line: l, character: 0 },
                                end: Position { line: l, character: byte_len_u32(cc.as_slice()) },
                            },
                        };
                        make_item(c.as_str(), &loc, "block")
                    },
                };
                Some((key, item, r.location.range))
            },
        },
    }
}

/// Who calls the item `name`: the top-level blocks holding its references
/// (the definition itself left out), one call per file and block, with the
/// ranges of the references in it.
pub fn incoming_calls(name: &str, definitions: &[Definition], refs: &[RefSite]) -> (r: Vec<IncomingCall>)
    requires
        refs_readable(definitions@, name@, refs@),
    ensures
        r@.map_values(|c: IncomingCall| incoming_view(c)) == incoming_spec(
            entries_upto(definitions@, name@, refs@, refs@.len() as int),
        ),
{
    let nc = chars_of(name);
    let def_at = find_definition(definitions, nc.as_slice());
    let mut keys: Vec<String> = Vec::new();
    let mut items: Vec<CallHierarchyItem> = Vec::new();
    let mut ranges: Vec<Range> = Vec::new();
    let ghost mut e: Seq<(Seq<char>, ItemView, Range)> = seq![];
    let mut i: usize = 0;
    while i < refs.len()
        invariant
            i <= refs@.len(),
            nc@ == name@,
            refs_readable(definitions@, name@, refs@),
            def_at.is_some() == def_index(definitions@, name@).is_some(),
            def_at.is_some() ==> def_index(definitions@, name@) == Some(def_at.unwrap() as int) && def_at.unwrap()
                < definitions@.len(),
            e == entries_upto(definitions@, name@, refs@, i as int),
            keys@.len() == e.len(),
            items@.len() == e.len(),
            ranges@.len() == e.len(),
            forall|m: int|
                0 <= m < e.len() ==> (#[trigger] keys@[m])@ == e[m].0 && item_view(items@[m]) == e[m].1
                    && ranges@[m] == e[m].2,
        decreases refs@.len() - i,
    {
        proof {
            assert(refs_readable(definitions@, name@, refs@));
            let _ = refs@[i as int].text;
        }
        match entry_of(definitions, nc.as_slice(), def_at, &refs[i]) {
            Some((k, it, rg)) => {
                let ghost e0 = e;
                let ghost k0 = keys@;
                let ghost i0 = items@;
                let ghost r0 = ranges@;
                proof {
                    e = e.push((k@, item_view(it), rg));
                }
                keys.push(k);
                items.push(it);
                ranges.push(rg);
                proof {
                    assert forall|m: int| 0 <= m < e.len() implies (#[trigger] keys@[m])@ == e[m].0 && item_view(
                        items@[m],
                    ) == e[m].1 && ranges@[m] == e[m].2 by {
                        if m < e0.len() {
                            assert(keys@[m] == k0[m]);
                            assert(items@[m] == i0[m]);
                            assert(ranges@[m] == r0[m]);
                            assert(e[m] == e0[m]);
                        }
                    }
                }
            },
            None => {},
        }
        proof {
            assert(forall|m: int|
                0 <= m < e.len() ==> (#[trigger] keys@[m])@ == e[m].0 && item_view(items@[m]) == e[m].1
                    && ranges@[m] == e[m].2);
            assert(e == entries_upto(definitions@, name@, refs@, i + 1));
        }
        i += 1;
    }
    proof {
        assert(entry_keys(e) =~= keys@.map_values(|x: String| x@));
        assert(entry_mentions(e) =~= zip_mentions(keys@, ranges@));
    }
    let distinct = distinct_keys(&keys);
    let ghost fa = first_appearances(entry_keys(e));
    let mut out: Vec<IncomingCall> = Vec::new();
    let mut k: usize = 0;
    while k < distinct.len()
        invariant
            k <= distinct@.len(),
            distinct@.map_values(|x: String| x@) == fa,
            fa == first_appearances(entry_keys(e)),
            entry_keys(e) == keys@.map_values(|x: String| x@),
            entry_mentions(e) == zip_mentions(keys@, ranges@),
            keys@.len() == e.len(),
            items@.len() == e.len(),
            ranges@.len() == e.len(),
            forall|m: int|
                0 <= m < e.len() ==> (#[trigger] keys@[m])@ == e[m].0 && item_view(items@[m]) == e[m].1
                    && ranges@[m] == e[m].2,
            out@.map_values(|c: IncomingCall| incoming_view(c)) == incoming_spec(e).take(k as int),
        decreases distinct@.len() - k,
    {
        let key = &distinct[k];
        proof {
            assert(fa[k as int] == key@);
            lemma_first_appearances_in(entry_keys(e), k as int);
        }
        let mut j: usize = 0;
        while j < keys.len() && keys[j] != *key
            invariant
                j <= keys@.len(),
                entry_keys(e) == keys@.map_values(|x: String| x@),
                forall|m: int| 0 <= m < j ==> entry_keys(e)[m] != key@,
            decreases keys@.len() - j,
        {
            proof {
                assert(entry_keys(e)[j as int] == keys@[j as int]@);
            }
            j += 1;
        }
        proof {
            if j == keys@.len() {
                let m = choose|m: int| 0 <= m < entry_keys(e).len() && entry_keys(e)[m] == key@;
                assert(false);
            }
            assert(entry_keys(e)[j as int] == key@);
            lemma_first_index(entry_keys(e), key@, j as int);
        }
        let call = IncomingCall { from: copy_item(&items[j]), from_ranges: ranges_for(&keys, &ranges, key) };
        let ghost prev = out@.map_values(|c: IncomingCall| incoming_view(c));
        out.push(call);
        proof {
            assert(out@.map_values(|c: IncomingCall| incoming_view(c)) =~= prev.push(incoming_view(call)));
            assert(incoming_spec(e).take(k + 1) =~= incoming_spec(e).take(k as int).push(incoming_spec(e)[k as int]));
        }
        k += 1;
    }
    proof {
        assert(incoming_spec(e).take(distinct@.len() as int) =~= incoming_spec(e));
    }
    out
}

} // verus!
