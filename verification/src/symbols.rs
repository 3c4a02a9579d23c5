//! Document and workspace symbols, identifiers at a column, and top-level keys.
use vstd::prelude::*;
use crate::format::{lemma_total_len_take, total_len};
use crate::completions::DefEntry;
use crate::model::{make_range, span, Definition, DocumentSymbol, Location, Range, SymbolInformation, SymbolKind};
use crate::text::{
    back_ws, byte_len, byte_len_of, chars_of, chars_of_lines, contains_char, find_char,
    is_alphanumeric, is_whitespace, is_ws, lemma_byte_len_step, lemma_trail_ws_bound, lines_of,
    contains_chars, contains_seq, lowercase, split_lines, str_is, to_lowercase, str_views, string_of, trail_ws, trim_end, unicode_alphanumeric, views,
    width_of,
};

verus! {

pub open spec fn kind_from_detail_spec(detail: Seq<char>) -> SymbolKind {
    if detail == "scripted_effect"@ {
        SymbolKind::Function
    } else if detail == "scripted_trigger"@ {
        SymbolKind::Operator
    } else if detail == "scripted_modifier"@ {
        SymbolKind::Property
    } else if detail == "event"@ {
        SymbolKind::Event
    } else {
        SymbolKind::Object
    }
}

/// The symbol kind for a scanned item's detail string.
pub fn kind_from_detail(detail: &str) -> (r: SymbolKind)
    ensures
        r == kind_from_detail_spec(detail@),
{
    if str_is(detail, "scripted_effect") {
        SymbolKind::Function
    } else if str_is(detail, "scripted_trigger") {
        SymbolKind::Operator
    } else if str_is(detail, "scripted_modifier") {
        SymbolKind::Property
    } else if str_is(detail, "event") {
        SymbolKind::Event
    } else {
        SymbolKind::Object
    }
}

/// The kind for a file by the directory after `common`.
pub open spec fn common_sub_kind(sub: Seq<char>) -> SymbolKind {
    if sub == "scripted_effects"@ {
        SymbolKind::Function
    } else if sub == "scripted_triggers"@ {
        SymbolKind::Operator
    } else if sub == "scripted_modifiers"@ {
        SymbolKind::Property
    } else if sub == "decisions"@ {
        SymbolKind::EnumMember
    } else if sub == "on_actions"@ {
        SymbolKind::Event
    } else {
        SymbolKind::Module
    }
}

/// Scanning path components from `i`: the first `events` gives an event;
/// the first `common` followed by a component gives that directory's kind.
pub open spec fn kind_from_components(cs: Seq<Seq<char>>, i: int) -> SymbolKind
    decreases cs.len() - i,
{
    if i < 0 || i >= cs.len() {
        SymbolKind::Object
    } else if cs[i] == "events"@ {
        SymbolKind::Event
    } else if cs[i] == "common"@ && i + 1 < cs.len() {
        common_sub_kind(cs[i + 1])
    } else {
        kind_from_components(cs, i + 1)
    }
}

/// A symbol kind inferred from a file's path components (those that are valid
/// Unicode, in order).
pub fn kind_from_path(components: &[&str]) -> (r: SymbolKind)
    ensures
        r == kind_from_components(str_views(components@), 0),
{
    let ghost cs = str_views(components@);
    let mut i: usize = 0;
    while i < components.len()
        invariant
            i <= components@.len(),
            cs == str_views(components@),
            kind_from_components(cs, 0) == kind_from_components(cs, i as int),
        decreases components@.len() - i,
    {
        let seg = components[i];
        if str_is(seg, "events") {
            return SymbolKind::Event;
        }
        if str_is(seg, "common") && i + 1 < components.len() {
            let sub = components[i + 1];
            proof {
                assert(cs[i + 1] == sub@);
            }
            if str_is(sub, "scripted_effects") {
                return SymbolKind::Function;
            } else if str_is(sub, "scripted_triggers") {
                return SymbolKind::Operator;
            } else if str_is(sub, "scripted_modifiers") {
                return SymbolKind::Property;
            } else if str_is(sub, "decisions") {
                return SymbolKind::EnumMember;
            } else if str_is(sub, "on_actions") {
                return SymbolKind::Event;
            } else {
                return SymbolKind::Module;
            }
        }
        i += 1;
    }
    SymbolKind::Object
}

pub open spec fn kind_detail_spec(kind: SymbolKind) -> Seq<char> {
    match kind {
        SymbolKind::Function => "scripted_effect"@,
        SymbolKind::Operator => "scripted_trigger"@,
        SymbolKind::Property => "scripted_modifier"@,
        SymbolKind::Event => "event"@,
        SymbolKind::EnumMember => "decision"@,
        SymbolKind::Module => "block"@,
        SymbolKind::Object => "item"@,
    }
}

/// The detail text shown for a symbol kind.
pub fn kind_detail(kind: SymbolKind) -> (r: String)
    ensures
        r@ == kind_detail_spec(kind),
{
    match kind {
        SymbolKind::Function => String::from_str("scripted_effect"),
        SymbolKind::Operator => String::from_str("scripted_trigger"),
        SymbolKind::Property => String::from_str("scripted_modifier"),
        SymbolKind::Event => String::from_str("event"),
        SymbolKind::EnumMember => String::from_str("decision"),
        SymbolKind::Module => String::from_str("block"),
        SymbolKind::Object => String::from_str("item"),
    }
}

// ─── Top-level keys ──────────────────────────────────────────────────────────

/// A character allowed in a top-level key.
pub open spec fn key_char(c: char) -> bool {
    unicode_alphanumeric(c) || c == '_' || c == '.'
}

/// `identifier = {` at column 0: the identifier (its length in characters).
/// The line may not start with white space or `#`; after trimming its end it
/// must end with `{`, before which (and white space) comes `=`, before which
/// (and white space) comes a non-empty run of letters, digits, `_` and `.`.
pub open spec fn top_level_key_len(line: Seq<char>) -> Option<int> {
    if line.len() > 0 && (is_ws(line[0]) || line[0] == '#') {
        None
    } else {
        let t = trim_end(line);
        if t.len() == 0 || t.last() != '{' {
            None
        } else {
            let before = trim_end(t.drop_last());
            if before.len() == 0 || before.last() != '=' {
                None
            } else {
                let ident = trim_end(before.drop_last());
                if ident.len() > 0 && forall|j: int| 0 <= j < ident.len() ==> key_char(#[trigger] ident[j]) {
                    Some(ident.len() as int)
                } else {
                    None
                }
            }
        }
    }
}

/// The key of a top-level `identifier = {` line, as characters.
pub open spec fn top_level_key_spec(line: Seq<char>) -> Option<Seq<char>> {
    match top_level_key_len(line) {
        Some(n) => Some(line.take(n)),
        None => None,
    }
}

/// `top_level_key_len`, computed on characters.
#[verifier::loop_isolation(false)]
pub fn key_len(line: &[char]) -> (r: Option<usize>)
    ensures
        match r {
            Some(n) => top_level_key_len(line@) == Some(n as int) && n <= line@.len(),
            None => top_level_key_len(line@) is None,
        },
{
    if line.len() > 0 && (is_whitespace(line[0]) || line[0] == '#') {
        return None;
    }
    let e = back_ws(line, 0, line.len());
    proof {
        assert(line@.subrange(0, line@.len() as int) =~= line@);
        assert(trim_end(line@) =~= line@.subrange(0, e as int));
    }
    if e == 0 || line[e - 1] != '{' {
        return None;
    }
    let e2 = back_ws(line, 0, e - 1);
    proof {
        assert(trim_end(line@).drop_last() =~= line@.subrange(0, e - 1));
        assert(trim_end(trim_end(line@).drop_last()) =~= line@.subrange(0, e2 as int));
    }
    proof {
        let t = trim_end(line@);
        assert(t.last() == line@[e - 1]);
        if e2 > 0 {
            assert(trim_end(t.drop_last()).last() == line@[e2 - 1]);
        }
    }
    if e2 == 0 || line[e2 - 1] != '=' {
        return None;
    }
    let e3 = back_ws(line, 0, e2 - 1);
    let ghost ident = line@.subrange(0, e3 as int);
    proof {
        let t = trim_end(line@);
        let before = trim_end(t.drop_last());
        assert(before == line@.subrange(0, e2 as int));
        assert(before.last() == line@[e2 - 1]);
        assert(before.drop_last() =~= line@.subrange(0, e2 - 1));
        assert(trim_end(line@.subrange(0, e2 - 1)) =~= ident);
        assert(trim_end(before.drop_last()) == ident);
    }
    if e3 == 0 {
        return None;
    }
    let mut j: usize = 0;
    while j < e3
        invariant
            j <= e3 <= line@.len(),
            ident == line@.subrange(0, e3 as int),
            forall|i: int| 0 <= i < j ==> key_char(#[trigger] ident[i]),
        decreases e3 - j,
    {
        let c = line[j];
        if !(is_alphanumeric(c) || c == '_' || c == '.') {
            proof {
                assert(!key_char(ident[j as int]));
            }
            return None;
        }
        j += 1;
    }
    proof {
        assert(line@.take(e3 as int) =~= ident);
    }
    Some(e3)
}

/// `identifier = {` at column 0. Returns the identifier.
pub fn top_level_key(line: &str) -> (r: Option<&str>)
    ensures
        match r {
            Some(k) => top_level_key_spec(line@) == Some(k@),
            None => top_level_key_spec(line@) is None,
        },
{
    let cs = chars_of(line);
    match key_len(cs.as_slice()) {
        Some(n) => Some(line.substring_char(0, n)),
        None => None,
    }
}

// ─── Word at a column ────────────────────────────────────────────────────────

/// A character that may be part of a word: letters, digits, `_`, `.`, `:`.
pub open spec fn word_char(c: char) -> bool {
    unicode_alphanumeric(c) || c == '_' || c == '.' || c == ':'
}

fn is_word_char(c: char) -> (b: bool)
    ensures
        b == word_char(c),
{
    is_alphanumeric(c) || c == '_' || c == '.' || c == ':'
}

/// Byte column of character `k` of `line`.
pub open spec fn bcol(line: Seq<char>, k: int) -> int {
    byte_len(line.take(k)) as int
}

/// Character index whose byte column is `col` (given that one exists).
pub open spec fn index_of_col(line: Seq<char>, col: int) -> int {
    choose|k: int| 0 <= k <= line.len() && bcol(line, k) == col
}

/// Index of the last non-word character before `ci`, or -1.
pub open spec fn last_non_word(line: Seq<char>, ci: int) -> int
    decreases ci,
{
    if ci <= 0 {
        -1
    } else if !word_char(line[ci - 1]) {
        ci - 1
    } else {
        last_non_word(line, ci - 1)
    }
}

/// Index of the first non-word character at or after `ci`, or the length.
pub open spec fn first_non_word(line: Seq<char>, ci: int) -> int
    decreases line.len() - ci,
{
    if ci < 0 || ci >= line.len() {
        line.len() as int
    } else if !word_char(line[ci]) {
        ci
    } else {
        first_non_word(line, ci + 1)
    }
}

/// The column, clamped to the line, falls on a character boundary.
pub open spec fn word_at_defined(line: Seq<char>, col: int) -> bool {
    let c = if col < byte_len(line) {
        col
    } else {
        byte_len(line) as int
    };
    exists|k: int| 0 <= k <= line.len() && bcol(line, k) == c
}

/// The word under byte column `col` (clamped to the line): the maximal run of
/// word characters around it, with its byte bounds; `None` when neither the
/// character at the column nor the one before it is a word character, or the
/// run is empty.
pub open spec fn word_at_spec(line: Seq<char>, col: int) -> Option<(Seq<char>, int, int)> {
    let c = if col < byte_len(line) {
        col
    } else {
        byte_len(line) as int
    };
    let ci = index_of_col(line, c);
    let here = ci < line.len() && word_char(line[ci]);
    if !here && ci > 0 && !word_char(line[ci - 1]) {
        None
    } else {
        let p = last_non_word(line, ci);
        let q = first_non_word(line, ci);
        if p + 1 >= q {
            None
        } else {
            Some((line.subrange(p + 1, q), bcol(line, p + 1), bcol(line, q)))
        }
    }
}

pub proof fn lemma_bcol_strict(line: Seq<char>, i: int, j: int)
    requires
        0 <= i < j <= line.len(),
    ensures
        bcol(line, i) < bcol(line, j),
    decreases j - i,
{
    lemma_byte_len_step(line, j - 1);
    if i < j - 1 {
        lemma_bcol_strict(line, i, j - 1);
    }
}

/// Word (identifier) at a byte column in a line: the word and its byte bounds.
pub fn word_at(line: &str, col: usize) -> (r: Option<(String, usize, usize)>)
    requires
        word_at_defined(line@, col as int),
        4 * line@.len() <= usize::MAX,
    ensures
        match r {
            Some((w, s, e)) => word_at_spec(line@, col as int) == Some((w@, s as int, e as int)),
            None => word_at_spec(line@, col as int) is None,
        },
{
    let cs = chars_of(line);
    let cols = crate::text::byte_columns(cs.as_slice());
    let n = cs.len();
    let lb = cols[n];
    proof {
        assert(cs@.take(n as int) =~= cs@);
    }
    let c = if col < lb {
        col
    } else {
        lb
    };
    // Find the character index at byte column `c`.
    let mut ci: usize = 0;
    while ci < n && cols[ci] < c
        invariant
            ci <= n,
            n == cs@.len(),
            cs@ == line@,
            cols@.len() == n + 1,
            forall|i: int| 0 <= i <= n ==> #[trigger] cols@[i] == byte_len(cs@.take(i)),
            forall|i: int| 0 <= i < ci ==> #[trigger] bcol(cs@, i) < c,
        decreases n - ci,
    {
        ci += 1;
    }
    proof {
        let k = choose|k: int| 0 <= k <= line@.len() && bcol(line@, k) == c;
        if k < ci {
            assert(bcol(cs@, k) < c);
        }
        if ci < k {
            lemma_bcol_strict(cs@, ci as int, k);
        }
        if ci == n && k != n {
            lemma_bcol_strict(cs@, k, n as int);
        }
        assert(ci == k);
        assert(index_of_col(line@, c as int) == ci);
    }
    let here = ci < n && is_word_char(cs[ci]);
    if !here && ci > 0 && !is_word_char(cs[ci - 1]) {
        return None;
    }
    let mut p: usize = ci;
    while p > 0 && is_word_char(cs[p - 1])
        invariant
            p <= ci <= n,
            n == cs@.len(),
            cs@ == line@,
            last_non_word(line@, ci as int) == last_non_word(line@, p as int),
        decreases p,
    {
        p -= 1;
    }
    let mut q: usize = ci;
    while q < n && is_word_char(cs[q])
        invariant
            ci <= q <= n,
            n == cs@.len(),
            cs@ == line@,
            first_non_word(line@, ci as int) == first_non_word(line@, q as int),
        decreases n - q,
    {
        q += 1;
    }
    // `p` is one past the last non-word character before the column.
    proof {
        assert(last_non_word(line@, p as int) == p - 1);
        assert(first_non_word(line@, q as int) == q);
    }
    if p >= q {
        return None;
    }
    Some((string_of(cs.as_slice(), p, q), cols[p], cols[q]))
}

/// Whether `word_at` accepts the column for the line (what it requires).
pub fn word_at_ok(line: &str, col: usize) -> (b: bool)
    ensures
        b == (word_at_defined(line@, col as int) && 4 * line@.len() <= usize::MAX),
{
    let cs = chars_of(line);
    if cs.len() > usize::MAX / 4 {
        return false;
    }
    let cols = crate::text::byte_columns(cs.as_slice());
    let n = cs.len();
    let lb = cols[n];
    proof {
        assert(cs@.take(n as int) =~= cs@);
    }
    let c = if col < lb {
        col
    } else {
        lb
    };
    let mut ci: usize = 0;
    while ci < n && cols[ci] < c
        invariant
            ci <= n,
            n == cs@.len(),
            cs@ == line@,
            cols@.len() == n + 1,
            forall|i: int| 0 <= i <= n ==> #[trigger] cols@[i] == byte_len(cs@.take(i)),
            forall|i: int| 0 <= i < ci ==> #[trigger] bcol(cs@, i) < c,
        decreases n - ci,
    {
        ci += 1;
    }
    if cols[ci] != c {
        proof {
            assert forall|k: int| 0 <= k <= line@.len() implies bcol(line@, k) != c by {
                if k < ci {
                    assert(bcol(cs@, k) < c);
                } else if k > ci {
                    lemma_bcol_strict(cs@, ci as int, k);
                }
            }
        }
        return false;
    }
    proof {
        assert(bcol(line@, ci as int) == c);
    }
    true
}

// ─── Definitions ─────────────────────────────────────────────────────────────

/// The location of a definition at a 1-based line: the start of that line
/// (line 0 stays 0).
pub open spec fn def_range(line: u32) -> Range {
    let l = if line == 0 {
        0
    } else {
        line - 1
    };
    span(l as u32, 0, l as u32, 0)
}

/// The first `n` found definitions as locations, given the URI of each one's
/// file: each keeps its name and detail and points at the start of its line;
/// one whose file has no URI is left out.
pub open spec fn located_upto(defs: Seq<DefEntry>, uris: Seq<Option<Seq<char>>>, n: int) -> Seq<
    (Seq<char>, Seq<char>, Range, Seq<char>),
>
    decreases n,
{
    if n <= 0 {
        seq![]
    } else {
        let p = located_upto(defs, uris, n - 1);
        let e = defs[n - 1];
        match uris[n - 1] {
            Some(u) => p.push((e.name@, u, def_range(e.line), e.detail@)),
            None => p,
        }
    }
}

pub open spec fn definitions_view(v: Seq<Definition>) -> Seq<(Seq<char>, Seq<char>, Range, Seq<char>)> {
    v.map_values(|d: Definition| (d.name@, d.location.uri@, d.location.range, d.detail@))
}

/// The found definitions as locations, given the URI of each one's file (see
/// `located_upto`).
pub fn defs_with_uris(defs: &[DefEntry], uris: &[Option<String>]) -> (r: Vec<Definition>)
    requires
        uris@.len() == defs@.len(),
    ensures
        definitions_view(r@) == located_upto(defs@, crate::validate::uri_views(uris@), defs@.len() as int),
{
    let ghost us = crate::validate::uri_views(uris@);
    let mut out: Vec<Definition> = Vec::new();
    let mut i: usize = 0;
    proof {
        assert(definitions_view(out@) =~= seq![]);
    }
    while i < defs.len()
        invariant
            i <= defs@.len(),
            uris@.len() == defs@.len(),
            us == crate::validate::uri_views(uris@),
            definitions_view(out@) == located_upto(defs@, us, i as int),
        decreases defs@.len() - i,
    {
        let e = &defs[i];
        proof {
            assert(defs@[i as int] == *e);
            assert(us[i as int] == crate::validate::opt_str(uris@[i as int]));
        }
        match &uris[i] {
            Some(uri) => {
                let l: u32 = if e.line == 0 {
                    0
                } else {
                    e.line - 1
                };
                let d = Definition {
                    name: e.name.clone(),
                    location: Location { uri: uri.clone(), range: make_range(l, 0, l, 0) },
                    detail: e.detail.clone(),
                };
                let ghost prev = definitions_view(out@);
                out.push(d);
                proof {
                    assert(definitions_view(out@) =~= prev.push((e.name@, uri@, def_range(e.line), e.detail@)));
                }
            },
            None => {},
        }
        i += 1;
    }
    out
}

/// Every URI of `us` is one that the file of its definition can have.
pub open spec fn def_uris_of_paths(defs: Seq<DefEntry>, us: Seq<Option<Seq<char>>>) -> bool {
    forall|i: int| 0 <= i < defs.len() ==> crate::validate::uri_of_path(defs[i].path@, #[trigger] us[i])
}

proof fn lemma_located_file_urls(defs: Seq<DefEntry>, us: Seq<Option<Seq<char>>>, n: int)
    requires
        us.len() == defs.len(),
        def_uris_of_paths(defs, us),
        n <= defs.len(),
    ensures
        forall|k: int|
            0 <= k < located_upto(defs, us, n).len() ==> crate::validate::is_file_url(
                (#[trigger] located_upto(defs, us, n)[k]).1,
            ),
    decreases n,
{
    if n > 0 {
        lemma_located_file_urls(defs, us, n - 1);
        assert(crate::validate::uri_of_path(defs[n - 1].path@, us[n - 1]));
        let p = located_upto(defs, us, n - 1);
        let e = defs[n - 1];
        match us[n - 1] {
            Some(u) => {
                let q = p.push((e.name@, u, def_range(e.line), e.detail@));
                assert forall|k: int| 0 <= k < q.len() implies crate::validate::is_file_url(
                    (#[trigger] q[k]).1,
                ) by {
                    if k < p.len() {
                        assert(q[k] == p[k]);
                    }
                }
            },
            None => {},
        }
    }
}

/// The definitions found in a mod scan as locations: those of
/// `defs_with_uris` for the URIs their files have on this platform. Every
/// URI is a `file://` URL, and a definition in a relative path has none.
pub fn defs_to_locations(defs: Vec<DefEntry>) -> (r: Vec<Definition>)
    ensures
        exists|us: Seq<Option<Seq<char>>>|
            us.len() == defs@.len() && def_uris_of_paths(defs@, us) && #[trigger] located_upto(
                defs@,
                us,
                defs@.len() as int,
            ) == definitions_view(r@),
        forall|k: int| 0 <= k < r@.len() ==> crate::validate::is_file_url((#[trigger] r@[k]).location.uri@),
{
    let mut uris: Vec<Option<String>> = Vec::new();
    let mut i: usize = 0;
    while i < defs.len()
        invariant
            i <= defs@.len(),
            uris@.len() == i,
            forall|k: int|
                0 <= k < i ==> crate::validate::uri_of_path(
                    defs@[k].path@,
                    #[trigger] crate::validate::opt_str(uris@[k]),
                ),
        decreases defs@.len() - i,
    {
        uris.push(crate::validate::file_uri(defs[i].path.as_str()));
        i += 1;
    }
    let ghost us = crate::validate::uri_views(uris@);
    proof {
        assert forall|k: int| 0 <= k < defs@.len() implies crate::validate::uri_of_path(
            defs@[k].path@,
            #[trigger] us[k],
        ) by {
            assert(us[k] == crate::validate::opt_str(uris@[k]));
        }
    }
    let r = defs_with_uris(defs.as_slice(), uris.as_slice());
    proof {
        lemma_located_file_urls(defs@, us, defs@.len() as int);
        assert forall|k: int| 0 <= k < r@.len() implies crate::validate::is_file_url(
            (#[trigger] r@[k]).location.uri@,
        ) by {
            assert(definitions_view(r@)[k] == (
                r@[k].name@,
                r@[k].location.uri@,
                r@[k].location.range,
                r@[k].detail@,
            ));
        }
    }
    r
}

// ─── Document symbols ────────────────────────────────────────────────────────

/// A symbol's view: name, kind, range, selection range, detail.
pub type SymView = (Seq<char>, SymbolKind, Range, Range, Seq<char>);

pub open spec fn sym_view(d: DocumentSymbol) -> SymView {
    (d.name@, d.kind, d.range, d.selection_range, match d.detail {
        Some(x) => x@,
        None => seq![],
    })
}

/// The symbol for key `name` opened on line `st` and closed on line `i`: an
/// event when the name holds a `.`, else of the file's kind.
pub open spec fn make_sym(ls: Seq<Seq<char>>, fk: SymbolKind, name: Seq<char>, st: int, i: int) -> SymView {
    let kind = if contains_char(name, '.') {
        SymbolKind::Event
    } else {
        fk
    };
    (
        name,
        kind,
        span(st as u32, 0, i as u32, byte_len(ls[i]) as u32),
        span(st as u32, 0, st as u32, byte_len(ls[st]) as u32),
        kind_detail_spec(kind),
    )
}

/// Symbol scan from line `i`, character `k` (`-1`: the line's start, where a
/// top-level key at depth 0 becomes the pending symbol). Quotes toggle a
/// string that ends with the line, `#` outside a string ends the line, and a
/// `}` that brings the depth back to 0 closes the pending symbol.
pub open spec fn syms_from(
    ls: Seq<Seq<char>>,
    fk: SymbolKind,
    i: int,
    k: int,
    depth: int,
    pending: Option<(Seq<char>, int)>,
    in_s: bool,
    acc: Seq<SymView>,
) -> Seq<SymView>
    decreases ls.len() - i, ls[i].len() + 1 - k,
{
    if i < 0 || i >= ls.len() {
        acc
    } else if k < 0 {
        let pend = if depth == 0 {
            match top_level_key_spec(ls[i]) {
                Some(name) => Some((name, i)),
                None => pending,
            }
        } else {
            pending
        };
        syms_from(ls, fk, i, 0, depth, pend, false, acc)
    } else if k >= ls[i].len() {
        syms_from(ls, fk, i + 1, -1, depth, pending, false, acc)
    } else {
        let ch = ls[i][k];
        if ch == '"' {
            syms_from(ls, fk, i, k + 1, depth, pending, !in_s, acc)
        } else if ch == '#' && !in_s {
            syms_from(ls, fk, i + 1, -1, depth, pending, false, acc)
        } else if ch == '{' && !in_s {
            syms_from(ls, fk, i, k + 1, depth + 1, pending, in_s, acc)
        } else if ch == '}' && !in_s {
            if depth - 1 == 0 && pending is Some {
                let (name, st) = pending.unwrap();
                syms_from(ls, fk, i, k + 1, 0, None, in_s, acc.push(make_sym(ls, fk, name, st, i)))
            } else {
                syms_from(ls, fk, i, k + 1, depth - 1, pending, in_s, acc)
            }
        } else {
            syms_from(ls, fk, i, k + 1, depth, pending, in_s, acc)
        }
    }
}

pub open spec fn document_symbols_spec(text: Seq<char>, fk: SymbolKind) -> Seq<SymView> {
    syms_from(lines_of(text), fk, 0, -1, 0, None, false, seq![])
}

pub open spec fn pending_view(p: Option<(String, usize)>) -> Option<(Seq<char>, int)> {
    match p {
        Some((n, st)) => Some((n@, st as int)),
        None => None,
    }
}

/// Top-level `key = { ... }` blocks as document symbols, in order of their
/// closing braces.
#[verifier::rlimit(60)]
pub fn document_symbols(text: &str, file_kind: SymbolKind) -> (r: Vec<DocumentSymbol>)
    requires
        text@.len() <= i32::MAX,
        lines_of(text@).len() <= u32::MAX,
    ensures
        r@.map_values(|d: DocumentSymbol| sym_view(d)) == document_symbols_spec(text@, file_kind),
{
    let chars = chars_of(text);
    let ls = split_lines(chars.as_slice());
    let ghost v = views(ls@);
    proof {
        crate::format::lemma_lines_total_len(text@);
    }
    let mut out: Vec<DocumentSymbol> = Vec::new();
    let mut depth: i32 = 0;
    let mut pending: Option<(String, usize)> = None;
    let mut i: usize = 0;
    proof {
        assert(out@.map_values(|d: DocumentSymbol| sym_view(d)) =~= seq![]);
    }
    while i < ls.len()
        invariant
            v == views(ls@),
            v == lines_of(text@),
            i <= ls@.len(),
            ls@.len() <= u32::MAX,
            total_len(v) <= i32::MAX,
            -total_len(v.take(i as int)) <= depth <= total_len(v.take(i as int)),
            pending matches Some((_, st)) ==> st < i,
            document_symbols_spec(text@, file_kind) == syms_from(v, file_kind, i as int, -1,
                depth as int, pending_view(pending), false, out@.map_values(|d: DocumentSymbol| sym_view(d))),
        decreases ls@.len() - i,
    {
        let line = ls[i].as_slice();
        proof {
            assert(line@ == v[i as int]);
            lemma_total_len_take(v, i as int);
        }
        if depth == 0 {
            match key_len(line) {
                Some(n) => {
                    pending = Some((string_of(line, 0, n), i));
                    proof {
                        assert(line@.subrange(0, n as int) =~= line@.take(n as int));
                    }
                },
                None => {},
            }
        }
        let mut in_str = false;
        let mut k: usize = 0;
        while k < line.len()
            invariant
                v == views(ls@),
                i < ls@.len(),
                ls@.len() <= u32::MAX,
                line@ == v[i as int],
                k <= line@.len(),
                total_len(v) <= i32::MAX,
                total_len(v.take(i as int + 1)) == total_len(v.take(i as int)) + line@.len(),
                total_len(v.take(i as int + 1)) <= total_len(v),
                -(total_len(v.take(i as int)) + k) <= depth <= total_len(v.take(i as int)) + k,
                pending matches Some((_, st)) ==> st <= i,
                document_symbols_spec(text@, file_kind) == syms_from(v, file_kind, i as int, k as int,
                    depth as int, pending_view(pending), in_str, out@.map_values(|d: DocumentSymbol| sym_view(d))),
            ensures
                -total_len(v.take(i as int + 1)) <= depth <= total_len(v.take(i as int + 1)),
                pending matches Some((_, st)) ==> st <= i,
                document_symbols_spec(text@, file_kind) == syms_from(v, file_kind, i as int + 1, -1,
                    depth as int, pending_view(pending), false, out@.map_values(|d: DocumentSymbol| sym_view(d))),
            decreases line@.len() - k,
        {
            let ch = line[k];
            if ch == '"' {
                in_str = !in_str;
            } else if ch == '#' && !in_str {
                break;
            } else if ch == '{' && !in_str {
                depth += 1;
            } else if ch == '}' && !in_str {
                depth -= 1;
                if depth == 0 && pending.is_some() {
                    let (name, st) = pending.take().unwrap();
                    let has_dot = find_char(chars_of(name.as_str()).as_slice(), 0, name.unicode_len(), '.').is_some();
                    let kind = if has_dot {
                        SymbolKind::Event
                    } else {
                        file_kind
                    };
                    let end_char = byte_len_of(line);
                    let sel_char = byte_len_of(ls[st].as_slice());
                    proof {
                        assert(ls@[st as int]@ == v[st as int]);
                    }
                    let ghost prev = out@.map_values(|d: DocumentSymbol| sym_view(d));
                    let ghost nm = name@;
                    let sym = DocumentSymbol {
                        name,
                        kind,
                        range: make_range(#[verifier::truncate] (st as u32), 0, #[verifier::truncate] (i as u32),
                            #[verifier::truncate] (end_char as u32)),
                        selection_range: make_range(#[verifier::truncate] (st as u32), 0,
                            #[verifier::truncate] (st as u32), #[verifier::truncate] (sel_char as u32)),
                        detail: Some(kind_detail(kind)),
                    };
                    out.push(sym);
                    proof {
                        assert(out@.map_values(|d: DocumentSymbol| sym_view(d)) =~= prev.push(
                            make_sym(v, file_kind, nm, st as int, i as int),
                        ));
                    }
                }
            }
            k += 1;
        }
        i += 1;
    }
    out
}

// ─── Workspace symbols ───────────────────────────────────────────────────────

/// Whether a definition's lower-cased name contains the lower-cased query.
pub open spec fn name_matches(q: Seq<char>) -> spec_fn(Definition) -> bool {
    |d: Definition| contains_seq(lowercase(d.name@), lowercase(q))
}

/// The definitions whose lower-cased name contains the lower-cased query,
/// in order.
pub open spec fn matching_defs(q: Seq<char>, defs: Seq<Definition>) -> Seq<Definition> {
    defs.filter(name_matches(q))
}

pub open spec fn symbol_of(d: Definition) -> (Seq<char>, SymbolKind, Seq<char>, Range) {
    (d.name@, kind_from_detail_spec(d.detail@), d.location.uri@, d.location.range)
}

/// The symbol each definition is reported as.
pub open spec fn symbols_of(defs: Seq<Definition>) -> Seq<(Seq<char>, SymbolKind, Seq<char>, Range)> {
    defs.map_values(|d: Definition| symbol_of(d))
}

pub open spec fn info_view(s: SymbolInformation) -> (Seq<char>, SymbolKind, Seq<char>, Range) {
    (s.name@, s.kind, s.location.uri@, s.location.range)
}

pub open spec fn infos_view(s: Seq<SymbolInformation>) -> Seq<(Seq<char>, SymbolKind, Seq<char>, Range)> {
    s.map_values(|x: SymbolInformation| info_view(x))
}

/// Search the definitions by query (case-insensitive substring), keeping
/// their order.
pub fn workspace_symbols(query: &str, definitions: &[Definition]) -> (r: Vec<SymbolInformation>)
    ensures
        infos_view(r@) == symbols_of(matching_defs(query@, definitions@)),
{
    let q = to_lowercase(query);
    let qc = chars_of(q.as_str());
    let mut out: Vec<SymbolInformation> = Vec::new();
    let mut i: usize = 0;
    let ghost pf = name_matches(query@);
    proof {
        assert(definitions@.take(0).filter(pf) =~= seq![]);
        assert(infos_view(out@) =~= symbols_of(seq![]));
    }
    while i < definitions.len()
        invariant
            i <= definitions@.len(),
            qc@ == lowercase(query@),
            pf == name_matches(query@),
            infos_view(out@) == symbols_of(definitions@.take(i as int).filter(pf)),
        decreases definitions@.len() - i,
    {
        let d = &definitions[i];
        let nl = to_lowercase(d.name.as_str());
        let nc = chars_of(nl.as_str());
        let ghost prev = infos_view(out@);
        let ghost fl = definitions@.take(i as int).filter(pf);
        proof {
            assert(definitions@.take(i + 1) =~= definitions@.take(i as int).push(*d));
            definitions@.take(i as int).lemma_filter_push(*d, pf);
        }
        if contains_chars(nc.as_slice(), qc.as_slice()) {
            let info = SymbolInformation {
                name: d.name.clone(),
                kind: kind_from_detail(d.detail.as_str()),
                location: Location { uri: d.location.uri.clone(), range: d.location.range },
            };
            out.push(info);
            proof {
                assert(pf(*d));
                assert(infos_view(out@) =~= prev.push(symbol_of(*d)));
                assert(symbols_of(fl.push(*d)) =~= symbols_of(fl).push(symbol_of(*d)));
            }
        } else {
            proof {
                assert(!pf(*d));
                assert(infos_view(out@) =~= prev);
            }
        }
        i += 1;
    }
    proof {
        assert(definitions@.take(definitions@.len() as int) =~= definitions@);
    }
    out
}

} // verus!
