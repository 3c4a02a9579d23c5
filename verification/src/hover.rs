//! Hover text for scripted items, engine built-ins, `@variables` and the
//! fields of a block.
use vstd::prelude::*;
use crate::completions::{brace_delta, LspEntry};
use crate::model::EntryKind;
use crate::text::{
    append_str, chars_of, join, lines_of, push_chars, split_lines, string_views, trim, trim_bounds,
    trim_start, views,
};
use crate::wiki::{builtin_wiki_url, builtin_wiki_url_spec, scripted_wiki_url, scripted_wiki_url_spec, variables_url, VARIABLES};

verus! {

// ─── Scripted items ──────────────────────────────────────────────────────────

/// How many lines of `w` the snippet keeps: lines up to and including the
/// first after which the brace depth (from `depth`) is no longer positive.
pub open spec fn snippet_len(w: Seq<Seq<char>>, i: int, depth: int) -> int
    decreases w.len() - i,
{
    if i < 0 || i >= w.len() {
        w.len() as int
    } else if depth + brace_delta(w[i]) <= 0 {
        i + 1
    } else {
        snippet_len(w, i + 1, depth + brace_delta(w[i]))
    }
}

/// The up to 20 lines from `start` that the definition's hover shows.
pub open spec fn snippet(text: Seq<char>, start: int) -> Seq<char> {
    let ls = lines_of(text);
    let w = if start < ls.len() {
        ls.skip(start).take(if ls.len() - start < 20 { ls.len() - start } else { 20 })
    } else {
        seq![]
    };
    join(w.take(snippet_len(w, 0, 0)), seq!['\n'])
}

/// The hover of a scripted item `name` (a `detail`) defined on line `start`
/// of the file whose text is `text`: its definition and its wiki page.
pub open spec fn scripted_hover(name: Seq<char>, detail: Seq<char>, text: Seq<char>, start: int) -> Seq<char> {
    "**"@ + name + "** — "@ + detail + "\n\n```pdxscript\n"@ + snippet(text, start) + "\n```\n\n[Wiki: "@ + detail
        + "]("@ + scripted_wiki_url_spec(detail)@ + ")"@
}

fn brace_count(t: &[char]) -> (d: i128)
    ensures
        d == brace_delta(t@),
        -t@.len() <= d <= t@.len(),
{
    let mut d: i128 = 0;
    let mut i: usize = 0;
    while i < t.len()
        invariant
            i <= t@.len(),
            d == brace_delta(t@.take(i as int)),
            -i <= d <= i,
        decreases t@.len() - i,
    {
        proof {
            assert(t@.take(i + 1).drop_last() =~= t@.take(i as int));
        }
        if t[i] == '{' {
            d = d + 1;
        } else if t[i] == '}' {
            d = d - 1;
        }
        i += 1;
    }
    proof {
        assert(t@.take(t@.len() as int) =~= t@);
    }
    d
}

/// The snippet of up to 20 lines from line `start` (see `snippet`).
fn snippet_text(text: &str, start: u32) -> (r: Vec<char>)
    ensures
        r@ == snippet(text@, start as int),
{
    let cs = chars_of(text);
    let ls = split_lines(cs.as_slice());
    let ghost lsv = views(ls@);
    let s = start as usize;
    let nls = ls.len();
    let mut w: Vec<Vec<char>> = Vec::new();
    if s < ls.len() {
        let n: usize = if ls.len() - s < 20 { ls.len() - s } else { 20 };
        let ghost win = lsv.skip(s as int).take(n as int);
        let mut depth: i128 = 0;
        let mut i: usize = 0;
        proof {
            assert(views(w@) =~= win.take(0));
        }
        while i < n
            invariant_except_break
                snippet_len(win, 0, 0) == snippet_len(win, i as int, depth as int),
            invariant
                lsv == views(ls@),
                nls == lsv.len(),
                s < lsv.len(),
                n <= 20,
                s + n <= lsv.len(),
                win == lsv.skip(s as int).take(n as int),
                i <= n,
                -i * 0x1_0000_0000_0000_0000 <= depth <= i * 0x1_0000_0000_0000_0000,
                views(w@) == win.take(i as int),
            ensures
                views(w@) == win.take(snippet_len(win, 0, 0)),
            decreases n - i,
        {
            let line = &ls[s + i];
            let ghost w0 = w@;
            proof {
                assert(lsv[s + i] == ls@[s + i]@);
                assert(win[i as int] == lsv[s + i]);
                assert(win[i as int] == line@);
            }
            let cl = sub_all(line.as_slice());
            let d = brace_count(line.as_slice());
            let ll = line.len();
            w.push(cl);
            proof {
                assert(views(w@) =~= views(w0).push(cl@));
                assert(win.take(i + 1) =~= win.take(i as int).push(win[i as int]));
                assert(views(w@) =~= win.take(i + 1));
            }
            depth = depth + d;
            i += 1;
            if depth <= 0 {
                break;
            }
        }
        proof {
            assert(lines_of(text@) == lsv);
        }
    } else {
        proof {
            assert(views(w@) =~= Seq::<Seq<char>>::empty().take(0));
        }
    }
    crate::text::join_chars(&w, '\n')
}

fn sub_all(s: &[char]) -> (r: Vec<char>)
    ensures
        r@ == s@,
{
    let r = crate::text::sub_chars(s, 0, s.len());
    proof {
        assert(s@.subrange(0, s@.len() as int) =~= s@);
    }
    r
}

/// The hover of a scripted item (see `scripted_hover`), given the text of
/// the file that defines it and the line where the definition starts.
pub fn hover_scripted(name: &str, detail: &str, text: &str, start_line: u32) -> (r: String)
    ensures
        r@ == scripted_hover(name@, detail@, text@, start_line as int),
{
    let snip = snippet_text(text, start_line);
    let url = scripted_wiki_url(detail);
    let mut v = String::new();
    append_str(&mut v, "**");
    append_str(&mut v, name);
    append_str(&mut v, "** — ");
    append_str(&mut v, detail);
    append_str(&mut v, "\n\n```pdxscript\n");
    push_chars(&mut v, snip.as_slice());
    append_str(&mut v, "\n```\n\n[Wiki: ");
    append_str(&mut v, detail);
    append_str(&mut v, "](");
    append_str(&mut v, url);
    append_str(&mut v, ")");
    proof {
        assert(v@ =~= scripted_hover(name@, detail@, text@, start_line as int));
    }
    v
}


// ─── Engine built-ins ────────────────────────────────────────────────────────

/// What the built-in `name` is: the kind of the last entry with that name.
pub open spec fn builtin_kind(entries: Seq<LspEntry>, name: Seq<char>) -> Option<EntryKind>
    decreases entries.len(),
{
    if entries.len() == 0 {
        None
    } else if entries.last().name@ == name {
        Some(entries.last().kind)
    } else {
        builtin_kind(entries.drop_last(), name)
    }
}

/// The hover of a built-in `name` of kind `k`.
pub open spec fn builtin_hover(name: Seq<char>, k: EntryKind) -> Seq<char> {
    let url = builtin_wiki_url_spec(k)@;
    match k {
        EntryKind::Trigger => "**"@ + name + "** — engine trigger\n\n[Wiki: Triggers]("@ + url + ")"@,
        EntryKind::Effect => "**"@ + name + "** — engine effect\n\n[Wiki: Effects]("@ + url + ")"@,
        EntryKind::Iterator => "**"@ + name + "** — engine iterator\n\nExpands to: `every_"@ + name + "`, `any_"@
            + name + "`, `random_"@ + name + "`, `ordered_"@ + name + "`\n\n[Wiki: Scopes]("@ + url + ")"@,
    }
}

/// The hover of an engine built-in, if `name` is one of `entries`.
pub fn hover_builtin(name: &str, entries: &[LspEntry]) -> (r: Option<String>)
    ensures
        match builtin_kind(entries@, name@) {
            Some(k) => r.is_some() && r.unwrap()@ == builtin_hover(name@, k),
            None => r is None,
        },
{
    let mut i = entries.len();
    let nc = chars_of(name);
    proof {
        assert(entries@.take(entries@.len() as int) =~= entries@);
    }
    while i > 0
        invariant
            i <= entries@.len(),
            nc@ == name@,
            builtin_kind(entries@, name@) == builtin_kind(entries@.take(i as int), name@),
        decreases i,
    {
        let e = &entries[i - 1];
        let ec = chars_of(e.name.as_str());
        proof {
            assert(entries@.take(i as int).last() == *e);
            assert(entries@.take(i as int).drop_last() =~= entries@.take(i - 1));
        }
        if crate::text::chars_eq(ec.as_slice(), nc.as_slice()) {
            let k = e.kind;
            let url = builtin_wiki_url(&k);
            let mut v = String::new();
            append_str(&mut v, "**");
            append_str(&mut v, name);
            match k {
                EntryKind::Trigger => {
                    append_str(&mut v, "** — engine trigger\n\n[Wiki: Triggers](");
                },
                EntryKind::Effect => {
                    append_str(&mut v, "** — engine effect\n\n[Wiki: Effects](");
                },
                EntryKind::Iterator => {
                    append_str(&mut v, "** — engine iterator\n\nExpands to: `every_");
                    append_str(&mut v, name);
                    append_str(&mut v, "`, `any_");
                    append_str(&mut v, name);
                    append_str(&mut v, "`, `random_");
                    append_str(&mut v, name);
                    append_str(&mut v, "`, `ordered_");
                    append_str(&mut v, name);
                    append_str(&mut v, "`\n\n[Wiki: Scopes](");
                },
            }
            append_str(&mut v, url);
            append_str(&mut v, ")");
            proof {
                assert(v@ =~= builtin_hover(name@, k));
            }
            return Some(v);
        }
        i -= 1;
    }
    proof {
        assert(entries@.take(0) =~= Seq::<LspEntry>::empty());
    }
    None
}

// ─── @variables ──────────────────────────────────────────────────────────────

/// Number of leading `@`s.
pub open spec fn leading_ats(s: Seq<char>) -> nat
    decreases s.len(),
{
    if s.len() > 0 && s[0] == '@' {
        1 + leading_ats(s.drop_first())
    } else {
        0
    }
}

/// Whether the trimmed line `t` defines the variable `bare` (`@bare = ...`
/// or a bare `@bare`).
pub open spec fn defines_variable(t: Seq<char>, bare: Seq<char>) -> bool {
    &&& t.len() > 0
    &&& t[0] == '@'
    &&& crate::completions::starts_with(t.drop_first(), bare)
    &&& {
        let after = trim_start(t.drop_first().skip(bare.len() as int));
        after.len() == 0 || after[0] == '='
    }
}

/// The first trimmed line from `i` on that defines `bare`.
pub open spec fn variable_line(ls: Seq<Seq<char>>, bare: Seq<char>, i: int) -> Option<Seq<char>>
    decreases ls.len() - i,
{
    if i < 0 || i >= ls.len() {
        None
    } else if defines_variable(trim(ls[i]), bare) {
        Some(trim(ls[i]))
    } else {
        variable_line(ls, bare, i + 1)
    }
}

/// The hover of `@bare` defined by the line `t`.
pub open spec fn variable_hover(bare: Seq<char>, t: Seq<char>) -> Seq<char> {
    "**@"@ + bare + "** — variable\n\n`"@ + t + "`\n\n[Wiki: Variables]("@ + VARIABLES@ + ")"@
}

proof fn lemma_leading_ats(s: Seq<char>, k: int)
    requires
        0 <= k <= s.len(),
        forall|j: int| 0 <= j < k ==> #[trigger] s[j] == '@',
        k == s.len() || s[k] != '@',
    ensures
        leading_ats(s) == k,
    decreases k,
{
    if k > 0 {
        let t = s.drop_first();
        assert forall|j: int| 0 <= j < k - 1 implies #[trigger] t[j] == '@' by {
            assert(t[j] == s[j + 1]);
        }
        lemma_leading_ats(t, k - 1);
    }
}

fn defines_variable_exec(t: &[char], bare: &[char]) -> (b: bool)
    ensures
        b == defines_variable(t@, bare@),
{
    if t.len() == 0 || t[0] != '@' {
        return false;
    }
    let ghost rest = t@.drop_first();
    if bare.len() > t.len() - 1 || !crate::text::prefix_at(t, 1, bare) {
        proof {
            if bare@.len() <= rest.len() {
                assert(rest.take(bare@.len() as int) =~= t@.subrange(1, 1 + bare@.len() as int));
            }
        }
        return false;
    }
    proof {
        assert(rest.take(bare@.len() as int) =~= t@.subrange(1, 1 + bare@.len() as int));
    }
    let s = 1 + bare.len();
    let a = crate::text::skip_ws(t, s, t.len());
    proof {
        assert(rest.skip(bare@.len() as int) =~= t@.subrange(s as int, t@.len() as int));
        crate::text::lemma_lead_ws_bound(t@.subrange(s as int, t@.len() as int));
        let after = trim_start(rest.skip(bare@.len() as int));
        assert(after =~= t@.subrange(a as int, t@.len() as int));
        if a < t@.len() {
            assert(after[0] == t@[a as int]);
        }
    }
    a == t.len() || t[a] == '='
}

/// The hover of `@name` (any number of leading `@` in `name`): the first
/// line of `doc_text` that defines it, and the variables page.
pub fn hover_variable(name: &str, doc_text: &str) -> (r: Option<String>)
    ensures
        match variable_line(lines_of(doc_text@), name@.skip(leading_ats(name@) as int), 0) {
            Some(t) => r.is_some() && r.unwrap()@ == variable_hover(name@.skip(leading_ats(name@) as int), t),
            None => r is None,
        },
{
    let nc = chars_of(name);
    let mut k: usize = 0;
    while k < nc.len() && nc[k] == '@'
        invariant
            k <= nc@.len(),
            forall|j: int| 0 <= j < k ==> #[trigger] nc@[j] == '@',
        decreases nc@.len() - k,
    {
        k += 1;
    }
    proof {
        lemma_leading_ats(name@, k as int);
    }
    let bare = crate::text::sub_chars(nc.as_slice(), k, nc.len());
    let ghost bv = name@.skip(leading_ats(name@) as int);
    proof {
        assert(bare@ =~= bv);
    }
    let cs = chars_of(doc_text);
    let ls = split_lines(cs.as_slice());
    let ghost lsv = views(ls@);
    let mut i: usize = 0;
    while i < ls.len()
        invariant
            lsv == views(ls@),
            lsv == lines_of(doc_text@),
            bare@ == bv,
            bv == name@.skip(leading_ats(name@) as int),
            i <= lsv.len(),
            variable_line(lsv, bv, 0) == variable_line(lsv, bv, i as int),
        decreases lsv.len() - i,
    {
        let line = ls[i].as_slice();
        proof {
            assert(line@ == lsv[i as int]);
        }
        let (a, b) = trim_bounds(line, 0, line.len());
        let t = crate::text::sub_chars(line, a, b);
        proof {
            assert(line@.subrange(0, line@.len() as int) =~= line@);
            assert(t@ == trim(lsv[i as int]));
        }
        if defines_variable_exec(t.as_slice(), bare.as_slice()) {
            let mut v = String::new();
            append_str(&mut v, "**@");
            push_chars(&mut v, bare.as_slice());
            append_str(&mut v, "** — variable\n\n`");
            push_chars(&mut v, t.as_slice());
            append_str(&mut v, "`\n\n[Wiki: Variables](");
            append_str(&mut v, variables_url());
            append_str(&mut v, ")");
            proof {
                assert(v@ =~= variable_hover(bv, t@));
                assert(defines_variable(trim(lsv[i as int]), bv));
                assert(variable_line(lsv, bv, i as int) == Some(t@));
            }
            return Some(v);
        }
        i += 1;
    }
    None
}

// ─── Block fields ────────────────────────────────────────────────────────────

/// The first field named `word`.
pub open spec fn field_index(fields: Seq<crate::model::SchemaField>, word: Seq<char>) -> Option<int> {
    fields.map_values(|f: crate::model::SchemaField| f.name@).index_of_first(word)
}

/// The hover of a field `f` of block `block`.
pub open spec fn field_hover_spec(word: Seq<char>, f: crate::model::SchemaField, block: Seq<char>) -> Seq<char> {
    "**"@ + word + "** — `"@ + f.type_hint@ + "` ("@ + (if f.required {
        "required"@
    } else {
        "optional"@
    }) + ")\n\nField of `"@ + block + "`"@
}

/// The hover of `word` when it is a field of the enclosing block `block_name`.
pub fn field_hover(word: &str, block_name: &str, fields: &[crate::model::SchemaField]) -> (r: Option<String>)
    ensures
        match field_index(fields@, word@) {
            Some(k) => r.is_some() && r.unwrap()@ == field_hover_spec(word@, fields@[k], block_name@),
            None => r is None,
        },
{
    let ghost fnames = fields@.map_values(|f: crate::model::SchemaField| f.name@);
    let mut i: usize = 0;
    while i < fields.len()
        invariant
            i <= fields@.len(),
            fnames == fields@.map_values(|f: crate::model::SchemaField| f.name@),
            forall|j: int| 0 <= j < i ==> fnames[j] != word@,
        decreases fields@.len() - i,
    {
        let f = &fields[i];
        proof {
            assert(fnames[i as int] == f.name@);
        }
        if crate::text::str_is(f.name.as_str(), word) {
            proof {
                crate::call_hierarchy::lemma_first_index(fnames, word@, i as int);
            }
            let mut v = String::new();
            append_str(&mut v, "**");
            append_str(&mut v, word);
            append_str(&mut v, "** — `");
            append_str(&mut v, f.type_hint.as_str());
            append_str(&mut v, "` (");
            if f.required {
                append_str(&mut v, "required");
            } else {
                append_str(&mut v, "optional");
            }
            append_str(&mut v, ")\n\nField of `");
            append_str(&mut v, block_name);
            append_str(&mut v, "`");
            proof {
                assert(v@ =~= field_hover_spec(word@, fields@[i as int], block_name@));
            }
            return Some(v);
        }
        i += 1;
    }
    proof {
        fnames.index_of_first_ensures(word@);
        if fnames.contains(word@) {
            let k = choose|k: int| 0 <= k < fnames.len() && fnames[k] == word@;
            assert(fnames[k] != word@);
        }
    }
    None
}

} // verus!
