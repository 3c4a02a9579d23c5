//! Completion entries: static keywords, engine built-ins, `@variables` of a
//! document, and the scripted items found in a mod and its dependencies.
use vstd::prelude::*;
use crate::model::{EntryKind, SchemaField};
use crate::order::{sort_dedup, sorted_set_of, string_seq};
use crate::symbols::{key_len, top_level_key_spec};
use crate::format::{lemma_lines_total_len, lemma_total_len_take, total_len};
use crate::text::{
    chars_of, find_char, first_of, has_prefix_at, lemma_first_of, prefix_at, sub_chars, trim, trim_bounds, is_whitespace, is_ws, lead_ws, lemma_lead_ws_bound, lines_of, push_char, push_chars,
    skip_ws, split_lines, string_of, trim_start, views,
};

verus! {

// ─── Entries ─────────────────────────────────────────────────────────────────

/// The icon an entry is shown with.
#[derive(Clone, Copy, Debug, PartialEq, Eq)]
pub enum CompletionKind {
    Keyword,
    Function,
    Variable,
    Module,
    EnumMember,
    Field,
    Event,
}

/// One completion offered to the editor.
#[derive(Debug)]
pub struct CompletionEntry {
    pub label: String,
    pub kind: CompletionKind,
    pub detail: Option<String>,
    pub insert_text: Option<String>,
    /// The insert text is plain text (not a snippet).
    pub plain_text: bool,
    /// Text shown right after the label.
    pub label_detail: Option<String>,
}

pub type EntryView = (Seq<char>, CompletionKind, Option<Seq<char>>, Option<Seq<char>>, bool, Option<Seq<char>>);

pub open spec fn opt_view(o: Option<String>) -> Option<Seq<char>> {
    match o {
        Some(s) => Some(s@),
        None => None,
    }
}

pub open spec fn entry_view(e: CompletionEntry) -> EntryView {
    (e.label@, e.kind, opt_view(e.detail), opt_view(e.insert_text), e.plain_text, opt_view(e.label_detail))
}

pub open spec fn entries_view(s: Seq<CompletionEntry>) -> Seq<EntryView> {
    s.map_values(|e: CompletionEntry| entry_view(e))
}

proof fn lemma_entries_push(s: Seq<CompletionEntry>, e: CompletionEntry)
    ensures
        entries_view(s.push(e)) == entries_view(s).push(entry_view(e)),
{
    assert(entries_view(s.push(e)) =~= entries_view(s).push(entry_view(e)));
}

/// An engine built-in: its name and what it is.
#[derive(Debug)]
pub struct LspEntry {
    pub name: String,
    pub kind: EntryKind,
}

// ─── Static keywords ─────────────────────────────────────────────────────────

/// The language keywords offered everywhere, with what each is.
pub open spec fn keyword_table() -> Seq<(Seq<char>, Seq<char>)> {
    seq![
        ("AND"@, "logic"@),
        ("OR"@, "logic"@),
        ("NOT"@, "logic"@),
        ("NOR"@, "logic"@),
        ("NAND"@, "logic"@),
        ("if"@, "conditional"@),
        ("else_if"@, "conditional"@),
        ("else"@, "conditional"@),
        ("trigger_if"@, "conditional"@),
        ("trigger_else_if"@, "conditional"@),
        ("trigger_else"@, "conditional"@),
        ("switch"@, "conditional"@),
        ("limit"@, "block"@),
        ("trigger"@, "block"@),
        ("effect"@, "block"@),
        ("option"@, "block"@),
        ("immediate"@, "block"@),
        ("after"@, "block"@),
        ("modifier"@, "block"@),
        ("on_accept"@, "block"@),
        ("on_decline"@, "block"@),
        ("on_pass"@, "block"@),
        ("on_fail"@, "block"@),
        ("ai_chance"@, "block"@),
        ("yes"@, "value"@),
        ("no"@, "value"@),
    ]
}

pub open spec fn keyword_entry(k: (Seq<char>, Seq<char>)) -> EntryView {
    (k.0, CompletionKind::Keyword, Some(k.1), None, false, None)
}

fn push_keyword(out: &mut Vec<CompletionEntry>, label: &str, detail: &str)
    ensures
        entries_view(final(out)@) == entries_view(old(out)@).push(keyword_entry((label@, detail@))),
{
    let e = CompletionEntry {
        label: label.to_owned(),
        kind: CompletionKind::Keyword,
        detail: Some(detail.to_owned()),
        insert_text: None,
        plain_text: false,
        label_detail: None,
    };
    proof {
        lemma_entries_push(out@, e);
    }
    out.push(e);
}

/// The keyword entries, in the order of `keyword_table`.
pub fn static_keywords() -> (r: Vec<CompletionEntry>)
    ensures
        entries_view(r@) == keyword_table().map_values(|k: (Seq<char>, Seq<char>)| keyword_entry(k)),
{
    let mut out: Vec<CompletionEntry> = Vec::new();
    push_keyword(&mut out, "AND", "logic");
    push_keyword(&mut out, "OR", "logic");
    push_keyword(&mut out, "NOT", "logic");
    push_keyword(&mut out, "NOR", "logic");
    push_keyword(&mut out, "NAND", "logic");
    push_keyword(&mut out, "if", "conditional");
    push_keyword(&mut out, "else_if", "conditional");
    push_keyword(&mut out, "else", "conditional");
    push_keyword(&mut out, "trigger_if", "conditional");
    push_keyword(&mut out, "trigger_else_if", "conditional");
    push_keyword(&mut out, "trigger_else", "conditional");
    push_keyword(&mut out, "switch", "conditional");
    push_keyword(&mut out, "limit", "block");
    push_keyword(&mut out, "trigger", "block");
    push_keyword(&mut out, "effect", "block");
    push_keyword(&mut out, "option", "block");
    push_keyword(&mut out, "immediate", "block");
    push_keyword(&mut out, "after", "block");
    push_keyword(&mut out, "modifier", "block");
    push_keyword(&mut out, "on_accept", "block");
    push_keyword(&mut out, "on_decline", "block");
    push_keyword(&mut out, "on_pass", "block");
    push_keyword(&mut out, "on_fail", "block");
    push_keyword(&mut out, "ai_chance", "block");
    push_keyword(&mut out, "yes", "value");
    push_keyword(&mut out, "no", "value");
    proof {
        assert(entries_view(out@) =~= keyword_table().map_values(|k: (Seq<char>, Seq<char>)| keyword_entry(k)));
    }
    out
}

// ─── Engine built-ins ────────────────────────────────────────────────────────

pub open spec fn kind_word(k: EntryKind) -> Seq<char> {
    match k {
        EntryKind::Trigger => "trigger"@,
        EntryKind::Effect => "effect"@,
        EntryKind::Iterator => "iterator"@,
    }
}

/// `label = `: the text inserted for an item written as `item = value`.
pub open spec fn assignment(label: Seq<char>) -> Seq<char> {
    label + " = "@
}

pub open spec fn builtin_entry(e: LspEntry) -> EntryView {
    (e.name@, CompletionKind::Keyword, Some(kind_word(e.kind)), Some(assignment(e.name@)), true, None)
}

fn assignment_text(label: &str) -> (r: String)
    ensures
        r@ == assignment(label@),
{
    let mut s = label.to_owned();
    let tail = chars_of(" = ");
    push_chars(&mut s, tail.as_slice());
    s
}

fn kind_text(k: EntryKind) -> (r: String)
    ensures
        r@ == kind_word(k),
{
    match k {
        EntryKind::Trigger => "trigger".to_owned(),
        EntryKind::Effect => "effect".to_owned(),
        EntryKind::Iterator => "iterator".to_owned(),
    }
}

/// An entry for each engine built-in, inserting `name = `.
pub fn builtin_completions(entries: &[LspEntry]) -> (r: Vec<CompletionEntry>)
    ensures
        entries_view(r@) == entries@.map_values(|e: LspEntry| builtin_entry(e)),
{
    let mut out: Vec<CompletionEntry> = Vec::new();
    let mut i: usize = 0;
    while i < entries.len()
        invariant
            i <= entries@.len(),
            entries_view(out@) == entries@.take(i as int).map_values(|e: LspEntry| builtin_entry(e)),
        decreases entries@.len() - i,
    {
        let e = &entries[i];
        let c = CompletionEntry {
            label: e.name.clone(),
            kind: CompletionKind::Keyword,
            detail: Some(kind_text(e.kind)),
            insert_text: Some(assignment_text(e.name.as_str())),
            plain_text: true,
            label_detail: None,
        };
        proof {
            lemma_entries_push(out@, c);
            assert(entries@.take(i + 1).map_values(|e: LspEntry| builtin_entry(e)) =~= entries@.take(
                i as int,
            ).map_values(|e: LspEntry| builtin_entry(e)).push(builtin_entry(*e)));
        }
        out.push(c);
        i += 1;
    }
    proof {
        assert(entries@.take(entries@.len() as int) =~= entries@);
    }
    out
}

// ─── @variables ──────────────────────────────────────────────────────────────

/// End of the variable name in `rest`: the first `=` or blank, or the end.
pub open spec fn name_end(rest: Seq<char>) -> nat
    decreases rest.len(),
{
    if rest.len() == 0 || rest[0] == '=' || is_ws(rest[0]) {
        0
    } else {
        1 + name_end(rest.drop_first())
    }
}

/// The name a line defines as `@name = value`, if it defines one.
pub open spec fn variable_name(line: Seq<char>) -> Option<Seq<char>> {
    let t = trim_start(line);
    if t.len() == 0 || t[0] != '@' {
        None
    } else {
        let rest = t.drop_first();
        if rest.len() > 0 && (rest[0] == '[' || rest[0] == ':') {
            None
        } else {
            let n = name_end(rest);
            if n == 0 {
                None
            } else {
                Some(rest.take(n as int))
            }
        }
    }
}

proof fn lemma_name_end(rest: Seq<char>, k: int)
    requires
        0 <= k <= rest.len(),
        forall|j: int| 0 <= j < k ==> rest[j] != '=' && !is_ws(#[trigger] rest[j]),
        k == rest.len() || rest[k] == '=' || is_ws(rest[k]),
    ensures
        name_end(rest) == k,
    decreases k,
{
    if k > 0 {
        let t = rest.drop_first();
        assert forall|j: int| 0 <= j < k - 1 implies t[j] != '=' && !is_ws(#[trigger] t[j]) by {
            assert(t[j] == rest[j + 1]);
        }
        assert(rest[0] != '=' && !is_ws(rest[0]));
        lemma_name_end(t, k - 1);
    }
}

/// `variable_name`, as the bounds of the name inside `line`.
fn variable_bounds(line: &[char]) -> (r: Option<(usize, usize)>)
    ensures
        match r {
            Some((a, b)) => a <= b <= line@.len() && variable_name(line@) == Some(line@.subrange(a as int, b as int)),
            None => variable_name(line@) is None,
        },
{
    let n = line.len();
    let a = skip_ws(line, 0, n);
    proof {
        assert(line@.subrange(0, n as int) =~= line@);
        lemma_lead_ws_bound(line@);
    }
    let ghost t = trim_start(line@);
    proof {
        assert(t =~= line@.skip(a as int));
    }
    if a >= n || line[a] != '@' {
        proof {
            if a < n {
                assert(t[0] == line@[a as int]);
            }
        }
        return None;
    }
    proof {
        assert(t[0] == line@[a as int]);
    }
    let s = a + 1;
    let ghost rest = t.drop_first();
    proof {
        assert(rest =~= line@.skip(s as int));
    }
    if s < n && (line[s] == '[' || line[s] == ':') {
        proof {
            assert(rest[0] == line@[s as int]);
        }
        return None;
    }
    let mut e = s;
    while e < n && line[e] != '=' && !is_whitespace(line[e])
        invariant
            s <= e <= n,
            n == line@.len(),
            rest == line@.skip(s as int),
            forall|j: int| s <= j < e ==> line@[j] != '=' && !is_ws(#[trigger] line@[j]),
        decreases n - e,
    {
        e += 1;
    }
    proof {
        assert forall|j: int| 0 <= j < e - s implies rest[j] != '=' && !is_ws(#[trigger] rest[j]) by {
            assert(rest[j] == line@[s + j]);
        }
        if e < n {
            assert(rest[e - s] == line@[e as int]);
        }
        lemma_name_end(rest, e - s);
        assert(rest.take(e - s) =~= line@.subrange(s as int, e as int));
    }
    if e == s {
        None
    } else {
        Some((s, e))
    }
}

/// The name defined by a line `@name = value`, if any.
pub fn parse_variable_def(line: &str) -> (r: Option<String>)
    ensures
        opt_view(r) == variable_name(line@),
{
    let cs = chars_of(line);
    match variable_bounds(cs.as_slice()) {
        Some((a, b)) => Some(string_of(cs.as_slice(), a, b)),
        None => None,
    }
}

/// `@name`.
pub open spec fn at_name(name: Seq<char>) -> Seq<char> {
    seq!['@'] + name
}

fn at_text(name: &[char]) -> (r: String)
    ensures
        r@ == at_name(name@),
{
    let mut s = String::new();
    push_char(&mut s, '@');
    push_chars(&mut s, name);
    proof {
        assert(s@ =~= at_name(name@));
    }
    s
}

/// The names defined by the lines of `ls` (`variable_name` of each, in order).
pub open spec fn defined_names(ls: Seq<Seq<char>>) -> Seq<Seq<char>>
    decreases ls.len(),
{
    if ls.len() == 0 {
        seq![]
    } else {
        let p = defined_names(ls.drop_last());
        match variable_name(ls.last()) {
            Some(n) => p.push(n),
            None => p,
        }
    }
}

pub open spec fn variable_entry(name: Seq<char>) -> EntryView {
    (at_name(name), CompletionKind::Variable, Some("variable"@), None, false, None)
}

/// The `@name = value` names of each line of `text`, in order.
pub fn variables_in_text(text: &str) -> (r: Vec<String>)
    ensures
        r@.map_values(|s: String| s@) == defined_names(lines_of(text@)),
{
    let cs = chars_of(text);
    let ls = split_lines(cs.as_slice());
    let ghost lsv = views(ls@);
    let mut out: Vec<String> = Vec::new();
    let mut i: usize = 0;
    proof {
        assert(lsv.take(0) =~= seq![]);
        assert(out@.map_values(|s: String| s@) =~= seq![]);
    }
    while i < ls.len()
        invariant
            lsv == views(ls@),
            lsv == lines_of(text@),
            i <= lsv.len(),
            out@.map_values(|s: String| s@) == defined_names(lsv.take(i as int)),
        decreases lsv.len() - i,
    {
        let line = ls[i].as_slice();
        proof {
            assert(line@ == lsv[i as int]);
            assert(lsv.take(i + 1).drop_last() =~= lsv.take(i as int));
        }
        let ghost prev = out@.map_values(|s: String| s@);
        match variable_bounds(line) {
            Some((a, b)) => {
                out.push(string_of(line, a, b));
                proof {
                    assert(out@.map_values(|s: String| s@) =~= prev.push(line@.subrange(a as int, b as int)));
                }
            },
            None => {},
        }
        i += 1;
    }
    proof {
        assert(lsv.take(lsv.len() as int) =~= lsv);
    }
    out
}

/// An entry `@name` for every `@name = value` line of `text`.
pub fn variable_completions(text: &str) -> (r: Vec<CompletionEntry>)
    ensures
        entries_view(r@) == defined_names(lines_of(text@)).map_values(|n: Seq<char>| variable_entry(n)),
{
    let names = variables_in_text(text);
    let ghost nv = names@.map_values(|s: String| s@);
    let mut out: Vec<CompletionEntry> = Vec::new();
    let mut i: usize = 0;
    while i < names.len()
        invariant
            i <= names@.len(),
            nv == names@.map_values(|s: String| s@),
            entries_view(out@) == nv.take(i as int).map_values(|n: Seq<char>| variable_entry(n)),
        decreases names@.len() - i,
    {
        let nc = chars_of(names[i].as_str());
        let c = CompletionEntry {
            label: at_text(nc.as_slice()),
            kind: CompletionKind::Variable,
            detail: Some("variable".to_owned()),
            insert_text: None,
            plain_text: false,
            label_detail: None,
        };
        proof {
            lemma_entries_push(out@, c);
            assert(nv[i as int] == names@[i as int]@);
            assert(nv.take(i + 1).map_values(|n: Seq<char>| variable_entry(n)) =~= nv.take(i as int).map_values(
                |n: Seq<char>| variable_entry(n),
            ).push(variable_entry(nv[i as int])));
        }
        out.push(c);
        i += 1;
    }
    proof {
        assert(nv.take(nv.len() as int) =~= nv);
    }
    out
}


// ─── Scripted items of a mod ─────────────────────────────────────────────────

/// Where a scripted item is defined: its name, file, 1-based line and what
/// it is (`scripted_effect`, `scripted_trigger`, `scripted_modifier`, `event`).
#[derive(Debug)]
pub struct DefEntry {
    pub name: String,
    pub path: String,
    pub line: u32,
    pub detail: String,
}

/// A `name = {` key found in a file, with its 1-based line.
#[derive(Debug)]
pub struct KeyLoc {
    pub name: String,
    pub path: String,
    pub line: u32,
}

/// Named items discovered by scanning a mod.
#[derive(Debug)]
pub struct ModItems {
    pub scripted_effects: Vec<String>,
    pub scripted_triggers: Vec<String>,
    pub scripted_modifiers: Vec<String>,
    pub events: Vec<String>,
    /// `@variable` names found across the script files of the mod.
    pub at_variables: Vec<String>,
    /// Where each item is defined; no name occurs twice.
    pub definitions: Vec<DefEntry>,
}

pub type DefView = (Seq<char>, Seq<char>, u32, Seq<char>);

pub open spec fn def_view(d: DefEntry) -> DefView {
    (d.name@, d.path@, d.line, d.detail@)
}

pub open spec fn defs_view(s: Seq<DefEntry>) -> Seq<DefView> {
    s.map_values(|d: DefEntry| def_view(d))
}

pub open spec fn names(s: Seq<String>) -> Seq<Seq<char>> {
    s.map_values(|x: String| x@)
}

/// The names of a list of definitions.
pub open spec fn def_names(s: Seq<DefView>) -> Seq<Seq<char>> {
    s.map_values(|d: DefView| d.0)
}

impl ModItems {
    /// No item is defined twice.
    pub open spec fn wf(&self) -> bool {
        def_names(defs_view(self.definitions@)).no_duplicates()
    }
}

pub open spec fn scripted_entry(label: Seq<char>, detail: Seq<char>) -> EntryView {
    (label, CompletionKind::Function, Some(detail), Some(assignment(label)), true, None)
}

pub open spec fn event_entry(label: Seq<char>) -> EntryView {
    (label, CompletionKind::Module, Some("event"@), None, true, None)
}

pub open spec fn at_variable_entry(name: Seq<char>) -> EntryView {
    (at_name(name), CompletionKind::Variable, Some("@variable"@), None, true, None)
}

pub open spec fn scripted_entries(ns: Seq<Seq<char>>, detail: Seq<char>) -> Seq<EntryView> {
    ns.map_values(|n: Seq<char>| scripted_entry(n, detail))
}

/// The completion entries of a mod's items: effects, triggers and modifiers
/// (inserting `name = `), then events, then `@variables`.
pub open spec fn mod_entries(m: ModItems) -> Seq<EntryView> {
    scripted_entries(names(m.scripted_effects@), "scripted_effect"@) + scripted_entries(
        names(m.scripted_triggers@),
        "scripted_trigger"@,
    ) + scripted_entries(names(m.scripted_modifiers@), "scripted_modifier"@) + names(m.events@).map_values(
        |n: Seq<char>| event_entry(n),
    ) + names(m.at_variables@).map_values(|n: Seq<char>| at_variable_entry(n))
}

/// Completion entry for a scripted trigger, effect or modifier.
pub fn scripted_item(label: String, detail: &str) -> (r: CompletionEntry)
    ensures
        entry_view(r) == scripted_entry(label@, detail@),
{
    let insert = assignment_text(label.as_str());
    CompletionEntry {
        label,
        kind: CompletionKind::Function,
        detail: Some(detail.to_owned()),
        insert_text: Some(insert),
        plain_text: true,
        label_detail: None,
    }
}

fn push_scripted(out: &mut Vec<CompletionEntry>, ns: Vec<String>, detail: &str)
    ensures
        entries_view(final(out)@) == entries_view(old(out)@) + scripted_entries(names(ns@), detail@),
{
    let ghost start = entries_view(out@);
    let ghost nv = names(ns@);
    let mut i: usize = 0;
    while i < ns.len()
        invariant
            i <= ns@.len(),
            nv == names(ns@),
            entries_view(out@) == start + scripted_entries(nv.take(i as int), detail@),
        decreases ns@.len() - i,
    {
        let c = scripted_item(ns[i].clone(), detail);
        proof {
            lemma_entries_push(out@, c);
            assert(scripted_entries(nv.take(i + 1), detail@) =~= scripted_entries(nv.take(i as int), detail@).push(
                scripted_entry(nv[i as int], detail@),
            ));
        }
        out.push(c);
        i += 1;
    }
    proof {
        assert(nv.take(nv.len() as int) =~= nv);
    }
}

fn push_events(out: &mut Vec<CompletionEntry>, ns: Vec<String>)
    ensures
        entries_view(final(out)@) == entries_view(old(out)@) + names(ns@).map_values(|n: Seq<char>| event_entry(n)),
{
    let ghost start = entries_view(out@);
    let ghost nv = names(ns@);
    let mut i: usize = 0;
    while i < ns.len()
        invariant
            i <= ns@.len(),
            nv == names(ns@),
            entries_view(out@) == start + nv.take(i as int).map_values(|n: Seq<char>| event_entry(n)),
        decreases ns@.len() - i,
    {
        let c = CompletionEntry {
            label: ns[i].clone(),
            kind: CompletionKind::Module,
            detail: Some("event".to_owned()),
            insert_text: None,
            plain_text: true,
            label_detail: None,
        };
        proof {
            lemma_entries_push(out@, c);
            assert(nv.take(i + 1).map_values(|n: Seq<char>| event_entry(n)) =~= nv.take(i as int).map_values(
                |n: Seq<char>| event_entry(n),
            ).push(event_entry(nv[i as int])));
        }
        out.push(c);
        i += 1;
    }
    proof {
        assert(nv.take(nv.len() as int) =~= nv);
    }
}

fn push_at_variables(out: &mut Vec<CompletionEntry>, ns: Vec<String>)
    ensures
        entries_view(final(out)@) == entries_view(old(out)@) + names(ns@).map_values(
            |n: Seq<char>| at_variable_entry(n),
        ),
{
    let ghost start = entries_view(out@);
    let ghost nv = names(ns@);
    let mut i: usize = 0;
    while i < ns.len()
        invariant
            i <= ns@.len(),
            nv == names(ns@),
            entries_view(out@) == start + nv.take(i as int).map_values(|n: Seq<char>| at_variable_entry(n)),
        decreases ns@.len() - i,
    {
        let nc = chars_of(ns[i].as_str());
        let c = CompletionEntry {
            label: at_text(nc.as_slice()),
            kind: CompletionKind::Variable,
            detail: Some("@variable".to_owned()),
            insert_text: None,
            plain_text: true,
            label_detail: None,
        };
        proof {
            lemma_entries_push(out@, c);
            assert(nv.take(i + 1).map_values(|n: Seq<char>| at_variable_entry(n)) =~= nv.take(i as int).map_values(
                |n: Seq<char>| at_variable_entry(n),
            ).push(at_variable_entry(nv[i as int])));
        }
        out.push(c);
        i += 1;
    }
    proof {
        assert(nv.take(nv.len() as int) =~= nv);
    }
}

impl ModItems {
    /// The completion entries of the items (see `mod_entries`).
    pub fn into_completion_items(self) -> (r: Vec<CompletionEntry>)
        ensures
            entries_view(r@) == mod_entries(self),
    {
        let ghost m = self;
        let mut out: Vec<CompletionEntry> = Vec::new();
        proof {
            assert(entries_view(out@) =~= seq![]);
        }
        push_scripted(&mut out, self.scripted_effects, "scripted_effect");
        push_scripted(&mut out, self.scripted_triggers, "scripted_trigger");
        push_scripted(&mut out, self.scripted_modifiers, "scripted_modifier");
        push_events(&mut out, self.events);
        push_at_variables(&mut out, self.at_variables);
        proof {
            assert(entries_view(out@) =~= mod_entries(m));
        }
        out
    }
}


// ─── Keys and definitions ────────────────────────────────────────────────────

pub type KeyView = (Seq<char>, Seq<char>, u32);

pub open spec fn key_view(k: KeyLoc) -> KeyView {
    (k.name@, k.path@, k.line)
}

pub open spec fn keys_view(s: Seq<KeyLoc>) -> Seq<KeyView> {
    s.map_values(|k: KeyLoc| key_view(k))
}

/// The `name = {` keys among the first `i` lines, with 1-based line numbers.
pub open spec fn keys_upto(ls: Seq<Seq<char>>, path: Seq<char>, i: int) -> Seq<KeyView>
    decreases i,
{
    if i <= 0 {
        seq![]
    } else {
        let p = keys_upto(ls, path, i - 1);
        match top_level_key_spec(ls[i - 1]) {
            Some(k) => p.push((k, path, i as u32)),
            None => p,
        }
    }
}

/// The `name = {` keys at column 0 of the file `path` whose text is `text`.
pub fn keys_in_text(text: &str, path: &str) -> (r: Vec<KeyLoc>)
    ensures
        keys_view(r@) == keys_upto(lines_of(text@), path@, lines_of(text@).len() as int),
{
    let cs = chars_of(text);
    let ls = split_lines(cs.as_slice());
    let ghost lsv = views(ls@);
    let mut out: Vec<KeyLoc> = Vec::new();
    let mut i: usize = 0;
    proof {
        assert(keys_view(out@) =~= seq![]);
    }
    while i < ls.len()
        invariant
            lsv == views(ls@),
            lsv == lines_of(text@),
            i <= lsv.len(),
            keys_view(out@) == keys_upto(lsv, path@, i as int),
        decreases lsv.len() - i,
    {
        let line = ls[i].as_slice();
        proof {
            assert(line@ == lsv[i as int]);
        }
        let ghost prev = keys_view(out@);
        match key_len(line) {
            Some(n) => {
                let k = KeyLoc {
                    name: string_of(line, 0, n),
                    path: path.to_owned(),
                    line: #[verifier::truncate] ((i as u64 + 1) as u32),
                };
                out.push(k);
                proof {
                    assert(line@.take(n as int) =~= line@.subrange(0, n as int));
                    assert(keys_view(out@) =~= prev.push(key_view(k)));
                }
            },
            None => {},
        }
        i += 1;
    }
    out
}

/// An event id: a key with a `.` in it.
pub open spec fn is_event_id(k: Seq<char>) -> bool {
    k.contains('.')
}

/// Definitions gained from `new`, in order, where a name already defined
/// keeps its first definition.
pub open spec fn add_new(acc: Seq<DefView>, new: Seq<DefView>) -> Seq<DefView>
    decreases new.len(),
{
    if new.len() == 0 {
        acc
    } else {
        let p = add_new(acc, new.drop_last());
        if def_names(p).contains(new.last().0) {
            p
        } else {
            p.push(new.last())
        }
    }
}

pub open spec fn as_defs(keys: Seq<KeyView>, detail: Seq<char>) -> Seq<DefView> {
    keys.map_values(|k: KeyView| (k.0, k.1, k.2, detail))
}

pub open spec fn event_keys(keys: Seq<KeyView>) -> Seq<KeyView> {
    keys.filter(|k: KeyView| is_event_id(k.0))
}

pub open spec fn key_names(keys: Seq<KeyView>) -> Seq<Seq<char>> {
    keys.map_values(|k: KeyView| k.0)
}

fn has_def(defs: &Vec<DefEntry>, name: &String) -> (b: bool)
    ensures
        b == def_names(defs_view(defs@)).contains(name@),
{
    let ghost dn = def_names(defs_view(defs@));
    let mut k: usize = 0;
    while k < defs.len()
        invariant
            k <= defs@.len(),
            dn == def_names(defs_view(defs@)),
            forall|m: int| 0 <= m < k ==> dn[m] != name@,
        decreases defs@.len() - k,
    {
        if defs[k].name == *name {
            proof {
                assert(dn[k as int] == name@);
            }
            return true;
        }
        k += 1;
    }
    false
}

proof fn lemma_push_def(s: Seq<DefEntry>, d: DefEntry)
    ensures
        defs_view(s.push(d)) == defs_view(s).push(def_view(d)),
        def_names(defs_view(s.push(d))) == def_names(defs_view(s)).push(d.name@),
{
    assert(defs_view(s.push(d)) =~= defs_view(s).push(def_view(d)));
    assert(def_names(defs_view(s.push(d))) =~= def_names(defs_view(s)).push(d.name@));
}

/// Add the definitions of `keys` (as `detail`) whose names are not yet defined.
fn add_key_defs(defs: &mut Vec<DefEntry>, keys: &Vec<KeyLoc>, detail: &str)
    ensures
        defs_view(final(defs)@) == add_new(defs_view(old(defs)@), as_defs(keys_view(keys@), detail@)),
{
    let ghost start = defs_view(defs@);
    let ghost kv = as_defs(keys_view(keys@), detail@);
    let mut i: usize = 0;
    proof {
        assert(kv.take(0) =~= seq![]);
    }
    while i < keys.len()
        invariant
            i <= keys@.len(),
            kv == as_defs(keys_view(keys@), detail@),
            defs_view(defs@) == add_new(start, kv.take(i as int)),
        decreases keys@.len() - i,
    {
        let k = &keys[i];
        proof {
            assert(kv.take(i + 1).drop_last() =~= kv.take(i as int));
            assert(kv.take(i + 1).last() == (k.name@, k.path@, k.line, detail@));
        }
        if !has_def(defs, &k.name) {
            let d = DefEntry { name: k.name.clone(), path: k.path.clone(), line: k.line, detail: detail.to_owned() };
            proof {
                lemma_push_def(defs@, d);
            }
            defs.push(d);
        }
        i += 1;
    }
    proof {
        assert(kv.take(kv.len() as int) =~= kv);
    }
}

/// Add the definitions of `new` whose names are not yet defined.
fn add_defs(defs: &mut Vec<DefEntry>, new: Vec<DefEntry>)
    ensures
        defs_view(final(defs)@) == add_new(defs_view(old(defs)@), defs_view(new@)),
{
    let ghost start = defs_view(defs@);
    let ghost nv = defs_view(new@);
    let mut i: usize = 0;
    proof {
        assert(nv.take(0) =~= seq![]);
    }
    while i < new.len()
        invariant
            i <= new@.len(),
            nv == defs_view(new@),
            defs_view(defs@) == add_new(start, nv.take(i as int)),
        decreases new@.len() - i,
    {
        let d = &new[i];
        proof {
            assert(nv.take(i + 1).drop_last() =~= nv.take(i as int));
            assert(nv.take(i + 1).last() == def_view(*d));
        }
        if !has_def(defs, &d.name) {
            let e = DefEntry { name: d.name.clone(), path: d.path.clone(), line: d.line, detail: d.detail.clone() };
            proof {
                lemma_push_def(defs@, e);
            }
            defs.push(e);
        }
        i += 1;
    }
    proof {
        assert(nv.take(nv.len() as int) =~= nv);
    }
}

fn key_names_of(keys: &Vec<KeyLoc>) -> (r: Vec<String>)
    ensures
        names(r@) == key_names(keys_view(keys@)),
{
    let mut out: Vec<String> = Vec::new();
    let mut i: usize = 0;
    while i < keys.len()
        invariant
            i <= keys@.len(),
            names(out@) == key_names(keys_view(keys@.take(i as int))),
        decreases keys@.len() - i,
    {
        let ghost prev = names(out@);
        out.push(keys[i].name.clone());
        proof {
            assert(names(out@) =~= prev.push(keys@[i as int].name@));
            assert(key_names(keys_view(keys@.take(i + 1))) =~= key_names(keys_view(keys@.take(i as int))).push(
                keys@[i as int].name@,
            ));
        }
        i += 1;
    }
    proof {
        assert(keys@.take(keys@.len() as int) =~= keys@);
    }
    out
}

fn has_dot(s: &String) -> (b: bool)
    ensures
        b == is_event_id(s@),
{
    let cs = chars_of(s.as_str());
    let mut i: usize = 0;
    while i < cs.len()
        invariant
            i <= cs@.len(),
            cs@ == s@,
            forall|m: int| 0 <= m < i ==> cs@[m] != '.',
        decreases cs@.len() - i,
    {
        if cs[i] == '.' {
            proof {
                assert(s@[i as int] == '.');
            }
            return true;
        }
        i += 1;
    }
    false
}

/// The keys whose names are event ids, in order.
fn event_keys_of(keys: Vec<KeyLoc>) -> (r: Vec<KeyLoc>)
    ensures
        keys_view(r@) == event_keys(keys_view(keys@)),
{
    let ghost kv = keys_view(keys@);
    let ghost pf = |k: KeyView| is_event_id(k.0);
    let mut out: Vec<KeyLoc> = Vec::new();
    let mut i: usize = 0;
    proof {
        assert(kv.take(0).filter(pf) =~= seq![]);
        assert(keys_view(out@) =~= seq![]);
    }
    while i < keys.len()
        invariant
            i <= keys@.len(),
            kv == keys_view(keys@),
            pf == (|k: KeyView| is_event_id(k.0)),
            keys_view(out@) == kv.take(i as int).filter(pf),
        decreases keys@.len() - i,
    {
        let k = &keys[i];
        proof {
            assert(kv.take(i + 1) =~= kv.take(i as int).push(key_view(*k)));
            kv.take(i as int).lemma_filter_push(key_view(*k), pf);
        }
        let ghost prev = keys_view(out@);
        if has_dot(&k.name) {
            let c = KeyLoc { name: k.name.clone(), path: k.path.clone(), line: k.line };
            out.push(c);
            proof {
                assert(keys_view(out@) =~= prev.push(key_view(c)));
            }
        }
        i += 1;
    }
    proof {
        assert(kv.take(kv.len() as int) =~= kv);
    }
    out
}

/// The items of one mod, from the keys found under `common/scripted_effects`,
/// `common/scripted_triggers`, `common/scripted_modifiers` and `events` (of
/// which only event ids count) and the `@variables` of its script files.
/// An item defined more than once keeps its first definition, effects first,
/// then triggers, modifiers and events.
pub fn single_mod_items(
    effects: Vec<KeyLoc>,
    triggers: Vec<KeyLoc>,
    modifiers: Vec<KeyLoc>,
    event_dir_keys: Vec<KeyLoc>,
    at_variables: Vec<String>,
) -> (r: ModItems)
    ensures
        r.wf(),
        names(r.scripted_effects@) == key_names(keys_view(effects@)),
        names(r.scripted_triggers@) == key_names(keys_view(triggers@)),
        names(r.scripted_modifiers@) == key_names(keys_view(modifiers@)),
        names(r.events@) == key_names(event_keys(keys_view(event_dir_keys@))),
        names(r.at_variables@) == names(at_variables@),
        defs_view(r.definitions@) == add_new(
            add_new(
                add_new(
                    add_new(seq![], as_defs(keys_view(effects@), "scripted_effect"@)),
                    as_defs(keys_view(triggers@), "scripted_trigger"@),
                ),
                as_defs(keys_view(modifiers@), "scripted_modifier"@),
            ),
            as_defs(event_keys(keys_view(event_dir_keys@)), "event"@),
        ),
{
    let events = event_keys_of(event_dir_keys);
    let mut definitions: Vec<DefEntry> = Vec::new();
    proof {
        assert(defs_view(definitions@) =~= seq![]);
    }
    add_key_defs(&mut definitions, &effects, "scripted_effect");
    add_key_defs(&mut definitions, &triggers, "scripted_trigger");
    add_key_defs(&mut definitions, &modifiers, "scripted_modifier");
    add_key_defs(&mut definitions, &events, "event");
    proof {
        lemma_add_new_distinct(
            seq![],
            as_defs(keys_view(effects@), "scripted_effect"@),
        );
        lemma_add_new_distinct(
            add_new(seq![], as_defs(keys_view(effects@), "scripted_effect"@)),
            as_defs(keys_view(triggers@), "scripted_trigger"@),
        );
        lemma_add_new_distinct(
            add_new(
                add_new(seq![], as_defs(keys_view(effects@), "scripted_effect"@)),
                as_defs(keys_view(triggers@), "scripted_trigger"@),
            ),
            as_defs(keys_view(modifiers@), "scripted_modifier"@),
        );
        lemma_add_new_distinct(
            add_new(
                add_new(
                    add_new(seq![], as_defs(keys_view(effects@), "scripted_effect"@)),
                    as_defs(keys_view(triggers@), "scripted_trigger"@),
                ),
                as_defs(keys_view(modifiers@), "scripted_modifier"@),
            ),
            as_defs(keys_view(events@), "event"@),
        );
    }
    ModItems {
        scripted_effects: key_names_of(&effects),
        scripted_triggers: key_names_of(&triggers),
        scripted_modifiers: key_names_of(&modifiers),
        events: key_names_of(&events),
        at_variables,
        definitions,
    }
}

/// Adding only names not yet defined keeps names distinct, keeps what was
/// there as a prefix, and defines every name of `new`.
pub proof fn lemma_add_new_distinct(acc: Seq<DefView>, new: Seq<DefView>)
    ensures
        def_names(acc).no_duplicates() ==> def_names(add_new(acc, new)).no_duplicates(),
        acc.len() <= add_new(acc, new).len(),
        add_new(acc, new).take(acc.len() as int) == acc,
        forall|i: int| 0 <= i < new.len() ==> def_names(add_new(acc, new)).contains(#[trigger] new[i].0),
        forall|x: Seq<char>|
            #[trigger] def_names(add_new(acc, new)).contains(x) ==> def_names(acc).contains(x) || key_names_of_defs(
                new,
            ).contains(x),
    decreases new.len(),
{
    if new.len() > 0 {
        let t = new.drop_last();
        let l = new.last();
        let p = add_new(acc, t);
        lemma_add_new_distinct(acc, t);
        if !def_names(p).contains(l.0) {
            assert(def_names(p.push(l)) =~= def_names(p).push(l.0));
            assert(p.push(l).take(acc.len() as int) =~= p.take(acc.len() as int));
            if def_names(acc).no_duplicates() {
                assert forall|i: int, j: int|
                    0 <= i < j < def_names(p.push(l)).len() implies def_names(p.push(l))[i] != def_names(
                    p.push(l),
                )[j] by {
                    assert(def_names(p)[i] == def_names(p.push(l))[i]);
                    if j == p.len() {
                        assert(!def_names(p).contains(l.0));
                    } else {
                        assert(def_names(p)[j] == def_names(p.push(l))[j]);
                    }
                }
            }
        }
        let r = add_new(acc, new);
        assert forall|i: int| 0 <= i < new.len() implies def_names(r).contains(#[trigger] new[i].0) by {
            if i < t.len() {
                assert(t[i] == new[i]);
                assert(def_names(p).contains(t[i].0));
                let m = choose|m: int| 0 <= m < def_names(p).len() && def_names(p)[m] == t[i].0;
                if !def_names(p).contains(l.0) {
                    assert(def_names(r)[m] == t[i].0);
                }
            } else {
                if !def_names(p).contains(l.0) {
                    assert(def_names(r)[p.len() as int] == l.0);
                }
            }
        }
        assert forall|x: Seq<char>| #[trigger] def_names(r).contains(x) implies def_names(acc).contains(x)
            || key_names_of_defs(new).contains(x) by {
            if def_names(p).contains(x) {
                if key_names_of_defs(t).contains(x) {
                    let m = choose|m: int| 0 <= m < t.len() && key_names_of_defs(t)[m] == x;
                    assert(key_names_of_defs(new)[m] == x);
                }
            } else {
                assert(x == l.0);
                assert(key_names_of_defs(new)[new.len() - 1] == x);
            }
        }
    }
}

pub open spec fn key_names_of_defs(s: Seq<DefView>) -> Seq<Seq<char>> {
    def_names(s)
}


// ─── Merging the mods ────────────────────────────────────────────────────────

/// One of the name lists of `m`: 0 effects, 1 triggers, 2 modifiers,
/// 3 events, 4 `@variables`.
pub open spec fn field(m: ModItems, f: int) -> Seq<Seq<char>> {
    if f == 0 {
        names(m.scripted_effects@)
    } else if f == 1 {
        names(m.scripted_triggers@)
    } else if f == 2 {
        names(m.scripted_modifiers@)
    } else if f == 3 {
        names(m.events@)
    } else {
        names(m.at_variables@)
    }
}

/// List `f` of every source, one after the other.
pub open spec fn all_of(srcs: Seq<ModItems>, f: int) -> Seq<Seq<char>>
    decreases srcs.len(),
{
    if srcs.len() == 0 {
        seq![]
    } else {
        all_of(srcs.drop_last(), f) + field(srcs.last(), f)
    }
}

/// `base` extended by the definitions of each source in turn; a name keeps
/// its first definition.
pub open spec fn merged_defs(base: Seq<DefView>, srcs: Seq<ModItems>) -> Seq<DefView>
    decreases srcs.len(),
{
    if srcs.len() == 0 {
        base
    } else {
        add_new(merged_defs(base, srcs.drop_last()), defs_view(srcs.last().definitions@))
    }
}

/// The mod's own definitions take precedence: merging in the definitions of
/// its dependencies and of the game keeps the mod's definitions first and
/// unchanged, only adds names not defined yet, and defines no name twice.
pub proof fn mod_definitions_take_precedence(base: Seq<DefView>, srcs: Seq<ModItems>)
    ensures
        base.len() <= merged_defs(base, srcs).len(),
        merged_defs(base, srcs).take(base.len() as int) == base,
        def_names(base).no_duplicates() ==> def_names(merged_defs(base, srcs)).no_duplicates(),
    decreases srcs.len(),
{
    if srcs.len() > 0 {
        mod_definitions_take_precedence(base, srcs.drop_last());
        let m = merged_defs(base, srcs.drop_last());
        lemma_add_new_distinct(m, defs_view(srcs.last().definitions@));
        let r = merged_defs(base, srcs);
        assert(r.take(base.len() as int) =~= r.take(m.len() as int).take(base.len() as int));
    } else {
        assert(base.take(base.len() as int) =~= base);
    }
}

/// Append the lists of `src` to those of `dst`, and add its definitions of
/// names `dst` does not define yet (the definitions already in `dst` win).
pub fn merge_items(dst: &mut ModItems, src: ModItems)
    ensures
        forall|f: int| #[trigger] field(*final(dst), f) == field(*old(dst), f) + field(src, f),
        defs_view(final(dst).definitions@) == add_new(defs_view(old(dst).definitions@), defs_view(src.definitions@)),
        old(dst).wf() ==> final(dst).wf(),
{
    let mut src = src;
    let ghost s0 = src;
    dst.scripted_effects.append(&mut src.scripted_effects);
    dst.scripted_triggers.append(&mut src.scripted_triggers);
    dst.scripted_modifiers.append(&mut src.scripted_modifiers);
    dst.events.append(&mut src.events);
    dst.at_variables.append(&mut src.at_variables);
    add_defs(&mut dst.definitions, src.definitions);
    proof {
        lemma_add_new_distinct(defs_view(old(dst).definitions@), defs_view(s0.definitions@));
        assert forall|f: int| #[trigger] field(*dst, f) == field(*old(dst), f) + field(s0, f) by {
            assert(names(dst.scripted_effects@) =~= names(old(dst).scripted_effects@) + names(s0.scripted_effects@));
            assert(names(dst.scripted_triggers@) =~= names(old(dst).scripted_triggers@) + names(
                s0.scripted_triggers@,
            ));
            assert(names(dst.scripted_modifiers@) =~= names(old(dst).scripted_modifiers@) + names(
                s0.scripted_modifiers@,
            ));
            assert(names(dst.events@) =~= names(old(dst).events@) + names(s0.events@));
            assert(names(dst.at_variables@) =~= names(old(dst).at_variables@) + names(s0.at_variables@));
        }
    }
}

/// Sort each name list and drop repeated names; definitions stay as they are.
pub fn dedup_items(items: &mut ModItems)
    ensures
        forall|f: int| 0 <= f < 5 ==> sorted_set_of(#[trigger] field(*final(items), f), field(*old(items), f)),
        final(items).definitions@ == old(items).definitions@,
{
    items.scripted_effects = sort_dedup(&items.scripted_effects);
    items.scripted_triggers = sort_dedup(&items.scripted_triggers);
    items.scripted_modifiers = sort_dedup(&items.scripted_modifiers);
    items.events = sort_dedup(&items.events);
    items.at_variables = sort_dedup(&items.at_variables);
    proof {
        assert forall|f: int| 0 <= f < 5 implies sorted_set_of(#[trigger] field(*items, f), field(*old(items), f)) by {
            assert(names(items.scripted_effects@) == string_seq(items.scripted_effects@));
            assert(names(old(items).scripted_effects@) == string_seq(old(items).scripted_effects@));
            assert(names(items.scripted_triggers@) == string_seq(items.scripted_triggers@));
            assert(names(old(items).scripted_triggers@) == string_seq(old(items).scripted_triggers@));
            assert(names(items.scripted_modifiers@) == string_seq(items.scripted_modifiers@));
            assert(names(old(items).scripted_modifiers@) == string_seq(old(items).scripted_modifiers@));
            assert(names(items.events@) == string_seq(items.events@));
            assert(names(old(items).events@) == string_seq(old(items).events@));
            assert(names(items.at_variables@) == string_seq(items.at_variables@));
            assert(names(old(items).at_variables@) == string_seq(old(items).at_variables@));
        }
    }
}

pub open spec fn option_seq(o: Option<ModItems>) -> Seq<ModItems> {
    match o {
        Some(m) => seq![m],
        None => seq![],
    }
}

/// All the items of a mod: those of the mod itself, then of its dependencies
/// in order, then of the game. Each name list holds every name found, sorted
/// and once each; a scripted item keeps its first definition, so the mod's
/// own definitions win over those of dependencies and the game.
pub fn scan_mod_items(primary: ModItems, dependencies: Vec<ModItems>, game: Option<ModItems>) -> (r: ModItems)
    ensures
        forall|f: int|
            0 <= f < 5 ==> sorted_set_of(
                #[trigger] field(r, f),
                all_of(seq![primary] + dependencies@ + option_seq(game), f),
            ),
        defs_view(r.definitions@) == merged_defs(
            defs_view(primary.definitions@),
            dependencies@ + option_seq(game),
        ),
        primary.wf() ==> r.wf(),
{
    let ghost deps0 = dependencies@;
    let ghost p0 = primary;
    let n0 = dependencies.len();
    let mut items = primary;
    let mut deps = dependencies;
    let mut k: usize = 0;
    proof {
        assert forall|f: int| #[trigger] field(items, f) == all_of(seq![p0] + deps0.take(0), f) by {
            assert(seq![p0] + deps0.take(0) =~= seq![p0]);
            assert(all_of(seq![p0], f) =~= field(p0, f)) by {
                assert(seq![p0].drop_last() =~= Seq::<ModItems>::empty());
                assert(seq![p0].last() == p0);
                assert(all_of(Seq::<ModItems>::empty(), f) == Seq::<Seq<char>>::empty());
            }
        }
        assert(deps0.take(0) =~= seq![]);
        assert(deps@ =~= deps0.skip(0));
    }
    while deps.len() > 0
        invariant
            k <= deps0.len(),
            deps0.len() == n0,
            deps@ == deps0.skip(k as int),
            forall|f: int| #[trigger] field(items, f) == all_of(seq![p0] + deps0.take(k as int), f),
            defs_view(items.definitions@) == merged_defs(defs_view(p0.definitions@), deps0.take(k as int)),
            p0.wf() ==> items.wf(),
        decreases deps@.len(),
    {
        let d = deps.remove(0);
        proof {
            assert(k < deps0.len());
            assert(d == deps0[k as int]);
            let a = seq![p0] + deps0.take(k + 1);
            assert(a.drop_last() =~= seq![p0] + deps0.take(k as int));
            assert(a.last() == d);
            assert(deps0.take(k + 1).drop_last() =~= deps0.take(k as int));
            assert(deps0.take(k + 1).last() == d);
        }
        merge_items(&mut items, d);
        k += 1;
        proof {
            assert(deps@ =~= deps0.skip(k as int));
        }
    }
    proof {
        assert(deps0.take(k as int) =~= deps0);
    }
    let ghost game0 = game;
    match game {
        Some(g) => {
            merge_items(&mut items, g);
        },
        None => {},
    }
    proof {
        let all = seq![p0] + deps0 + option_seq(game0);
        match game0 {
            Some(g) => {
                assert(all.drop_last() =~= seq![p0] + deps0);
                assert((deps0 + option_seq(game0)).drop_last() =~= deps0);
            },
            None => {
                assert(all =~= seq![p0] + deps0);
                assert(deps0 + option_seq(game0) =~= deps0);
            },
        }
    }
    dedup_items(&mut items);
    items
}


// ─── load_mod blocks of the tiger configuration ──────────────────────────────

/// Whether `t` starts with `p`.
pub open spec fn starts_with(t: Seq<char>, p: Seq<char>) -> bool {
    p.len() <= t.len() && t.take(p.len() as int) == p
}

/// What follows `key` and then `=` at the start of a line (blanks before
/// each skipped), if the line is such an assignment.
pub open spec fn after_key_eq(line: Seq<char>, key: Seq<char>) -> Option<Seq<char>> {
    let r0 = trim_start(line);
    if !starts_with(r0, key) {
        None
    } else {
        let r1 = trim_start(r0.skip(key.len() as int));
        if r1.len() == 0 || r1[0] != '=' {
            None
        } else {
            Some(r1.skip(1))
        }
    }
}

/// A value without surrounding blanks, `#` comment and one pair of quotes;
/// an empty value is no value.
pub open spec fn clean_value(rest: Seq<char>) -> Option<Seq<char>> {
    let r2 = trim(rest);
    let r3 = trim(r2.take(first_of(r2, '#') as int));
    let v = if r3.len() >= 2 && r3[0] == '"' && r3.last() == '"' {
        r3.subrange(1, r3.len() - 1)
    } else {
        r3
    };
    if v.len() == 0 {
        None
    } else {
        Some(v)
    }
}

/// The value of a line `key = value` or `key = "value"`.
pub open spec fn extract_value_spec(line: Seq<char>, key: Seq<char>) -> Option<Seq<char>> {
    match after_key_eq(line, key) {
        Some(rest) => clean_value(rest),
        None => None,
    }
}

/// Where the text after `key =` starts in `l`, if `l` is such an assignment.
fn after_key_eq_at(l: &[char], key: &[char]) -> (r: Option<usize>)
    ensures
        match r {
            Some(s) => s <= l@.len() && after_key_eq(l@, key@) == Some(l@.subrange(s as int, l@.len() as int)),
            None => after_key_eq(l@, key@) is None,
        },
{
    let n = l.len();
    let a = skip_ws(l, 0, n);
    proof {
        assert(l@.subrange(0, n as int) =~= l@);
    }
    let ghost r0 = trim_start(l@);
    proof {
        assert(r0 =~= l@.subrange(a as int, n as int));
    }
    if key.len() > n - a || !prefix_at(l, a, key) {
        proof {
            if key.len() <= n - a {
                assert(r0.take(key@.len() as int) =~= l@.subrange(a as int, a + key@.len()));
            }
        }
        return None;
    }
    proof {
        assert(r0.take(key@.len() as int) =~= l@.subrange(a as int, a + key@.len()));
    }
    let s1 = a + key.len();
    let b = skip_ws(l, s1, n);
    let ghost r1 = trim_start(r0.skip(key@.len() as int));
    proof {
        assert(r0.skip(key@.len() as int) =~= l@.subrange(s1 as int, n as int));
        assert(r1 =~= l@.subrange(b as int, n as int));
    }
    if b >= n || l[b] != '=' {
        proof {
            if b < n {
                assert(r1[0] == l@[b as int]);
            }
        }
        return None;
    }
    proof {
        assert(r1[0] == l@[b as int]);
        assert(r1.skip(1) =~= l@.subrange(b + 1, n as int));
    }
    Some(b + 1)
}

/// `clean_value(l[from..])`, as bounds inside `l`.
fn clean_value_at(l: &[char], from: usize) -> (r: Option<(usize, usize)>)
    requires
        from <= l@.len(),
    ensures
        match r {
            Some((a, b)) => a <= b <= l@.len() && clean_value(l@.subrange(from as int, l@.len() as int)) == Some(
                l@.subrange(a as int, b as int),
            ),
            None => clean_value(l@.subrange(from as int, l@.len() as int)) is None,
        },
{
    let n = l.len();
    let (c, d) = trim_bounds(l, from, n);
    let ghost r2 = trim(l@.subrange(from as int, n as int));
    proof {
        assert(r2 == l@.subrange(c as int, d as int));
    }
    let h = match find_char(l, c, d, '#') {
        Some(x) => x,
        None => d,
    };
    proof {
        assert forall|j: int| 0 <= j < h - c implies #[trigger] r2[j] != '#' by {
            assert(r2[j] == l@[c + j]);
        }
        if h < d {
            assert(r2[h - c] == l@[h as int]);
        }
        lemma_first_of(r2, '#', h - c);
        assert(r2.take(h - c) =~= l@.subrange(c as int, h as int));
    }
    let (e, f) = trim_bounds(l, c, h);
    let ghost r3 = trim(r2.take(first_of(r2, '#') as int));
    proof {
        assert(r3 == l@.subrange(e as int, f as int));
    }
    if f - e >= 2 && l[e] == '"' && l[f - 1] == '"' {
        proof {
            assert(r3[0] == l@[e as int]);
            assert(r3.last() == l@[f - 1]);
            assert(r3.subrange(1, r3.len() - 1) =~= l@.subrange(e + 1, f - 1));
        }
        if f - 1 == e + 1 {
            None
        } else {
            Some((e + 1, f - 1))
        }
    } else {
        proof {
            if f - e >= 2 {
                assert(r3[0] == l@[e as int]);
                assert(r3.last() == l@[f - 1]);
            }
        }
        if f == e {
            None
        } else {
            Some((e, f))
        }
    }
}

/// `extract_value_spec`, as bounds inside `l`.
fn value_bounds(l: &[char], key: &[char]) -> (r: Option<(usize, usize)>)
    ensures
        match r {
            Some((a, b)) => a <= b <= l@.len() && extract_value_spec(l@, key@) == Some(l@.subrange(a as int, b as int)),
            None => extract_value_spec(l@, key@) is None,
        },
{
    match after_key_eq_at(l, key) {
        Some(s) => clean_value_at(l, s),
        None => None,
    }
}

/// The value of a line `key = value` (see `extract_value_spec`).
pub fn extract_value(line: &str, key: &str) -> (r: Option<String>)
    ensures
        opt_view(r) == extract_value_spec(line@, key@),
{
    let l = chars_of(line);
    let k = chars_of(key);
    match value_bounds(l.as_slice(), k.as_slice()) {
        Some((a, b)) => Some(string_of(l.as_slice(), a, b)),
        None => None,
    }
}

/// A character that can stand in a key: an ASCII letter or digit, or `_`.
pub open spec fn key_char(c: char) -> bool {
    ('a' <= c && c <= 'z') || ('A' <= c && c <= 'Z') || ('0' <= c && c <= '9') || c == '_'
}

/// The first index at or after `i` that is not blank.
pub open spec fn ws_end(u: Seq<char>, i: int) -> int
    decreases u.len() - i,
{
    if i < 0 || i >= u.len() || !is_ws(u[i]) {
        i
    } else {
        ws_end(u, i + 1)
    }
}

/// The first index at or after `i` that ends a bare value: a blank, a
/// brace or a quote.
pub open spec fn bare_end(u: Seq<char>, i: int) -> int
    decreases u.len() - i,
{
    if i < 0 || i >= u.len() || is_ws(u[i]) || u[i] == '{' || u[i] == '}' || u[i] == '"' {
        i
    } else {
        bare_end(u, i + 1)
    }
}

/// The first quote at or after `i`, or the end.
pub open spec fn quote_end(u: Seq<char>, i: int) -> int
    decreases u.len() - i,
{
    if i < 0 || i >= u.len() || u[i] == '"' {
        i
    } else {
        quote_end(u, i + 1)
    }
}

/// The value that starts at `i`: the text inside a pair of quotes (the
/// closing one may be missing), or a bare word; an empty value is none.
pub open spec fn value_at(u: Seq<char>, i: int) -> Option<Seq<char>> {
    let v = if i < u.len() && u[i] == '"' {
        u.subrange(i + 1, quote_end(u, i + 1))
    } else {
        u.subrange(i, bare_end(u, i))
    };
    if v.len() == 0 {
        None
    } else {
        Some(v)
    }
}

/// The value assigned by `key = value` when the whole word `key` stands at `p`.
pub open spec fn assignment_at(u: Seq<char>, key: Seq<char>, p: int) -> Option<Seq<char>> {
    let e = p + key.len();
    if 0 <= p && e <= u.len() && u.subrange(p, e) == key && (p == 0 || !key_char(u[p - 1])) && (e
        == u.len() || !key_char(u[e])) {
        let q = ws_end(u, e);
        if q < u.len() && u[q] == '=' {
            value_at(u, ws_end(u, q + 1))
        } else {
            None
        }
    } else {
        None
    }
}

/// The value of the last assignment to `key` that starts before `p`.
pub open spec fn last_assignment(u: Seq<char>, key: Seq<char>, p: int) -> Option<Seq<char>>
    decreases p,
{
    if p <= 0 {
        None
    } else {
        either(assignment_at(u, key, p - 1), last_assignment(u, key, p - 1))
    }
}

/// The value of the last `key = value` in `line` before any `#`, wherever
/// it stands on the line.
pub open spec fn assigned_value(line: Seq<char>, key: Seq<char>) -> Option<Seq<char>> {
    let u = line.take(first_of(line, '#') as int);
    last_assignment(u, key, u.len() as int)
}

fn is_key_char(c: char) -> (b: bool)
    ensures
        b == key_char(c),
{
    ('a' <= c && c <= 'z') || ('A' <= c && c <= 'Z') || ('0' <= c && c <= '9') || c == '_'
}

fn ws_end_exec(u: &[char], i: usize) -> (r: usize)
    requires
        i <= u@.len(),
    ensures
        r == ws_end(u@, i as int),
        i <= r <= u@.len(),
{
    let mut k = i;
    while k < u.len() && is_whitespace(u[k])
        invariant
            i <= k <= u@.len(),
            ws_end(u@, i as int) == ws_end(u@, k as int),
        decreases u@.len() - k,
    {
        k += 1;
    }
    k
}

fn bare_end_exec(u: &[char], i: usize) -> (r: usize)
    requires
        i <= u@.len(),
    ensures
        r == bare_end(u@, i as int),
        i <= r <= u@.len(),
{
    let mut k = i;
    while k < u.len() && !is_whitespace(u[k]) && u[k] != '{' && u[k] != '}' && u[k] != '"'
        invariant
            i <= k <= u@.len(),
            bare_end(u@, i as int) == bare_end(u@, k as int),
        decreases u@.len() - k,
    {
        k += 1;
    }
    k
}

fn quote_end_exec(u: &[char], i: usize) -> (r: usize)
    requires
        i <= u@.len(),
    ensures
        r == quote_end(u@, i as int),
        i <= r <= u@.len(),
{
    let mut k = i;
    while k < u.len() && u[k] != '"'
        invariant
            i <= k <= u@.len(),
            quote_end(u@, i as int) == quote_end(u@, k as int),
        decreases u@.len() - k,
    {
        k += 1;
    }
    k
}

/// `value_at`, as bounds inside `u`.
fn value_at_exec(u: &[char], i: usize) -> (r: Option<(usize, usize)>)
    requires
        i <= u@.len(),
    ensures
        match r {
            Some((a, b)) => a <= b <= u@.len() && value_at(u@, i as int) == Some(
                u@.subrange(a as int, b as int),
            ),
            None => value_at(u@, i as int) is None,
        },
{
    let (a, b) = if i < u.len() && u[i] == '"' {
        (i + 1, quote_end_exec(u, i + 1))
    } else {
        (i, bare_end_exec(u, i))
    };
    if a == b {
        None
    } else {
        Some((a, b))
    }
}

/// `assignment_at`, as bounds inside `u`.
fn assignment_at_exec(u: &[char], key: &[char], p: usize) -> (r: Option<(usize, usize)>)
    requires
        p <= u@.len(),
    ensures
        match r {
            Some((a, b)) => a <= b <= u@.len() && assignment_at(u@, key@, p as int) == Some(
                u@.subrange(a as int, b as int),
            ),
            None => assignment_at(u@, key@, p as int) is None,
        },
{
    if key.len() > u.len() - p || !prefix_at(u, p, key) {
        return None;
    }
    let e = p + key.len();
    proof {
        assert(u@.subrange(p as int, e as int) =~= key@);
    }
    if (p > 0 && is_key_char(u[p - 1])) || (e < u.len() && is_key_char(u[e])) {
        return None;
    }
    let q = ws_end_exec(u, e);
    if q < u.len() && u[q] == '=' {
        let w = ws_end_exec(u, q + 1);
        value_at_exec(u, w)
    } else {
        None
    }
}

/// The value of the last `key = value` in `t` before any `#` (see
/// `assigned_value`), as bounds inside `t`.
fn assigned_value_exec(t: &[char], key: &[char]) -> (r: Option<(usize, usize)>)
    ensures
        match r {
            Some((a, b)) => a <= b <= t@.len() && assigned_value(t@, key@) == Some(
                t@.subrange(a as int, b as int),
            ),
            None => assigned_value(t@, key@) is None,
        },
{
    let h = match find_char(t, 0, t.len(), '#') {
        Some(x) => x,
        None => t.len(),
    };
    proof {
        lemma_first_of(t@, '#', h as int);
    }
    let u = sub_chars(t, 0, h);
    proof {
        assert(u@ =~= t@.take(h as int));
    }
    let mut cur: Option<(usize, usize)> = None;
    let mut p: usize = 0;
    while p < u.len()
        invariant
            p <= u@.len(),
            u@.len() == h <= t@.len(),
            u@ == t@.take(h as int),
            match cur {
                Some((a, b)) => a <= b <= u@.len() && last_assignment(u@, key@, p as int) == Some(
                    u@.subrange(a as int, b as int),
                ),
                None => last_assignment(u@, key@, p as int) is None,
            },
        decreases u@.len() - p,
    {
        match assignment_at_exec(u.as_slice(), key, p) {
            Some(x) => {
                cur = Some(x);
            },
            None => {},
        }
        p += 1;
    }
    match cur {
        Some((a, b)) => {
            proof {
                assert(u@.subrange(a as int, b as int) =~= t@.subrange(a as int, b as int));
            }
            Some((a, b))
        },
        None => None,
    }
}

/// A dependency named by a `load_mod` block: a mod directory (absolute, or
/// relative to the mod) or a Steam workshop item id.
#[derive(Debug)]
pub enum LoadModRef {
    Path(String),
    Workshop(String),
}

/// `(true, path)` or `(false, workshop id)`.
pub open spec fn ref_view(r: LoadModRef) -> (bool, Seq<char>) {
    match r {
        LoadModRef::Path(p) => (true, p@),
        LoadModRef::Workshop(w) => (false, w@),
    }
}

pub open spec fn refs_view(s: Seq<LoadModRef>) -> Seq<(bool, Seq<char>)> {
    s.map_values(|r: LoadModRef| ref_view(r))
}

/// Number of `{` minus number of `}`.
pub open spec fn brace_delta(t: Seq<char>) -> int
    decreases t.len(),
{
    if t.len() == 0 {
        0
    } else {
        brace_delta(t.drop_last()) + if t.last() == '{' {
            1int
        } else if t.last() == '}' {
            -1int
        } else {
            0int
        }
    }
}

/// Brace depth, whether a `load_mod` block is open, and the `mod` path and
/// `workshop_id` seen in it.
pub type ConfState = (int, bool, Option<Seq<char>>, Option<Seq<char>>);

pub open spec fn either(a: Option<Seq<char>>, b: Option<Seq<char>>) -> Option<Seq<char>> {
    match a {
        Some(x) => Some(x),
        None => b,
    }
}

/// One line of the configuration: the state after it, and the dependency a
/// `load_mod` block closed on it names (its `mod` path before its
/// `workshop_id`). Every line of an open block, the lines that open and
/// close it included, may assign `mod` or `workshop_id`, anywhere on it.
pub open spec fn conf_line(st: ConfState, line: Seq<char>) -> (ConfState, Option<(bool, Seq<char>)>) {
    let t = trim(line);
    if t.len() > 0 && t[0] == '#' {
        (st, None)
    } else {
        let start = st.0 == 0 && starts_with(t, "load_mod"@) && t.contains('{');
        let inl = start || st.1;
        let p1 = if start {
            None
        } else {
            st.2
        };
        let w1 = if start {
            None
        } else {
            st.3
        };
        let d = st.0 + brace_delta(t);
        let p2 = if inl {
            either(assigned_value(t, "mod"@), p1)
        } else {
            p1
        };
        let w2 = if inl {
            either(assigned_value(t, "workshop_id"@), w1)
        } else {
            w1
        };
        if inl && d == 0 {
            let found = match p2 {
                Some(p) => Some((true, p)),
                None => match w2 {
                    Some(w) => Some((false, w)),
                    None => None,
                },
            };
            ((d, false, p2, w2), found)
        } else {
            ((d, inl, p2, w2), None)
        }
    }
}

/// The dependencies named by lines `i..`, appended to `acc`.
pub open spec fn conf_refs(ls: Seq<Seq<char>>, i: int, st: ConfState, acc: Seq<(bool, Seq<char>)>) -> Seq<
    (bool, Seq<char>),
>
    decreases ls.len() - i,
{
    if i < 0 || i >= ls.len() {
        acc
    } else {
        let (st2, found) = conf_line(st, ls[i]);
        conf_refs(
            ls,
            i + 1,
            st2,
            match found {
                Some(x) => acc.push(x),
                None => acc,
            },
        )
    }
}

pub(crate) fn brace_count(t: &[char]) -> (d: i128)
    ensures
        d == brace_delta(t@),
        -t@.len() <= d <= t@.len(),
{
    let mut d: i128 = 0;
    let mut i: usize = 0;
    while i < t.len()
        invariant
            i <= t@.len(),
            d == brace_delta(t@.take(i as int)),
            -i <= d <= i,
        decreases t@.len() - i,
    {
        proof {
            assert(t@.take(i + 1).drop_last() =~= t@.take(i as int));
        }
        if t[i] == '{' {
            d = d + 1;
        } else if t[i] == '}' {
            d = d - 1;
        }
        i += 1;
    }
    proof {
        assert(t@.take(t@.len() as int) =~= t@);
    }
    d
}

/// The dependencies that the `load_mod` blocks of a tiger configuration
/// name, in order.
pub fn load_mod_refs(conf_text: &str) -> (r: Vec<LoadModRef>)
    ensures
        refs_view(r@) == conf_refs(lines_of(conf_text@), 0, (0, false, None, None), seq![]),
{
    let cs = chars_of(conf_text);
    let ls = split_lines(cs.as_slice());
    let ghost lsv = views(ls@);
    let mod_key = chars_of("mod");
    let ws_key = chars_of("workshop_id");
    let load_key = chars_of("load_mod");
    let mut out: Vec<LoadModRef> = Vec::new();
    let mut depth: i128 = 0;
    let mut in_load = false;
    let mut cur_path: Option<String> = None;
    let mut cur_id: Option<String> = None;
    let ghost total = conf_refs(lsv, 0, (0, false, None, None), seq![]);
    let ncs = cs.len();
    let mut i: usize = 0;
    proof {
        assert(refs_view(out@) =~= seq![]);
        lemma_lines_total_len(conf_text@);
        assert(lsv.take(0) =~= Seq::<Seq<char>>::empty());
    }
    while i < ls.len()
        invariant
            lsv == views(ls@),
            lsv == lines_of(conf_text@),
            total_len(lsv) <= cs@.len(),
            cs@.len() <= usize::MAX,
            mod_key@ == "mod"@,
            ws_key@ == "workshop_id"@,
            load_key@ == "load_mod"@,
            i <= lsv.len(),
            -total_len(lsv.take(i as int)) <= depth <= total_len(lsv.take(i as int)),
            total == conf_refs(
                lsv,
                i as int,
                (depth as int, in_load, opt_view(cur_path), opt_view(cur_id)),
                refs_view(out@),
            ),
        decreases lsv.len() - i,
    {
        let line = ls[i].as_slice();
        proof {
            assert(line@ == lsv[i as int]);
            lemma_total_len_take(lsv, i as int);
        }
        let (a, b) = trim_bounds(line, 0, line.len());
        let t = sub_chars(line, a, b);
        proof {
            assert(line@.subrange(0, line@.len() as int) =~= line@);
        }
        let ghost st = (depth as int, in_load, opt_view(cur_path), opt_view(cur_id));
        let ghost prev = refs_view(out@);
        if t.len() > 0 && t[0] == '#' {
        } else {
            let starts = depth == 0 && load_key.len() <= t.len() && prefix_at(t.as_slice(), 0, load_key.as_slice())
                && find_char(t.as_slice(), 0, t.len(), '{').is_some();
            proof {
                if load_key@.len() <= t@.len() {
                    assert(t@.take(load_key@.len() as int) =~= t@.subrange(0, load_key@.len() as int));
                }
                assert(t@.contains('{') == exists|j: int| 0 <= j < t@.len() && t@[j] == '{');
            }
            if starts {
                in_load = true;
                cur_path = None;
                cur_id = None;
            }
            let delta = brace_count(t.as_slice());
            depth = depth + delta;
            if in_load {
                match assigned_value_exec(t.as_slice(), mod_key.as_slice()) {
                    Some((x, y)) => {
                        cur_path = Some(string_of(t.as_slice(), x, y));
                    },
                    None => {},
                }
                match assigned_value_exec(t.as_slice(), ws_key.as_slice()) {
                    Some((x, y)) => {
                        cur_id = Some(string_of(t.as_slice(), x, y));
                    },
                    None => {},
                }
            }
            if in_load && depth == 0 {
                in_load = false;
                match &cur_path {
                    Some(p) => {
                        out.push(LoadModRef::Path(p.clone()));
                        proof {
                            assert(refs_view(out@) =~= prev.push((true, p@)));
                        }
                    },
                    None => match &cur_id {
                        Some(w) => {
                            out.push(LoadModRef::Workshop(w.clone()));
                            proof {
                                assert(refs_view(out@) =~= prev.push((false, w@)));
                            }
                        },
                        None => {},
                    },
                }
            }
        }
        i += 1;
    }
    out
}


// ─── Value and block completions ─────────────────────────────────────────────

pub open spec fn choice_entry(c: Seq<char>) -> EntryView {
    (c, CompletionKind::EnumMember, None, Some(c), true, None)
}

/// An entry for each allowed value of a field.
pub fn choice_completions(choices: &[String]) -> (r: Vec<CompletionEntry>)
    ensures
        entries_view(r@) == names(choices@).map_values(|c: Seq<char>| choice_entry(c)),
{
    let ghost cv = names(choices@);
    let mut out: Vec<CompletionEntry> = Vec::new();
    let mut i: usize = 0;
    while i < choices.len()
        invariant
            i <= choices@.len(),
            cv == names(choices@),
            entries_view(out@) == cv.take(i as int).map_values(|c: Seq<char>| choice_entry(c)),
        decreases choices@.len() - i,
    {
        let c = CompletionEntry {
            label: choices[i].clone(),
            kind: CompletionKind::EnumMember,
            detail: None,
            insert_text: Some(choices[i].clone()),
            plain_text: true,
            label_detail: None,
        };
        proof {
            lemma_entries_push(out@, c);
            assert(cv.take(i + 1).map_values(|c: Seq<char>| choice_entry(c)) =~= cv.take(i as int).map_values(
                |c: Seq<char>| choice_entry(c),
            ).push(choice_entry(cv[i as int])));
        }
        out.push(c);
        i += 1;
    }
    proof {
        assert(cv.take(cv.len() as int) =~= cv);
    }
    out
}

pub open spec fn flag_entry(f: Seq<char>) -> EntryView {
    (f, CompletionKind::EnumMember, Some("flag"@), Some(f), true, None)
}

/// An entry for each flag name of the mod.
pub fn flag_completions(flags: &[String]) -> (r: Vec<CompletionEntry>)
    ensures
        entries_view(r@) == names(flags@).map_values(|f: Seq<char>| flag_entry(f)),
{
    let ghost fv = names(flags@);
    let mut out: Vec<CompletionEntry> = Vec::new();
    let mut i: usize = 0;
    while i < flags.len()
        invariant
            i <= flags@.len(),
            fv == names(flags@),
            entries_view(out@) == fv.take(i as int).map_values(|f: Seq<char>| flag_entry(f)),
        decreases flags@.len() - i,
    {
        let c = CompletionEntry {
            label: flags[i].clone(),
            kind: CompletionKind::EnumMember,
            detail: Some("flag".to_owned()),
            insert_text: Some(flags[i].clone()),
            plain_text: true,
            label_detail: None,
        };
        proof {
            lemma_entries_push(out@, c);
            assert(fv.take(i + 1).map_values(|f: Seq<char>| flag_entry(f)) =~= fv.take(i as int).map_values(
                |f: Seq<char>| flag_entry(f),
            ).push(flag_entry(fv[i as int])));
        }
        out.push(c);
        i += 1;
    }
    proof {
        assert(fv.take(fv.len() as int) =~= fv);
    }
    out
}

pub open spec fn field_entry(f: SchemaField) -> EntryView {
    (f.name@, CompletionKind::Field, Some(f.type_hint@), Some(f.name@), true, Some(seq![' '] + f.type_hint@))
}

fn space_then(s: &str) -> (r: String)
    ensures
        r@ == seq![' '] + s@,
{
    let mut r = String::new();
    push_char(&mut r, ' ');
    crate::text::append_str(&mut r, s);
    proof {
        assert(r@ =~= seq![' '] + s@);
    }
    r
}

/// An entry for each field a block accepts, with its kind of value.
pub fn field_completions(fields: &[SchemaField]) -> (r: Vec<CompletionEntry>)
    ensures
        entries_view(r@) == fields@.map_values(|f: SchemaField| field_entry(f)),
{
    let mut out: Vec<CompletionEntry> = Vec::new();
    let mut i: usize = 0;
    while i < fields.len()
        invariant
            i <= fields@.len(),
            entries_view(out@) == fields@.take(i as int).map_values(|f: SchemaField| field_entry(f)),
        decreases fields@.len() - i,
    {
        let f = &fields[i];
        let c = CompletionEntry {
            label: f.name.clone(),
            kind: CompletionKind::Field,
            detail: Some(f.type_hint.clone()),
            insert_text: Some(f.name.clone()),
            plain_text: true,
            label_detail: Some(space_then(f.type_hint.as_str())),
        };
        proof {
            lemma_entries_push(out@, c);
            assert(fields@.take(i + 1).map_values(|f: SchemaField| field_entry(f)) =~= fields@.take(
                i as int,
            ).map_values(|f: SchemaField| field_entry(f)).push(field_entry(*f)));
        }
        out.push(c);
        i += 1;
    }
    proof {
        assert(fields@.take(fields@.len() as int) =~= fields@);
    }
    out
}

// ─── Item values ─────────────────────────────────────────────────────────────

/// `s` without its trailing `/`s.
pub open spec fn strip_slashes(s: Seq<char>) -> Seq<char>
    decreases s.len(),
{
    if s.len() > 0 && s.last() == '/' {
        strip_slashes(s.drop_last())
    } else {
        s
    }
}

/// What follows the last `/` of `s` (all of `s` when it has none).
pub open spec fn last_segment(s: Seq<char>) -> Seq<char>
    decreases s.len(),
{
    if s.len() == 0 || s.last() == '/' {
        seq![]
    } else {
        last_segment(s.drop_last()).push(s.last())
    }
}

/// The folder an item kind lives in: the last component of its path
/// (`"common/buildings/"` gives `"buildings"`).
pub open spec fn item_subdir_spec(path: Seq<char>) -> Seq<char> {
    last_segment(strip_slashes(path))
}

/// The folder named by the last component of an item path.
pub fn item_subdir(path: &str) -> (r: String)
    ensures
        r@ == item_subdir_spec(path@),
{
    let p = chars_of(path);
    let mut end: usize = p.len();
    proof {
        assert(p@.take(p@.len() as int) =~= p@);
    }
    while end > 0 && p[end - 1] == '/'
        invariant
            end <= p@.len(),
            p@ == path@,
            strip_slashes(p@.take(end as int)) == strip_slashes(path@),
        decreases end,
    {
        proof {
            assert(p@.take(end as int).drop_last() =~= p@.take(end - 1));
        }
        end -= 1;
    }
    proof {
        if end > 0 {
            assert(p@.take(end as int).last() == p@[end - 1]);
        }
    }
    let mut start: usize = end;
    proof {
        assert(p@.subrange(end as int, end as int) =~= seq![]);
        assert(last_segment(p@.take(end as int)) =~= last_segment(p@.take(end as int)) + seq![]);
    }
    while start > 0 && p[start - 1] != '/'
        invariant
            start <= end <= p@.len(),
            p@ == path@,
            strip_slashes(path@) == p@.take(end as int),
            last_segment(p@.take(end as int)) == last_segment(p@.take(start as int)) + p@.subrange(
                start as int,
                end as int,
            ),
        decreases start,
    {
        proof {
            let t = p@.take(start as int);
            assert(t.drop_last() =~= p@.take(start - 1));
            assert(t.last() == p@[start - 1]);
            assert(last_segment(t) == last_segment(p@.take(start - 1)).push(p@[start - 1]));
            assert(last_segment(p@.take(start - 1)).push(p@[start - 1]) + p@.subrange(start as int, end as int)
                =~= last_segment(p@.take(start - 1)) + p@.subrange(start - 1, end as int));
        }
        start -= 1;
    }
    proof {
        if start > 0 {
            assert(p@.take(start as int).last() == p@[start - 1]);
        }
        assert(last_segment(p@.take(start as int)) =~= seq![]);
        assert(seq![] + p@.subrange(start as int, end as int) =~= p@.subrange(start as int, end as int));
    }
    string_of(p.as_slice(), start, end)
}

pub open spec fn pair_views(s: Seq<(String, String)>) -> Seq<(Seq<char>, Seq<char>)> {
    s.map_values(|p: (String, String)| (p.0@, p.1@))
}

pub open spec fn in_subdir(expected: Seq<char>) -> spec_fn((Seq<char>, Seq<char>)) -> bool {
    |p: (Seq<char>, Seq<char>)| p.1 == expected
}

pub open spec fn item_entry(p: (Seq<char>, Seq<char>)) -> EntryView {
    (p.0, CompletionKind::EnumMember, Some(p.1), Some(p.0), true, Some(seq![' '] + p.1))
}

/// An entry for each game item (name, folder) found in the folder `expected`,
/// in order.
pub fn item_value_completions(expected: &str, game_items: &[(String, String)]) -> (r: Vec<CompletionEntry>)
    ensures
        entries_view(r@) == pair_views(game_items@).filter(in_subdir(expected@)).map_values(
            |p: (Seq<char>, Seq<char>)| item_entry(p),
        ),
{
    let ghost pf = in_subdir(expected@);
    let ghost pv = pair_views(game_items@);
    let mut out: Vec<CompletionEntry> = Vec::new();
    let mut i: usize = 0;
    proof {
        assert(pv.take(0).filter(pf) =~= seq![]);
        assert(entries_view(out@) =~= seq![]);
    }
    while i < game_items.len()
        invariant
            i <= game_items@.len(),
            pf == in_subdir(expected@),
            pv == pair_views(game_items@),
            entries_view(out@) == pv.take(i as int).filter(pf).map_values(
                |p: (Seq<char>, Seq<char>)| item_entry(p),
            ),
        decreases game_items@.len() - i,
    {
        let item = &game_items[i];
        let ghost fl = pv.take(i as int).filter(pf);
        proof {
            assert(pv.take(i + 1) =~= pv.take(i as int).push(pv[i as int]));
            pv.take(i as int).lemma_filter_push(pv[i as int], pf);
            assert(pv[i as int] == (item.0@, item.1@));
        }
        if crate::text::str_is(item.1.as_str(), expected) {
            let c = CompletionEntry {
                label: item.0.clone(),
                kind: CompletionKind::EnumMember,
                detail: Some(item.1.clone()),
                insert_text: Some(item.0.clone()),
                plain_text: true,
                label_detail: Some(space_then(item.1.as_str())),
            };
            proof {
                lemma_entries_push(out@, c);
                assert(pf(pv[i as int]));
                assert(fl.push(pv[i as int]).map_values(|p: (Seq<char>, Seq<char>)| item_entry(p))
                    =~= fl.map_values(|p: (Seq<char>, Seq<char>)| item_entry(p)).push(item_entry(pv[i as int])));
            }
            out.push(c);
        } else {
            proof {
                assert(!pf(pv[i as int]));
            }
        }
        i += 1;
    }
    proof {
        assert(pv.take(game_items@.len() as int) =~= pv);
    }
    out
}

/// The schema of an iterator block: a single field named `scope`, whose
/// kind of value is the scope it iterates in.
pub open spec fn iterator_schema(fields: Seq<SchemaField>) -> bool {
    fields.len() == 1 && fields[0].name@ == "scope"@
}

pub fn is_iterator_schema(fields: &[SchemaField]) -> (b: bool)
    ensures
        b == iterator_schema(fields@),
{
    fields.len() == 1 && crate::text::str_is(fields[0].name.as_str(), "scope")
}

/// `what (scope: context)`.
pub open spec fn scoped(what: Seq<char>, context: Seq<char>) -> Seq<char> {
    what + " (scope: "@ + context + ")"@
}

pub open spec fn scoped_entry(e: LspEntry, context: Seq<char>) -> EntryView {
    let (kind, what) = match e.kind {
        EntryKind::Trigger => (CompletionKind::Event, "trigger"@),
        EntryKind::Effect => (CompletionKind::Function, "effect"@),
        EntryKind::Iterator => (CompletionKind::Keyword, "iterator"@),
    };
    (e.name@, kind, Some(scoped(what, context)), Some(e.name@), true, None)
}

/// An entry for each built-in usable in a scope, its detail naming the
/// block it is offered in.
pub fn lsp_entries_to_completions(entries: &[LspEntry], context: &str) -> (r: Vec<CompletionEntry>)
    ensures
        entries_view(r@) == entries@.map_values(|e: LspEntry| scoped_entry(e, context@)),
{
    let mut out: Vec<CompletionEntry> = Vec::new();
    let mut i: usize = 0;
    while i < entries.len()
        invariant
            i <= entries@.len(),
            entries_view(out@) == entries@.take(i as int).map_values(|e: LspEntry| scoped_entry(e, context@)),
        decreases entries@.len() - i,
    {
        let e = &entries[i];
        let (kind, what) = match e.kind {
            EntryKind::Trigger => (CompletionKind::Event, "trigger"),
            EntryKind::Effect => (CompletionKind::Function, "effect"),
            EntryKind::Iterator => (CompletionKind::Keyword, "iterator"),
        };
        let mut detail = what.to_owned();
        crate::text::append_str(&mut detail, " (scope: ");
        crate::text::append_str(&mut detail, context);
        crate::text::append_str(&mut detail, ")");
        let c = CompletionEntry {
            label: e.name.clone(),
            kind,
            detail: Some(detail),
            insert_text: Some(e.name.clone()),
            plain_text: true,
            label_detail: None,
        };
        proof {
            lemma_entries_push(out@, c);
            assert(entry_view(c) == scoped_entry(*e, context@));
            assert(entries@.take(i + 1).map_values(|e: LspEntry| scoped_entry(e, context@)) =~= entries@.take(
                i as int,
            ).map_values(|e: LspEntry| scoped_entry(e, context@)).push(scoped_entry(*e, context@)));
        }
        out.push(c);
        i += 1;
    }
    proof {
        assert(entries@.take(entries@.len() as int) =~= entries@);
    }
    out
}

} // verus!
