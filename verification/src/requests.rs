//! Which answer a completion or a hover request gets, decided from the text
//! around the cursor, and the hover text of a validator diagnostic.
use vstd::prelude::*;
use crate::call_hierarchy::{def_index, find_definition};
use crate::editor::{
    diag_under, diagnostic_at, enclosing_block, find_enclosing_block_trigger, message_wiki,
    on_boundary, severity_word, severity_word_spec, value_context_keyword, value_keyword,
    wiki_line,
};
use crate::model::{Definition, Diagnostic, Position};
use crate::text::{append_str, chars_of, lines_of, str_views};
use crate::wiki::{confidence_doc, confidence_doc_spec, severity_doc, severity_doc_spec};

verus! {

// ─── Completion ──────────────────────────────────────────────────────────────

/// The list a completion request is answered from.
#[derive(Debug)]
pub enum CompletionSource {
    /// No list: `$` asks for localization keys and `.` for scope chains.
    Nothing,
    /// The values that the field `keyword` takes, in `keyword = <cursor>`.
    Value(String),
    /// The fields of the enclosing block, in `name = { <cursor> }`.
    Block(String),
    /// Keywords, built-ins, the document's variables and the mod's items.
    General,
}

/// What a `CompletionSource` names, with its name as a sequence.
pub enum SourceView {
    Nothing,
    Value(Seq<char>),
    Block(Seq<char>),
    General,
}

pub open spec fn source_view(s: CompletionSource) -> SourceView {
    match s {
        CompletionSource::Nothing => SourceView::Nothing,
        CompletionSource::Value(k) => SourceView::Value(k@),
        CompletionSource::Block(b) => SourceView::Block(b@),
        CompletionSource::General => SourceView::General,
    }
}

/// Line `line` of `ls`, or an empty line past the end.
pub open spec fn cursor_line(ls: Seq<Seq<char>>, line: int) -> Seq<char> {
    if 0 <= line < ls.len() {
        ls[line]
    } else {
        seq![]
    }
}

/// The source of a completion: nothing for the `$` and `.` triggers; after
/// `keyword =` the values of that field; inside a `name = {` block its
/// fields; everything else otherwise.
pub open spec fn completion_source_spec(
    trigger: Option<Seq<char>>,
    ls: Seq<Seq<char>>,
    line: int,
    col: int,
) -> SourceView {
    if trigger == Some("$"@) || trigger == Some("."@) {
        SourceView::Nothing
    } else {
        match value_keyword(cursor_line(ls, line), col) {
            Some(k) => SourceView::Value(k),
            None => match enclosing_block(ls, line, col) {
                Some(b) => SourceView::Block(b),
                None => SourceView::General,
            },
        }
    }
}

pub open spec fn opt_str_view(o: Option<&str>) -> Option<Seq<char>> {
    match o {
        Some(s) => Some(s@),
        None => None,
    }
}

/// Which list answers a completion at `pos` (see `completion_source_spec`),
/// given the trigger character and the document's lines.
pub fn completion_source(trigger: Option<&str>, lines: &[&str], pos: Position) -> (r: CompletionSource)
    requires
        (pos.line as int) < lines@.len() ==> on_boundary(lines@[pos.line as int]@, pos.character as int),
    ensures
        source_view(r) == completion_source_spec(
            opt_str_view(trigger),
            str_views(lines@),
            pos.line as int,
            pos.character as int,
        ),
{
    let ghost ls = str_views(lines@);
    match trigger {
        Some(t) => {
            if crate::text::str_is(t, "$") || crate::text::str_is(t, ".") {
                return CompletionSource::Nothing;
            }
        },
        None => {},
    }
    let li = pos.line as usize;
    let col = pos.character as usize;
    let line: &str = if li < lines.len() {
        lines[li]
    } else {
        ""
    };
    proof {
        if li < lines@.len() {
            assert(ls[li as int] == line@);
        } else {
            assert(line@ =~= Seq::<char>::empty()) by {
                reveal_strlit("");
            }
            assert(on_boundary(line@, col as int)) by {
                assert(line@.take(0) =~= line@);
                assert(crate::symbols::bcol(line@, 0) == 0);
            }
        }
    }
    match value_context_keyword(line, col) {
        Some(k) => CompletionSource::Value(k),
        None => match find_enclosing_block_trigger(lines, li, col) {
            Some(b) => CompletionSource::Block(b),
            None => CompletionSource::General,
        },
    }
}

// ─── Hover ───────────────────────────────────────────────────────────────────

/// Where the hover of a word comes from.
#[derive(Debug, PartialEq, Eq)]
pub enum HoverSource {
    /// An `@variable`: its definition in the document.
    Variable,
    /// The validator diagnostic at this index, under the cursor.
    Diagnostic(usize),
    /// The scripted item of the mod defined by the definition at this index.
    Scripted(usize),
    /// A field of the enclosing block's schema, or else an engine built-in.
    Other,
}

/// The word names an `@variable`.
pub open spec fn is_at_word(word: Seq<char>) -> bool {
    word.len() > 0 && word[0] == '@'
}

/// Some diagnostic of `diags` with a code lies under the cursor.
pub open spec fn any_diag_under(diags: Seq<Diagnostic>, line: u32, character: u32) -> bool {
    exists|j: int| 0 <= j < diags.len() && diag_under(diags[j], line, character)
}

/// The source of the hover of `word` at the cursor `(line, character)`:
/// a variable's definition; else the first diagnostic with a code under the
/// cursor; else the mod's definition of the word; else the other sources.
pub fn hover_source(
    word: &str,
    diags: &[Diagnostic],
    line: u32,
    character: u32,
    defs: &[Definition],
) -> (r: HoverSource)
    ensures
        match r {
            HoverSource::Variable => is_at_word(word@),
            HoverSource::Diagnostic(i) => {
                &&& !is_at_word(word@)
                &&& i < diags@.len()
                &&& diag_under(diags@[i as int], line, character)
                &&& forall|j: int| 0 <= j < i ==> !diag_under(#[trigger] diags@[j], line, character)
            },
            HoverSource::Scripted(k) => {
                &&& !is_at_word(word@)
                &&& !any_diag_under(diags@, line, character)
                &&& def_index(defs@, word@) == Some(k as int)
            },
            HoverSource::Other => {
                &&& !is_at_word(word@)
                &&& !any_diag_under(diags@, line, character)
                &&& def_index(defs@, word@) is None
            },
        },
{
    let w = chars_of(word);
    if w.len() > 0 && w[0] == '@' {
        return HoverSource::Variable;
    }
    match diagnostic_at(diags, line, character) {
        Some(i) => HoverSource::Diagnostic(i),
        None => match find_definition(defs, w.as_slice()) {
            Some(k) => HoverSource::Scripted(k),
            None => HoverSource::Other,
        },
    }
}

/// The hover of a validator diagnostic: its key, how serious and how sure
/// it is, what that means, and its wiki page when it has one.
pub open spec fn diagnostic_hover_spec(
    key: Seq<char>,
    severity: Seq<char>,
    confidence: Seq<char>,
    wiki: Option<Seq<char>>,
) -> Seq<char> {
    "**"@ + key + "** — "@ + severity + " ("@ + confidence + " confidence)\n\n"@ + severity_doc_spec(
        severity,
    )@ + "\n\n"@ + confidence_doc_spec(confidence)@ + match wiki {
        Some(w) => "\n\n[Wiki]("@ + w + ")"@,
        None => seq![],
    }
}

/// The hover text of a validator diagnostic (see `diagnostic_hover_spec`).
pub fn diagnostic_hover(key: &str, severity: &str, confidence: &str, wiki: Option<&str>) -> (r: String)
    ensures
        r@ == diagnostic_hover_spec(key@, severity@, confidence@, opt_str_view(wiki)),
{
    let mut v = String::new();
    append_str(&mut v, "**");
    append_str(&mut v, key);
    append_str(&mut v, "** — ");
    append_str(&mut v, severity);
    append_str(&mut v, " (");
    append_str(&mut v, confidence);
    append_str(&mut v, " confidence)\n\n");
    append_str(&mut v, severity_doc(severity));
    append_str(&mut v, "\n\n");
    append_str(&mut v, confidence_doc(confidence));
    match wiki {
        Some(w) => {
            append_str(&mut v, "\n\n[Wiki](");
            append_str(&mut v, w);
            append_str(&mut v, ")");
        },
        None => {},
    }
    proof {
        assert(v@ =~= diagnostic_hover_spec(key@, severity@, confidence@, opt_str_view(wiki)));
    }
    v
}

/// The hover of a published diagnostic: its code, the word for its
/// severity, its confidence (`reasonable` when unknown) and the first line
/// of its message that starts with `http`.
pub open spec fn hover_of_diagnostic_spec(d: Diagnostic) -> Seq<char> {
    diagnostic_hover_spec(
        match d.code {
            Some(c) => c@,
            None => seq![],
        },
        severity_word_spec(d.severity),
        match d.data {
            Some(c) => c@,
            None => "reasonable"@,
        },
        wiki_line(lines_of(d.message@), 0),
    )
}

/// The hover text of a published diagnostic (see `hover_of_diagnostic_spec`).
pub fn hover_of_diagnostic(d: &Diagnostic) -> (r: String)
    ensures
        r@ == hover_of_diagnostic_spec(*d),
{
    let key: &str = match &d.code {
        Some(c) => c.as_str(),
        None => "",
    };
    let conf: &str = match &d.data {
        Some(c) => c.as_str(),
        None => "reasonable",
    };
    let wiki = message_wiki(d.message.as_str());
    proof {
        reveal_strlit("");
        reveal_strlit("reasonable");
    }
    match &wiki {
        Some(w) => diagnostic_hover(key, severity_word(d.severity), conf, Some(w.as_str())),
        None => diagnostic_hover(key, severity_word(d.severity), conf, None),
    }
}

} // verus!
