//! Plain editor-protocol values (positions, ranges, edits, symbol kinds) that the
//! analyses produce; the server turns them into protocol messages.
use vstd::prelude::*;

verus! {

/// A zero-based line and column.
#[derive(Clone, Copy, Debug, PartialEq, Eq)]
pub struct Position {
    pub line: u32,
    pub character: u32,
}

/// A span from `start` to `end`.
#[derive(Clone, Copy, Debug, PartialEq, Eq)]
pub struct Range {
    pub start: Position,
    pub end: Position,
}

/// Replace the text of `range` with `new_text`.
#[derive(Debug)]
pub struct TextEdit {
    pub range: Range,
    pub new_text: String,
}

pub open spec fn pos(line: u32, character: u32) -> Position {
    Position { line, character }
}

pub open spec fn span(sl: u32, sc: u32, el: u32, ec: u32) -> Range {
    Range { start: Position { line: sl, character: sc }, end: Position { line: el, character: ec } }
}

pub fn make_range(sl: u32, sc: u32, el: u32, ec: u32) -> (r: Range)
    ensures
        r == span(sl, sc, el, ec),
{
    Range { start: Position { line: sl, character: sc }, end: Position { line: el, character: ec } }
}

/// Kind of an engine built-in.
#[derive(Clone, Copy, Debug, PartialEq, Eq)]
pub enum EntryKind {
    Trigger,
    Effect,
    Iterator,
}

/// How serious a diagnostic is.
#[derive(Clone, Copy, Debug, PartialEq, Eq)]
pub enum DiagnosticSeverity {
    Error,
    Warning,
    Information,
    Hint,
}

/// A secondary location attached to a diagnostic.
#[derive(Debug)]
pub struct RelatedInfo {
    pub uri: String,
    pub range: Range,
    pub message: String,
}

/// A problem reported on a range of a document.
#[derive(Debug)]
pub struct Diagnostic {
    pub range: Range,
    pub severity: Option<DiagnosticSeverity>,
    pub code: Option<String>,
    pub source: Option<String>,
    pub message: String,
    /// The report's confidence (`weak`, `reasonable`, `strong`), when known.
    pub data: Option<String>,
    pub related: Vec<RelatedInfo>,
}

/// Kind of a symbol, as the editor shows it.
#[derive(Clone, Copy, Debug, PartialEq, Eq)]
pub enum SymbolKind {
    Function,
    Operator,
    Property,
    Event,
    EnumMember,
    Module,
    Object,
}

/// A named block of a document.
#[derive(Debug)]
pub struct DocumentSymbol {
    pub name: String,
    pub kind: SymbolKind,
    pub range: Range,
    pub selection_range: Range,
    pub detail: Option<String>,
}

/// A range in a document named by its URI.
#[derive(Debug)]
pub struct Location {
    pub uri: String,
    pub range: Range,
}

/// A scripted item's definition site and detail (`scripted_effect`, `event`, ...).
#[derive(Debug)]
pub struct Definition {
    pub name: String,
    pub location: Location,
    pub detail: String,
}

/// A symbol found in the workspace.
#[derive(Debug)]
pub struct SymbolInformation {
    pub name: String,
    pub kind: SymbolKind,
    pub location: Location,
}

/// A foldable region of lines.
#[derive(Clone, Copy, Debug, PartialEq, Eq)]
pub struct FoldingRange {
    pub start_line: u32,
    pub end_line: u32,
}

/// A field a block accepts: its name, the kind of value it takes, and
/// whether the block must have it.
#[derive(Debug)]
pub struct SchemaField {
    pub name: String,
    pub type_hint: String,
    pub required: bool,
}

} // verus!
