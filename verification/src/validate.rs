//! Turning validator reports into diagnostics and scope hints.
use vstd::prelude::*;
use crate::model::{span, Diagnostic, DiagnosticSeverity, Position, Range, RelatedInfo};
use crate::text::{append_str, push_char};
use crate::wiki::{fallback_wiki_url, fallback_wiki_url_spec};

verus! {

/// The directories validation needs.
#[derive(Debug)]
pub struct ValidateConfig {
    pub game_dir: String,
    pub workshop_dir: Option<String>,
    pub paradox_dir: Option<String>,
    pub config_file: Option<String>,
}

/// How serious a report is.
#[derive(Clone, Copy, Debug, PartialEq, Eq)]
pub enum Severity {
    Tips,
    Untidy,
    Warning,
    Error,
    Fatal,
}

/// How sure the validator is of a report.
#[derive(Clone, Copy, Debug, PartialEq, Eq)]
pub enum Confidence {
    Weak,
    Reasonable,
    Strong,
}

/// A place a report points at: the file, its 1-based line and column (line 0
/// for the file as a whole), the length of the text, and a note.
#[derive(Debug)]
pub struct Pointer {
    pub path: String,
    pub line: u32,
    pub column: u32,
    pub length: usize,
    pub msg: Option<String>,
}

/// A validator report: what it is about, and the places it points at (the
/// first is where it is shown).
#[derive(Debug)]
pub struct Report {
    pub key: String,
    pub msg: String,
    pub info: Option<String>,
    pub wiki: Option<String>,
    pub confidence: Confidence,
    pub severity: Severity,
    pub pointers: Vec<Pointer>,
}

/// A scope the validator found for a block, at a 1-based line of a file.
#[derive(Debug)]
pub struct ScopeAnnotation {
    pub path: String,
    pub line: u32,
    pub scope: String,
}

/// A hint shown at the start of a line.
#[derive(Debug)]
pub struct InlayHint {
    pub position: Position,
    pub label: String,
}

// ─── Ranges and severities ───────────────────────────────────────────────────

/// The length as a `u32` (1 when it does not fit), at least 1.
pub open spec fn width_of_len(length: int) -> int {
    let w = if length <= u32::MAX {
        length
    } else {
        1
    };
    if w < 1 {
        1
    } else {
        w
    }
}

/// The zero-based start of a 1-based place (line 0: the file's start).
pub open spec fn start_of(line: u32, col: u32) -> (int, int) {
    if line == 0 {
        (0, 0)
    } else {
        (line - 1, if col == 0 {
            0
        } else {
            col - 1
        })
    }
}

/// The range of `length` bytes at a 1-based place.
pub open spec fn loc_range(line: u32, col: u32, length: int) -> Range {
    let (l, c) = start_of(line, col);
    span(l as u32, c as u32, l as u32, (c + width_of_len(length)) as u32)
}

/// The range fits: its end column is a `u32`.
pub open spec fn range_fits(line: u32, col: u32, length: int) -> bool {
    start_of(line, col).1 + width_of_len(length) <= u32::MAX
}

/// The zero-based range of `length` bytes at a 1-based line and column.
pub fn loc_to_range(line: u32, col: u32, length: usize) -> (r: Range)
    requires
        range_fits(line, col, length as int),
    ensures
        r == loc_range(line, col, length as int),
{
    let (l, c) = if line == 0 {
        (0u32, 0u32)
    } else {
        (line - 1, if col == 0 {
            0
        } else {
            col - 1
        })
    };
    let w: u32 = if length <= 0xffff_ffff {
        length as u32
    } else {
        1
    };
    let w = if w < 1 {
        1
    } else {
        w
    };
    Range { start: Position { line: l, character: c }, end: Position { line: l, character: c + w } }
}

/// Whether the range of `length` bytes at a 1-based place fits (what
/// `loc_to_range` needs).
pub fn range_fits_check(line: u32, col: u32, length: usize) -> (b: bool)
    ensures
        b == range_fits(line, col, length as int),
{
    let c: u64 = if line == 0 {
        0
    } else if col == 0 {
        0
    } else {
        (col - 1) as u64
    };
    let w: u64 = if length <= 0xffff_ffff {
        length as u64
    } else {
        1
    };
    let w = if w < 1 {
        1
    } else {
        w
    };
    c + w <= 0xffff_ffff
}

/// Whether every pointer of a report has a range that fits.
pub fn report_fits_check(r: &Report) -> (b: bool)
    ensures
        b == report_fits(*r),
{
    let mut i: usize = 0;
    while i < r.pointers.len()
        invariant
            i <= r.pointers@.len(),
            forall|j: int|
                0 <= j < i ==> range_fits(
                    (#[trigger] r.pointers@[j]).line,
                    r.pointers@[j].column,
                    r.pointers@[j].length as int,
                ),
        decreases r.pointers@.len() - i,
    {
        let p = &r.pointers[i];
        if !range_fits_check(p.line, p.column, p.length) {
            return false;
        }
        i += 1;
    }
    true
}

pub open spec fn severity_spec(s: Severity) -> DiagnosticSeverity {
    match s {
        Severity::Fatal | Severity::Error => DiagnosticSeverity::Error,
        Severity::Warning => DiagnosticSeverity::Warning,
        Severity::Untidy => DiagnosticSeverity::Information,
        Severity::Tips => DiagnosticSeverity::Hint,
    }
}

/// The diagnostic severity of a report's severity.
pub fn severity_to_lsp(s: Severity) -> (r: DiagnosticSeverity)
    ensures
        r == severity_spec(s),
{
    match s {
        Severity::Fatal | Severity::Error => DiagnosticSeverity::Error,
        Severity::Warning => DiagnosticSeverity::Warning,
        Severity::Untidy => DiagnosticSeverity::Information,
        Severity::Tips => DiagnosticSeverity::Hint,
    }
}

pub open spec fn confidence_word(c: Confidence) -> Seq<char> {
    match c {
        Confidence::Weak => "weak"@,
        Confidence::Reasonable => "reasonable"@,
        Confidence::Strong => "strong"@,
    }
}

fn confidence_text(c: Confidence) -> (r: String)
    ensures
        r@ == confidence_word(c),
{
    match c {
        Confidence::Weak => "weak".to_owned(),
        Confidence::Reasonable => "reasonable".to_owned(),
        Confidence::Strong => "strong".to_owned(),
    }
}

// ─── Messages ────────────────────────────────────────────────────────────────

pub open spec fn opt_line(o: Option<String>) -> Seq<char> {
    match o {
        Some(s) => seq!['\n'] + s@,
        None => seq![],
    }
}

/// The message of a report: `[key] msg` (marked `[weak] ` with a warning
/// for weak reports), then its extra information and its wiki link (or the
/// fallback page for its key), each on a line of its own.
pub open spec fn report_message(r: Report) -> Seq<char> {
    let weak = r.confidence == Confidence::Weak;
    (if weak {
        "[weak] "@
    } else {
        seq![]
    }) + "["@ + r.key@ + "] "@ + r.msg@ + (if weak {
        "\n(low confidence — likely a false positive)"@
    } else {
        seq![]
    }) + opt_line(r.info) + match r.wiki {
        Some(w) => seq!['\n'] + w@,
        None => match fallback_wiki_url_spec(r.key@) {
            Some(u) => seq!['\n'] + u@,
            None => seq![],
        },
    }
}

fn push_opt_line(m: &mut String, o: &Option<String>)
    ensures
        final(m)@ == old(m)@ + opt_line(*o),
{
    match o {
        Some(s) => {
            push_char(m, '\n');
            append_str(m, s.as_str());
            proof {
                assert(m@ =~= old(m)@ + opt_line(*o));
            }
        },
        None => {
            proof {
                assert(m@ =~= old(m)@ + opt_line(*o));
            }
        },
    }
}

/// The message of a report (see `report_message`).
pub fn message_of(r: &Report) -> (m: String)
    ensures
        m@ == report_message(*r),
{
    let weak = match r.confidence {
        Confidence::Weak => true,
        _ => false,
    };
    let mut m = String::new();
    if weak {
        append_str(&mut m, "[weak] ");
    }
    append_str(&mut m, "[");
    append_str(&mut m, r.key.as_str());
    append_str(&mut m, "] ");
    append_str(&mut m, r.msg.as_str());
    if weak {
        append_str(&mut m, "\n(low confidence — likely a false positive)");
    }
    let ghost before_info = m@;
    push_opt_line(&mut m, &r.info);
    let ghost before_wiki = m@;
    match &r.wiki {
        Some(w) => {
            push_char(&mut m, '\n');
            append_str(&mut m, w.as_str());
        },
        None => match fallback_wiki_url(r.key.as_str()) {
            Some(u) => {
                push_char(&mut m, '\n');
                append_str(&mut m, u);
            },
            None => {},
        },
    }
    proof {
        assert(m@ =~= report_message(*r));
    }
    m
}

// ─── Diagnostics ─────────────────────────────────────────────────────────────

/// Every pointer's range fits.
pub open spec fn report_fits(r: Report) -> bool {
    forall|i: int|
        0 <= i < r.pointers@.len() ==> range_fits(
            (#[trigger] r.pointers@[i]).line,
            r.pointers@[i].column,
            r.pointers@[i].length as int,
        )
}

pub type RelatedView = (Seq<char>, Range, Seq<char>);

pub open spec fn related_view(r: RelatedInfo) -> RelatedView {
    (r.uri@, r.range, r.message@)
}

/// The related locations of a report: each pointer after the first whose
/// file has a URI (`uris[i]` for pointer `i + 1`), with its note or
/// `related`.
pub open spec fn related_upto(ps: Seq<Pointer>, uris: Seq<Option<Seq<char>>>, i: int) -> Seq<RelatedView>
    decreases i,
{
    if i <= 0 {
        seq![]
    } else {
        let prev = related_upto(ps, uris, i - 1);
        match uris[i - 1] {
            Some(u) => {
                let p = ps[i];
                prev.push(
                    (
                        u,
                        loc_range(p.line, p.column, p.length as int),
                        match p.msg {
                            Some(m) => m@,
                            None => "related"@,
                        },
                    ),
                )
            },
            None => prev,
        }
    }
}

pub open spec fn opt_str(o: Option<String>) -> Option<Seq<char>> {
    match o {
        Some(s) => Some(s@),
        None => None,
    }
}

/// A diagnostic as plain values.
pub open spec fn diag_view(d: Diagnostic) -> (
    Range,
    Option<DiagnosticSeverity>,
    Option<Seq<char>>,
    Option<Seq<char>>,
    Seq<char>,
    Option<Seq<char>>,
    Seq<RelatedView>,
) {
    (
        d.range,
        d.severity,
        opt_str(d.code),
        opt_str(d.source),
        d.message@,
        opt_str(d.data),
        d.related@.map_values(|r: RelatedInfo| related_view(r)),
    )
}

/// The diagnostic of a report shown at its first pointer, given the URIs of
/// the files of its other pointers.
pub open spec fn report_diag(r: Report, uris: Seq<Option<Seq<char>>>) -> (
    Range,
    Option<DiagnosticSeverity>,
    Option<Seq<char>>,
    Option<Seq<char>>,
    Seq<char>,
    Option<Seq<char>>,
    Seq<RelatedView>,
) {
    let p = r.pointers@[0];
    (
        loc_range(p.line, p.column, p.length as int),
        Some(severity_spec(r.severity)),
        Some(r.key@),
        Some("pdxscript-lsp"@),
        report_message(r),
        Some(confidence_word(r.confidence)),
        related_upto(r.pointers@, uris, uris.len() as int),
    )
}

/// The diagnostic of a report with at least one pointer, given the URIs of
/// the files of its pointers after the first (`None` where a file has none).
pub fn report_diagnostic(r: &Report, related_uris: &[Option<String>]) -> (d: Diagnostic)
    requires
        r.pointers@.len() > 0,
        related_uris@.len() == r.pointers@.len() - 1,
        report_fits(*r),
    ensures
        diag_view(d) == report_diag(*r, related_uris@.map_values(|u: Option<String>| opt_str(u))),
{
    let ghost uv = related_uris@.map_values(|u: Option<String>| opt_str(u));
    let p0 = &r.pointers[0];
    proof {
        assert(range_fits(r.pointers@[0].line, r.pointers@[0].column, r.pointers@[0].length as int));
    }
    let range = loc_to_range(p0.line, p0.column, p0.length);
    let mut related: Vec<RelatedInfo> = Vec::new();
    let mut i: usize = 0;
    proof {
        assert(related@.map_values(|x: RelatedInfo| related_view(x)) =~= Seq::<RelatedView>::empty());
    }
    while i < related_uris.len()
        invariant
            i <= related_uris@.len(),
            related_uris@.len() == r.pointers@.len() - 1,
            uv == related_uris@.map_values(|u: Option<String>| opt_str(u)),
            report_fits(*r),
            related@.map_values(|x: RelatedInfo| related_view(x)) == related_upto(r.pointers@, uv, i as int),
        decreases related_uris@.len() - i,
    {
        let ghost prev = related@.map_values(|x: RelatedInfo| related_view(x));
        match &related_uris[i] {
            Some(u) => {
                let p = &r.pointers[i + 1];
                proof {
                    assert(range_fits(r.pointers@[i + 1].line, r.pointers@[i + 1].column, r.pointers@[i + 1].length as int));
                }
                let msg = match &p.msg {
                    Some(m) => m.clone(),
                    None => "related".to_owned(),
                };
                let ri = RelatedInfo { uri: u.clone(), range: loc_to_range(p.line, p.column, p.length), message: msg };
                related.push(ri);
                proof {
                    assert(uv[i as int] == Some(u@));
                    assert(related@.map_values(|x: RelatedInfo| related_view(x)) =~= prev.push(related_view(ri)));
                }
            },
            None => {
                proof {
                    assert(uv[i as int] is None);
                }
            },
        }
        i += 1;
    }
    Diagnostic {
        range,
        severity: Some(severity_to_lsp(r.severity)),
        code: Some(r.key.clone()),
        source: Some("pdxscript-lsp".to_owned()),
        message: message_of(r),
        data: Some(confidence_text(r.confidence)),
        related,
    }
}

/// `u` is a URL of the `file` scheme.
pub open spec fn is_file_url(u: Seq<char>) -> bool {
    u.len() >= 7 && u.take(7) == "file://"@
}

/// A path that is absolute on no platform: it is empty, or it starts with
/// no `/` or `\\` and holds no `:` (so it has neither a root nor a drive or
/// server prefix).
pub open spec fn relative_path(p: Seq<char>) -> bool {
    p.len() == 0 || (p[0] != '/' && p[0] != '\\' && !p.contains(':'))
}

/// A URI that the file at `path` can have: a `file://` URL, and none at all
/// for a relative path.
pub open spec fn uri_of_path(path: Seq<char>, u: Option<Seq<char>>) -> bool {
    &&& (u matches Some(x) ==> is_file_url(x))
    &&& (relative_path(path) ==> u is None)
}

/// `Url::from_file_path` (the `url` crate, through `tower_lsp::lsp_types`),
/// its URL written out as a string; `None` where the path does not convert.
/// The URL is built by appending the path's segments to `file://`, and a
/// path that is not absolute does not convert (`Path::is_absolute`: on Unix
/// a path starting with `/`, on Windows one with a drive or server prefix).
/// Which other paths convert, and how their segments are written, depends on
/// the platform's paths and is not stated.
#[verifier::external_body]
pub(crate) fn file_uri(path: &str) -> (r: Option<String>)
    ensures
        uri_of_path(path@, opt_str(r)),
{
    match tower_lsp::lsp_types::Url::from_file_path(path) {
        Ok(u) => Some(String::from(u)),
        Err(_) => None,
    }
}

pub type DiagView = (
    Range,
    Option<DiagnosticSeverity>,
    Option<Seq<char>>,
    Option<Seq<char>>,
    Seq<char>,
    Option<Seq<char>>,
    Seq<RelatedView>,
);

pub open spec fn uri_views(v: Seq<Option<String>>) -> Seq<Option<Seq<char>>> {
    v.map_values(|u: Option<String>| opt_str(u))
}

pub open spec fn uri_lists(v: Seq<Vec<Option<String>>>) -> Seq<Seq<Option<Seq<char>>>> {
    v.map_values(|l: Vec<Option<String>>| uri_views(l@))
}

/// `uris` holds, for each report, one URI (or `None`) per pointer.
pub open spec fn uris_fit(reports: Seq<Report>, uris: Seq<Seq<Option<Seq<char>>>>) -> bool {
    &&& uris.len() == reports.len()
    &&& forall|i: int| 0 <= i < reports.len() ==> (#[trigger] uris[i]).len() == reports[i].pointers@.len()
}

/// The diagnostics of the first `n` reports, each with the URI of the file it
/// is shown in, given the URIs of the files of every pointer: a report with no
/// pointer, or whose first pointer's file has no URI, gives none.
pub open spec fn report_entries(reports: Seq<Report>, uris: Seq<Seq<Option<Seq<char>>>>, n: int) -> Seq<
    (Seq<char>, DiagView),
>
    decreases n,
{
    if n <= 0 {
        seq![]
    } else {
        let p = report_entries(reports, uris, n - 1);
        let r = reports[n - 1];
        let u = uris[n - 1];
        if r.pointers@.len() > 0 && u[0] is Some {
            p.push((u[0]->0, report_diag(r, u.drop_first())))
        } else {
            p
        }
    }
}

pub open spec fn entries_view(v: Seq<(String, Diagnostic)>) -> Seq<(Seq<char>, DiagView)> {
    v.map_values(|e: (String, Diagnostic)| (e.0@, diag_view(e.1)))
}

fn copy_uri(o: &Option<String>) -> (r: Option<String>)
    ensures
        opt_str(r) == opt_str(*o),
{
    match o {
        Some(s) => Some(s.clone()),
        None => None,
    }
}

/// The diagnostics of the reports, given the URI of the file of every pointer
/// of every report (see `report_entries`).
pub fn diagnostics_with_uris(reports: &[Report], uris: &[Vec<Option<String>>]) -> (r: Vec<(String, Diagnostic)>)
    requires
        uris_fit(reports@, uri_lists(uris@)),
        forall|i: int| 0 <= i < reports@.len() ==> report_fits(#[trigger] reports@[i]),
    ensures
        entries_view(r@) == report_entries(reports@, uri_lists(uris@), reports@.len() as int),
{
    let ghost us = uri_lists(uris@);
    let mut out: Vec<(String, Diagnostic)> = Vec::new();
    let mut i: usize = 0;
    proof {
        assert(entries_view(out@) =~= seq![]);
    }
    while i < reports.len()
        invariant
            i <= reports@.len(),
            us == uri_lists(uris@),
            uris_fit(reports@, us),
            forall|j: int| 0 <= j < reports@.len() ==> report_fits(#[trigger] reports@[j]),
            entries_view(out@) == report_entries(reports@, us, i as int),
        decreases reports@.len() - i,
    {
        let rep = &reports[i];
        let ul = &uris[i];
        proof {
            assert(us[i as int] == uri_views(ul@));
            assert(us[i as int].len() == rep.pointers@.len());
            assert(report_fits(reports@[i as int]));
        }
        if rep.pointers.len() > 0 {
            match &ul[0] {
                Some(u) => {
                    let mut related: Vec<Option<String>> = Vec::new();
                    let mut j: usize = 1;
                    while j < ul.len()
                        invariant
                            1 <= j <= ul@.len(),
                            uri_views(related@) == uri_views(ul@).subrange(1, j as int),
                        decreases ul@.len() - j,
                    {
                        let c = copy_uri(&ul[j]);
                        proof {
                            assert(uri_views(related@.push(c)) =~= uri_views(related@).push(opt_str(c)));
                            assert(uri_views(ul@).subrange(1, j + 1) =~= uri_views(ul@).subrange(1, j as int).push(
                                opt_str(ul@[j as int]),
                            ));
                        }
                        related.push(c);
                        j += 1;
                    }
                    proof {
                        assert(uri_views(ul@).subrange(1, ul@.len() as int) =~= us[i as int].drop_first());
                    }
                    let d = report_diagnostic(rep, related.as_slice());
                    let ghost prev = entries_view(out@);
                    out.push((u.clone(), d));
                    proof {
                        assert(reports@[i as int] == *rep);
                        assert(us[i as int][0] == Some(u@));
                        assert(entries_view(out@) =~= prev.push((u@, diag_view(d))));
                    }
                },
                None => {
                    proof {
                        assert(us[i as int][0] is None);
                    }
                },
            }
        }
        i += 1;
    }
    out
}

/// The URI of the file of every pointer of a report.
fn pointer_uris(rep: &Report) -> (r: Vec<Option<String>>)
    ensures
        r@.len() == rep.pointers@.len(),
        forall|j: int| 0 <= j < r@.len() ==> uri_of_path(rep.pointers@[j].path@, #[trigger] opt_str(r@[j])),
{
    let mut uris: Vec<Option<String>> = Vec::new();
    let mut j: usize = 0;
    while j < rep.pointers.len()
        invariant
            j <= rep.pointers@.len(),
            uris@.len() == j,
            forall|k: int| 0 <= k < j ==> uri_of_path(rep.pointers@[k].path@, #[trigger] opt_str(uris@[k])),
        decreases rep.pointers@.len() - j,
    {
        uris.push(file_uri(rep.pointers[j].path.as_str()));
        j += 1;
    }
    uris
}

/// Every URI of `us` is one that the file of its pointer can have.
pub open spec fn pointer_uris_of_paths(reports: Seq<Report>, us: Seq<Seq<Option<Seq<char>>>>) -> bool {
    forall|i: int, j: int|
        0 <= i < reports.len() && 0 <= j < us[i].len() ==> uri_of_path(
            reports[i].pointers@[j].path@,
            #[trigger] us[i][j],
        )
}

proof fn lemma_entries_file_urls(reports: Seq<Report>, us: Seq<Seq<Option<Seq<char>>>>, n: int)
    requires
        uris_fit(reports, us),
        pointer_uris_of_paths(reports, us),
        n <= reports.len(),
    ensures
        forall|k: int|
            0 <= k < report_entries(reports, us, n).len() ==> is_file_url(
                (#[trigger] report_entries(reports, us, n)[k]).0,
            ),
    decreases n,
{
    if n > 0 {
        lemma_entries_file_urls(reports, us, n - 1);
        let r = reports[n - 1];
        let u = us[n - 1];
        let p = report_entries(reports, us, n - 1);
        if r.pointers@.len() > 0 && u[0] is Some {
            assert(u.len() == r.pointers@.len());
            assert(uri_of_path(reports[n - 1].pointers@[0].path@, us[n - 1][0]));
            let q = p.push((u[0]->0, report_diag(r, u.drop_first())));
            assert(report_entries(reports, us, n) == q);
            assert forall|k: int| 0 <= k < q.len() implies is_file_url((#[trigger] q[k]).0) by {
                if k < p.len() {
                    assert(q[k] == p[k]);
                }
            }
        }
    }
}

/// The diagnostics of the validator's reports, each with the URI of the file
/// it is shown in: those of `diagnostics_with_uris` for the URIs the files of
/// the pointers have on this platform. Every URI is a `file://` URL, and a
/// pointer to a relative path has none.
pub fn diagnostics_from_reports(reports: &[Report]) -> (r: Vec<(String, Diagnostic)>)
    requires
        forall|i: int| 0 <= i < reports@.len() ==> report_fits(#[trigger] reports@[i]),
    ensures
        exists|us: Seq<Seq<Option<Seq<char>>>>|
            uris_fit(reports@, us) && pointer_uris_of_paths(reports@, us) && #[trigger] report_entries(
                reports@,
                us,
                reports@.len() as int,
            ) == entries_view(r@),
        forall|k: int| 0 <= k < r@.len() ==> is_file_url((#[trigger] r@[k]).0@),
{
    let mut uris: Vec<Vec<Option<String>>> = Vec::new();
    let mut i: usize = 0;
    while i < reports.len()
        invariant
            i <= reports@.len(),
            uris@.len() == i,
            forall|k: int| 0 <= k < i ==> (#[trigger] uris@[k])@.len() == reports@[k].pointers@.len(),
            forall|k: int, j: int|
                0 <= k < i && 0 <= j < uris@[k]@.len() ==> uri_of_path(
                    reports@[k].pointers@[j].path@,
                    #[trigger] opt_str(uris@[k]@[j]),
                ),
        decreases reports@.len() - i,
    {
        let pu = pointer_uris(&reports[i]);
        uris.push(pu);
        proof {
            assert(uris@[i as int] == pu);
        }
        i += 1;
    }
    let ghost us = uri_lists(uris@);
    proof {
        assert forall|k: int| 0 <= k < reports@.len() implies (#[trigger] us[k]).len()
            == reports@[k].pointers@.len() by {
            assert(us[k] == uri_views(uris@[k]@));
        }
        assert forall|k: int, j: int| 0 <= k < reports@.len() && 0 <= j < us[k].len() implies uri_of_path(
            reports@[k].pointers@[j].path@,
            #[trigger] us[k][j],
        ) by {
            assert(us[k] == uri_views(uris@[k]@));
            assert(us[k][j] == opt_str(uris@[k]@[j]));
        }
    }
    let r = diagnostics_with_uris(reports, uris.as_slice());
    proof {
        assert(uris_fit(reports@, us));
        lemma_entries_file_urls(reports@, us, reports@.len() as int);
        assert forall|k: int| 0 <= k < r@.len() implies is_file_url((#[trigger] r@[k]).0@) by {
            assert(entries_view(r@)[k] == (r@[k].0@, diag_view(r@[k].1)));
        }
    }
    r
}

// ─── Scope hints ─────────────────────────────────────────────────────────────

/// `⟨scope⟩`.
pub open spec fn scope_label(scope: Seq<char>) -> Seq<char> {
    seq!['⟨'] + scope + seq!['⟩']
}

/// The hint of an annotation: its scope at the start of its (zero-based)
/// line; none for a file-level annotation (line 0).
pub open spec fn scope_hint_spec(a: ScopeAnnotation) -> Option<(Position, Seq<char>)> {
    if a.line == 0 {
        None
    } else {
        Some((Position { line: (a.line - 1) as u32, character: 0 }, scope_label(a.scope@)))
    }
}

/// The hint of an annotation (see `scope_hint_spec`).
pub fn scope_hint(a: &ScopeAnnotation) -> (r: Option<InlayHint>)
    ensures
        match scope_hint_spec(*a) {
            Some((p, l)) => r.is_some() && r.unwrap().position == p && r.unwrap().label@ == l,
            None => r is None,
        },
{
    if a.line == 0 {
        return None;
    }
    let mut label = String::new();
    push_char(&mut label, '⟨');
    append_str(&mut label, a.scope.as_str());
    push_char(&mut label, '⟩');
    proof {
        assert(label@ =~= scope_label(a.scope@));
    }
    Some(InlayHint { position: Position { line: a.line - 1, character: 0 }, label })
}

/// The hints of the first `n` annotations, each with the URI of its file,
/// given those URIs: an annotation whose file has no URI, or at line 0, gives
/// none.
pub open spec fn hints_upto(anns: Seq<ScopeAnnotation>, uris: Seq<Option<Seq<char>>>, n: int) -> Seq<
    (Seq<char>, Position, Seq<char>),
>
    decreases n,
{
    if n <= 0 {
        seq![]
    } else {
        let p = hints_upto(anns, uris, n - 1);
        match (uris[n - 1], scope_hint_spec(anns[n - 1])) {
            (Some(u), Some((pos, label))) => p.push((u, pos, label)),
            _ => p,
        }
    }
}

pub open spec fn hints_view(v: Seq<(String, InlayHint)>) -> Seq<(Seq<char>, Position, Seq<char>)> {
    v.map_values(|e: (String, InlayHint)| (e.0@, e.1.position, e.1.label@))
}

/// The scope hints of the annotations, given the URI of each one's file (see
/// `hints_upto`).
pub fn hints_with_uris(annotations: &[ScopeAnnotation], uris: &[Option<String>]) -> (r: Vec<(String, InlayHint)>)
    requires
        uris@.len() == annotations@.len(),
    ensures
        hints_view(r@) == hints_upto(annotations@, uri_views(uris@), annotations@.len() as int),
{
    let ghost us = uri_views(uris@);
    let mut out: Vec<(String, InlayHint)> = Vec::new();
    let mut i: usize = 0;
    proof {
        assert(hints_view(out@) =~= seq![]);
    }
    while i < annotations.len()
        invariant
            i <= annotations@.len(),
            uris@.len() == annotations@.len(),
            us == uri_views(uris@),
            hints_view(out@) == hints_upto(annotations@, us, i as int),
        decreases annotations@.len() - i,
    {
        let a = &annotations[i];
        proof {
            assert(annotations@[i as int] == *a);
            assert(us[i as int] == opt_str(uris@[i as int]));
        }
        match &uris[i] {
            Some(uri) => match scope_hint(a) {
                Some(h) => {
                    let ghost prev = hints_view(out@);
                    out.push((uri.clone(), h));
                    proof {
                        assert(hints_view(out@) =~= prev.push((uri@, h.position, h.label@)));
                    }
                },
                None => {},
            },
            None => {},
        }
        i += 1;
    }
    out
}

/// Every URI of `us` is one that the file of its annotation can have.
pub open spec fn annotation_uris_of_paths(anns: Seq<ScopeAnnotation>, us: Seq<Option<Seq<char>>>) -> bool {
    forall|i: int| 0 <= i < anns.len() ==> uri_of_path(anns[i].path@, #[trigger] us[i])
}

proof fn lemma_hints_file_urls(anns: Seq<ScopeAnnotation>, us: Seq<Option<Seq<char>>>, n: int)
    requires
        us.len() == anns.len(),
        annotation_uris_of_paths(anns, us),
        n <= anns.len(),
    ensures
        forall|k: int|
            0 <= k < hints_upto(anns, us, n).len() ==> is_file_url((#[trigger] hints_upto(anns, us, n)[k]).0),
    decreases n,
{
    if n > 0 {
        lemma_hints_file_urls(anns, us, n - 1);
        assert(uri_of_path(anns[n - 1].path@, us[n - 1]));
        let p = hints_upto(anns, us, n - 1);
        match (us[n - 1], scope_hint_spec(anns[n - 1])) {
            (Some(u), Some((pos, label))) => {
                let q = p.push((u, pos, label));
                assert forall|k: int| 0 <= k < q.len() implies is_file_url((#[trigger] q[k]).0) by {
                    if k < p.len() {
                        assert(q[k] == p[k]);
                    }
                }
            },
            _ => {},
        }
    }
}

/// The scope hints of the annotations, each with the URI of its file: those
/// of `hints_with_uris` for the URIs the files have on this platform. Every
/// URI is a `file://` URL, and an annotation of a relative path has none.
pub fn scope_hints(annotations: &[ScopeAnnotation]) -> (r: Vec<(String, InlayHint)>)
    ensures
        exists|us: Seq<Option<Seq<char>>>|
            us.len() == annotations@.len() && annotation_uris_of_paths(annotations@, us) && #[trigger] hints_upto(
                annotations@,
                us,
                annotations@.len() as int,
            ) == hints_view(r@),
        forall|k: int| 0 <= k < r@.len() ==> is_file_url((#[trigger] r@[k]).0@),
{
    let mut uris: Vec<Option<String>> = Vec::new();
    let mut i: usize = 0;
    while i < annotations.len()
        invariant
            i <= annotations@.len(),
            uris@.len() == i,
            forall|k: int| 0 <= k < i ==> uri_of_path(annotations@[k].path@, #[trigger] opt_str(uris@[k])),
        decreases annotations@.len() - i,
    {
        uris.push(file_uri(annotations[i].path.as_str()));
        i += 1;
    }
    let ghost us = uri_views(uris@);
    proof {
        assert forall|k: int| 0 <= k < annotations@.len() implies uri_of_path(
            annotations@[k].path@,
            #[trigger] us[k],
        ) by {
            assert(us[k] == opt_str(uris@[k]));
        }
    }
    let r = hints_with_uris(annotations, uris.as_slice());
    proof {
        lemma_hints_file_urls(annotations@, us, annotations@.len() as int);
        assert forall|k: int| 0 <= k < r@.len() implies is_file_url((#[trigger] r@[k]).0@) by {
            assert(hints_view(r@)[k] == (r@[k].0@, r@[k].1.position, r@[k].1.label@));
        }
    }
    r
}


// ─── Published diagnostics ───────────────────────────────────────────────────

/// Whether a diagnostic is one of the De Morgan hints (its code is `de-morgan`).
pub open spec fn is_demorgan(d: Diagnostic) -> bool {
    d.code matches Some(c) && c@ == "de-morgan"@
}

/// The validator's diagnostics among `diags`: all but the De Morgan hints,
/// in order (kept when the hints of a document are recomputed).
pub fn tiger_diagnostics(diags: Vec<Diagnostic>) -> (r: Vec<Diagnostic>)
    ensures
        r@ == diags@.filter(|d: Diagnostic| !is_demorgan(d)),
{
    let ghost pf = |d: Diagnostic| !is_demorgan(d);
    let ghost dv = diags@;
    let mut rest = diags;
    let mut out: Vec<Diagnostic> = Vec::new();
    let mut k: usize = 0;
    proof {
        assert(dv.take(0).filter(pf) =~= Seq::<Diagnostic>::empty());
        assert(rest@ =~= dv.skip(0));
    }
    let n = rest.len();
    while rest.len() > 0
        invariant
            k <= dv.len(),
            dv.len() == n,
            rest@ == dv.skip(k as int),
            pf == (|d: Diagnostic| !is_demorgan(d)),
            out@ == dv.take(k as int).filter(pf),
        decreases rest@.len(),
    {
        let d = rest.remove(0);
        proof {
            assert(k < dv.len());
            assert(d == dv[k as int]);
            assert(dv.take(k + 1) =~= dv.take(k as int).push(d));
            dv.take(k as int).lemma_filter_push(d, pf);
        }
        let demorgan = match &d.code {
            Some(c) => crate::text::str_is(c.as_str(), "de-morgan"),
            None => false,
        };
        if !demorgan {
            out.push(d);
        }
        k += 1;
        proof {
            assert(rest@ =~= dv.skip(k as int));
        }
    }
    proof {
        assert(dv.take(k as int) =~= dv);
    }
    out
}

} // verus!
