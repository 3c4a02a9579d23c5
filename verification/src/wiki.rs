//! Modding wiki pages (Victoria 3) for engine built-ins, scripted items,
//! validator error keys and script file locations.
use vstd::prelude::*;
use crate::model::EntryKind;
use crate::text::{chars_of, contains_chars, contains_seq, has_prefix_at, prefix_at, str_is};

verus! {

pub const BASE: &'static str = "https://vic3.paradoxwikis.com";
pub const TRIGGERS: &'static str = "https://vic3.paradoxwikis.com/Trigger";
pub const EFFECTS: &'static str = "https://vic3.paradoxwikis.com/Effect";
pub const SCOPES: &'static str = "https://vic3.paradoxwikis.com/Scope";
pub const SCRIPTED_TRIGGERS: &'static str = "https://vic3.paradoxwikis.com/Trigger";
pub const SCRIPTED_EFFECTS: &'static str = "https://vic3.paradoxwikis.com/Effect";
pub const SCRIPTED_MODIFIERS: &'static str = "https://vic3.paradoxwikis.com/Modifier_modding";
pub const EVENTS: &'static str = "https://vic3.paradoxwikis.com/Event_modding";
pub const VARIABLES: &'static str = "https://vic3.paradoxwikis.com/Variable";
pub const MODDING_INDEX: &'static str = "https://vic3.paradoxwikis.com/Modding";
pub const BUILDING_MODDING: &'static str = "https://vic3.paradoxwikis.com/Building_modding";
pub const CHARACTER_MODDING: &'static str = "https://vic3.paradoxwikis.com/Character_modding";
pub const COUNTRY_MODDING: &'static str = "https://vic3.paradoxwikis.com/Country_modding";
pub const CULTURE_MODDING: &'static str = "https://vic3.paradoxwikis.com/Culture_modding";
pub const DECISION_MODDING: &'static str = "https://vic3.paradoxwikis.com/Decision_modding";
pub const DECREE_MODDING: &'static str = "https://vic3.paradoxwikis.com/Decree_modding";
pub const DIPLOMACY_MODDING: &'static str = "https://vic3.paradoxwikis.com/Diplomacy_modding";
pub const HISTORY_MODDING: &'static str = "https://vic3.paradoxwikis.com/History_modding";
pub const INSTITUTION_MODDING: &'static str = "https://vic3.paradoxwikis.com/Institution_modding";
pub const INTEREST_GROUP_MODDING: &'static str = "https://vic3.paradoxwikis.com/Interest_group_modding";
pub const JOURNAL_MODDING: &'static str = "https://vic3.paradoxwikis.com/Journal_modding";
pub const LAW_MODDING: &'static str = "https://vic3.paradoxwikis.com/Law_modding";
pub const MOVEMENT_MODDING: &'static str = "https://vic3.paradoxwikis.com/Political_movement_modding";
pub const POP_MODDING: &'static str = "https://vic3.paradoxwikis.com/Pop_modding";
pub const POWER_BLOC_MODDING: &'static str = "https://vic3.paradoxwikis.com/Power_bloc_modding";
pub const RELIGION_MODDING: &'static str = "https://vic3.paradoxwikis.com/Religion_modding";
pub const STATE_MODDING: &'static str = "https://vic3.paradoxwikis.com/State_modding";
pub const TECHNOLOGY_MODDING: &'static str = "https://vic3.paradoxwikis.com/Technology_modding";
pub const TREATY_MODDING: &'static str = "https://vic3.paradoxwikis.com/Treaty_modding";
pub const WAR_GOAL_MODDING: &'static str = "https://vic3.paradoxwikis.com/War_goal_modding";
pub const GOODS_MODDING: &'static str = "https://vic3.paradoxwikis.com/Goods_modding";
pub const ON_ACTION: &'static str = "https://vic3.paradoxwikis.com/On_action";

/// `s` ends with `t`.
pub open spec fn ends_with_seq(s: Seq<char>, t: Seq<char>) -> bool {
    t.len() <= s.len() && has_prefix_at(s, s.len() - t.len(), t)
}

fn has(p: &[char], lit: &str) -> (b: bool)
    ensures
        b == contains_seq(p@, lit@),
{
    let l = chars_of(lit);
    contains_chars(p, l.as_slice())
}

fn ends(p: &[char], lit: &str) -> (b: bool)
    ensures
        b == ends_with_seq(p@, lit@),
{
    let l = chars_of(lit);
    if l.len() > p.len() {
        return false;
    }
    prefix_at(p, p.len() - l.len(), l.as_slice())
}

pub open spec fn builtin_wiki_url_spec(kind: EntryKind) -> &'static str {
    match kind {
        EntryKind::Trigger => TRIGGERS,
        EntryKind::Effect => EFFECTS,
        EntryKind::Iterator => SCOPES,
    }
}

/// Wiki URL for an engine built-in, by kind.
pub fn builtin_wiki_url(kind: &EntryKind) -> (r: &'static str)
    ensures
        r == builtin_wiki_url_spec(*kind),
{
    match kind {
        EntryKind::Trigger => TRIGGERS,
        EntryKind::Effect => EFFECTS,
        EntryKind::Iterator => SCOPES,
    }
}

pub open spec fn scripted_wiki_url_spec(detail: Seq<char>) -> &'static str {
    if detail == "scripted_effect"@ {
        SCRIPTED_EFFECTS
    } else if detail == "scripted_trigger"@ {
        SCRIPTED_TRIGGERS
    } else if detail == "scripted_modifier"@ {
        SCRIPTED_MODIFIERS
    } else if detail == "event"@ {
        EVENTS
    } else {
        MODDING_INDEX
    }
}

/// Wiki URL for a mod-defined scripted item, by detail string.
pub fn scripted_wiki_url(detail: &str) -> (r: &'static str)
    ensures
        r == scripted_wiki_url_spec(detail@),
{
    if str_is(detail, "scripted_effect") {
        SCRIPTED_EFFECTS
    } else if str_is(detail, "scripted_trigger") {
        SCRIPTED_TRIGGERS
    } else if str_is(detail, "scripted_modifier") {
        SCRIPTED_MODIFIERS
    } else if str_is(detail, "event") {
        EVENTS
    } else {
        MODDING_INDEX
    }
}

/// The variables page.
pub fn variables_url() -> (r: &'static str)
    ensures
        r == VARIABLES,
{
    VARIABLES
}

/// The modding index page.
pub fn modding_index_url() -> (r: &'static str)
    ensures
        r == MODDING_INDEX,
{
    MODDING_INDEX
}

/// The wiki's root.
pub fn wiki_base() -> (r: &'static str)
    ensures
        r == BASE,
{
    BASE
}

pub open spec fn fallback_wiki_url_spec(key: Seq<char>) -> Option<&'static str> {
    if key == "scopes"@ || key == "strict-scopes"@ || key == "temporary-scope"@ || key
        == "use-of-this"@ {
        Some(SCOPES)
    } else if key == "variables"@ || key == "unknown-variable"@ {
        Some(VARIABLES)
    } else if key == "localization"@ || key == "missing-localization"@ || key
        == "suggest-localization"@ || key == "unused-localization"@ || key
        == "localization-key-collision"@ || key == "markup"@ {
        None
    } else if key == "modifiers"@ || key == "unknown-modifier"@ {
        Some(SCRIPTED_MODIFIERS)
    } else if key == "missing-item"@ || key == "unknown-item"@ {
        None
    } else {
        Some(MODDING_INDEX)
    }
}

/// Fallback wiki URL for a validator error key when the report has none;
/// `None` for keys with no relevant page.
pub fn fallback_wiki_url(key: &str) -> (r: Option<&'static str>)
    ensures
        r == fallback_wiki_url_spec(key@),
{
    if str_is(key, "scopes") || str_is(key, "strict-scopes") || str_is(key, "temporary-scope")
        || str_is(key, "use-of-this") {
        Some(SCOPES)
    } else if str_is(key, "variables") || str_is(key, "unknown-variable") {
        Some(VARIABLES)
    } else if str_is(key, "localization") || str_is(key, "missing-localization") || str_is(
        key,
        "suggest-localization",
    ) || str_is(key, "unused-localization") || str_is(key, "localization-key-collision")
        || str_is(key, "markup") {
        None
    } else if str_is(key, "modifiers") || str_is(key, "unknown-modifier") {
        Some(SCRIPTED_MODIFIERS)
    } else if str_is(key, "missing-item") || str_is(key, "unknown-item") {
        None
    } else {
        Some(MODDING_INDEX)
    }
}

/// The first matching rule, most specific first: the script directory a path
/// lies in decides its page.
pub open spec fn path_wiki_url_spec(p: Seq<char>) -> Option<&'static str> {
    if contains_seq(p, "scripted_effects"@) {
        Some(SCRIPTED_EFFECTS)
    } else if contains_seq(p, "scripted_triggers"@) {
        Some(SCRIPTED_TRIGGERS)
    } else if contains_seq(p, "scripted_modifiers"@) || contains_seq(p, "script_modifiers"@) {
        Some(SCRIPTED_MODIFIERS)
    } else if contains_seq(p, "/events/"@) || ends_with_seq(p, "/events"@) {
        Some(EVENTS)
    } else if contains_seq(p, "common/laws"@) {
        Some(LAW_MODDING)
    } else if contains_seq(p, "common/law_groups"@) {
        Some(LAW_MODDING)
    } else if contains_seq(p, "common/buildings"@) || contains_seq(p, "common/building_groups"@) || contains_seq(p, "common/production_method"@) {
        Some(BUILDING_MODDING)
    } else if contains_seq(p, "common/decisions"@) {
        Some(DECISION_MODDING)
    } else if contains_seq(p, "common/decrees"@) {
        Some(DECREE_MODDING)
    } else if contains_seq(p, "common/diplomatic_actions"@) || contains_seq(p, "common/diplomatic_plays"@) || contains_seq(p, "common/diplomatic_catalysts"@) || contains_seq(p, "common/diplomatic_catalyst"@) {
        Some(DIPLOMACY_MODDING)
    } else if contains_seq(p, "common/treaty_articles"@) || contains_seq(p, "common/dynamic_treaty"@) {
        Some(TREATY_MODDING)
    } else if contains_seq(p, "common/cultures"@) {
        Some(CULTURE_MODDING)
    } else if contains_seq(p, "common/character"@) {
        Some(CHARACTER_MODDING)
    } else if contains_seq(p, "common/interest_group"@) {
        Some(INTEREST_GROUP_MODDING)
    } else if contains_seq(p, "common/journal_entries"@) || contains_seq(p, "common/journal_entry"@) {
        Some(JOURNAL_MODDING)
    } else if contains_seq(p, "common/institutions"@) {
        Some(INSTITUTION_MODDING)
    } else if contains_seq(p, "common/technology"@) {
        Some(TECHNOLOGY_MODDING)
    } else if contains_seq(p, "common/religions"@) {
        Some(RELIGION_MODDING)
    } else if contains_seq(p, "common/state_regions"@) || contains_seq(p, "common/provinces"@) {
        Some(STATE_MODDING)
    } else if contains_seq(p, "common/pops"@) || contains_seq(p, "common/pop_types"@) {
        Some(POP_MODDING)
    } else if contains_seq(p, "common/power_bloc"@) {
        Some(POWER_BLOC_MODDING)
    } else if contains_seq(p, "common/political_movement"@) {
        Some(MOVEMENT_MODDING)
    } else if contains_seq(p, "common/country"@) {
        Some(COUNTRY_MODDING)
    } else if contains_seq(p, "common/goods"@) {
        Some(GOODS_MODDING)
    } else if contains_seq(p, "common/war_goal"@) {
        Some(WAR_GOAL_MODDING)
    } else if contains_seq(p, "common/modifier"@) {
        Some(SCRIPTED_MODIFIERS)
    } else if contains_seq(p, "common/history"@) || contains_seq(p, "/history/"@) {
        Some(HISTORY_MODDING)
    } else if contains_seq(p, "common/on_actions"@) {
        Some(ON_ACTION)
    } else {
        None
    }
}

/// Wiki URL derived from the file path of an error location; `None` when no
/// specific page is known.
pub fn path_wiki_url(path: &str) -> (r: Option<&'static str>)
    ensures
        r == path_wiki_url_spec(path@),
{
    let pv = chars_of(path);
    let p = pv.as_slice();
    if has(p, "scripted_effects") {
        return Some(SCRIPTED_EFFECTS);
    }
    if has(p, "scripted_triggers") {
        return Some(SCRIPTED_TRIGGERS);
    }
    if has(p, "scripted_modifiers") || has(p, "script_modifiers") {
        return Some(SCRIPTED_MODIFIERS);
    }
    if has(p, "/events/") || ends(p, "/events") {
        return Some(EVENTS);
    }
    if has(p, "common/laws") {
        return Some(LAW_MODDING);
    }
    if has(p, "common/law_groups") {
        return Some(LAW_MODDING);
    }
    if has(p, "common/buildings") || has(p, "common/building_groups") || has(p, "common/production_method") {
        return Some(BUILDING_MODDING);
    }
    if has(p, "common/decisions") {
        return Some(DECISION_MODDING);
    }
    if has(p, "common/decrees") {
        return Some(DECREE_MODDING);
    }
    if has(p, "common/diplomatic_actions") || has(p, "common/diplomatic_plays") || has(p, "common/diplomatic_catalysts") || has(p, "common/diplomatic_catalyst") {
        return Some(DIPLOMACY_MODDING);
    }
    if has(p, "common/treaty_articles") || has(p, "common/dynamic_treaty") {
        return Some(TREATY_MODDING);
    }
    if has(p, "common/cultures") {
        return Some(CULTURE_MODDING);
    }
    if has(p, "common/character") {
        return Some(CHARACTER_MODDING);
    }
    if has(p, "common/interest_group") {
        return Some(INTEREST_GROUP_MODDING);
    }
    if has(p, "common/journal_entries") || has(p, "common/journal_entry") {
        return Some(JOURNAL_MODDING);
    }
    if has(p, "common/institutions") {
        return Some(INSTITUTION_MODDING);
    }
    if has(p, "common/technology") {
        return Some(TECHNOLOGY_MODDING);
    }
    if has(p, "common/religions") {
        return Some(RELIGION_MODDING);
    }
    if has(p, "common/state_regions") || has(p, "common/provinces") {
        return Some(STATE_MODDING);
    }
    if has(p, "common/pops") || has(p, "common/pop_types") {
        return Some(POP_MODDING);
    }
    if has(p, "common/power_bloc") {
        return Some(POWER_BLOC_MODDING);
    }
    if has(p, "common/political_movement") {
        return Some(MOVEMENT_MODDING);
    }
    if has(p, "common/country") {
        return Some(COUNTRY_MODDING);
    }
    if has(p, "common/goods") {
        return Some(GOODS_MODDING);
    }
    if has(p, "common/war_goal") {
        return Some(WAR_GOAL_MODDING);
    }
    if has(p, "common/modifier") {
        return Some(SCRIPTED_MODIFIERS);
    }
    if has(p, "common/history") || has(p, "/history/") {
        return Some(HISTORY_MODDING);
    }
    if has(p, "common/on_actions") {
        return Some(ON_ACTION);
    }
    None
}

/// The validator's overview page for coders.
pub const TIGER_OVERVIEW: &'static str = "https://github.com/amtep/tiger/wiki/Overview-for-coders";

/// The validator's JSON output format page.
pub const TIGER_JSON_FORMAT: &'static str = "https://github.com/amtep/tiger/wiki/JSON-output-format";

pub open spec fn severity_doc_spec(severity: Seq<char>) -> &'static str {
    if severity == "tips"@ {
        "things that aren't wrong but could be improved"
    } else if severity == "untidy"@ {
        "won't affect the player but will cause maintenance headaches"
    } else if severity == "warning"@ {
        "the player will notice but gameplay is unaffected (e.g. missing localization)"
    } else if severity == "error"@ {
        "bugs likely to affect gameplay"
    } else if severity == "fatal"@ {
        "can cause crashes"
    } else {
        "unknown severity"
    }
}

/// Human-readable explanation of a validator severity level.
pub fn severity_doc(severity: &str) -> (r: &'static str)
    ensures
        r == severity_doc_spec(severity@),
{
    if str_is(severity, "tips") {
        "things that aren't wrong but could be improved"
    } else if str_is(severity, "untidy") {
        "won't affect the player but will cause maintenance headaches"
    } else if str_is(severity, "warning") {
        "the player will notice but gameplay is unaffected (e.g. missing localization)"
    } else if str_is(severity, "error") {
        "bugs likely to affect gameplay"
    } else if str_is(severity, "fatal") {
        "can cause crashes"
    } else {
        "unknown severity"
    }
}

pub open spec fn confidence_doc_spec(confidence: Seq<char>) -> &'static str {
    if confidence == "weak"@ {
        "likely a false positive"
    } else if confidence == "reasonable"@ {
        "probably a real problem"
    } else if confidence == "strong"@ {
        "very likely a real problem"
    } else {
        "unknown confidence"
    }
}

/// Human-readable explanation of a validator confidence level.
pub fn confidence_doc(confidence: &str) -> (r: &'static str)
    ensures
        r == confidence_doc_spec(confidence@),
{
    if str_is(confidence, "weak") {
        "likely a false positive"
    } else if str_is(confidence, "reasonable") {
        "probably a real problem"
    } else if str_is(confidence, "strong") {
        "very likely a real problem"
    } else {
        "unknown confidence"
    }
}

// ─── Scripted items and their directories ────────────────────────────────────

/// The script directory that defines items of a kind, when the kind has one.
pub open spec fn kind_directory(detail: Seq<char>) -> Option<Seq<char>> {
    if detail == "scripted_effect"@ {
        Some("common/scripted_effects/"@)
    } else if detail == "scripted_trigger"@ {
        Some("common/scripted_triggers/"@)
    } else if detail == "scripted_modifier"@ {
        Some("common/scripted_modifiers/"@)
    } else if detail == "event"@ {
        Some("mod/events/"@)
    } else {
        None
    }
}

/// `t` does not occur in `s` when, wherever it could start, its character
/// at `k` differs from the one of `s` there.
proof fn lemma_not_found(s: Seq<char>, t: Seq<char>, k: int)
    requires
        0 <= k < t.len(),
        forall|j: int| k <= j && j - k + t.len() <= s.len() ==> #[trigger] s[j] != t[k],
    ensures
        !contains_seq(s, t),
{
    assert forall|i: int| !has_prefix_at(s, i, t) by {
        if has_prefix_at(s, i, t) {
            assert(s.subrange(i, i + t.len())[k] == t[k]);
            assert(s[i + k] != t[k]);
        }
    }
}

/// The wiki page of a scripted item is the page of the directory that
/// defines its kind: scripted effects, triggers and modifiers and events
/// get the page of their script directory; any other kind gets the modding
/// index.
pub proof fn scripted_page_is_directory_page(detail: Seq<char>)
    ensures
        match kind_directory(detail) {
            Some(dir) => path_wiki_url_spec(dir) == Some(scripted_wiki_url_spec(detail)),
            None => scripted_wiki_url_spec(detail) == MODDING_INDEX,
        },
{
    reveal_strlit("scripted_effect");
    reveal_strlit("scripted_trigger");
    reveal_strlit("scripted_modifier");
    reveal_strlit("event");
    reveal_strlit("scripted_effects");
    reveal_strlit("scripted_triggers");
    reveal_strlit("scripted_modifiers");
    reveal_strlit("script_modifiers");
    reveal_strlit("/events/");
    reveal_strlit("common/scripted_effects/");
    reveal_strlit("common/scripted_triggers/");
    reveal_strlit("common/scripted_modifiers/");
    reveal_strlit("mod/events/");
    let e = "scripted_effects"@;
    let t = "scripted_triggers"@;
    let m = "scripted_modifiers"@;
    if detail == "scripted_effect"@ {
        let d = "common/scripted_effects/"@;
        assert(has_prefix_at(d, 7, e)) by {
            assert(d.subrange(7, 23) =~= e);
        }
    } else if detail == "scripted_trigger"@ {
        let d = "common/scripted_triggers/"@;
        lemma_not_found(d, e, 10);
        assert(has_prefix_at(d, 7, t)) by {
            assert(d.subrange(7, 24) =~= t);
        }
    } else if detail == "scripted_modifier"@ {
        let d = "common/scripted_modifiers/"@;
        lemma_not_found(d, e, 14);
        lemma_not_found(d, t, 12);
        assert(has_prefix_at(d, 7, m)) by {
            assert(d.subrange(7, 25) =~= m);
        }
    } else if detail == "event"@ {
        let d = "mod/events/"@;
        lemma_not_found(d, e, 0);
        lemma_not_found(d, t, 0);
        lemma_not_found(d, m, 0);
        lemma_not_found(d, "script_modifiers"@, 0);
        assert(has_prefix_at(d, 3, "/events/"@)) by {
            assert(d.subrange(3, 11) =~= "/events/"@);
        }
    }
}

} // verus!
