//! The verified core of a language server for Paradox script files
//! (Victoria 3 mods): formatting, folding, symbols, references and renames,
//! completions, hovers, semantic tokens, call hierarchy, De Morgan rewrites,
//! links and inline values, and the conversion of validator reports into
//! diagnostics. Every function states what it computes as a contract that
//! Verus proves; the editor protocol, the file system and the validator run
//! around it.
pub mod format;
pub mod model;
pub mod text;
pub mod wiki;
pub mod demorgan;
pub mod symbols;
pub mod fold;
pub mod references;
pub mod semantic;
pub mod completions;
pub mod order;
pub mod call_hierarchy;
pub mod hover;
pub mod editor;
pub mod inline;
pub mod validate;
pub mod requests;
