//! A pluggable "search and act" framework core: a query string is fanned out
//! to interchangeable search providers, each returning a ranked, bounded list
//! of match handles that can be selected to trigger an action.
//!
//! The crate holds the provider capability interface, the fuzzy ranking and
//! ordering policy, the native-plugin protocol (info-string decoding and
//! sentinel-terminated handle arrays), the icon-resolution cache, and the
//! orchestrator that maps a global selection cursor onto per-provider match
//! lists.

pub mod applications;
pub mod dmenu;
pub mod icon_cache;
pub mod interface;
pub mod matching;
pub mod plugin;
pub mod ranking;
pub mod symbols;
pub mod text;
pub mod ui;
