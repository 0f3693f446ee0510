use searchthing::interface::{
    char_from_codepoint, substring_range, BasicSearch, FuzzySearch, SearchItemHandle,
    SearchMethod, TERMINATOR_HANDLE,
};
use searchthing::plugin::{parse_plugin_info, scan_handles, PluginModule};
use searchthing::ranking::rank_candidates;

#[test]
fn substring_range_case_insensitive_needle() {
    let r = substring_range("hello world", "WORLD").unwrap();
    assert_eq!(r.start, 6);
    assert_eq!(r.end, 11);
}

#[test]
fn substring_range_miss() {
    assert!(substring_range("hello world", "xyz").is_none());
}

#[test]
fn basic_search_scores_by_position() {
    let (score, idxs) = BasicSearch::match_idxs("abcabc", "CAB").unwrap();
    assert_eq!(score, -2);
    assert_eq!(idxs, vec![2, 3, 4]);
    assert!(BasicSearch::match_idxs("abcabc", "zzz").is_none());
}

#[test]
fn fuzzy_search_finds_subsequence() {
    assert!(FuzzySearch::match_idxs("axbycz", "abc").is_some());
    assert!(FuzzySearch::match_idxs("abc", "abx").is_none());
}

#[test]
fn fuzzy_search_indices_are_match_positions() {
    let (_, idxs) = FuzzySearch::match_idxs("axbycz", "abc").unwrap();
    assert_eq!(idxs, vec![0, 2, 4]);
}

#[test]
fn codepoint_decodes_hex() {
    assert_eq!(char_from_codepoint("U+41"), Some('A'));
    assert_eq!(char_from_codepoint("U+1F600"), Some('\u{1F600}'));
}

#[test]
fn codepoint_rejects_bad_input() {
    assert_eq!(char_from_codepoint("U+"), None);
    assert_eq!(char_from_codepoint("U+ZZZ"), None);
    // a surrogate value is no character
    assert_eq!(char_from_codepoint("U+D800"), None);
    // far beyond the greatest code point
    assert_eq!(char_from_codepoint("U+FFFFFFFFF"), None);
}

#[test]
fn codepoint_accepts_leading_sign() {
    // the hexadecimal numeral may carry a sign, as a plain parse would
    assert_eq!(char_from_codepoint("U++41"), Some('A'));
    assert_eq!(char_from_codepoint("U+-0"), Some('\u{0}'));
}

#[test]
fn ranking_is_best_first_and_stable() {
    let h = |v: i32| SearchItemHandle(v);
    let scored = vec![(5i64, h(0)), (7i64, h(1)), (5i64, h(2)), (6i64, h(3))];
    let ranked = rank_candidates(&scored, 10);
    assert_eq!(ranked, vec![h(1), h(3), h(0), h(2)]);
}

#[test]
fn ranking_truncates_after_full_sort() {
    let h = |v: i32| SearchItemHandle(v);
    let scored = vec![(1i64, h(0)), (9i64, h(1)), (5i64, h(2))];
    let full = rank_candidates(&scored, 100);
    let short = rank_candidates(&scored, 2);
    assert_eq!(short.len(), 2);
    assert_eq!(&full[..2], &short[..]);
    assert_eq!(full, vec![h(1), h(2), h(0)]);
}

#[test]
fn plugin_info_splits_on_first_comma() {
    let (name, icon) = parse_plugin_info("My plugin,my-icon").unwrap();
    assert_eq!(name, "My plugin");
    assert_eq!(icon, "my-icon");
    // a second comma becomes part of the icon field
    let (name, icon) = parse_plugin_info("a,b,c").unwrap();
    assert_eq!(name, "a");
    assert_eq!(icon, "b,c");
}

#[test]
fn plugin_info_without_comma_is_rejected() {
    assert!(parse_plugin_info("no comma here").is_none());
    assert!(PluginModule::from_info("still none").is_none());
}

#[test]
fn plugin_module_carries_descriptor() {
    let m = PluginModule::from_info("Rust plugin (external),text-x-rust").unwrap();
    let info = m.mod_info();
    assert_eq!(info.name, "Rust plugin (external)");
    assert_eq!(info.icon, "text-x-rust");
}

#[test]
fn scan_stops_at_first_terminator() {
    let buf = vec![0, 1, 2, TERMINATOR_HANDLE, 7];
    let res = scan_handles(&buf);
    assert_eq!(res.len(), 3);
    assert_eq!(res[0], SearchItemHandle(0));
    assert_eq!(res[1], SearchItemHandle(1));
    assert_eq!(res[2], SearchItemHandle(2));
    // the terminator law: with k results, the sentinel is read k + 1
    // values in — it stands immediately after them
    assert_eq!(buf[res.len()], TERMINATOR_HANDLE);
}

#[test]
fn scan_of_unterminated_buffer_takes_everything() {
    let buf = vec![3, 4];
    let res = scan_handles(&buf);
    assert_eq!(res.len(), 2);
}

#[test]
fn terminator_handle_is_reserved() {
    assert_eq!(SearchItemHandle::terminator().0, TERMINATOR_HANDLE);
    assert_eq!(TERMINATOR_HANDLE, -1);
}
