use searchthing::dmenu::DmenuModule;
use searchthing::icon_cache::{AppIconPathCache, FileEntry, Icon};
use searchthing::interface::{SearchItemHandle, SelectionAction};
use searchthing::plugin::PluginModule;
use searchthing::ui::{
    cursor_position, is_highlighted_match, kbd_idx, Provider, SearchThing, WrappedSearcher,
};

fn dmenu_of(words: &[&str]) -> Provider {
    let options: Vec<String> = words.iter().map(|w| String::from(*w)).collect();
    Provider::Dmenu(DmenuModule::new(None, options))
}

#[test]
fn cursor_maps_to_provider_and_local_index() {
    // two providers reporting counts [2, 3]: global cursor 4 is the last
    // match of the second provider
    let counts: Vec<usize> = vec![2, 3];
    assert_eq!(cursor_position(&counts, 4), Some((1, 2)));
    assert_eq!(cursor_position(&counts, 0), Some((0, 0)));
    assert_eq!(cursor_position(&counts, 2), Some((1, 0)));
    assert_eq!(cursor_position(&counts, 5), None);
}

#[test]
fn highlight_and_flattened_index_agree() {
    let counts: Vec<usize> = vec![2, 3];
    assert!(is_highlighted_match(&counts, 2, 1, 4));
    assert!(!is_highlighted_match(&counts, 1, 1, 4));
    assert_eq!(kbd_idx(&counts, 2, 1), 4);
    assert_eq!(kbd_idx(&counts, 0, 0), 0);
}

#[test]
fn orchestrator_queries_all_providers() {
    let a = WrappedSearcher::new(dmenu_of(&["apple", "banana", "coconut"]), 10);
    let b = WrappedSearcher::new(dmenu_of(&["choco", "coconut milk"]), 10);
    let mut st = SearchThing::new(vec![a, b], false);
    st.queery_all("co");
    assert_eq!(st.match_counts(), vec![1, 2]);
    assert_eq!(
        st.searcher(0).cached_matches(),
        &vec![SearchItemHandle(2)]
    );
}

#[test]
fn orchestrator_selection_moves_and_resolves() {
    let a = WrappedSearcher::new(dmenu_of(&["apple", "banana"]), 10);
    let b = WrappedSearcher::new(dmenu_of(&["cherry"]), 10);
    let mut st = SearchThing::new(vec![a, b], false);
    st.queery_all("a");
    // "apple" and "banana" match, "cherry" does not: counts [2, 0]
    assert_eq!(st.match_counts(), vec![2, 0]);
    assert_eq!(st.selected(), Some((0, 0)));
    st.move_selection_down(2);
    assert_eq!(st.selected(), Some((0, 1)));
    st.move_selection_down(2);
    assert_eq!(st.selected(), Some((0, 1)));
    st.move_selection_up();
    st.move_selection_up();
    assert_eq!(st.selected(), Some((0, 0)));
    assert!(st.should_close_after_selection());
}

#[test]
fn orchestrator_activates_selected_line() {
    let a = WrappedSearcher::new(dmenu_of(&["apple", "banana"]), 10);
    let mut st = SearchThing::new(vec![a], true);
    st.queery_all("ban");
    let (j, i) = st.selected().unwrap();
    let s = st.searcher(j);
    let handle = s.cached_matches()[i];
    let act = s.handle_selection(handle);
    assert!(matches!(act, SelectionAction::PrintLine { line } if line == "banana"));
    assert!(!st.should_close_after_selection());
}

#[test]
fn native_provider_matches_come_from_the_host() {
    let plug = PluginModule::from_info("Sample,sample-icon").unwrap();
    let w = WrappedSearcher::new(Provider::Native(plug), 10);
    let mut st = SearchThing::new(vec![w], false);
    st.queery_all("anything");
    assert_eq!(st.match_counts(), vec![0]);
    st.set_searcher_matches(0, vec![SearchItemHandle(0), SearchItemHandle(1)]);
    assert_eq!(st.match_counts(), vec![2]);
}

fn icon_entries() -> Vec<FileEntry> {
    vec![
        FileEntry {
            name: String::from("firefox.png"),
            path: String::from("/usr/share/icons/firefox.png"),
        },
        FileEntry {
            name: String::from("terminal.svg"),
            path: String::from("/usr/share/icons/terminal.svg"),
        },
    ]
}

#[test]
fn icon_request_then_resolve_finds_the_file() {
    let mut cache = AppIconPathCache::new();
    let name = String::from("firefox");
    assert!(matches!(cache.get(&name), Icon::Searching));
    let n = cache.batch_find(&icon_entries(), 5);
    assert_eq!(n, 1);
    match cache.get(&name) {
        Icon::Found { path } => assert!(path.contains("firefox.png")),
        _ => panic!("expected a found entry"),
    }
}

#[test]
fn icon_resolution_is_idempotent() {
    let mut cache = AppIconPathCache::new();
    let name = String::from("firefox");
    cache.get(&name);
    cache.batch_find(&icon_entries(), 5);
    let first = match cache.get(&name) {
        Icon::Found { path } => path,
        _ => panic!("expected a found entry"),
    };
    // an already-resolved name never re-enqueues: nothing left to resolve
    assert!(matches!(cache.get(&name), Icon::Found { .. }));
    assert_eq!(cache.batch_find(&icon_entries(), 5), 0);
    match cache.get(&name) {
        Icon::Found { path } => assert_eq!(path, first),
        _ => panic!("expected the same entry"),
    }
}

#[test]
fn icon_requests_coalesce_to_one_pending_entry() {
    let mut cache = AppIconPathCache::new();
    let name = String::from("nonexistent");
    for _ in 0..5 {
        assert!(matches!(cache.get(&name), Icon::Searching));
    }
    // five rapid requests left exactly one unit of pending work
    assert_eq!(cache.batch_find(&icon_entries(), 10), 1);
    assert!(matches!(cache.get(&name), Icon::NotFound));
}

#[test]
fn icon_batch_is_bounded_and_newest_first() {
    let mut cache = AppIconPathCache::new();
    cache.get(&String::from("oldest"));
    cache.get(&String::from("middle"));
    cache.get(&String::from("firefox"));
    // one pass bounded to two requests resolves the two newest
    assert_eq!(cache.batch_find(&icon_entries(), 2), 2);
    assert!(matches!(cache.get(&String::from("firefox")), Icon::Found { .. }));
    assert!(matches!(cache.get(&String::from("middle")), Icon::NotFound));
    // the oldest is still queued
    assert!(matches!(cache.get(&String::from("oldest")), Icon::Searching));
    assert_eq!(cache.batch_find(&icon_entries(), 2), 1);
    assert!(matches!(cache.get(&String::from("oldest")), Icon::NotFound));
}

#[test]
fn coalescing_keeps_one_pending_entry_per_name() {
    let mut cache = AppIconPathCache::default();
    let name = String::from("thing");
    for _ in 0..4 {
        cache.get(&name);
    }
    assert_eq!(cache.pending_len(), 1);
    cache.get(&String::from("other"));
    assert_eq!(cache.pending_len(), 2);
    cache.get(&name);
    assert_eq!(cache.pending_len(), 2);
}

#[test]
fn icon_codepoint_names_bypass_the_cache() {
    let mut cache = AppIconPathCache::new();
    assert!(matches!(
        cache.get(&String::from("U+41")),
        Icon::Unicode { c: 'A' }
    ));
    assert!(matches!(cache.get(&String::from("U+ZZ")), Icon::NotFound));
    assert!(matches!(cache.get(&String::from("")), Icon::Blank));
    // nothing was queued for any of these
    assert_eq!(cache.batch_find(&icon_entries(), 5), 0);
}

#[test]
fn one_file_claims_one_name_per_walk() {
    let mut cache = AppIconPathCache::new();
    // both names are contained in the same file name; the newer request
    // claims the file, and the other finds nothing left in this walk
    cache.get(&String::from("fire"));
    cache.get(&String::from("firefox"));
    assert_eq!(cache.batch_find(&icon_entries(), 5), 2);
    assert!(matches!(cache.get(&String::from("firefox")), Icon::Found { .. }));
    assert!(matches!(cache.get(&String::from("fire")), Icon::NotFound));
}
