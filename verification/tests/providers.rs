use searchthing::applications::{ApplicationsModule, DesktopEntry};
use searchthing::dmenu::DmenuModule;
use searchthing::interface::{SearchItemHandle, SearchModule, SelectionAction};
use searchthing::symbols::SymbolsModule;

fn fruit_provider() -> DmenuModule {
    let options = vec![
        String::from("apple"),
        String::from("banana"),
        String::from("coconut"),
    ];
    DmenuModule::new(None, options)
}

#[test]
fn fuzzy_query_keeps_subsequence_matches_only() {
    // "cc" appears in order only in "coconut"
    let m = fruit_provider();
    let res = m.queery("cc", 10);
    assert_eq!(res, vec![SearchItemHandle(2)]);
    let res = m.queery("cc", 1);
    assert_eq!(res, vec![SearchItemHandle(2)]);
}

#[test]
fn query_is_case_insensitive_both_ways() {
    let m = fruit_provider();
    // the query is lowercased at match time
    assert_eq!(m.queery("CC", 10), vec![SearchItemHandle(2)]);
    // the option text is lowercased at match time too
    let shouty = DmenuModule::new(None, vec![String::from("COCONUT")]);
    assert_eq!(shouty.queery("cc", 10), vec![SearchItemHandle(0)]);
}

#[test]
fn query_truncation_returns_prefix_of_full_ranking() {
    let options = vec![
        String::from("alpha"),
        String::from("banal"),
        String::from("aorta"),
        String::from("gamma"),
    ];
    let m = DmenuModule::new(Some(String::from("Pick")), options);
    let full = m.queery("a", 100);
    assert!(full.len() >= 3);
    for k in 0..full.len() {
        let short = m.queery("a", k as u32);
        assert_eq!(short.len(), k);
        assert_eq!(&full[..k], &short[..]);
    }
}

#[test]
fn contiguous_occurrence_is_always_found() {
    // the query occurs contiguously inside the option, so a match is owed
    let m = DmenuModule::new(None, vec![String::from("xyzabcxyz")]);
    assert_eq!(m.queery("abc", 10), vec![SearchItemHandle(0)]);
}

#[test]
fn contiguous_occurrence_outranks_scattered_one_from_same_start() {
    // both candidates match starting at their first character; adjacency
    // then decides in favour of the contiguous occurrence
    let m = DmenuModule::new(
        None,
        vec![String::from("axbxc"), String::from("abcxx")],
    );
    let res = m.queery("abc", 10);
    assert_eq!(res.len(), 2);
    assert_eq!(res[0], SearchItemHandle(1));
}

#[test]
fn dmenu_descriptor_and_selection() {
    let m = DmenuModule::new(Some(String::from("Choose")), vec![String::from("line one")]);
    let info = m.mod_info();
    assert_eq!(info.name, "Choose");
    assert_eq!(info.icon, "system-search");
    let mi = m.match_info(SearchItemHandle(0));
    assert_eq!(mi.name, "line one");
    assert_eq!(mi.desc, "");
    let act = m.handle_selection(SearchItemHandle(0));
    assert!(matches!(act, SelectionAction::PrintLine { line } if line == "line one"));
}

#[test]
fn empty_query_matches_everything_in_given_order() {
    let m = fruit_provider();
    // an empty query matches every option with the same score, so the
    // given order is kept and the cap truncates it
    let res = m.queery("", 2);
    assert_eq!(res, vec![SearchItemHandle(0), SearchItemHandle(1)]);
    let res = m.queery("", 10);
    assert_eq!(res.len(), 3);
}

#[test]
fn dmenu_default_prompt() {
    let m = DmenuModule::new(None, vec![]);
    assert_eq!(m.mod_info().name, "Dmenu");
}

fn symbol_lines() -> Vec<String> {
    vec![
        String::from("U+0041;latin capital letter a;first letter"),
        String::from("U+0042;latin capital letter b;second letter"),
        String::from("malformed line"),
        String::from("xx;odd codepoint;no hex digits"),
    ]
}

#[test]
fn symbols_parse_skips_malformed_lines() {
    let m = SymbolsModule::new(symbol_lines());
    let info = m.mod_info();
    assert_eq!(info.name, "Symbols");
    assert_eq!(info.icon, "emoji-symbols-symbolic");
    // three well-formed lines survive: the two letters and the odd one
    let res = m.queery("letter", 10);
    assert_eq!(res.len(), 2);
}

#[test]
fn symbols_match_info_fields() {
    let m = SymbolsModule::new(symbol_lines());
    let mi = m.match_info(SearchItemHandle(0));
    assert_eq!(mi.name, "latin capital letter a");
    assert_eq!(mi.desc, "first letter");
    assert_eq!(mi.icon, "U+0041");
}

#[test]
fn symbols_secondary_label_matches_too() {
    let m = SymbolsModule::new(symbol_lines());
    let res = m.queery("second", 10);
    assert_eq!(res, vec![SearchItemHandle(1)]);
}

#[test]
fn symbols_selection_copies_decoded_character() {
    let m = SymbolsModule::new(symbol_lines());
    let act = m.handle_selection(SearchItemHandle(0));
    assert!(matches!(act, SelectionAction::CopyChar { c: 'A' }));
}

#[test]
fn symbols_selection_of_undecodable_codepoint_is_no_action() {
    let m = SymbolsModule::new(symbol_lines());
    // entry 2 is "xx;odd codepoint;no hex digits": nothing after the prefix
    let act = m.handle_selection(SearchItemHandle(2));
    assert!(matches!(act, SelectionAction::NoAction));
}

fn sample_entries() -> Vec<DesktopEntry> {
    vec![
        DesktopEntry {
            name: String::from("Firefox"),
            desc: Some(String::from("Web browser")),
            keywords: vec![String::from("internet"), String::from("browser")],
            icon: String::from("firefox"),
            command: String::from("firefox %u"),
            term: false,
            path: Some(String::from("/opt/firefox")),
        },
        DesktopEntry {
            name: String::from("Htop"),
            desc: None,
            keywords: vec![String::from("monitor")],
            icon: String::from("htop"),
            command: String::from("  htop  "),
            term: true,
            path: None,
        },
    ]
}

#[test]
fn applications_match_by_keyword() {
    let m = ApplicationsModule::new(sample_entries());
    assert_eq!(m.mod_info().name, "Applications");
    let res = m.queery("internet", 10);
    assert_eq!(res, vec![SearchItemHandle(0)]);
    let res = m.queery("monitor", 10);
    assert_eq!(res, vec![SearchItemHandle(1)]);
}

#[test]
fn applications_match_info_uses_empty_desc_for_none() {
    let m = ApplicationsModule::new(sample_entries());
    let mi = m.match_info(SearchItemHandle(1));
    assert_eq!(mi.name, "Htop");
    assert_eq!(mi.desc, "");
    assert_eq!(mi.icon, "htop");
}

#[test]
fn applications_shell_launch_keeps_command_and_path() {
    let m = ApplicationsModule::new(sample_entries());
    let act = m.handle_selection(SearchItemHandle(0));
    match act {
        SelectionAction::RunShell { command, dir } => {
            assert_eq!(command, "firefox %u");
            assert_eq!(dir, Some(String::from("/opt/firefox")));
        },
        _ => panic!("expected a shell launch"),
    }
}

#[test]
fn applications_terminal_launch_trims_command() {
    let m = ApplicationsModule::new(sample_entries());
    let act = m.handle_selection(SearchItemHandle(1));
    assert!(matches!(act, SelectionAction::RunInTerminal { command } if command == "htop"));
}
