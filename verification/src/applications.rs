//! The application-list provider: desktop entries (handed over by the host
//! as plain values), indexed by a lowercased search text built from name,
//! keywords and description; selecting an entry asks the host to launch it,
//! in a terminal or through the shell as the entry demands.

use vstd::prelude::*;
use vstd::string::StringExecFns;

use crate::interface::{
    FuzzySearch, MatchInfo, SearchItemHandle, SearchMethod, SearchModule, SearcherInfo,
    SelectionAction,
};
use crate::ranking::{
    lemma_rank_handles_in_range, lemma_scored_handles_in_range, rank_candidates, rank_spec,
    scored_candidates,
};
use crate::text::{lower_of, to_lowercase, trim_ascii_ws, trim_spec};

verus! {

/// A launchable application, as plain values: what the host's desktop-entry
/// discovery reads out of one entry file.
pub struct DesktopEntry {
    /// Display name.
    pub name: String,
    /// Optional longer description.
    pub desc: Option<String>,
    /// Search keywords.
    pub keywords: Vec<String>,
    /// Icon identifier.
    pub icon: String,
    /// The command line to run.
    pub command: String,
    /// Does the entry demand a terminal?
    pub term: bool,
    /// Optional working directory for the command.
    pub path: Option<String>,
}

/// The keywords joined with the `"||"` separator.
pub open spec fn joined_keywords(kws: Seq<Seq<char>>) -> Seq<char>
    decreases kws.len(),
{
    if kws.len() == 0 {
        Seq::empty()
    } else if kws.len() == 1 {
        kws[0]
    } else {
        joined_keywords(kws.drop_last()) + "||"@ + kws.last()
    }
}

/// The raw (not yet lowercased) search text of an entry: name, joined
/// keywords, and the description when there is one, all `"||"`-separated.
pub open spec fn search_raw(name: Seq<char>, kws: Seq<Seq<char>>, desc: Option<Seq<char>>) -> Seq<
    char,
> {
    let base = name + "||"@ + joined_keywords(kws);
    match desc {
        Some(d) => base + "||"@ + d,
        None => base,
    }
}

/// The view of a desktop entry's search-relevant parts.
pub open spec fn entry_search_raw(e: DesktopEntry) -> Seq<char> {
    search_raw(
        e.name@,
        e.keywords@.map_values(|k: String| k@),
        match e.desc {
            Some(d) => Some(d@),
            None => None,
        },
    )
}

struct WrappedDesktopEntry {
    entry: DesktopEntry,
    search_text: String,
}

/// Build the search text of one entry: the raw text lowercased once, at
/// indexing time.
fn wrap_entry(entry: DesktopEntry) -> (r: WrappedDesktopEntry)
    ensures
        r.entry == entry,
        r.search_text@ == lower_of(entry_search_raw(entry)),
{
    let mut raw = entry.name.clone();
    raw.append("||");
    let ghost kws = entry.keywords@.map_values(|k: String| k@);
    let mut k: usize = 0;
    while k < entry.keywords.len()
        invariant
            k <= entry.keywords@.len(),
            kws == entry.keywords@.map_values(|kk: String| kk@),
            raw@ == entry.name@ + "||"@ + joined_keywords(kws.take(k as int)),
        decreases entry.keywords@.len() - k,
    {
        proof {
            assert(kws.take(k + 1).drop_last() =~= kws.take(k as int));
            assert(kws.take(k + 1).last() == kws[k as int]);
        }
        if k > 0 {
            raw.append("||");
        } else {
            proof {
                assert(joined_keywords(kws.take(0)) =~= Seq::<char>::empty());
                assert(kws.take(1)[0] == kws[0]);
            }
        }
        raw.append(entry.keywords[k].as_str());
        proof {
            if k == 0 {
                assert(raw@ =~= entry.name@ + "||"@ + joined_keywords(kws.take(1)));
            }
        }
        k = k + 1;
    }
    proof {
        assert(kws.take(kws.len() as int) =~= kws);
    }
    match &entry.desc {
        Some(d) => {
            raw.append("||");
            raw.append(d.as_str());
        },
        None => {},
    }
    let search_text = to_lowercase(raw.as_str());
    WrappedDesktopEntry { entry, search_text }
}

/// The in-process provider over the host's desktop entries.
pub struct ApplicationsModule {
    name: String,
    icon: String,
    entries: Vec<WrappedDesktopEntry>,
}

impl ApplicationsModule {
    /// The entries, in their given order.
    pub closed spec fn entries_view(&self) -> Seq<DesktopEntry> {
        self.entries@.map_values(|w: WrappedDesktopEntry| w.entry)
    }

    /// The lowercased search texts, one per entry.
    pub closed spec fn search_texts(&self) -> Seq<Seq<char>> {
        self.entries@.map_values(|w: WrappedDesktopEntry| w.search_text@)
    }

    /// Build the provider from the desktop entries the host has discovered.
    pub fn new(entries: Vec<DesktopEntry>) -> (r: Self)
        requires
            entries@.len() <= i32::MAX,
        ensures
            r.inv(),
            r.item_count() == entries@.len(),
            r.entries_view() == entries@,
            r.name_view() == "Applications"@,
            r.icon_view() == "application-x-executable"@,
    {
        let mut wrapped: Vec<WrappedDesktopEntry> = Vec::new();
        let ghost orig = entries@;
        let total: usize = entries.len();
        let mut entries = entries;
        let mut taken: usize = 0;
        proof {
            assert(wrapped@.map_values(|w: WrappedDesktopEntry| w.entry) =~= orig.take(0));
        }
        while entries.len() > 0
            invariant
                orig.len() == total,
                taken + entries@.len() == orig.len(),
                entries@ == orig.skip(taken as int),
                wrapped@.len() == taken,
                wrapped@.map_values(|w: WrappedDesktopEntry| w.entry) == orig.take(taken as int),
                forall|i: int|
                    0 <= i < taken ==> (#[trigger] wrapped@[i]).search_text@ == lower_of(
                        entry_search_raw(orig[i]),
                    ),
            decreases entries@.len(),
        {
            let e = entries.remove(0);
            proof {
                assert(e == orig[taken as int]);
                assert(entries@ =~= orig.skip(taken + 1));
            }
            let w = wrap_entry(e);
            wrapped.push(w);
            proof {
                assert(wrapped@.map_values(|ww: WrappedDesktopEntry| ww.entry) =~= orig.take(
                    taken + 1,
                ));
            }
            taken = taken + 1;
        }
        proof {
            assert(orig.take(orig.len() as int) =~= orig);
        }
        let r = ApplicationsModule {
            name: String::from_str("Applications"),
            icon: String::from_str("application-x-executable"),
            entries: wrapped,
        };
        proof {
            assert forall|i: int|
                0 <= i < r.search_texts().len() implies #[trigger] r.search_texts()[i] == lower_of(
                entry_search_raw(r.entries_view()[i]),
            ) by {
                assert(r.search_texts()[i] == r.entries@[i].search_text@);
            }
        }
        r
    }

    /// The provider's display name.
    pub closed spec fn name_view(&self) -> Seq<char> {
        self.name@
    }

    /// The provider's icon identifier.
    pub closed spec fn icon_view(&self) -> Seq<char> {
        self.icon@
    }
}

impl SearchModule for ApplicationsModule {
    closed spec fn inv(&self) -> bool {
        &&& self.entries@.len() <= i32::MAX
        &&& forall|i: int|
            0 <= i < self.entries@.len() ==> (#[trigger] self.entries@[i]).search_text@
                == lower_of(entry_search_raw(self.entries@[i].entry))
    }

    closed spec fn item_count(&self) -> int {
        self.entries@.len() as int
    }

    fn mod_info(&self) -> (info: SearcherInfo)
        ensures
            info.name@ == self.name_view(),
            info.icon@ == self.icon_view(),
    {
        SearcherInfo { name: self.name.clone(), icon: self.icon.clone() }
    }

    fn queery(&self, input: &str, max_returned: u32) -> (res: Vec<SearchItemHandle>)
        ensures
            res@ == rank_spec(
                scored_candidates(self.search_texts(), lower_of(input@)),
                max_returned as int,
            ),
    {
        let ghost texts = self.search_texts();
        let input_low = to_lowercase(input);
        let mut scored: Vec<(i64, SearchItemHandle)> = Vec::new();
        let mut idx: usize = 0;
        proof {
            assert(texts.take(0) =~= Seq::<Seq<char>>::empty());
        }
        while idx < self.entries.len()
            invariant
                idx <= self.entries@.len(),
                self.entries@.len() <= i32::MAX,
                texts == self.search_texts(),
                texts.len() == self.entries@.len(),
                input_low@ == lower_of(input@),
                scored@ == scored_candidates(texts.take(idx as int), input_low@),
            decreases self.entries@.len() - idx,
        {
            proof {
                assert(texts[idx as int] == self.entries@[idx as int].search_text@);
                assert(texts.take(idx + 1).drop_last() =~= texts.take(idx as int));
                assert(texts.take(idx + 1).last() == texts[idx as int]);
            }
            match FuzzySearch::match_idxs(
                self.entries[idx].search_text.as_str(),
                input_low.as_str(),
            ) {
                Some(p) => {
                    scored.push((p.0, SearchItemHandle(idx as i32)));
                },
                None => {},
            }
            idx = idx + 1;
        }
        proof {
            assert(texts.take(texts.len() as int) =~= texts);
        }
        let res = rank_candidates(&scored, max_returned);
        proof {
            lemma_scored_handles_in_range(texts, input_low@);
            lemma_rank_handles_in_range(scored@, max_returned as int, texts.len() as int);
        }
        res
    }

    fn match_info(&self, item: SearchItemHandle) -> (info: MatchInfo)
        ensures
            info.name@ == self.entries_view()[item.0 as int].name@,
            info.desc@ == match self.entries_view()[item.0 as int].desc {
                Some(d) => d@,
                None => Seq::<char>::empty(),
            },
            info.icon@ == self.entries_view()[item.0 as int].icon@,
    {
        let w = &self.entries[item.0 as usize];
        let desc = match &w.entry.desc {
            Some(d) => d.clone(),
            None => String::new(),
        };
        MatchInfo { name: w.entry.name.clone(), desc, icon: w.entry.icon.clone() }
    }

    fn handle_selection(&self, selection: SearchItemHandle) -> (r: SelectionAction)
        ensures
            self.entries_view()[selection.0 as int].term ==> (r matches
            SelectionAction::RunInTerminal { command } && command@ == trim_spec(
                self.entries_view()[selection.0 as int].command@,
            )),
            !self.entries_view()[selection.0 as int].term ==> (r matches
            SelectionAction::RunShell { command, dir } && command == self.entries_view()[
                selection.0 as int
            ].command && dir == self.entries_view()[selection.0 as int].path),
    {
        let w = &self.entries[selection.0 as usize];
        if w.entry.term {
            SelectionAction::RunInTerminal { command: trim_ascii_ws(w.entry.command.as_str()) }
        } else {
            let dir = match &w.entry.path {
                Some(p) => Some(p.clone()),
                None => None,
            };
            SelectionAction::RunShell { command: w.entry.command.clone(), dir }
        }
    }
}

} // verus!
