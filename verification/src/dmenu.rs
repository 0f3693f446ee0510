//! The line-list provider: a fixed list of option lines (read once by the
//! host at construction), matched fuzzily and case-insensitively; selecting
//! an option asks the host to write that line to standard output.

use vstd::prelude::*;
use vstd::string::StringExecFns;

use crate::interface::{
    FuzzySearch, MatchInfo, SearchItemHandle, SearchMethod, SearchModule, SearcherInfo,
    SelectionAction,
};
use crate::matching::fuzzy_is_match;
use crate::ranking::{
    lemma_rank_handles_in_range, lemma_scored_handles_in_range, rank_candidates, rank_spec,
    scored_candidates,
};
use crate::text::{lower_of, to_lowercase};

verus! {

/// A dmenu-style provider over a fixed list of option lines.
pub struct DmenuModule {
    name: String,
    icon: String,
    options: Vec<String>,
}

impl DmenuModule {
    /// The option lines, in their given order.
    pub closed spec fn options_view(&self) -> Seq<Seq<char>> {
        self.options@.map_values(|o: String| o@)
    }

    /// The provider's display name.
    pub closed spec fn name_view(&self) -> Seq<char> {
        self.name@
    }

    /// The provider's icon identifier.
    pub closed spec fn icon_view(&self) -> Seq<char> {
        self.icon@
    }

    /// Build the provider from its prompt (the display name, when given)
    /// and the option lines the host has read.
    pub fn new(prompt: Option<String>, options: Vec<String>) -> (r: Self)
        requires
            options@.len() <= i32::MAX,
        ensures
            r.inv(),
            r.item_count() == options@.len(),
            r.options_view() == options@.map_values(|o: String| o@),
            r.name_view() == match prompt {
                Some(p) => p@,
                None => "Dmenu"@,
            },
            r.icon_view() == "system-search"@,
    {
        let name = match prompt {
            Some(p) => p,
            None => String::from_str("Dmenu"),
        };
        DmenuModule { name, icon: String::from_str("system-search"), options }
    }
}

impl SearchModule for DmenuModule {
    closed spec fn inv(&self) -> bool {
        self.options@.len() <= i32::MAX
    }

    closed spec fn item_count(&self) -> int {
        self.options@.len() as int
    }

    fn mod_info(&self) -> (info: SearcherInfo)
        ensures
            info.name@ == self.name_view(),
            info.icon@ == self.icon_view(),
    {
        SearcherInfo { name: self.name.clone(), icon: self.icon.clone() }
    }

    fn queery(&self, input: &str, max_returned: u32) -> (res: Vec<SearchItemHandle>)
        ensures
            res@ == rank_spec(
                scored_candidates(
                    self.options_view().map_values(|o: Seq<char>| lower_of(o)),
                    lower_of(input@),
                ),
                max_returned as int,
            ),
    {
        let ghost texts = self.options_view().map_values(|o: Seq<char>| lower_of(o));
        let input_low = to_lowercase(input);
        let mut scored: Vec<(i64, SearchItemHandle)> = Vec::new();
        let mut idx: usize = 0;
        proof {
            assert(texts.take(0) =~= Seq::<Seq<char>>::empty());
        }
        while idx < self.options.len()
            invariant
                idx <= self.options@.len(),
                self.options@.len() <= i32::MAX,
                texts == self.options_view().map_values(|o: Seq<char>| lower_of(o)),
                texts.len() == self.options@.len(),
                input_low@ == lower_of(input@),
                scored@ == scored_candidates(texts.take(idx as int), input_low@),
            decreases self.options@.len() - idx,
        {
            let low = to_lowercase(self.options[idx].as_str());
            proof {
                assert(texts[idx as int] == lower_of(self.options@[idx as int]@));
                assert(texts.take(idx + 1).drop_last() =~= texts.take(idx as int));
                assert(texts.take(idx + 1).last() == texts[idx as int]);
            }
            match FuzzySearch::match_idxs(low.as_str(), input_low.as_str()) {
                Some(p) => {
                    scored.push((p.0, SearchItemHandle(idx as i32)));
                },
                None => {},
            }
            idx = idx + 1;
        }
        proof {
            assert(texts.take(texts.len() as int) =~= texts);
        }
        let res = rank_candidates(&scored, max_returned);
        proof {
            lemma_scored_handles_in_range(texts, input_low@);
            lemma_rank_handles_in_range(scored@, max_returned as int, texts.len() as int);
        }
        res
    }

    fn match_info(&self, item: SearchItemHandle) -> (info: MatchInfo)
        ensures
            info.name@ == self.options_view()[item.0 as int],
            info.desc@ == Seq::<char>::empty(),
            info.icon@ == Seq::<char>::empty(),
    {
        let opt = &self.options[item.0 as usize];
        MatchInfo { name: opt.clone(), desc: String::new(), icon: String::new() }
    }

    fn handle_selection(&self, selection: SearchItemHandle) -> (r: SelectionAction)
        ensures
            r matches SelectionAction::PrintLine { line } && line@ == self.options_view()[
                selection.0 as int
            ],
    {
        let opt = &self.options[selection.0 as usize];
        SelectionAction::PrintLine { line: opt.clone() }
    }
}

} // verus!
