//! The symbol-picker provider: a table of labelled code points parsed from
//! `;`-separated lines, matched on either label; selecting a symbol asks
//! the host to place the decoded character on the clipboard.

use vstd::prelude::*;
use vstd::string::StringExecFns;

use crate::interface::{
    char_from_codepoint, valid_codepoint, FuzzySearch, MatchInfo, SearchItemHandle, SearchMethod,
    SearchModule, SearcherInfo, SelectionAction,
};
use crate::matching::{fuzzy_is_match, skim_result};
use crate::ranking::{lemma_rank_handles_in_range, rank_candidates, rank_spec};
use crate::text::{lower_of, parse_hex_u32, split_char, split_spec, to_lowercase, views_of};

verus! {

struct LabeledCodepoints {
    primary_label: String,
    secondary_label: String,
    codepoint: String,
}

/// The `(codepoint, primary label, secondary label)` triples read from the
/// well-formed lines: those with at least three `;`-separated fields, in
/// the order `codepoint;primary;secondary`.
pub open spec fn parsed_symbols(lines: Seq<Seq<char>>) -> Seq<(Seq<char>, Seq<char>, Seq<char>)>
    decreases lines.len(),
{
    if lines.len() == 0 {
        Seq::empty()
    } else {
        let rest = parsed_symbols(lines.drop_last());
        let fs = split_spec(lines.last(), ';');
        if fs.len() >= 3 {
            rest.push((fs[0], fs[1], fs[2]))
        } else {
            rest
        }
    }
}

/// Parsing keeps at most one symbol per line.
pub proof fn lemma_parsed_symbols_len(lines: Seq<Seq<char>>)
    ensures
        parsed_symbols(lines).len() <= lines.len(),
    decreases lines.len(),
{
    if lines.len() > 0 {
        lemma_parsed_symbols_len(lines.drop_last());
    }
}

/// The scored candidates over two-label symbols: a symbol scores by its
/// primary label when that matches, else by its secondary label when that
/// matches, else not at all.
pub open spec fn scored_symbols(labels: Seq<(Seq<char>, Seq<char>)>, pat: Seq<char>) -> Seq<
    (i64, SearchItemHandle),
>
    decreases labels.len(),
{
    if labels.len() == 0 {
        Seq::empty()
    } else {
        let rest = scored_symbols(labels.drop_last(), pat);
        let lab = labels.last();
        if fuzzy_is_match(lab.0, pat) {
            rest.push((skim_result(lab.0, pat).0, SearchItemHandle((labels.len() - 1) as i32)))
        } else if fuzzy_is_match(lab.1, pat) {
            rest.push((skim_result(lab.1, pat).0, SearchItemHandle((labels.len() - 1) as i32)))
        } else {
            rest
        }
    }
}

proof fn lemma_scored_symbols_in_range(labels: Seq<(Seq<char>, Seq<char>)>, pat: Seq<char>)
    requires
        labels.len() <= i32::MAX,
    ensures
        forall|y: (i64, SearchItemHandle)|
            #[trigger] scored_symbols(labels, pat).contains(y) ==> 0 <= y.1.0 < labels.len(),
    decreases labels.len(),
{
    if labels.len() > 0 {
        lemma_scored_symbols_in_range(labels.drop_last(), pat);
        let rest = scored_symbols(labels.drop_last(), pat);
        assert forall|y: (i64, SearchItemHandle)|
            #[trigger] scored_symbols(labels, pat).contains(y) implies 0 <= y.1.0
            < labels.len() by {
            let r = scored_symbols(labels, pat);
            let k = choose|k: int| 0 <= k < r.len() && r[k] == y;
            if k < rest.len() {
                assert(rest.contains(y));
            }
        }
    }
}

/// The label pair each symbol is matched on: both labels lowercased.
pub open spec fn symbol_labels(syms: Seq<(Seq<char>, Seq<char>, Seq<char>)>) -> Seq<
    (Seq<char>, Seq<char>),
> {
    syms.map_values(|t: (Seq<char>, Seq<char>, Seq<char>)| (lower_of(t.1), lower_of(t.2)))
}

/// The symbol-picker provider.
pub struct SymbolsModule {
    name: String,
    icon: String,
    options: Vec<LabeledCodepoints>,
}

impl SymbolsModule {
    /// The `(codepoint, primary label, secondary label)` triples.
    pub closed spec fn symbols_view(&self) -> Seq<(Seq<char>, Seq<char>, Seq<char>)> {
        self.options@.map_values(
            |o: LabeledCodepoints| (o.codepoint@, o.primary_label@, o.secondary_label@),
        )
    }

    /// The provider's display name.
    pub closed spec fn name_view(&self) -> Seq<char> {
        self.name@
    }

    /// The provider's icon identifier.
    pub closed spec fn icon_view(&self) -> Seq<char> {
        self.icon@
    }

    /// Build the provider from the lines of a code-point table.
    pub fn new(lines: Vec<String>) -> (r: Self)
        requires
            lines@.len() <= i32::MAX,
        ensures
            r.inv(),
            r.symbols_view() == parsed_symbols(views_of(lines@)),
            r.item_count() == parsed_symbols(views_of(lines@)).len(),
            r.name_view() == "Symbols"@,
            r.icon_view() == "emoji-symbols-symbolic"@,
    {
        let ghost lviews = views_of(lines@);
        let mut options: Vec<LabeledCodepoints> = Vec::new();
        let mut i: usize = 0;
        proof {
            assert(lviews.take(0) =~= Seq::<Seq<char>>::empty());
        }
        while i < lines.len()
            invariant
                i <= lines@.len(),
                lines@.len() <= i32::MAX,
                lviews == views_of(lines@),
                lviews.len() == lines@.len(),
                options@.map_values(
                    |o: LabeledCodepoints| (o.codepoint@, o.primary_label@, o.secondary_label@),
                ) == parsed_symbols(lviews.take(i as int)),
                options@.len() <= i,
            decreases lines@.len() - i,
        {
            let fields = split_char(lines[i].as_str(), ';');
            proof {
                assert(lviews.take(i + 1).drop_last() =~= lviews.take(i as int));
                assert(lviews.take(i + 1).last() == lviews[i as int]);
                assert(lviews[i as int] == lines@[i as int]@);
            }
            if fields.len() >= 3 {
                let lc = LabeledCodepoints {
                    codepoint: fields[0].clone(),
                    primary_label: fields[1].clone(),
                    secondary_label: fields[2].clone(),
                };
                proof {
                    assert(views_of(fields@)[0] == fields@[0]@);
                    assert(views_of(fields@)[1] == fields@[1]@);
                    assert(views_of(fields@)[2] == fields@[2]@);
                }
                options.push(lc);
                proof {
                    assert(options@.map_values(
                        |o: LabeledCodepoints| (o.codepoint@, o.primary_label@, o.secondary_label@),
                    ) =~= parsed_symbols(lviews.take(i + 1)));
                }
            }
            i = i + 1;
        }
        proof {
            assert(lviews.take(lviews.len() as int) =~= lviews);
        }
        SymbolsModule {
            name: String::from_str("Symbols"),
            icon: String::from_str("emoji-symbols-symbolic"),
            options,
        }
    }
}

impl SearchModule for SymbolsModule {
    closed spec fn inv(&self) -> bool {
        self.options@.len() <= i32::MAX
    }

    closed spec fn item_count(&self) -> int {
        self.options@.len() as int
    }

    fn mod_info(&self) -> (info: SearcherInfo)
        ensures
            info.name@ == self.name_view(),
            info.icon@ == self.icon_view(),
    {
        SearcherInfo { name: self.name.clone(), icon: self.icon.clone() }
    }

    fn queery(&self, input: &str, max_returned: u32) -> (res: Vec<SearchItemHandle>)
        ensures
            res@ == rank_spec(
                scored_symbols(symbol_labels(self.symbols_view()), lower_of(input@)),
                max_returned as int,
            ),
    {
        let ghost labels = symbol_labels(self.symbols_view());
        let input_low = to_lowercase(input);
        let mut scored: Vec<(i64, SearchItemHandle)> = Vec::new();
        let mut idx: usize = 0;
        proof {
            assert(labels.take(0) =~= Seq::<(Seq<char>, Seq<char>)>::empty());
        }
        while idx < self.options.len()
            invariant
                idx <= self.options@.len(),
                self.options@.len() <= i32::MAX,
                labels == symbol_labels(self.symbols_view()),
                labels.len() == self.options@.len(),
                input_low@ == lower_of(input@),
                scored@ == scored_symbols(labels.take(idx as int), input_low@),
            decreases self.options@.len() - idx,
        {
            proof {
                assert(labels[idx as int] == (
                    lower_of(self.options@[idx as int].primary_label@),
                    lower_of(self.options@[idx as int].secondary_label@),
                ));
                assert(labels.take(idx + 1).drop_last() =~= labels.take(idx as int));
                assert(labels.take(idx + 1).last() == labels[idx as int]);
            }
            let low_primary = to_lowercase(self.options[idx].primary_label.as_str());
            match FuzzySearch::match_idxs(low_primary.as_str(), input_low.as_str()) {
                Some(p) => {
                    scored.push((p.0, SearchItemHandle(idx as i32)));
                },
                None => {
                    let low_secondary = to_lowercase(self.options[idx].secondary_label.as_str());
                    match FuzzySearch::match_idxs(low_secondary.as_str(), input_low.as_str()) {
                        Some(p) => {
                            scored.push((p.0, SearchItemHandle(idx as i32)));
                        },
                        None => {},
                    }
                },
            }
            idx = idx + 1;
        }
        proof {
            assert(labels.take(labels.len() as int) =~= labels);
        }
        let res = rank_candidates(&scored, max_returned);
        proof {
            lemma_scored_symbols_in_range(labels, input_low@);
            lemma_rank_handles_in_range(scored@, max_returned as int, labels.len() as int);
        }
        res
    }

    fn match_info(&self, item: SearchItemHandle) -> (info: MatchInfo)
        ensures
            info.name@ == self.symbols_view()[item.0 as int].1,
            info.desc@ == self.symbols_view()[item.0 as int].2,
            info.icon@ == self.symbols_view()[item.0 as int].0,
    {
        let opt = &self.options[item.0 as usize];
        MatchInfo {
            name: opt.primary_label.clone(),
            desc: opt.secondary_label.clone(),
            icon: opt.codepoint.clone(),
        }
    }

    fn handle_selection(&self, selection: SearchItemHandle) -> (r: SelectionAction)
        ensures
            match r {
                SelectionAction::CopyChar { c } => {
                    let cp = self.symbols_view()[selection.0 as int].0;
                    cp.len() >= 2 && parse_hex_u32(cp.skip(2)) == Some(c as u32)
                },
                SelectionAction::NoAction => {
                    let cp = self.symbols_view()[selection.0 as int].0;
                    !(cp.len() >= 2 && parse_hex_u32(cp.skip(2)) is Some && valid_codepoint(
                        parse_hex_u32(cp.skip(2))->0,
                    ))
                },
                _ => false,
            },
    {
        let opt = &self.options[selection.0 as usize];
        let n: usize = opt.codepoint.as_str().unicode_len();
        if n >= 2 {
            match char_from_codepoint(opt.codepoint.as_str()) {
                Some(c) => SelectionAction::CopyChar { c },
                None => SelectionAction::NoAction,
            }
        } else {
            SelectionAction::NoAction
        }
    }
}

} // verus!
