//! The orchestrator: a closed set of providers behind one wrapper, the
//! per-provider match caches, and the mapping between the single global
//! selection cursor and (provider, local index) pairs by prefix-summing the
//! per-provider match counts.

use vstd::prelude::*;

use crate::applications::ApplicationsModule;
use crate::dmenu::DmenuModule;
use crate::interface::{MatchInfo, SearchItemHandle, SearchModule, SelectionAction};
use crate::plugin::PluginModule;
use crate::ranking::{rank_spec, scored_candidates};
use crate::symbols::{scored_symbols, symbol_labels, SymbolsModule};
use crate::text::{lower_of, trim_spec};

verus! {

/// The closed set of provider kinds: the in-process providers, and the
/// identity of a bound native plugin whose calls the host performs.
pub enum Provider {
    Applications(ApplicationsModule),
    Dmenu(DmenuModule),
    Symbols(SymbolsModule),
    Native(PluginModule),
}

impl Provider {
    /// Well-formedness of the underlying provider.
    pub open spec fn inv(&self) -> bool {
        match self {
            Provider::Applications(m) => m.inv(),
            Provider::Dmenu(m) => m.inv(),
            Provider::Symbols(m) => m.inv(),
            Provider::Native(_) => true,
        }
    }

    /// How many items the provider's handles index into (none are known
    /// for a native plugin: its handle space is its own).
    pub open spec fn item_count(&self) -> int {
        match self {
            Provider::Applications(m) => m.item_count(),
            Provider::Dmenu(m) => m.item_count(),
            Provider::Symbols(m) => m.item_count(),
            Provider::Native(_) => 0,
        }
    }

    /// Is this the native-plugin kind?
    pub open spec fn is_native(&self) -> bool {
        self matches Provider::Native(_)
    }

    /// The provider's display name.
    pub open spec fn name_view(&self) -> Seq<char> {
        match self {
            Provider::Applications(m) => m.name_view(),
            Provider::Dmenu(m) => m.name_view(),
            Provider::Symbols(m) => m.name_view(),
            Provider::Native(m) => m.name_view(),
        }
    }

    /// The provider's icon identifier.
    pub open spec fn icon_view(&self) -> Seq<char> {
        match self {
            Provider::Applications(m) => m.icon_view(),
            Provider::Dmenu(m) => m.icon_view(),
            Provider::Symbols(m) => m.icon_view(),
            Provider::Native(m) => m.icon_view(),
        }
    }
}

/// What one in-process query pass caches for a provider: its ranked,
/// truncated handle list. A native provider's matches come from the host
/// instead, so a query pass leaves it with none.
pub open spec fn expected_matches(p: Provider, input: Seq<char>, max: int) -> Seq<
    SearchItemHandle,
> {
    match p {
        Provider::Applications(m) => rank_spec(
            scored_candidates(m.search_texts(), lower_of(input)),
            max,
        ),
        Provider::Dmenu(m) => rank_spec(
            scored_candidates(m.options_view().map_values(|o: Seq<char>| lower_of(o)), lower_of(input)),
            max,
        ),
        Provider::Symbols(m) => rank_spec(
            scored_symbols(symbol_labels(m.symbols_view()), lower_of(input)),
            max,
        ),
        Provider::Native(_) => Seq::empty(),
    }
}

/// One provider together with its descriptor and its cached match list,
/// the latter replaced — and all earlier handles invalidated — by every
/// query pass.
pub struct WrappedSearcher {
    provider: Provider,
    name: String,
    icon: String,
    cached_matches: Vec<SearchItemHandle>,
    max_shown: u32,
}

impl WrappedSearcher {
    /// The wrapped provider.
    pub closed spec fn provider_of(&self) -> Provider {
        self.provider
    }

    /// The cached handles of the most recent query.
    pub closed spec fn cached_view(&self) -> Seq<SearchItemHandle> {
        self.cached_matches@
    }

    /// The uniform per-provider result cap.
    pub closed spec fn max_shown_spec(&self) -> u32 {
        self.max_shown
    }

    /// The provider's display name, copied out at construction.
    pub closed spec fn name_of(&self) -> Seq<char> {
        self.name@
    }

    /// Well-formedness: the provider is well-formed, and every cached
    /// handle of an in-process provider indexes a current item.
    pub closed spec fn wf(&self) -> bool {
        &&& self.provider.inv()
        &&& self.name@ == self.provider.name_view()
        &&& self.icon@ == self.provider.icon_view()
        &&& !self.provider.is_native() ==> forall|k: int|
            0 <= k < self.cached_matches@.len() ==> 0 <= (#[trigger] self.cached_matches@[k]).0
                < self.provider.item_count()
    }

    /// Wrap a provider, copying its descriptor out once.
    pub fn new(provider: Provider, max_shown: u32) -> (r: Self)
        requires
            provider.inv(),
        ensures
            r.wf(),
            r.provider_of() == provider,
            r.name_of() == provider.name_view(),
            r.cached_view() == Seq::<SearchItemHandle>::empty(),
            r.max_shown_spec() == max_shown,
    {
        let info = match &provider {
            Provider::Applications(m) => m.mod_info(),
            Provider::Dmenu(m) => m.mod_info(),
            Provider::Symbols(m) => m.mod_info(),
            Provider::Native(m) => m.mod_info(),
        };
        WrappedSearcher {
            provider,
            name: info.name,
            icon: info.icon,
            cached_matches: Vec::new(),
            max_shown,
        }
    }

    /// Run one query pass: the cached match list is replaced by the
    /// provider's ranked answer (or cleared, for a native provider, whose
    /// answer the host fetches and sets).
    pub fn queery(&mut self, input: &str)
        requires
            old(self).wf(),
        ensures
            final(self).wf(),
            final(self).provider_of() == old(self).provider_of(),
            final(self).name_of() == old(self).name_of(),
            final(self).max_shown_spec() == old(self).max_shown_spec(),
            final(self).cached_view() == expected_matches(
                old(self).provider_of(),
                input@,
                old(self).max_shown_spec() as int,
            ),
    {
        let res = match &self.provider {
            Provider::Applications(m) => m.queery(input, self.max_shown),
            Provider::Dmenu(m) => m.queery(input, self.max_shown),
            Provider::Symbols(m) => m.queery(input, self.max_shown),
            Provider::Native(_) => Vec::new(),
        };
        self.cached_matches = res;
    }

    /// The cached handles of the most recent query.
    pub fn cached_matches(&self) -> (r: &Vec<SearchItemHandle>)
        ensures
            r@ == self.cached_view(),
    {
        &self.cached_matches
    }

    /// Install the match list the host fetched from a native plugin.
    pub fn set_matches(&mut self, matches: Vec<SearchItemHandle>)
        requires
            old(self).wf(),
            old(self).provider_of().is_native(),
        ensures
            final(self).wf(),
            final(self).provider_of() == old(self).provider_of(),
            final(self).name_of() == old(self).name_of(),
            final(self).max_shown_spec() == old(self).max_shown_spec(),
            final(self).cached_view() == matches@,
    {
        self.cached_matches = matches;
    }

    /// Describe one cached match of an in-process provider; the handle
    /// must come from the most recent query.
    pub fn match_info(&self, item: SearchItemHandle) -> (info: MatchInfo)
        requires
            self.wf(),
            !self.provider_of().is_native(),
            self.cached_view().contains(item),
        ensures
            match self.provider_of() {
                Provider::Applications(m) => {
                    &&& info.name@ == m.entries_view()[item.0 as int].name@
                    &&& info.desc@ == match m.entries_view()[item.0 as int].desc {
                        Some(d) => d@,
                        None => Seq::<char>::empty(),
                    }
                    &&& info.icon@ == m.entries_view()[item.0 as int].icon@
                },
                Provider::Dmenu(m) => {
                    &&& info.name@ == m.options_view()[item.0 as int]
                    &&& info.desc@ == Seq::<char>::empty()
                    &&& info.icon@ == Seq::<char>::empty()
                },
                Provider::Symbols(m) => {
                    &&& info.name@ == m.symbols_view()[item.0 as int].1
                    &&& info.desc@ == m.symbols_view()[item.0 as int].2
                    &&& info.icon@ == m.symbols_view()[item.0 as int].0
                },
                Provider::Native(_) => true,
            },
    {
        proof {
            let k = choose|k: int|
                0 <= k < self.cached_matches@.len() && self.cached_matches@[k] == item;
            assert(0 <= self.cached_matches@[k].0 < self.provider.item_count());
        }
        match &self.provider {
            Provider::Applications(m) => m.match_info(item),
            Provider::Dmenu(m) => m.match_info(item),
            Provider::Symbols(m) => m.match_info(item),
            Provider::Native(_) => MatchInfo {
                name: String::new(),
                desc: String::new(),
                icon: String::new(),
            },
        }
    }

    /// Decide the action for one selected cached match of an in-process
    /// provider; the handle must come from the most recent query.
    pub fn handle_selection(&self, selection: SearchItemHandle) -> (r: SelectionAction)
        requires
            self.wf(),
            !self.provider_of().is_native(),
            self.cached_view().contains(selection),
        ensures
            match self.provider_of() {
                Provider::Applications(m) => {
                    &&& m.entries_view()[selection.0 as int].term ==> (r matches
                    SelectionAction::RunInTerminal { command } && command@ == trim_spec(
                        m.entries_view()[selection.0 as int].command@,
                    ))
                    &&& !m.entries_view()[selection.0 as int].term ==> (r matches
                    SelectionAction::RunShell { command, dir } && command == m.entries_view()[
                        selection.0 as int
                    ].command && dir == m.entries_view()[selection.0 as int].path)
                },
                Provider::Dmenu(m) => r matches SelectionAction::PrintLine { line } && line@
                    == m.options_view()[selection.0 as int],
                Provider::Symbols(m) => !(r matches SelectionAction::PrintLine { line }) && !(
                r matches SelectionAction::RunShell { command, dir }) && !(r matches
                SelectionAction::RunInTerminal { command }),
                Provider::Native(_) => true,
            },
    {
        proof {
            let k = choose|k: int|
                0 <= k < self.cached_matches@.len() && self.cached_matches@[k] == selection;
            assert(0 <= self.cached_matches@[k].0 < self.provider.item_count());
        }
        match &self.provider {
            Provider::Applications(m) => m.handle_selection(selection),
            Provider::Dmenu(m) => m.handle_selection(selection),
            Provider::Symbols(m) => m.handle_selection(selection),
            Provider::Native(_) => SelectionAction::NoAction,
        }
    }
}

/// The sum of the first `j` counts: where provider `j`'s matches begin on
/// the flattened cursor line.
pub open spec fn prefix_sum(counts: Seq<usize>, j: int) -> int
    decreases j,
{
    if j <= 0 {
        0
    } else {
        prefix_sum(counts, j - 1) + counts[j - 1]
    }
}

proof fn lemma_prefix_sum_bound(counts: Seq<usize>, j: int)
    requires
        0 <= j <= counts.len(),
    ensures
        0 <= prefix_sum(counts, j) <= j * (usize::MAX as int),
    decreases j,
{
    if j > 0 {
        lemma_prefix_sum_bound(counts, j - 1);
        assert(counts[j - 1] <= usize::MAX as int);
        assert((j - 1) * (usize::MAX as int) + (usize::MAX as int) == j * (usize::MAX as int))
            by (nonlinear_arith);
    }
}

/// Is the item at local index `i` of provider `j` the one the global
/// cursor `k` points at?
pub fn is_highlighted_match(match_counts: &[usize], i: usize, j: usize, k: usize) -> (r: bool)
    requires
        j <= match_counts@.len(),
    ensures
        r == (prefix_sum(match_counts@, j as int) + i == k),
{
    let n: usize = match_counts.len();
    let mut count: u128 = 0;
    let mut t: usize = 0;
    while t < j
        invariant
            t <= j <= match_counts@.len(),
            n == match_counts@.len(),
            count == prefix_sum(match_counts@, t as int),
            count <= (t as int) * (usize::MAX as int),
        decreases j - t,
    {
        proof {
            lemma_prefix_sum_bound(match_counts@, t + 1);
            assert((t as int) * (usize::MAX as int) + (usize::MAX as int) == (t + 1) * (
            usize::MAX as int)) by (nonlinear_arith);
            assert((match_counts@.len() as int) * (usize::MAX as int) < u128::MAX as int)
                by (nonlinear_arith)
                requires
                    match_counts@.len() == n as int,
            ;
        }
        count = count + (match_counts[t] as u128);
        t = t + 1;
    }
    proof {
        lemma_prefix_sum_bound(match_counts@, j as int);
        assert((match_counts@.len() as int) * (usize::MAX as int) + (usize::MAX as int) <= (
        u128::MAX as int)) by (nonlinear_arith)
            requires
                match_counts@.len() == n as int,
        ;
    }
    count + (i as u128) == (k as u128)
}

/// The flattened cursor value of local index `i` of provider `j`.
pub fn kbd_idx(match_counts: &[usize], i: usize, j: usize) -> (r: usize)
    requires
        j <= match_counts@.len(),
        prefix_sum(match_counts@, j as int) + i <= usize::MAX,
    ensures
        r == prefix_sum(match_counts@, j as int) + i,
{
    let mut count: usize = 0;
    let mut t: usize = 0;
    while t < j
        invariant
            t <= j <= match_counts@.len(),
            count == prefix_sum(match_counts@, t as int),
            prefix_sum(match_counts@, j as int) + i <= usize::MAX,
        decreases j - t,
    {
        proof {
            lemma_prefix_sum_mono(match_counts@, t + 1, j as int);
        }
        count = count + match_counts[t];
        t = t + 1;
    }
    count + i
}

proof fn lemma_prefix_sum_mono(counts: Seq<usize>, a: int, b: int)
    requires
        0 <= a <= b <= counts.len(),
    ensures
        prefix_sum(counts, a) <= prefix_sum(counts, b),
    decreases b - a,
{
    if a < b {
        lemma_prefix_sum_mono(counts, a, b - 1);
    }
}

/// The flattened cursor line has exactly one position per match: distinct
/// (provider, local index) pairs never share a cursor value, so the
/// mapping between the two is a bijection over the current matches.
pub proof fn lemma_cursor_value_unique(counts: Seq<usize>, j1: int, i1: int, j2: int, i2: int)
    requires
        0 <= j1 < counts.len(),
        0 <= i1 < counts[j1],
        0 <= j2 < counts.len(),
        0 <= i2 < counts[j2],
        prefix_sum(counts, j1) + i1 == prefix_sum(counts, j2) + i2,
    ensures
        j1 == j2,
        i1 == i2,
{
    if j1 < j2 {
        assert(prefix_sum(counts, j1 + 1) == prefix_sum(counts, j1) + counts[j1]);
        lemma_prefix_sum_mono(counts, j1 + 1, j2);
    } else if j2 < j1 {
        assert(prefix_sum(counts, j2 + 1) == prefix_sum(counts, j2) + counts[j2]);
        lemma_prefix_sum_mono(counts, j2 + 1, j1);
    }
}

/// Map the global selection cursor to the provider it falls in and the
/// local index within that provider's matches, by walking the counts.
pub fn cursor_position(match_counts: &[usize], cursor: usize) -> (r: Option<(usize, usize)>)
    ensures
        match r {
            Some(p) => {
                &&& p.0 < match_counts@.len()
                &&& p.1 < match_counts@[p.0 as int]
                &&& prefix_sum(match_counts@, p.0 as int) + p.1 == cursor
            },
            None => cursor >= prefix_sum(match_counts@, match_counts@.len() as int),
        },
{
    let mut j: usize = 0;
    let mut remaining = cursor;
    while j < match_counts.len()
        invariant
            j <= match_counts@.len(),
            remaining == cursor - prefix_sum(match_counts@, j as int),
            prefix_sum(match_counts@, j as int) <= cursor,
        decreases match_counts@.len() - j,
    {
        let c: usize = match_counts[j];
        if remaining < c {
            return Some((j, remaining));
        }
        remaining = remaining - c;
        j = j + 1;
    }
    None
}

/// The per-provider match counts of a searcher list.
pub open spec fn counts_of(searchers: Seq<WrappedSearcher>) -> Seq<usize> {
    searchers.map_values(|s: WrappedSearcher| s.cached_view().len() as usize)
}

/// The orchestrator: the ordered providers, the global selection cursor,
/// and the configured stay-open behaviour.
pub struct SearchThing {
    searchers: Vec<WrappedSearcher>,
    keyboard_idx: usize,
    stay_open: bool,
}

impl SearchThing {
    /// The wrapped searchers, in provider order.
    pub closed spec fn searchers_view(&self) -> Seq<WrappedSearcher> {
        self.searchers@
    }

    /// The global selection cursor over the flattened match lists.
    pub closed spec fn cursor_spec(&self) -> usize {
        self.keyboard_idx
    }

    /// Whether the window stays open after an activation.
    pub closed spec fn stay_open_spec(&self) -> bool {
        self.stay_open
    }

    /// Well-formedness: every searcher is well-formed.
    pub open spec fn wf(&self) -> bool {
        forall|k: int|
            0 <= k < self.searchers_view().len() ==> (#[trigger] self.searchers_view()[k]).wf()
    }

    /// Assemble the orchestrator over its providers.
    pub fn new(searchers: Vec<WrappedSearcher>, stay_open: bool) -> (r: Self)
        requires
            forall|k: int| 0 <= k < searchers@.len() ==> (#[trigger] searchers@[k]).wf(),
        ensures
            r.wf(),
            r.searchers_view() == searchers@,
            r.cursor_spec() == 0,
            r.stay_open_spec() == stay_open,
    {
        SearchThing { searchers, keyboard_idx: 0, stay_open }
    }

    /// How many searchers there are.
    pub fn searcher_count(&self) -> (r: usize)
        ensures
            r == self.searchers_view().len(),
    {
        self.searchers.len()
    }

    /// Borrow one searcher.
    pub fn searcher(&self, j: usize) -> (r: &WrappedSearcher)
        requires
            j < self.searchers_view().len(),
        ensures
            *r == self.searchers_view()[j as int],
    {
        &self.searchers[j]
    }

    /// The current per-provider match counts, in provider order.
    pub fn match_counts(&self) -> (r: Vec<usize>)
        ensures
            r@ == counts_of(self.searchers_view()),
    {
        let mut r: Vec<usize> = Vec::new();
        let mut k: usize = 0;
        proof {
            assert(r@ =~= counts_of(self.searchers_view()).take(0));
        }
        while k < self.searchers.len()
            invariant
                k <= self.searchers@.len(),
                r@ == counts_of(self.searchers@).take(k as int),
            decreases self.searchers@.len() - k,
        {
            r.push(self.searchers[k].cached_matches().len());
            proof {
                assert(r@ =~= counts_of(self.searchers@).take(k + 1));
            }
            k = k + 1;
        }
        proof {
            assert(counts_of(self.searchers@).take(self.searchers@.len() as int) =~= counts_of(
                self.searchers@,
            ));
        }
        r
    }

    /// Re-query every provider with the same input; every provider's
    /// earlier handles are invalidated.
    pub fn queery_all(&mut self, input: &str)
        requires
            old(self).wf(),
        ensures
            final(self).wf(),
            final(self).searchers_view().len() == old(self).searchers_view().len(),
            final(self).cursor_spec() == old(self).cursor_spec(),
            final(self).stay_open_spec() == old(self).stay_open_spec(),
            forall|k: int|
                0 <= k < final(self).searchers_view().len() ==> {
                    let s = #[trigger] final(self).searchers_view()[k];
                    let pre = old(self).searchers_view()[k];
                    s.provider_of() == pre.provider_of() && s.name_of() == pre.name_of()
                        && s.max_shown_spec() == pre.max_shown_spec() && s.cached_view()
                        == expected_matches(
                        pre.provider_of(),
                        input@,
                        pre.max_shown_spec() as int,
                    )
                },
    {
        let mut k: usize = 0;
        while k < self.searchers.len()
            invariant
                old(self).wf(),
                k <= self.searchers@.len(),
                self.searchers@.len() == old(self).searchers@.len(),
                self.keyboard_idx == old(self).keyboard_idx,
                self.stay_open == old(self).stay_open,
                forall|m: int|
                    k <= m < self.searchers@.len() ==> #[trigger] self.searchers@[m] == old(
                        self,
                    ).searchers@[m],
                forall|m: int|
                    0 <= m < k ==> {
                        let s = #[trigger] self.searchers@[m];
                        let pre = old(self).searchers@[m];
                        s.wf() && s.provider_of() == pre.provider_of() && s.name_of()
                            == pre.name_of() && s.max_shown_spec() == pre.max_shown_spec()
                            && s.cached_view() == expected_matches(
                            pre.provider_of(),
                            input@,
                            pre.max_shown_spec() as int,
                        )
                    },
            decreases self.searchers@.len() - k,
        {
            proof {
                assert(self.searchers@[k as int] == old(self).searchers@[k as int]);
                assert(old(self).searchers_view()[k as int].wf());
            }
            let s = &mut self.searchers[k];
            s.queery(input);
            k = k + 1;
        }
    }

    /// Install the match list the host fetched from the native plugin at
    /// position `j`.
    pub fn set_searcher_matches(&mut self, j: usize, matches: Vec<SearchItemHandle>)
        requires
            old(self).wf(),
            j < old(self).searchers_view().len(),
            old(self).searchers_view()[j as int].provider_of().is_native(),
        ensures
            final(self).wf(),
            final(self).searchers_view().len() == old(self).searchers_view().len(),
            final(self).cursor_spec() == old(self).cursor_spec(),
            final(self).stay_open_spec() == old(self).stay_open_spec(),
            final(self).searchers_view()[j as int].cached_view() == matches@,
            final(self).searchers_view()[j as int].provider_of() == old(
                self,
            ).searchers_view()[j as int].provider_of(),
            forall|m: int|
                0 <= m < old(self).searchers_view().len() && m != j
                    ==> #[trigger] final(self).searchers_view()[m] == old(
                    self,
                ).searchers_view()[m],
    {
        let s = &mut self.searchers[j];
        s.set_matches(matches);
    }

    /// Move the selection cursor one step up, stopping at the top.
    pub fn move_selection_up(&mut self)
        ensures
            final(self).searchers_view() == old(self).searchers_view(),
            final(self).stay_open_spec() == old(self).stay_open_spec(),
            final(self).cursor_spec() == if old(self).cursor_spec() > 0 {
                (old(self).cursor_spec() - 1) as usize
            } else {
                0usize
            },
    {
        if self.keyboard_idx > 0 {
            self.keyboard_idx = self.keyboard_idx - 1;
        }
    }

    /// Move the selection cursor one step down, stopping at the last of
    /// `total_matches` flattened positions.
    pub fn move_selection_down(&mut self, total_matches: usize)
        ensures
            final(self).searchers_view() == old(self).searchers_view(),
            final(self).stay_open_spec() == old(self).stay_open_spec(),
            final(self).cursor_spec() == if total_matches > 0 && old(self).cursor_spec()
                < total_matches - 1 {
                (old(self).cursor_spec() + 1) as usize
            } else {
                old(self).cursor_spec()
            },
    {
        if total_matches > 0 && self.keyboard_idx < total_matches - 1 {
            self.keyboard_idx = self.keyboard_idx + 1;
        }
    }

    /// The provider the cursor currently falls in, with the local index of
    /// the selected match, when the cursor points at a match at all.
    pub fn selected(&self) -> (r: Option<(usize, usize)>)
        ensures
            match r {
                Some(p) => {
                    &&& p.0 < self.searchers_view().len()
                    &&& p.1 < counts_of(self.searchers_view())[p.0 as int]
                    &&& prefix_sum(counts_of(self.searchers_view()), p.0 as int) + p.1
                        == self.cursor_spec()
                },
                None => self.cursor_spec() >= prefix_sum(
                    counts_of(self.searchers_view()),
                    self.searchers_view().len() as int,
                ),
            },
    {
        let counts = self.match_counts();
        cursor_position(counts.as_slice(), self.keyboard_idx)
    }

    /// Should the window close once a selection was activated? Unless a
    /// persistent mode is configured, activation requests termination.
    pub fn should_close_after_selection(&self) -> (r: bool)
        ensures
            r == !self.stay_open_spec(),
    {
        !self.stay_open
    }
}

} // verus!

