//! The provider capability interface: item handles, provider and match
//! descriptors, the selection actions a provider can ask its host to
//! perform, and the two search-method strategies (plain substring and
//! fuzzy alignment).

use core::ops::Range;
use vstd::prelude::*;

use crate::matching::{fuzzy_indices, fuzzy_is_match, skim_result};
use crate::text::{contains_seq, find_sub, lower_of, occurs_at, parse_hex_u32, to_lowercase};

verus! {

/// Opaque reference to one result item. A handle is meaningful only relative
/// to the most recent query result of the provider that issued it; any later
/// query on the same provider invalidates it.
#[derive(Clone, Copy, PartialEq, Eq, Structural, Debug)]
pub struct SearchItemHandle(pub i32);

/// The reserved sentinel value that terminates every native match list; it
/// is never a valid item index.
pub const TERMINATOR_HANDLE: i32 = -1;

impl SearchItemHandle {
    /// The sentinel handle that marks the end of a native result array.
    pub fn terminator() -> (r: Self)
        ensures
            r.0 == TERMINATOR_HANDLE,
    {
        SearchItemHandle(TERMINATOR_HANDLE)
    }
}

/// Descriptor of a provider: its display name and icon identifier.
pub struct SearcherInfo {
    pub name: String,
    pub icon: String,
}

/// Descriptor of one match: display name, description, icon identifier.
pub struct MatchInfo {
    pub name: String,
    pub desc: String,
    pub icon: String,
}

/// The side effect a provider asks its host to perform for a selected item.
/// The host carries the action out; deciding it is the provider's job.
pub enum SelectionAction {
    /// Run the command in the user's terminal emulator.
    RunInTerminal { command: String },
    /// Run the command through the shell, in the given directory when it is
    /// usable, in the host's working directory otherwise.
    RunShell { command: String, dir: Option<String> },
    /// Write the line to standard output.
    PrintLine { line: String },
    /// Place the character on the clipboard.
    CopyChar { c: char },
    /// Nothing to perform.
    NoAction,
}

/// Capability set every search provider offers.
pub trait SearchModule {
    /// Well-formedness of the provider's internal state.
    spec fn inv(&self) -> bool;

    /// How many items the provider's handles currently index into.
    spec fn item_count(&self) -> int;

    /// The provider's descriptor.
    fn mod_info(&self) -> SearcherInfo
        requires
            self.inv(),
    ;

    /// Rank the provider's items against `input`, best first, and return at
    /// most `max_returned` handles; every returned handle indexes a current
    /// item.
    fn queery(&self, input: &str, max_returned: u32) -> (res: Vec<SearchItemHandle>)
        requires
            self.inv(),
        ensures
            res@.len() <= max_returned as int,
            forall|k: int|
                0 <= k < res@.len() ==> 0 <= (#[trigger] res@[k]).0 < self.item_count(),
    ;

    /// Describe one matched item; the handle must come from the most recent
    /// query.
    fn match_info(&self, item: SearchItemHandle) -> MatchInfo
        requires
            self.inv(),
            0 <= item.0 < self.item_count(),
    ;

    /// Decide the action to perform for a selected item.
    fn handle_selection(&self, selection: SearchItemHandle) -> SelectionAction
        requires
            self.inv(),
            0 <= selection.0 < self.item_count(),
    ;
}

/// Find where the lowercase form of `substring` first occurs in `string`
/// (which is searched as given: lowercase it beforehand for a
/// case-insensitive search). Positions count characters.
pub fn substring_range(string: &str, substring: &str) -> (r: Option<Range<usize>>)
    ensures
        match r {
            Some(rg) => {
                &&& occurs_at(string@, lower_of(substring@), rg.start as int)
                &&& forall|j: int| 0 <= j < rg.start ==> !occurs_at(string@, lower_of(substring@), j)
                &&& rg.end == rg.start + lower_of(substring@).len()
            },
            None => !contains_seq(string@, lower_of(substring@)),
        },
{
    let sub_low = to_lowercase(substring);
    let n: usize = string.unicode_len();
    match find_sub(string, sub_low.as_str()) {
        Some(si) => {
            let m: usize = sub_low.as_str().unicode_len();
            proof {
                assert(si + m <= n);
            }
            Some(Range { start: si, end: si + m })
        },
        None => None,
    }
}

/// A strategy for matching one candidate text against a query: an optional
/// score together with the matched character positions.
pub trait SearchMethod {
    fn match_idxs(search_text: &str, queery_text: &str) -> Option<(i64, Vec<usize>)>;
}

/// Matches when the lowercased query occurs contiguously in the candidate;
/// earlier occurrences score higher.
pub struct BasicSearch;

impl SearchMethod for BasicSearch {
    fn match_idxs(search_text: &str, queery_text: &str) -> (r: Option<(i64, Vec<usize>)>)
        ensures
            match r {
                Some(p) => exists|i: int|
                    {
                        &&& #[trigger] occurs_at(search_text@, lower_of(queery_text@), i)
                        &&& forall|j: int|
                            0 <= j < i ==> !occurs_at(search_text@, lower_of(queery_text@), j)
                        &&& p.0 == if i <= i64::MAX {
                            -i
                        } else {
                            i64::MIN as int
                        }
                        &&& p.1@ == Seq::new(
                            lower_of(queery_text@).len(),
                            |k: int| (i + k) as usize,
                        )
                    },
                None => !contains_seq(search_text@, lower_of(queery_text@)),
            },
    {
        match substring_range(search_text, queery_text) {
            Some(rg) => {
                let ghost i = rg.start as int;
                let score: i64 = if (rg.start as u64) <= (i64::MAX as u64) {
                    -(rg.start as i64)
                } else {
                    i64::MIN
                };
                let mut idxs: Vec<usize> = Vec::new();
                let mut k = rg.start;
                while k < rg.end
                    invariant
                        rg.start <= k <= rg.end,
                        idxs@ == Seq::new((k - rg.start) as nat, |t: int| (rg.start + t) as usize),
                    decreases rg.end - k,
                {
                    idxs.push(k);
                    proof {
                        assert(idxs@ =~= Seq::new(
                            (k + 1 - rg.start) as nat,
                            |t: int| (rg.start + t) as usize,
                        ));
                    }
                    k = k + 1;
                }
                proof {
                    let low = lower_of(queery_text@);
                    assert(occurs_at(search_text@, low, i));
                    assert(idxs@ =~= Seq::new(low.len(), |t: int| (i + t) as usize));
                    assert(exists|ii: int|
                        {
                            &&& #[trigger] occurs_at(search_text@, low, ii)
                            &&& forall|j: int| 0 <= j < ii ==> !occurs_at(search_text@, low, j)
                            &&& score as int == if ii <= i64::MAX {
                                -ii
                            } else {
                                i64::MIN as int
                            }
                            &&& idxs@ == Seq::new(low.len(), |k: int| (ii + k) as usize)
                        });
                }
                Some((score, idxs))
            },
            None => None,
        }
    }
}

/// Matches when the query aligns in order with the candidate, contiguously
/// or not; scored by the proximity and placement of the matched characters.
pub struct FuzzySearch;

impl SearchMethod for FuzzySearch {
    fn match_idxs(search_text: &str, queery_text: &str) -> (r: Option<(i64, Vec<usize>)>)
        ensures
            r is Some <==> fuzzy_is_match(search_text@, queery_text@),
            match r {
                Some(p) => p.0 == skim_result(search_text@, queery_text@).0 && p.1@
                    == skim_result(search_text@, queery_text@).1,
                None => true,
            },
    {
        fuzzy_indices(search_text, queery_text)
    }
}

/// Relies on `char::from_u32` (std): `Some` exactly for values that are not
/// surrogates and not above the greatest code point, returning the character
/// with that code point.
pub assume_specification[ char::from_u32 ](u: u32) -> (r: Option<char>)
    ensures
        (r is Some) <==> (u < 0xD800 || (0xE000 <= u && u <= 0x10FFFF)),
        match r {
            Some(c) => c as u32 == u,
            None => true,
        },
;

/// Is `u` the code point of some character?
pub open spec fn valid_codepoint(u: u32) -> bool {
    u < 0xD800 || (0xE000 <= u && u <= 0x10FFFF)
}

/// Decode a codepoint-encoding icon name: the characters after its
/// two-character prefix are read as hexadecimal and the denoted character is
/// returned, if there is one.
pub fn char_from_codepoint(codepoint: &str) -> (r: Option<char>)
    requires
        codepoint@.len() >= 2,
    ensures
        r is Some <==> (parse_hex_u32(codepoint@.skip(2)) is Some && valid_codepoint(
            parse_hex_u32(codepoint@.skip(2))->0,
        )),
        match r {
            Some(c) => parse_hex_u32(codepoint@.skip(2)) == Some(c as u32),
            None => true,
        },
{
    match crate::text::parse_hex_suffix(codepoint, 2) {
        Some(u) => char::from_u32(u),
        None => None,
    }
}

} // verus!
