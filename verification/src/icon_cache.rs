//! The icon-resolution cache: name lookups are answered at once from an
//! immutable store, or queued — deduplicated, most-recent-first — for a
//! later bounded resolution pass against a directory listing the host
//! supplies. Names carrying a `U+` code-point prefix bypass the store and
//! decode directly.

use vstd::prelude::*;

use crate::interface::{char_from_codepoint, valid_codepoint};
use crate::text::{contains_seq, parse_hex_u32, views_of};

verus! {

/// What one icon lookup yields right now.
pub enum Icon {
    /// Queued (or re-queued): a later resolution pass will decide it.
    Searching,
    /// Definitively resolved to a file path.
    Found { path: String },
    /// Definitively resolved as absent.
    NotFound,
    /// The name denoted a literal character.
    Unicode { c: char },
    /// The empty name: no icon at all.
    Blank,
}

/// One entry of a directory listing: a file's name and its full path.
pub struct FileEntry {
    pub name: String,
    pub path: String,
}

/// First-match lookup in an association list.
pub open spec fn assoc_lookup<V>(s: Seq<(Seq<char>, V)>, key: Seq<char>) -> Option<V>
    decreases s.len(),
{
    if s.len() == 0 {
        None
    } else if s[0].0 == key {
        Some(s[0].1)
    } else {
        assoc_lookup(s.drop_first(), key)
    }
}

/// The pending queue with every entry for `name` taken out.
pub open spec fn coalesce_out(p: Seq<(u64, Seq<char>)>, name: Seq<char>) -> Seq<(u64, Seq<char>)>
    decreases p.len(),
{
    if p.len() == 0 {
        p
    } else if p[0].1 == name {
        coalesce_out(p.drop_first(), name)
    } else {
        seq![p[0]] + coalesce_out(p.drop_first(), name)
    }
}

/// How many pending entries carry `name`.
pub open spec fn pending_count(p: Seq<(u64, Seq<char>)>, name: Seq<char>) -> int
    decreases p.len(),
{
    if p.len() == 0 {
        0
    } else {
        (if p[0].1 == name {
            1int
        } else {
            0int
        }) + pending_count(p.drop_first(), name)
    }
}

/// Does the name carry the two-character code-point prefix?
pub open spec fn is_codepoint_name(s: Seq<char>) -> bool {
    s.len() >= 2 && s[0] == 'U' && s[1] == '+'
}

/// The process-wide icon cache: an immutable store of resolved entries and
/// a deduplicated queue of pending requests, newest last.
pub struct AppIconPathCache {
    store: Vec<(String, Option<String>)>,
    requests: Vec<(u64, String)>,
    req_no: u64,
}

impl AppIconPathCache {
    /// The resolved entries: name to path-or-absent, in resolution order.
    pub closed spec fn store_view(&self) -> Seq<(Seq<char>, Option<Seq<char>>)> {
        self.store@.map_values(
            |p: (String, Option<String>)|
                (
                    p.0@,
                    match p.1 {
                        Some(s) => Some(s@),
                        None => None,
                    },
                ),
        )
    }

    /// The pending requests, oldest first: each with its sequence number.
    pub closed spec fn pending_view(&self) -> Seq<(u64, Seq<char>)> {
        self.requests@.map_values(|p: (u64, String)| (p.0, p.1@))
    }

    /// The sequence number the next request will carry.
    pub closed spec fn next_seq(&self) -> u64 {
        self.req_no
    }

    /// Well-formedness: store keys are unique, pending names are unique and
    /// unresolved, and sequence numbers grow along the queue, all bounded
    /// by the next one to issue.
    pub closed spec fn wf(&self) -> bool {
        &&& forall|i: int, j: int|
            0 <= i < j < self.store_view().len() ==> (#[trigger] self.store_view()[i]).0 != (
            #[trigger] self.store_view()[j]).0
        &&& forall|i: int, j: int|
            0 <= i < j < self.pending_view().len() ==> (#[trigger] self.pending_view()[i]).1 != (
            #[trigger] self.pending_view()[j]).1
        &&& forall|i: int|
            0 <= i < self.pending_view().len() ==> assoc_lookup(
                self.store_view(),
                (#[trigger] self.pending_view()[i]).1,
            ) is None
        &&& forall|i: int, j: int|
            0 <= i < j < self.pending_view().len() ==> (#[trigger] self.pending_view()[i]).0 <= (
            #[trigger] self.pending_view()[j]).0
        &&& forall|i: int|
            0 <= i < self.pending_view().len() ==> (#[trigger] self.pending_view()[i]).0
                <= self.next_seq()
    }

    /// A new cache: nothing resolved, nothing pending.
    pub fn new() -> (r: Self)
        ensures
            r.wf(),
            r.store_view() == Seq::<(Seq<char>, Option<Seq<char>>)>::empty(),
            r.pending_view() == Seq::<(u64, Seq<char>)>::empty(),
            r.next_seq() == 0,
    {
        let r = AppIconPathCache { store: Vec::new(), requests: Vec::new(), req_no: 0 };
        proof {
            assert(r.store_view() =~= Seq::<(Seq<char>, Option<Seq<char>>)>::empty());
            assert(r.pending_view() =~= Seq::<(u64, Seq<char>)>::empty());
        }
        r
    }

    /// How many requests are pending right now.
    pub fn pending_len(&self) -> (n: usize)
        ensures
            n == self.pending_view().len(),
    {
        self.requests.len()
    }

    /// Look one name up, never blocking: an empty name is no icon, a
    /// `U+`-prefixed name decodes directly, a resolved name answers from
    /// the store, and any other name is queued — replacing any pending
    /// request for the same name, so at most one is ever pending — to be
    /// resolved by a later [`Self::batch_find`] pass.
    pub fn get(&mut self, name: &String) -> (r: Icon)
        requires
            old(self).wf(),
        ensures
            final(self).wf(),
            final(self).store_view() == old(self).store_view(),
            name@.len() == 0 ==> r == Icon::Blank && *final(self) == *old(self),
            is_codepoint_name(name@) ==> *final(self) == *old(self) && match r {
                Icon::Unicode { c } => parse_hex_u32(name@.skip(2)) == Some(c as u32),
                Icon::NotFound => !(parse_hex_u32(name@.skip(2)) is Some && valid_codepoint(
                    parse_hex_u32(name@.skip(2))->0,
                )),
                _ => false,
            },
            name@.len() > 0 && !is_codepoint_name(name@) ==> match assoc_lookup(
                old(self).store_view(),
                name@,
            ) {
                Some(entry) => *final(self) == *old(self) && match entry {
                    Some(path) => r matches Icon::Found { path: p } && p@ == path,
                    None => r == Icon::NotFound,
                },
                None => {
                    &&& r == Icon::Searching
                    &&& final(self).pending_view() == coalesce_out(
                        old(self).pending_view(),
                        name@,
                    ).push((old(self).next_seq(), name@))
                    &&& final(self).next_seq() == if old(self).next_seq() < u64::MAX {
                        (old(self).next_seq() + 1) as u64
                    } else {
                        old(self).next_seq()
                    }
                },
            },
    {
        let n: usize = name.as_str().unicode_len();
        if n == 0 {
            return Icon::Blank;
        }
        if n >= 2 && name.as_str().get_char(0) == 'U' && name.as_str().get_char(1) == '+' {
            return match char_from_codepoint(name.as_str()) {
                Some(c) => Icon::Unicode { c },
                None => Icon::NotFound,
            };
        }
        let ghost sv = self.store_view();
        let mut i: usize = 0;
        while i < self.store.len()
            invariant
                old(self).wf(),
                *self == *old(self),
                name@.len() > 0,
                !is_codepoint_name(name@),
                i <= self.store@.len(),
                sv == self.store_view(),
                sv.len() == self.store@.len(),
                forall|k: int| 0 <= k < i ==> (#[trigger] sv[k]).0 != name@,
            decreases self.store@.len() - i,
        {
            proof {
                assert(sv[i as int].0 == self.store@[i as int].0@);
            }
            if self.store[i].0 == *name {
                proof {
                    lemma_assoc_lookup_at(sv, name@, i as int);
                    assert(sv[i as int].1 == match self.store@[i as int].1 {
                        Some(s) => Some(s@),
                        None => None,
                    });
                }
                return match &self.store[i].1 {
                    Some(p) => Icon::Found { path: p.clone() },
                    None => Icon::NotFound,
                };
            }
            i = i + 1;
        }
        proof {
            lemma_assoc_lookup_at(sv, name@, sv.len() as int);
        }
        // Not resolved: coalesce any pending request for this name into a
        // fresh one carrying the next sequence number.
        let ghost pv = self.pending_view();
        let mut j: usize = 0;
        let mut found = false;
        while j < self.requests.len() && !found
            invariant
                *self == *old(self),
                j <= self.requests@.len(),
                pv == self.pending_view(),
                pv.len() == self.requests@.len(),
                !found ==> forall|k: int| 0 <= k < j ==> (#[trigger] pv[k]).1 != name@,
                found ==> j < pv.len() && pv[j as int].1 == name@,
            decreases pv.len() - j + (if found {
                0int
            } else {
                1int
            }),
        {
            proof {
                assert(pv[j as int].1 == self.requests@[j as int].1@);
            }
            if self.requests[j].1 == *name {
                found = true;
            } else {
                j = j + 1;
            }
        }
        if found {
            proof {
                assert forall|k: int| 0 <= k < j implies (#[trigger] pv[k]).1 != name@ by {
                    assert(pv[k].1 != pv[j as int].1);
                }
            }
            self.requests.remove(j);
            proof {
                assert(self.pending_view() =~= pv.take(j as int) + pv.skip(j + 1));
                lemma_coalesce_out_found(pv, name@, j as int);
            }
        } else {
            proof {
                lemma_coalesce_out_absent(pv, name@);
            }
        }
        let ghost pv2 = self.pending_view();
        proof {
            assert(pv2 == coalesce_out(pv, name@));
        }
        self.requests.push((self.req_no, name.clone()));
        proof {
            assert(self.pending_view() =~= pv2.push((self.req_no, name@)));
        }
        if self.req_no < u64::MAX {
            self.req_no = self.req_no + 1;
        }
        proof {
            let jj = if found {
                j as int
            } else {
                pv.len() as int
            };
            lemma_enqueue_wf(*old(self), *self, name@, jj);
        }
        Icon::Searching
    }

    /// Resolve up to `max_per_tick` of the newest pending requests against
    /// one directory listing: each popped name gains one immutable store
    /// entry — the path of the file the walk assigned to it, or absent —
    /// and the count of popped names is returned. Entries already stored
    /// are never touched.
    pub fn batch_find(&mut self, entries: &Vec<FileEntry>, max_per_tick: usize) -> (n: usize)
        requires
            old(self).wf(),
        ensures
            final(self).wf(),
            final(self).next_seq() == old(self).next_seq(),
            n as int == if max_per_tick as int <= old(self).pending_view().len() {
                max_per_tick as int
            } else {
                old(self).pending_view().len() as int
            },
            final(self).pending_view() == old(self).pending_view().take(
                old(self).pending_view().len() - n,
            ),
            final(self).store_view() == old(self).store_view() + batch_results(
                popped_names(old(self).pending_view(), n as int),
                assign_from(
                    entries@.map_values(|e: FileEntry| (e.name@, e.path@)),
                    popped_names(old(self).pending_view(), n as int),
                    Seq::empty(),
                ),
            ),
    {
        let ghost pv = old(self).pending_view();
        let mut batch: Vec<String> = Vec::new();
        let mut t: usize = 0;
        proof {
            assert(self.pending_view() =~= pv.take(pv.len() as int - 0));
            assert(views_of(batch@) =~= popped_names(pv, 0));
        }
        while t < max_per_tick && self.requests.len() > 0
            invariant
                old(self).wf(),
                self.store_view() == old(self).store_view(),
                self.store@ == old(self).store@,
                self.next_seq() == old(self).next_seq(),
                t == batch@.len(),
                t <= max_per_tick,
                t <= pv.len(),
                pv == old(self).pending_view(),
                self.pending_view() == pv.take(pv.len() - t),
                self.pending_view().len() == self.requests@.len(),
                views_of(batch@) == popped_names(pv, t as int),
            decreases max_per_tick - t,
        {
            let ghost q = self.pending_view();
            let ghost batch_pre = batch@;
            let e = self.requests.pop().unwrap();
            let ghost ev = e.1@;
            proof {
                assert(ev == q.last().1);
                assert(q.last() == pv[pv.len() - 1 - t]);
            }
            batch.push(e.1);
            proof {
                assert(self.pending_view() =~= q.drop_last());
                assert(q.drop_last() =~= pv.take(pv.len() - (t + 1)));
                assert(batch@ == batch_pre.push(e.1));
                assert forall|m: int| 0 <= m < t + 1 implies views_of(batch@)[m] == popped_names(
                    pv,
                    t + 1,
                )[m] by {
                    if m < t {
                        assert(batch@[m] == batch_pre[m]);
                        assert(views_of(batch_pre)[m] == popped_names(pv, t as int)[m]);
                    } else {
                        assert(batch@[m]@ == ev);
                    }
                }
                assert(views_of(batch@) =~= popped_names(pv, t + 1));
            }
            t = t + 1;
        }
        let ghost bnames = views_of(batch@);
        proof {
            assert(bnames == popped_names(pv, t as int));
            // the batch names are pairwise distinct, unresolved, and absent
            // from the remaining queue
            assert forall|a: int, b: int|
                0 <= a < b < bnames.len() implies #[trigger] bnames[a] != #[trigger] bnames[b] by {
                assert(bnames[a] == pv[pv.len() - 1 - a].1);
                assert(bnames[b] == pv[pv.len() - 1 - b].1);
            }
            assert forall|a: int|
                0 <= a < bnames.len() implies assoc_lookup(
                old(self).store_view(),
                #[trigger] bnames[a],
            ) is None by {
                assert(bnames[a] == pv[pv.len() - 1 - a].1);
            }
            assert forall|a: int, b: int|
                0 <= a < bnames.len() && 0 <= b < self.pending_view().len() implies (
            #[trigger] self.pending_view()[b]).1 != #[trigger] bnames[a] by {
                assert(bnames[a] == pv[pv.len() - 1 - a].1);
                assert(self.pending_view()[b] == pv[b]);
            }
        }
        let assigned = find_files(entries, &batch);
        let ghost aview = assigned@.map_values(|p: (String, String)| (p.0@, p.1@));
        let ghost mid_pending = self.pending_view();
        let mut b: usize = 0;
        proof {
            assert(self.store_view() =~= old(self).store_view() + batch_results(
                bnames.take(0),
                aview,
            ));
        }
        while b < batch.len()
            invariant
                old(self).wf(),
                b <= batch@.len(),
                bnames == views_of(batch@),
                bnames.len() == batch@.len(),
                aview == assigned@.map_values(|p: (String, String)| (p.0@, p.1@)),
                aview.len() == assigned@.len(),
                self.next_seq() == old(self).next_seq(),
                self.pending_view() == mid_pending,
                self.store_view() == old(self).store_view() + batch_results(
                    bnames.take(b as int),
                    aview,
                ),
                forall|a2: int, b2: int|
                    0 <= a2 < b2 < bnames.len() ==> #[trigger] bnames[a2] != #[trigger] bnames[b2],
                forall|a2: int|
                    0 <= a2 < bnames.len() ==> assoc_lookup(
                        old(self).store_view(),
                        #[trigger] bnames[a2],
                    ) is None,
                forall|a2: int, b2: int|
                    0 <= a2 < bnames.len() && 0 <= b2 < mid_pending.len() ==> (
                    #[trigger] mid_pending[b2]).1 != #[trigger] bnames[a2],
            decreases batch@.len() - b,
        {
            let nm = &batch[b];
            proof {
                assert(bnames[b as int] == batch@[b as int]@);
            }
            let mut a: usize = 0;
            let mut path_opt: Option<String> = None;
            let mut ahit = false;
            while a < assigned.len() && !ahit
                invariant
                    b < batch@.len(),
                    nm@ == bnames[b as int],
                    bnames == views_of(batch@),
                    aview == assigned@.map_values(|p: (String, String)| (p.0@, p.1@)),
                    aview.len() == assigned@.len(),
                    a <= aview.len(),
                    !ahit ==> path_opt is None && forall|m: int|
                        0 <= m < a ==> (#[trigger] aview[m]).0 != nm@,
                    ahit ==> a < aview.len() && aview[a as int].0 == nm@ && (match path_opt {
                        Some(p) => p@ == aview[a as int].1,
                        None => false,
                    }) && forall|m: int| 0 <= m < a ==> (#[trigger] aview[m]).0 != nm@,
                decreases aview.len() - a + (if ahit {
                    0int
                } else {
                    1int
                }),
            {
                proof {
                    assert(aview[a as int] == (assigned@[a as int].0@, assigned@[a as int].1@));
                }
                if assigned[a].0 == *nm {
                    ahit = true;
                    path_opt = Some(assigned[a].1.clone());
                } else {
                    a = a + 1;
                }
            }
            proof {
                lemma_assoc_lookup_at(
                    aview,
                    nm@,
                    if ahit {
                        a as int
                    } else {
                        aview.len() as int
                    },
                );
            }
            let ghost pov: Option<Seq<char>> = match &path_opt {
                Some(p) => Some(p@),
                None => None,
            };
            proof {
                assert(pov == assoc_lookup(aview, nm@));
            }
            let ghost store_pre = self.store_view();
            self.store.push((nm.clone(), path_opt));
            proof {
                assert(self.store_view() =~= store_pre.push((nm@, pov)));
                assert(batch_results(bnames.take(b + 1), aview) =~= batch_results(
                    bnames.take(b as int),
                    aview,
                ).push((bnames[b as int], assoc_lookup(aview, bnames[b as int]))));
                assert(self.store_view() =~= old(self).store_view() + batch_results(
                    bnames.take(b + 1),
                    aview,
                ));
            }
            b = b + 1;
        }
        proof {
            assert(bnames.take(bnames.len() as int) =~= bnames);
            lemma_batch_wf(*old(self), *self, bnames, aview, mid_pending);
        }
        t
    }
}

impl Default for AppIconPathCache {
    /// The process-wide cache starts empty.
    fn default() -> (r: Self)
        ensures
            r.wf(),
            r.store_view() == Seq::<(Seq<char>, Option<Seq<char>>)>::empty(),
            r.pending_view() == Seq::<(u64, Seq<char>)>::empty(),
            r.next_seq() == 0,
    {
        AppIconPathCache::new()
    }
}

/// Copy a list of strings.
fn clone_strings(v: &Vec<String>) -> (r: Vec<String>)
    ensures
        r@ == v@,
{
    let mut r: Vec<String> = Vec::new();
    let mut i: usize = 0;
    while i < v.len()
        invariant
            i <= v@.len(),
            r@ == v@.take(i as int),
        decreases v@.len() - i,
    {
        r.push(v[i].clone());
        proof {
            assert(r@ =~= v@.take(i + 1));
        }
        i = i + 1;
    }
    proof {
        assert(v@.take(v@.len() as int) =~= v@);
    }
    r
}

/// Assign the files of one directory listing to the requested names, as
/// [`assign_from`] describes: files claim names in walk order, one name
/// per file at most, the first (newest-first) name the file's name
/// contains.
pub fn find_files(entries: &Vec<FileEntry>, names_in: &Vec<String>) -> (res: Vec<(String, String)>)
    ensures
        res@.map_values(|p: (String, String)| (p.0@, p.1@)) == assign_from(
            entries@.map_values(|e: FileEntry| (e.name@, e.path@)),
            views_of(names_in@),
            Seq::empty(),
        ),
{
    let mut names = clone_strings(names_in);
    let ghost eview = entries@.map_values(|e: FileEntry| (e.name@, e.path@));
    let ghost goal = assign_from(eview, views_of(names_in@), Seq::empty());
    let mut res: Vec<(String, String)> = Vec::new();
    let mut i: usize = 0;
    proof {
        assert(eview.skip(0) =~= eview);
        assert(res@.map_values(|p: (String, String)| (p.0@, p.1@)) =~= Seq::<
            (Seq<char>, Seq<char>),
        >::empty());
        assert(views_of(names@) == views_of(names_in@));
    }
    while i < entries.len()
        invariant
            i <= entries@.len(),
            eview == entries@.map_values(|e: FileEntry| (e.name@, e.path@)),
            eview.len() == entries@.len(),
            assign_from(
                eview.skip(i as int),
                views_of(names@),
                res@.map_values(|p: (String, String)| (p.0@, p.1@)),
            ) == goal,
        decreases entries@.len() - i,
    {
        let ghost nviews = views_of(names@);
        let ghost accv = res@.map_values(|p: (String, String)| (p.0@, p.1@));
        proof {
            assert(eview[i as int] == (entries@[i as int].name@, entries@[i as int].path@));
            assert(eview.skip(i as int)[0] == eview[i as int]);
            assert(eview.skip(i as int).drop_first() =~= eview.skip(i + 1));
        }
        let mut k: usize = 0;
        let mut hit = false;
        while k < names.len() && !hit
            invariant
                i < entries@.len(),
                eview == entries@.map_values(|e: FileEntry| (e.name@, e.path@)),
                nviews == views_of(names@),
                nviews.len() == names@.len(),
                k <= nviews.len(),
                !hit ==> forall|m: int|
                    0 <= m < k ==> !contains_seq(eview[i as int].0, #[trigger] nviews[m]),
                hit ==> k < nviews.len() && contains_seq(eview[i as int].0, nviews[k as int])
                    && forall|m: int|
                    0 <= m < k ==> !contains_seq(eview[i as int].0, #[trigger] nviews[m]),
            decreases nviews.len() - k + (if hit {
                0int
            } else {
                1int
            }),
        {
            proof {
                assert(nviews[k as int] == names@[k as int]@);
            }
            if crate::text::contains_sub(entries[i].name.as_str(), names[k].as_str()) {
                hit = true;
            } else {
                k = k + 1;
            }
        }
        if hit {
            proof {
                lemma_first_contained_at(eview[i as int].0, nviews, k as int);
            }
            let nm = names.remove(k);
            res.push((nm, entries[i].path.clone()));
            proof {
                assert(views_of(names@) =~= nviews.remove(k as int));
                assert(res@.map_values(|p: (String, String)| (p.0@, p.1@)) =~= accv.push(
                    (nviews[k as int], eview[i as int].1),
                ));
            }
        } else {
            proof {
                lemma_first_contained_at(eview[i as int].0, nviews, nviews.len() as int);
            }
        }
        i = i + 1;
    }
    proof {
        assert(eview.skip(eview.len() as int) =~= Seq::<(Seq<char>, Seq<char>)>::empty());
    }
    res
}

/// The first of the requested names (by position) that the file name
/// contains as a substring.
pub open spec fn first_contained(file: Seq<char>, names: Seq<Seq<char>>) -> Option<int>
    decreases names.len(),
{
    if names.len() == 0 {
        None
    } else if contains_seq(file, names[0]) {
        Some(0int)
    } else {
        match first_contained(file, names.drop_first()) {
            Some(i) => Some(i + 1),
            None => None,
        }
    }
}

/// One directory walk's assignment of files to requested names: each file,
/// in walk order, is claimed by the first still-unclaimed name that its
/// file name contains; a claimed name takes that file's path and drops out
/// of the search.
pub open spec fn assign_from(
    entries: Seq<(Seq<char>, Seq<char>)>,
    names: Seq<Seq<char>>,
    acc: Seq<(Seq<char>, Seq<char>)>,
) -> Seq<(Seq<char>, Seq<char>)>
    decreases entries.len(),
{
    if entries.len() == 0 {
        acc
    } else {
        match first_contained(entries[0].0, names) {
            Some(i) => assign_from(
                entries.drop_first(),
                names.remove(i),
                acc.push((names[i], entries[0].1)),
            ),
            None => assign_from(entries.drop_first(), names, acc),
        }
    }
}

/// The names a bounded pop takes off the queue, newest first.
pub open spec fn popped_names(p: Seq<(u64, Seq<char>)>, n: int) -> Seq<Seq<char>> {
    Seq::new(n as nat, |i: int| p[p.len() - 1 - i].1)
}

/// The store entries one resolution pass writes: each requested name with
/// the path assigned to it, or marked absent when no file claimed it.
pub open spec fn batch_results(
    names: Seq<Seq<char>>,
    assigned: Seq<(Seq<char>, Seq<char>)>,
) -> Seq<(Seq<char>, Option<Seq<char>>)> {
    names.map_values(|nm: Seq<char>| (nm, assoc_lookup(assigned, nm)))
}

/// A scan that ruled out the first `k` names pins `first_contained`.
proof fn lemma_first_contained_at(file: Seq<char>, names: Seq<Seq<char>>, k: int)
    requires
        0 <= k <= names.len(),
        forall|m: int| 0 <= m < k ==> !contains_seq(file, #[trigger] names[m]),
        k < names.len() ==> contains_seq(file, names[k]),
    ensures
        first_contained(file, names) == if k < names.len() {
            Some(k)
        } else {
            None::<int>
        },
    decreases names.len(),
{
    if names.len() > 0 && k > 0 {
        lemma_first_contained_at(file, names.drop_first(), k - 1);
        assert(forall|m: int|
            0 <= m < k - 1 ==> names.drop_first()[m] == #[trigger] names[m + 1]);
    }
}

/// A scan that ruled out the first `i` keys pins the lookup: it answers at
/// `i` when `i` is a hit, and misses when the scan ran out.
proof fn lemma_assoc_lookup_at<V>(s: Seq<(Seq<char>, V)>, key: Seq<char>, i: int)
    requires
        0 <= i <= s.len(),
        forall|k: int| 0 <= k < i ==> (#[trigger] s[k]).0 != key,
        i < s.len() ==> s[i].0 == key,
    ensures
        assoc_lookup(s, key) == if i < s.len() {
            Some(s[i].1)
        } else {
            None::<V>
        },
    decreases s.len(),
{
    if s.len() > 0 && i > 0 {
        assert(s[0].0 != key);
        lemma_assoc_lookup_at(s.drop_first(), key, i - 1);
        assert(forall|k: int|
            0 <= k < i - 1 ==> (#[trigger] s.drop_first()[k]).0 == s[k + 1].0);
    }
}

/// Removing the unique entry for `name` is what coalescing does when the
/// name is pending at position `j`.
proof fn lemma_coalesce_out_found(p: Seq<(u64, Seq<char>)>, name: Seq<char>, j: int)
    requires
        0 <= j < p.len(),
        p[j].1 == name,
        forall|k: int| 0 <= k < j ==> (#[trigger] p[k]).1 != name,
        forall|i: int, k: int| 0 <= i < k < p.len() ==> (#[trigger] p[i]).1 != (#[trigger] p[k]).1,
    ensures
        coalesce_out(p, name) == p.take(j) + p.skip(j + 1),
    decreases p.len(),
{
    if j == 0 {
        lemma_coalesce_out_absent_from(p.drop_first(), name, p, 1);
        assert(coalesce_out(p, name) == coalesce_out(p.drop_first(), name));
        assert(p.drop_first() =~= p.take(0) + p.skip(1));
    } else {
        assert(p[0].1 != name);
        lemma_coalesce_out_found(p.drop_first(), name, j - 1);
        assert(seq![p[0]] + (p.drop_first().take(j - 1) + p.drop_first().skip(j)) =~= p.take(j)
            + p.skip(j + 1));
    }
}

/// A lookup misses exactly when no entry carries the key.
proof fn lemma_assoc_lookup_none_keys<V>(s: Seq<(Seq<char>, V)>, key: Seq<char>)
    ensures
        assoc_lookup(s, key) is None <==> forall|i: int| 0 <= i < s.len() ==> (#[trigger] s[i]).0
            != key,
    decreases s.len(),
{
    if s.len() > 0 {
        lemma_assoc_lookup_none_keys(s.drop_first(), key);
        assert(forall|i: int|
            0 <= i < s.drop_first().len() ==> #[trigger] s.drop_first()[i] == s[i + 1]);
        if s[0].0 != key && (forall|i: int|
            0 <= i < s.drop_first().len() ==> (#[trigger] s.drop_first()[i]).0 != key) {
            assert forall|i: int| 0 <= i < s.len() implies (#[trigger] s[i]).0 != key by {
                if i > 0 {
                    assert(s.drop_first()[i - 1] == s[i]);
                }
            }
        }
    }
}

/// A lookup in a grown association list answers from the old part first.
pub proof fn lemma_assoc_lookup_append<V>(s1: Seq<(Seq<char>, V)>, s2: Seq<(Seq<char>, V)>, key: Seq<char>)
    ensures
        assoc_lookup(s1 + s2, key) == match assoc_lookup(s1, key) {
            Some(v) => Some(v),
            None => assoc_lookup(s2, key),
        },
    decreases s1.len(),
{
    if s1.len() == 0 {
        assert(s1 + s2 =~= s2);
    } else {
        assert((s1 + s2)[0] == s1[0]);
        assert((s1 + s2).drop_first() =~= s1.drop_first() + s2);
        lemma_assoc_lookup_append(s1.drop_first(), s2, key);
    }
}

/// Icon cache idempotence: the store only ever grows, so a name it already
/// answers keeps its entry — later resolution passes cannot change it.
pub proof fn lemma_store_lookup_preserved<V>(
    s1: Seq<(Seq<char>, V)>,
    s2: Seq<(Seq<char>, V)>,
    key: Seq<char>,
)
    requires
        assoc_lookup(s1, key) is Some,
    ensures
        assoc_lookup(s1 + s2, key) == assoc_lookup(s1, key),
{
    lemma_assoc_lookup_append(s1, s2, key);
}

/// One resolution pass leaves the cache well-formed.
proof fn lemma_batch_wf(
    pre: AppIconPathCache,
    post: AppIconPathCache,
    bnames: Seq<Seq<char>>,
    aview: Seq<(Seq<char>, Seq<char>)>,
    mid_pending: Seq<(u64, Seq<char>)>,
)
    requires
        pre.wf(),
        post.next_seq() == pre.next_seq(),
        post.pending_view() == mid_pending,
        bnames.len() <= pre.pending_view().len(),
        mid_pending == pre.pending_view().take(pre.pending_view().len() - bnames.len()),
        post.store_view() == pre.store_view() + batch_results(bnames, aview),
        forall|a: int, b: int| 0 <= a < b < bnames.len() ==> #[trigger] bnames[a] != #[trigger] bnames[b],
        forall|a: int|
            0 <= a < bnames.len() ==> assoc_lookup(pre.store_view(), #[trigger] bnames[a]) is None,
        forall|a: int, b: int|
            0 <= a < bnames.len() && 0 <= b < mid_pending.len() ==> (#[trigger] mid_pending[b]).1
                != #[trigger] bnames[a],
    ensures
        post.wf(),
{
    let s0 = pre.store_view();
    let added = batch_results(bnames, aview);
    let s = post.store_view();
    assert(added.len() == bnames.len());
    assert forall|i: int, j: int|
        0 <= i < j < s.len() implies (#[trigger] s[i]).0 != (#[trigger] s[j]).0 by {
        if i < s0.len() && j >= s0.len() {
            assert(s[i] == s0[i]);
            assert(s[j] == added[j - s0.len()]);
            assert(s[j].0 == bnames[j - s0.len()]);
            lemma_assoc_lookup_none_keys(s0, bnames[j - s0.len()]);
        } else if i >= s0.len() {
            assert(s[i].0 == bnames[i - s0.len()]);
            assert(s[j].0 == bnames[j - s0.len()]);
        } else {
            assert(s[i] == s0[i] && s[j] == s0[j]);
        }
    }
    let q = post.pending_view();
    assert forall|i: int, j: int|
        0 <= i < j < q.len() implies (#[trigger] q[i]).1 != (#[trigger] q[j]).1 by {
        assert(q[i] == pre.pending_view()[i] && q[j] == pre.pending_view()[j]);
    }
    assert forall|i: int|
        0 <= i < q.len() implies assoc_lookup(s, (#[trigger] q[i]).1) is None by {
        assert(q[i] == pre.pending_view()[i]);
        assert(assoc_lookup(s0, q[i].1) is None);
        lemma_assoc_lookup_append(s0, added, q[i].1);
        assert forall|m: int| 0 <= m < added.len() implies (#[trigger] added[m]).0 != q[i].1 by {
            assert(added[m].0 == bnames[m]);
        }
        lemma_assoc_lookup_none_keys(added, q[i].1);
    }
    assert forall|i: int, j: int|
        0 <= i < j < q.len() implies (#[trigger] q[i]).0 <= (#[trigger] q[j]).0 by {
        assert(q[i] == pre.pending_view()[i] && q[j] == pre.pending_view()[j]);
    }
    assert forall|i: int| 0 <= i < q.len() implies (#[trigger] q[i]).0 <= post.next_seq() by {
        assert(q[i] == pre.pending_view()[i]);
    }
}

/// How a push changes the count of a name's pending entries.
proof fn lemma_pending_count_push(p: Seq<(u64, Seq<char>)>, x: (u64, Seq<char>), name: Seq<char>)
    ensures
        pending_count(p.push(x), name) == pending_count(p, name) + (if x.1 == name {
            1int
        } else {
            0int
        }),
    decreases p.len(),
{
    if p.len() == 0 {
        assert(p.push(x)[0] == x);
        assert(p.push(x).drop_first() =~= Seq::<(u64, Seq<char>)>::empty());
        assert(pending_count(Seq::<(u64, Seq<char>)>::empty(), name) == 0);
        assert(pending_count(p.push(x), name) == (if x.1 == name {
            1int
        } else {
            0int
        }) + pending_count(p.push(x).drop_first(), name));
    } else {
        assert(p.push(x)[0] == p[0]);
        assert(p.push(x).drop_first() =~= p.drop_first().push(x));
        lemma_pending_count_push(p.drop_first(), x, name);
    }
}

/// Coalescing leaves no pending entry for the name.
proof fn lemma_coalesce_count_zero(p: Seq<(u64, Seq<char>)>, name: Seq<char>)
    ensures
        pending_count(coalesce_out(p, name), name) == 0,
    decreases p.len(),
{
    if p.len() > 0 {
        lemma_coalesce_count_zero(p.drop_first(), name);
        if p[0].1 != name {
            let c = seq![p[0]] + coalesce_out(p.drop_first(), name);
            assert(c[0] == p[0]);
            assert(c.drop_first() =~= coalesce_out(p.drop_first(), name));
        }
    }
}

/// Coalescing keeps every sequence number within its old bound.
proof fn lemma_coalesce_seq_bound(p: Seq<(u64, Seq<char>)>, name: Seq<char>, sq: u64)
    requires
        forall|i: int| 0 <= i < p.len() ==> (#[trigger] p[i]).0 <= sq,
    ensures
        forall|i: int|
            0 <= i < coalesce_out(p, name).len() ==> (#[trigger] coalesce_out(p, name)[i]).0 <= sq,
    decreases p.len(),
{
    if p.len() > 0 {
        assert(forall|i: int|
            0 <= i < p.drop_first().len() ==> (#[trigger] p.drop_first()[i]).0 == p[i + 1].0);
        lemma_coalesce_seq_bound(p.drop_first(), name, sq);
        if p[0].1 != name {
            let c = seq![p[0]] + coalesce_out(p.drop_first(), name);
            assert forall|i: int| 0 <= i < c.len() implies (#[trigger] c[i]).0 <= sq by {
                if i > 0 {
                    assert(c[i] == coalesce_out(p.drop_first(), name)[i - 1]);
                }
            }
        }
    }
}

/// Coalescing law: however many requests for one name stand queued, after
/// one more request for it exactly one pending entry carries the name —
/// the newly appended one, holding the sequence number just issued, which
/// no pending entry exceeds.
pub proof fn lemma_coalescing(p: Seq<(u64, Seq<char>)>, name: Seq<char>, sq: u64)
    requires
        forall|i: int| 0 <= i < p.len() ==> (#[trigger] p[i]).0 <= sq,
    ensures
        pending_count(coalesce_out(p, name).push((sq, name)), name) == 1,
        coalesce_out(p, name).push((sq, name)).last() == (sq, name),
        forall|i: int|
            0 <= i < coalesce_out(p, name).push((sq, name)).len() ==> (#[trigger] coalesce_out(
                p,
                name,
            ).push((sq, name))[i]).0 <= sq,
{
    lemma_coalesce_count_zero(p, name);
    lemma_pending_count_push(coalesce_out(p, name), (sq, name), name);
    lemma_coalesce_seq_bound(p, name, sq);
    let q = coalesce_out(p, name).push((sq, name));
    assert forall|i: int| 0 <= i < q.len() implies (#[trigger] q[i]).0 <= sq by {
        if i < q.len() - 1 {
            assert(q[i] == coalesce_out(p, name)[i]);
        }
    }
}

/// Coalescing a name nobody queued changes nothing.
proof fn lemma_coalesce_out_absent(p: Seq<(u64, Seq<char>)>, name: Seq<char>)
    requires
        forall|k: int| 0 <= k < p.len() ==> (#[trigger] p[k]).1 != name,
    ensures
        coalesce_out(p, name) == p,
    decreases p.len(),
{
    if p.len() > 0 {
        lemma_coalesce_out_absent(p.drop_first(), name);
        assert(seq![p[0]] + p.drop_first() =~= p);
    }
}

/// Helper: a suffix of a queue whose entries all differ from `name` (taken
/// relative to the full queue's uniqueness) is untouched by coalescing.
proof fn lemma_coalesce_out_absent_from(
    t: Seq<(u64, Seq<char>)>,
    name: Seq<char>,
    p: Seq<(u64, Seq<char>)>,
    off: int,
)
    requires
        0 <= off,
        t.len() + off == p.len(),
        forall|k: int| 0 <= k < t.len() ==> t[k] == p[k + off],
        exists|j: int| 0 <= j < off && p[j].1 == name,
        forall|i: int, k: int| 0 <= i < k < p.len() ==> (#[trigger] p[i]).1 != (#[trigger] p[k]).1,
    ensures
        coalesce_out(t, name) == t,
{
    let j = choose|j: int| 0 <= j < off && p[j].1 == name;
    assert forall|k: int| 0 <= k < t.len() implies (#[trigger] t[k]).1 != name by {
        assert(t[k] == p[k + off]);
        assert(p[j].1 != p[k + off].1);
    }
    lemma_coalesce_out_absent(t, name);
}

/// Enqueueing preserves well-formedness: taking at most the one entry for
/// the name out of the queue and appending a fresh one with the next
/// sequence number keeps names unique, unresolved, and sequence numbers
/// ordered.
proof fn lemma_enqueue_wf(pre: AppIconPathCache, post: AppIconPathCache, name: Seq<char>, j: int)
    requires
        pre.wf(),
        post.store_view() == pre.store_view(),
        assoc_lookup(pre.store_view(), name) is None,
        0 <= j <= pre.pending_view().len(),
        j < pre.pending_view().len() ==> pre.pending_view()[j].1 == name,
        j == pre.pending_view().len() ==> forall|k: int|
            0 <= k < pre.pending_view().len() ==> (#[trigger] pre.pending_view()[k]).1 != name,
        post.pending_view() == (if j < pre.pending_view().len() {
            pre.pending_view().take(j) + pre.pending_view().skip(j + 1)
        } else {
            pre.pending_view()
        }).push((pre.next_seq(), name)),
        post.next_seq() == if pre.next_seq() < u64::MAX {
            (pre.next_seq() + 1) as u64
        } else {
            pre.next_seq()
        },
    ensures
        post.wf(),
{
    let pv = pre.pending_view();
    let q0 = if j < pv.len() {
        pv.take(j) + pv.skip(j + 1)
    } else {
        pv
    };
    let q = post.pending_view();
    assert forall|k: int| 0 <= k < q0.len() implies q0[k] == (if k < j {
        pv[k]
    } else {
        pv[k + 1]
    }) by {
        if j < pv.len() {
            if k < j {
                assert(q0[k] == pv.take(j)[k]);
            } else {
                assert(q0[k] == pv.skip(j + 1)[k - j]);
            }
        }
    }
    assert forall|a: int, b: int|
        0 <= a < b < q.len() implies (#[trigger] q[a]).1 != (#[trigger] q[b]).1 by {
        if b < q0.len() {
            assert(q[a] == q0[a] && q[b] == q0[b]);
        } else {
            assert(q[b] == (pre.next_seq(), name));
            assert(q[a] == q0[a]);
            if j < pv.len() {
                let m: int = if a < j {
                    a
                } else {
                    a + 1
                };
                assert(q0[a] == pv[m]);
                if m < j {
                    assert(pv[m].1 != pv[j].1);
                } else {
                    assert(pv[j].1 != pv[m].1);
                }
            }
        }
    }
    assert forall|a: int|
        0 <= a < q.len() implies assoc_lookup(post.store_view(), (#[trigger] q[a]).1)
            is None by {
        if a < q0.len() {
            assert(q[a] == q0[a]);
        }
    }
    assert forall|a: int, b: int|
        0 <= a < b < q.len() implies (#[trigger] q[a]).0 <= (#[trigger] q[b]).0 by {
        if b < q0.len() {
            assert(q[a] == q0[a] && q[b] == q0[b]);
        } else if a < q0.len() {
            assert(q[a] == q0[a]);
        }
    }
    assert forall|a: int| 0 <= a < q.len() implies (#[trigger] q[a]).0 <= post.next_seq() by {
        if a < q0.len() {
            assert(q[a] == q0[a]);
        }
    }
}

} // verus!
