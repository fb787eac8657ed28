//! The heading collector and the nested-table locator.
//!
//! The collector is a small state machine walking one top-level table: a
//! stack of headings, each `Next` (a path still being extended) or
//! `Complete` (a path finalized because its table holds direct values or is
//! an explicitly written empty leaf). The locator finds every nested table
//! of a given name beneath the platform-conditional section.

use vstd::prelude::*;
use crate::model::{
    Entry, Table, Item, EntryV, TableV, ItemV, view_entry, view_table, view_item, view_entries,
    lemma_view_entries,
};
use crate::sorting::{
    SortKey, SortKeyV, sort_spec, sort_pairs, view_pairs, payloads, map_payload,
    lemma_sort_payload_map, lemma_sort_sorted,
};

verus! {

/// One tracked heading path.
pub enum Heading {
    /// Still descending: the path may yet be extended.
    Next(Vec<String>),
    /// Finalized: this path receives an output position.
    Complete(Vec<String>),
}

/// Mathematical mirror of `Heading`.
#[verifier::ext_equal]
pub enum HeadingV {
    Next(Seq<Seq<char>>),
    Complete(Seq<Seq<char>>),
}

pub open spec fn view_heading(h: Heading) -> HeadingV {
    match h {
        Heading::Next(p) => HeadingV::Next(p.deep_view()),
        Heading::Complete(p) => HeadingV::Complete(p.deep_view()),
    }
}

impl View for Heading {
    type V = HeadingV;

    open spec fn view(&self) -> HeadingV {
        view_heading(*self)
    }
}

pub open spec fn view_headings(s: Seq<Heading>) -> Seq<HeadingV> {
    Seq::new(s.len(), |i: int| view_heading(s[i]))
}

pub open spec fn heading_path(h: HeadingV) -> Seq<Seq<char>> {
    match h {
        HeadingV::Next(p) => p,
        HeadingV::Complete(p) => p,
    }
}

/// Clones a path; the clone is the same value.
pub fn clone_path(p: &Vec<String>) -> (r: Vec<String>)
    ensures
        r@ == p@,
{
    let r = p.clone();
    proof {
        assert forall|i: int| 0 <= i < p@.len() implies r@[i] == p@[i] by {
            assert(vstd::pervasive::cloned::<String>(p@[i], r@[i]));
        }
        assert(p@ =~= r@);
    }
    r
}

/// Turns the top of the stack from `Next` into `Complete`.
pub open spec fn finalize_top(keys: Seq<HeadingV>) -> Seq<HeadingV> {
    if keys.len() == 0 {
        keys
    } else {
        match keys.last() {
            HeadingV::Next(p) => keys.update(keys.len() - 1, HeadingV::Complete(p)),
            HeadingV::Complete(_) => keys,
        }
    }
}

/// Depth grows by one while it fits the machine word.
pub open spec fn bump_depth(d: int) -> int {
    if d < usize::MAX {
        d + 1
    } else {
        d
    }
}

/// The collector on one table: an explicitly written empty table finalizes
/// the current heading; then the entries are processed top-down.
pub open spec fn gather_tbl(t: TableV, keys: Seq<HeadingV>, depth: int) -> Seq<HeadingV>
    decreases t,
{
    gather_entries(
        t.entries,
        if t.entries.len() == 0 && !t.implicit {
            finalize_top(keys)
        } else {
            keys
        },
        depth,
    )
}

pub open spec fn gather_entries(s: Seq<EntryV>, keys: Seq<HeadingV>, depth: int) -> Seq<HeadingV>
    decreases s,
{
    if s.len() == 0 {
        keys
    } else {
        gather_entries(
            s.subrange(1, s.len() as int),
            gather_entry(s[0], keys, depth),
            depth,
        )
    }
}

pub open spec fn gather_entry(e: EntryV, keys: Seq<HeadingV>, depth: int) -> Seq<HeadingV>
    decreases e,
{
    gather_item(e.item, e.key, keys, depth)
}

/// The transitions. A direct value finalizes the current `Next` heading. A
/// nested table extends a `Next` heading, or — after a finalized sibling —
/// starts a fresh `Next` from the path truncated to the current depth, with
/// the `Complete` kept beneath it. Array-of-tables entries never occur among
/// qualifying tables and are passed over.
pub open spec fn gather_item(it: ItemV, ekey: Seq<char>, keys: Seq<HeadingV>, depth: int) -> Seq<
    HeadingV,
>
    decreases it,
{
    match it {
        ItemV::Val(_) => gather_value_step(keys),
        ItemV::Arr(_) => gather_value_step(keys),
        ItemV::Tbl(inner) => {
            if keys.len() == 0 {
                keys
            } else {
                gather_tbl(inner, gather_descend_step(keys, ekey, depth), bump_depth(depth))
            }
        },
        ItemV::TblArr(_) => keys,
    }
}

pub open spec fn gather_value_step(keys: Seq<HeadingV>) -> Seq<HeadingV> {
    if keys.len() == 0 {
        keys
    } else if keys.last() is Complete {
        keys
    } else {
        finalize_top(keys)
    }
}

pub open spec fn gather_descend_step(keys: Seq<HeadingV>, ekey: Seq<char>, depth: int) -> Seq<
    HeadingV,
>
    recommends
        keys.len() > 0,
{
    match keys.last() {
        HeadingV::Next(segs) => keys.update(keys.len() - 1, HeadingV::Next(segs.push(ekey))),
        HeadingV::Complete(segs) => {
            let take = if depth >= 1 {
                depth
            } else {
                1
            };
            let take2 = if take <= segs.len() {
                take
            } else {
                segs.len() as int
            };
            keys.push(HeadingV::Next(segs.subrange(0, take2).push(ekey)))
        },
    }
}

/// The executable collector: walks the table and returns the updated stack.
pub fn gather_headings(t: &Table, keys: Vec<Heading>, depth: usize) -> (r: Vec<Heading>)
    ensures
        view_headings(r@) == gather_tbl(view_table(*t), view_headings(keys@), depth as int),
    decreases *t,
{
    let ghost tv = view_table(*t);
    let ghost keys0 = view_headings(keys@);
    let mut keys = keys;
    if t.entries.len() == 0 && !t.implicit {
        // an explicitly written empty leaf finalizes the current heading
        if keys.len() > 0 {
            let is_next = match &keys[keys.len() - 1] {
                Heading::Next(_) => true,
                Heading::Complete(_) => false,
            };
            if is_next {
                let top = keys.pop().unwrap();
                match top {
                    Heading::Next(p) => {
                        keys.push(Heading::Complete(p));
                    },
                    Heading::Complete(p) => {
                        keys.push(Heading::Complete(p));
                    },
                }
            }
        }
        proof {
            assert(view_headings(keys@) =~= finalize_top(keys0));
            assert(tv.entries.len() == 0);
            assert(view_headings(keys@) =~= gather_tbl(tv, keys0, depth as int));
        }
        return keys;
    }
    let ghost k1 = view_headings(keys@);
    proof {
        assert(k1 == keys0);
        lemma_view_entries(t.entries@);
        assert(tv.entries.len() == t.entries@.len());
    }
    let mut i: usize = 0;
    proof {
        assert(tv.entries.subrange(0, tv.entries.len() as int) =~= tv.entries);
    }
    while i < t.entries.len()
        invariant
            0 <= i <= t.entries@.len(),
            tv == view_table(*t),
            tv.entries.len() == t.entries@.len(),
            gather_entries(tv.entries, k1, depth as int) == gather_entries(
                tv.entries.subrange(i as int, tv.entries.len() as int),
                view_headings(keys@),
                depth as int,
            ),
        decreases t.entries@.len() - i,
    {
        let ghost rem = tv.entries.subrange(i as int, tv.entries.len() as int);
        let ghost kcur = view_headings(keys@);
        proof {
            lemma_view_entries(t.entries@);
            assert(rem[0] == tv.entries[i as int]);
            assert(tv.entries[i as int] == view_entry(t.entries@[i as int]));
            assert(rem.subrange(1, rem.len() as int) =~= tv.entries.subrange(
                i + 1int,
                tv.entries.len() as int,
            ));
        }
        let e = &t.entries[i];
        match &e.item {
            Item::Val(_) => {
                keys = gather_value_exec(keys);
                proof {
                    assert(view_headings(keys@) == gather_entry(rem[0], kcur, depth as int));
                }
            },
            Item::Arr(_) => {
                keys = gather_value_exec(keys);
                proof {
                    assert(view_headings(keys@) == gather_entry(rem[0], kcur, depth as int));
                }
            },
            Item::Tbl(inner) => {
                if keys.len() == 0 {
                    proof {
                        assert(view_headings(keys@) == gather_entry(rem[0], kcur, depth as int));
                    }
                } else {
                    let top = keys.pop().unwrap();
                    match top {
                        Heading::Next(mut segs) => {
                            let ghost segs0 = segs.deep_view();
                            segs.push(e.key.clone());
                            proof {
                                assert(segs.deep_view() =~= segs0.push(e.key@));
                            }
                            keys.push(Heading::Next(segs));
                            proof {
                                assert(view_headings(keys@) =~= gather_descend_step(
                                    kcur,
                                    rem[0].key,
                                    depth as int,
                                ));
                            }
                        },
                        Heading::Complete(segs) => {
                            let ghost segs0 = segs.deep_view();
                            let take = if depth >= 1 {
                                depth
                            } else {
                                1
                            };
                            let take2 = if take <= segs.len() {
                                take
                            } else {
                                segs.len()
                            };
                            let mut np: Vec<String> = Vec::new();
                            let mut k: usize = 0;
                            while k < take2
                                invariant
                                    0 <= k <= take2,
                                    take2 <= segs@.len(),
                                    np@ == segs@.subrange(0, k as int),
                                decreases take2 - k,
                            {
                                let s = clone_path_elem(&segs, k);
                                np.push(s);
                                k = k + 1;
                                proof {
                                    assert(np@ =~= segs@.subrange(0, k as int));
                                }
                            }
                            np.push(e.key.clone());
                            proof {
                                assert(np.deep_view() =~= segs0.subrange(0, take2 as int).push(
                                    e.key@,
                                ));
                            }
                            keys.push(Heading::Complete(segs));
                            keys.push(Heading::Next(np));
                            proof {
                                assert(view_headings(keys@) =~= gather_descend_step(
                                    kcur,
                                    rem[0].key,
                                    depth as int,
                                ));
                            }
                        },
                    }
                    let next_depth = if depth < usize::MAX {
                        depth + 1
                    } else {
                        depth
                    };
                    proof {
                        assert(decreases_to!(*t => t.entries));
                        assert(decreases_to!(t.entries => t.entries@));
                        assert(decreases_to!(t.entries@ => t.entries@[i as int]));
                        assert(decreases_to!(t.entries@[i as int] => t.entries@[i as int].item));
                        assert(decreases_to!(
                            t.entries@[i as int].item => t.entries@[i as int].item->Tbl_0));
                        assert(*inner == t.entries@[i as int].item->Tbl_0);
                        assert(decreases_to!(*t => *inner));
                    }
                    keys = gather_headings(inner, keys, next_depth);
                    proof {
                        assert(view_table(*inner) == rem[0].item->Tbl_0);
                        assert(view_headings(keys@) == gather_entry(rem[0], kcur, depth as int));
                    }
                }
            },
            Item::TblArr(_) => {
                proof {
                    assert(view_headings(keys@) == gather_entry(rem[0], kcur, depth as int));
                }
            },
        }
        i = i + 1;
        proof {
            assert(gather_entries(rem, kcur, depth as int) == gather_entries(
                rem.subrange(1, rem.len() as int),
                view_headings(keys@),
                depth as int,
            ));
        }
    }
    proof {
        assert(tv.entries.subrange(i as int, tv.entries.len() as int).len() == 0);
        assert(gather_entries(tv.entries, k1, depth as int) == view_headings(keys@));
        assert(gather_tbl(tv, keys0, depth as int) == gather_entries(tv.entries, k1, depth as int));
    }
    keys
}

/// Clones one path segment; the clone is the same value.
pub fn clone_path_elem(v: &Vec<String>, i: usize) -> (r: String)
    requires
        i < v@.len(),
    ensures
        r == v@[i as int],
{
    v[i].clone()
}

/// The paths the locator records for one table: for each entry holding a
/// nested table, the path down to it, recorded when the entry's key is the
/// searched name and the table was explicitly written (has a position).
pub open spec fn nested_paths_tbl(t: TableV, path: Seq<Seq<char>>, key: Seq<char>) -> Seq<
    Seq<Seq<char>>,
>
    decreases t,
{
    nested_paths_entries(t.entries, path, key)
}

pub open spec fn nested_paths_entries(
    s: Seq<EntryV>,
    path: Seq<Seq<char>>,
    key: Seq<char>,
) -> Seq<Seq<Seq<char>>>
    decreases s,
{
    if s.len() == 0 {
        Seq::empty()
    } else {
        nested_paths_entry(s[0], path, key) + nested_paths_entries(
            s.subrange(1, s.len() as int),
            path,
            key,
        )
    }
}

pub open spec fn nested_paths_entry(e: EntryV, path: Seq<Seq<char>>, key: Seq<char>) -> Seq<
    Seq<Seq<char>>,
>
    decreases e,
{
    nested_paths_item(e.item, e.key, path, key)
}

pub open spec fn nested_paths_item(
    it: ItemV,
    ekey: Seq<char>,
    path: Seq<Seq<char>>,
    key: Seq<char>,
) -> Seq<Seq<Seq<char>>>
    decreases it,
{
    match it {
        ItemV::Tbl(inner) => {
            let p2 = path.push(ekey);
            let own: Seq<Seq<Seq<char>>> = if ekey == key && inner.position is Some {
                seq![p2]
            } else {
                Seq::empty()
            };
            own + nested_paths_tbl(inner, p2, key)
        },
        _ => Seq::empty(),
    }
}

/// The nested-table locator: walks the subtree, extending `path` key by key,
/// and appends to `result` the full path of every explicitly written nested
/// table named `key`.
pub fn nested_tables_with_key(
    t: &Table,
    path: Vec<String>,
    key: &String,
    result: Vec<Vec<String>>,
) -> (res: (Vec<String>, Vec<Vec<String>>))
    ensures
        res.0.deep_view() == path.deep_view(),
        res.1.deep_view() == result.deep_view() + nested_paths_tbl(
            view_table(*t),
            path.deep_view(),
            key@,
        ),
    decreases *t,
{
    let ghost tv = view_table(*t);
    let ghost path0 = path.deep_view();
    let ghost result0 = result.deep_view();
    let mut path = path;
    let mut result = result;
    let mut i: usize = 0;
    proof {
        lemma_view_entries(t.entries@);
        assert(tv.entries.subrange(0, tv.entries.len() as int) =~= tv.entries);
        assert(result.deep_view() =~= result0 + nested_paths_entries(
            tv.entries.subrange(0, 0),
            path0,
            key@,
        ));
    }
    while i < t.entries.len()
        invariant
            0 <= i <= t.entries@.len(),
            tv == view_table(*t),
            tv.entries.len() == t.entries@.len(),
            path.deep_view() == path0,
            result.deep_view() == result0 + nested_paths_entries(
                tv.entries.subrange(0, i as int),
                path0,
                key@,
            ),
        decreases t.entries@.len() - i,
    {
        let ghost rescur = result.deep_view();
        proof {
            lemma_view_entries(t.entries@);
            assert(tv.entries[i as int] == view_entry(t.entries@[i as int]));
        }
        let e = &t.entries[i];
        match &e.item {
            Item::Tbl(inner) => {
                path.push(e.key.clone());
                proof {
                    assert(path.deep_view() =~= path0.push(e.key@));
                }
                let recorded = e.key.eq(key) && inner.position.is_some();
                if recorded {
                    let p = clone_path(&path);
                    result.push(p);
                    proof {
                        assert(p.deep_view() =~= path.deep_view());
                        assert(result.deep_view() =~= rescur.push(path0.push(e.key@)));
                    }
                }
                let ghost resmid = result.deep_view();
                proof {
                    assert(decreases_to!(*t => t.entries));
                    assert(decreases_to!(t.entries => t.entries@));
                    assert(decreases_to!(t.entries@ => t.entries@[i as int]));
                    assert(decreases_to!(t.entries@[i as int] => t.entries@[i as int].item));
                    assert(decreases_to!(
                        t.entries@[i as int].item => t.entries@[i as int].item->Tbl_0));
                    assert(*inner == t.entries@[i as int].item->Tbl_0);
                    assert(decreases_to!(*t => *inner));
                }
                let ghost pushed = path.deep_view();
                let pr = nested_tables_with_key(inner, path, key, result);
                path = pr.0;
                result = pr.1;
                let ghost before_pop = path@;
                let popped = path.pop();
                proof {
                    assert(path.deep_view() =~= path0) by {
                        assert(path.deep_view().len() == path0.len());
                        assert forall|j: int| 0 <= j < path0.len() implies path.deep_view()[j]
                            == path0[j] by {
                            assert(path@[j] == before_pop[j]);
                            assert(pushed[j] == path0.push(tv.entries[i as int].key)[j]);
                        }
                    }
                    let ev = tv.entries[i as int];
                    assert(view_table(*inner) == ev.item->Tbl_0);
                    assert(result.deep_view() =~= rescur + nested_paths_entry(ev, path0, key@));
                    assert(tv.entries.subrange(0, i + 1int).drop_last() =~= tv.entries.subrange(
                        0,
                        i as int,
                    ));
                    lemma_nested_paths_entries_snoc(tv.entries.subrange(0, i + 1int), path0, key@);
                    assert(result.deep_view() =~= result0 + nested_paths_entries(
                        tv.entries.subrange(0, i + 1int),
                        path0,
                        key@,
                    ));
                }
            },
            _ => {
                proof {
                    let ev = tv.entries[i as int];
                    assert(nested_paths_entry(ev, path0, key@) =~= Seq::<Seq<Seq<char>>>::empty());
                    assert(tv.entries.subrange(0, i + 1int).drop_last() =~= tv.entries.subrange(
                        0,
                        i as int,
                    ));
                    lemma_nested_paths_entries_snoc(tv.entries.subrange(0, i + 1int), path0, key@);
                    assert(result.deep_view() =~= result0 + nested_paths_entries(
                        tv.entries.subrange(0, i + 1int),
                        path0,
                        key@,
                    ));
                }
            },
        }
        i = i + 1;
    }
    proof {
        assert(tv.entries.subrange(0, i as int) =~= tv.entries);
    }
    (path, result)
}

/// Processing one more entry at the end appends that entry's paths.
pub proof fn lemma_nested_paths_entries_snoc(
    s: Seq<EntryV>,
    path: Seq<Seq<char>>,
    key: Seq<char>,
)
    requires
        s.len() > 0,
    ensures
        nested_paths_entries(s, path, key) == nested_paths_entries(s.drop_last(), path, key)
            + nested_paths_entry(s.last(), path, key),
    decreases s.len(),
{
    if s.len() == 1 {
        assert(nested_paths_entries(s.drop_last(), path, key) =~= Seq::<Seq<Seq<char>>>::empty());
        assert(s.subrange(1, s.len() as int).len() == 0);
        assert(nested_paths_entries(s.subrange(1, s.len() as int), path, key)
            =~= Seq::<Seq<Seq<char>>>::empty());
        assert(nested_paths_entries(s, path, key) =~= nested_paths_entry(s[0], path, key));
        assert(nested_paths_entries(s, path, key) =~= nested_paths_entries(
            s.drop_last(),
            path,
            key,
        ) + nested_paths_entry(s.last(), path, key));
    } else {
        let tail = s.subrange(1, s.len() as int);
        lemma_nested_paths_entries_snoc(tail, path, key);
        assert(tail.drop_last() =~= s.drop_last().subrange(1, s.len() - 1));
        assert(s.drop_last()[0] == s[0]);
        assert(nested_paths_entries(s.drop_last(), path, key) == nested_paths_entry(s[0], path, key)
            + nested_paths_entries(s.drop_last().subrange(1, s.len() - 1), path, key));
        assert(tail.last() == s.last());
        assert(nested_paths_entries(s, path, key) =~= nested_paths_entries(
            s.drop_last(),
            path,
            key,
        ) + nested_paths_entry(s.last(), path, key));
    }
}

/// The sort key of a heading: completed headings after pending ones, then
/// path order.
pub open spec fn heading_key_pairs(s: Seq<HeadingV>) -> Seq<(SortKeyV, HeadingV)> {
    Seq::new(
        s.len(),
        |i: int| (SortKeyV::PathKey(s[i] is Complete, heading_path(s[i])), s[i]),
    )
}

/// Headings sorted: pending first, then completed, each by path order.
pub open spec fn sort_headings_spec(s: Seq<HeadingV>) -> Seq<HeadingV> {
    payloads(sort_spec(heading_key_pairs(s)))
}

/// Sorts the collected headings.
pub fn sort_headings(v: Vec<Heading>) -> (r: Vec<Heading>)
    ensures
        view_headings(r@) == sort_headings_spec(view_headings(v@)),
        r@.len() == v@.len(),
{
    let ghost orig = v@;
    let mut pairs: Vec<(SortKey, Heading)> = Vec::new();
    let mut rest = v;
    proof {
        assert(rest@ =~= orig.subrange(pairs@.len() as int, orig.len() as int));
    }
    while rest.len() > 0
        invariant
            pairs@.len() + rest@.len() == orig.len(),
            rest@ == orig.subrange(pairs@.len() as int, orig.len() as int),
            forall|i: int|
                0 <= i < pairs@.len() ==> (#[trigger] pairs@[i]).1 == orig[i] && pairs@[i].0@
                    == SortKeyV::PathKey(
                    view_heading(orig[i]) is Complete,
                    heading_path(view_heading(orig[i])),
                ),
        decreases rest@.len(),
    {
        let e = rest.remove(0);
        proof {
            assert(e == orig[pairs@.len() as int]);
        }
        let k = match &e {
            Heading::Next(p) => SortKey::PathKey(false, clone_path(p)),
            Heading::Complete(p) => SortKey::PathKey(true, clone_path(p)),
        };
        proof {
            assert(k@ == SortKeyV::PathKey(
                view_heading(e) is Complete,
                heading_path(view_heading(e)),
            ));
        }
        pairs.push((k, e));
        proof {
            assert(rest@ =~= orig.subrange(pairs@.len() as int, orig.len() as int));
        }
    }
    let sorted = sort_pairs(pairs);
    let ghost sorted_v = view_pairs(sorted@);
    let mut r: Vec<Heading> = Vec::new();
    let mut srest = sorted;
    while srest.len() > 0
        invariant
            r@.len() + srest@.len() == sorted_v.len(),
            forall|i: int| 0 <= i < r@.len() ==> #[trigger] r@[i] == sorted_v[i].1,
            forall|i: int|
                0 <= i < srest@.len() ==> (#[trigger] srest@[i]).1 == sorted_v[r@.len() + i].1,
        decreases srest@.len(),
    {
        let ghost s0 = srest@;
        let p = srest.remove(0);
        r.push(p.1);
        proof {
            assert(forall|i: int| 0 <= i < srest@.len() ==> srest@[i] == #[trigger] s0[i + 1]);
        }
    }
    proof {
        let f = |h: Heading| view_heading(h);
        let raw = Seq::new(
            orig.len(),
            |i: int| (
                SortKeyV::PathKey(view_heading(orig[i]) is Complete, heading_path(view_heading(orig[i]))),
                orig[i],
            ),
        );
        assert(view_pairs(pairs@) =~= raw);
        assert(heading_key_pairs(view_headings(orig)) =~= map_payload(raw, f));
        lemma_sort_payload_map(raw, f);
        lemma_sort_sorted(raw);
        assert(sorted_v == sort_spec(raw));
        assert(view_headings(r@) =~= sort_headings_spec(view_headings(orig)));
    }
    r
}

/// The transition a direct value causes.
fn gather_value_exec(keys: Vec<Heading>) -> (r: Vec<Heading>)
    ensures
        view_headings(r@) == gather_value_step(view_headings(keys@)),
{
    let ghost k0 = view_headings(keys@);
    let mut keys = keys;
    if keys.len() == 0 {
        return keys;
    }
    let is_next = match &keys[keys.len() - 1] {
        Heading::Next(_) => true,
        Heading::Complete(_) => false,
    };
    if is_next {
        let top = keys.pop().unwrap();
        match top {
            Heading::Next(p) => {
                keys.push(Heading::Complete(p));
            },
            Heading::Complete(p) => {
                keys.push(Heading::Complete(p));
            },
        }
        proof {
            assert(view_headings(keys@) =~= gather_value_step(k0));
        }
    } else {
        proof {
            assert(view_headings(keys@) =~= gather_value_step(k0));
        }
    }
    keys
}

} // verus!
