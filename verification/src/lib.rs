//! A format-preserving sorter for configuration-manifest documents.
//!
//! The engine receives a document tree (tables, arrays, scalar values, each
//! node carrying its original decoration) and reorders it: string arrays are
//! sorted, table entries are sorted (optionally group by group), and the
//! top-level sections are assigned output positions, either lexicographically
//! or following a caller-supplied ordering list. Everything that is not an
//! order — comments, blank lines, value text — is carried through untouched.

pub mod headings;
pub mod model;
pub mod order;
pub mod positions;
pub mod sorting;
pub mod tables;

use vstd::prelude::*;
use crate::model::{
    Entry, Table, Item, EntryV, TableV, ItemV, view_entry, view_table, view_entries,
    lemma_view_entries,
};
use crate::headings::{
    Heading, HeadingV, view_heading, view_headings, gather_headings, gather_tbl,
    nested_tables_with_key, nested_paths_tbl, sort_headings, sort_headings_spec, clone_path,
};
use crate::tables::{
    find_key, lemma_find_key, sort_array, sort_array_spec, sort_table, sort_table_spec,
    sort_nested_table, sort_nested_spec,
};
use crate::positions::{
    HeadingRecord, HeadingRecordV, view_records, sat, sat_add, target_name, str_eq_exec,
    sort_lexicographical, sort_lex_spec, flat_headings, sort_by_ordering, sort_by_ordering_spec,
    find_entry_index,
};

verus! {

/// The names of sections whose entries are sorted, and the (section, key)
/// pairs whose value is sorted directly.
pub struct Matcher {
    /// Section names eligible for sorting.
    pub heading: Vec<String>,
    /// (section, key) pairs whose array or table value is sorted directly.
    pub heading_key: Vec<(String, String)>,
}

/// The view of the (section, key) pairs.
pub open spec fn view_hk(s: Seq<(String, String)>) -> Seq<(Seq<char>, Seq<char>)> {
    Seq::new(s.len(), |i: int| (s[i].0@, s[i].1@))
}

/// Does the name list hold this name?
pub open spec fn seq_contains(s: Seq<Seq<char>>, x: Seq<char>) -> bool {
    exists|j: int| 0 <= j < s.len() && #[trigger] s[j] == x
}

fn contains_exec(v: &Vec<String>, x: &String) -> (r: bool)
    ensures
        r == seq_contains(v.deep_view(), x@),
{
    let ghost sv = v.deep_view();
    let mut j: usize = 0;
    while j < v.len()
        invariant
            0 <= j <= v@.len(),
            sv == v.deep_view(),
            sv.len() == v@.len(),
            forall|jj: int| 0 <= jj < j ==> (#[trigger] sv[jj]) != x@,
        decreases v@.len() - j,
    {
        proof {
            assert(sv[j as int] == v@[j as int]@);
        }
        if str_eq_exec(v[j].as_str(), x.as_str()) {
            return true;
        }
        j = j + 1;
    }
    false
}

/// Sorting the value a (section, key) pair names: an array is sorted as an
/// array, a table as a table; anything else, or a missing section or key,
/// leaves the document unchanged.
/// The value under `key` in this table, sorted: an array as an array, a
/// table as a table; any other value, or a missing key, changes nothing.
pub open spec fn sort_value_in_table(t: TableV, key: Seq<char>, group: bool) -> TableV {
    let k = find_key(t.entries, key);
    if 0 <= k < t.entries.len() {
        match t.entries[k].item {
            ItemV::Arr(a) => TableV {
                entries: t.entries.update(
                    k,
                    EntryV {
                        key: t.entries[k].key,
                        key_decor: t.entries[k].key_decor,
                        item: ItemV::Arr(sort_array_spec(a)),
                    },
                ),
                implicit: t.implicit,
                dotted: t.dotted,
                position: t.position,
                decor: t.decor,
            },
            ItemV::Tbl(t3) => TableV {
                entries: t.entries.update(
                    k,
                    EntryV {
                        key: t.entries[k].key,
                        key_decor: t.entries[k].key_decor,
                        item: ItemV::Tbl(sort_table_spec(t3, group)),
                    },
                ),
                implicit: t.implicit,
                dotted: t.dotted,
                position: t.position,
                decor: t.decor,
            },
            _ => t,
        }
    } else {
        t
    }
}

pub open spec fn apply_one_heading_key(
    doc: TableV,
    sec: Seq<char>,
    key: Seq<char>,
    group: bool,
) -> TableV {
    let j = find_key(doc.entries, sec);
    if 0 <= j < doc.entries.len() && doc.entries[j].item is Tbl {
        let t = doc.entries[j].item->Tbl_0;
        TableV {
            entries: doc.entries.update(
                j,
                EntryV {
                    key: doc.entries[j].key,
                    key_decor: doc.entries[j].key_decor,
                    item: ItemV::Tbl(sort_value_in_table(t, key, group)),
                },
            ),
            implicit: doc.implicit,
            dotted: doc.dotted,
            position: doc.position,
            decor: doc.decor,
        }
    } else {
        doc
    }
}

/// Sorts the value one key of a section names.
#[verifier::loop_isolation(false)]
#[verifier::rlimit(100)]
fn sort_value_in_table_exec(t: Table, key: &String, group: bool) -> (r: Table)
    ensures
        r@ == sort_value_in_table(t@, key@, group),
{
    let ghost tv = t@;
    let mut inner = t;
    match find_entry_index(&inner, key) {
        Option::Some(k) => {
            let ghost tpre = inner.entries@;
            proof {
                lemma_view_entries(tpre);
            }
            let e2 = inner.entries.remove(k);
            let ghost e20 = e2;
            proof {
                assert(e20 == tpre[k as int]);
                assert(view_entry(e20) == tv.entries[k as int]);
            }
            let Entry { key: ek2, key_decor: ed2, item: item2 } = e2;
            match item2 {
                Item::Arr(a) => {
                    proof {
                        assert(view_entry(e20).item->Arr_0 == a@);
                    }
                    let sa = sort_array(a);
                    inner.entries.insert(k, Entry { key: ek2, key_decor: ed2, item: Item::Arr(sa) });
                    proof {
                        lemma_view_entries(inner.entries@);
                        assert(inner@.entries =~~= tv.entries.update(
                            k as int,
                            EntryV {
                                key: tv.entries[k as int].key,
                                key_decor: tv.entries[k as int].key_decor,
                                item: ItemV::Arr(sort_array_spec(tv.entries[k as int].item->Arr_0)),
                            },
                        ));
                        assert(inner@ =~~= sort_value_in_table(tv, key@, group));
                    }
                },
                Item::Tbl(t3) => {
                    proof {
                        assert(view_entry(e20).item->Tbl_0 == t3@);
                    }
                    let st = sort_table(t3, group);
                    inner.entries.insert(k, Entry { key: ek2, key_decor: ed2, item: Item::Tbl(st) });
                    proof {
                        lemma_view_entries(inner.entries@);
                        assert(inner@.entries =~~= tv.entries.update(
                            k as int,
                            EntryV {
                                key: tv.entries[k as int].key,
                                key_decor: tv.entries[k as int].key_decor,
                                item: ItemV::Tbl(
                                    sort_table_spec(tv.entries[k as int].item->Tbl_0, group),
                                ),
                            },
                        ));
                        assert(inner@ =~~= sort_value_in_table(tv, key@, group));
                    }
                },
                other2 => {
                    inner.entries.insert(k, Entry { key: ek2, key_decor: ed2, item: other2 });
                    proof {
                        lemma_view_entries(inner.entries@);
                        assert(inner@.entries =~~= tv.entries);
                        assert(inner@ =~~= tv);
                        assert(inner@ =~~= sort_value_in_table(tv, key@, group));
                    }
                },
            }
        },
        Option::None => {
            proof {
                assert(inner@ =~~= sort_value_in_table(tv, key@, group));
            }
        },
    }
    inner
}

pub open spec fn apply_heading_key(
    doc: TableV,
    hk: Seq<(Seq<char>, Seq<char>)>,
    group: bool,
    i: int,
) -> TableV
    decreases hk.len() - i,
{
    if i < 0 || i >= hk.len() {
        doc
    } else {
        apply_heading_key(apply_one_heading_key(doc, hk[i].0, hk[i].1, group), hk, group, i + 1)
    }
}

/// The conditional paths gathered for each sortable section name, in the
/// order the matcher lists the names.
pub open spec fn target_paths(t: TableV, heading: Seq<Seq<char>>, i: int) -> Seq<Seq<Seq<char>>>
    decreases heading.len() - i,
{
    if i < 0 || i >= heading.len() {
        Seq::empty()
    } else {
        nested_paths_tbl(t, seq![target_name()], heading[i]) + target_paths(t, heading, i + 1)
    }
}

/// One step of the main pass over the top-level entries; see `sort_toml`.
pub open spec fn main_pass(
    doc: TableV,
    heading: Seq<Seq<char>>,
    group: bool,
    i: int,
    first: Option<usize>,
    records: Seq<HeadingRecordV>,
    ord: Seq<Seq<char>>,
) -> (TableV, Option<usize>, Seq<HeadingRecordV>, Seq<Seq<char>>)
    decreases doc.entries.len() - i,
{
    if i < 0 || i >= doc.entries.len() {
        (doc, first, records, ord)
    } else {
        let e = doc.entries[i];
        let is_target_table = e.key == target_name() && e.item is Tbl;
        let qualifies = seq_contains(heading, e.key) || (is_target_table && heading.len() > 0);
        if !qualifies {
            let ord2 = if !seq_contains(ord, e.key) && ord.len() > 0 {
                ord.push(e.key)
            } else {
                ord
            };
            main_pass(doc, heading, group, i + 1, first, records, ord2)
        } else if e.item is Tbl {
            let t = e.item->Tbl_0;
            let tpaths = if is_target_table {
                target_paths(t, heading, 0)
            } else {
                Seq::empty()
            };
            let first2 = if first is None {
                Option::Some(sat(i + 1))
            } else {
                first
            };
            let hs = sort_headings_spec(
                gather_tbl(t, seq![HeadingV::Complete(seq![e.key])], 1),
            );
            let t3 = sort_nested_spec(sort_table_spec(t, group), tpaths, 0);
            let doc2 = TableV {
                entries: doc.entries.update(
                    i,
                    EntryV { key: e.key, key_decor: e.key_decor, item: ItemV::Tbl(t3) },
                ),
                implicit: doc.implicit,
                dotted: doc.dotted,
                position: doc.position,
                decor: doc.decor,
            };
            let records2 = records.push(
                HeadingRecordV { index: sat(i), name: e.key, headings: hs },
            );
            main_pass(doc2, heading, group, i + 1, first2, records2, ord)
        } else {
            main_pass(doc, heading, group, i + 1, first, records, ord)
        }
    }
}

/// What the whole engine does: the configured (section, key) values are
/// sorted; every qualifying top-level table is sorted, its headings
/// gathered, and the conditional tables beneath the platform-conditional
/// section sorted; then output positions are assigned, lexicographically
/// when the ordering list is empty, else by the caller's ordering, extended
/// with the names of the top-level entries it does not hold.
pub open spec fn sort_toml_spec(
    doc: TableV,
    heading: Seq<Seq<char>>,
    heading_key: Seq<(Seq<char>, Seq<char>)>,
    group: bool,
    ordering: Seq<Seq<char>>,
) -> TableV {
    let d1 = apply_heading_key(doc, heading_key, group, 0);
    let r = main_pass(d1, heading, group, 0, Option::None, Seq::empty(), ordering);
    if ordering.len() == 0 {
        sort_lex_spec(
            r.0,
            flat_headings(r.2),
            0,
            sat(
                1 + match r.1 {
                    Option::Some(f) => f as int,
                    Option::None => 0int,
                },
            ),
        )
    } else {
        sort_by_ordering_spec(r.0, r.2, r.3, 0, 0)
    }
}

/// Sorts the values the (section, key) pairs of the matcher name.
#[verifier::loop_isolation(false)]
#[verifier::rlimit(100)]
fn apply_heading_keys_exec(doc: Table, matcher: &Matcher, group: bool) -> (r: Table)
    ensures
        r@ == apply_heading_key(doc@, view_hk(matcher.heading_key@), group, 0),
{
    let ghost hkv = view_hk(matcher.heading_key@);
    let mut doc = doc;
    let mut p: usize = 0;
    let ghost d0 = doc@;
    while p < matcher.heading_key.len()
        invariant
            0 <= p <= matcher.heading_key@.len(),
            apply_heading_key(doc@, hkv, group, p as int) == apply_heading_key(
                d0,
                hkv,
                group,
                0,
            ),
        decreases matcher.heading_key@.len() - p,
    {
        let ghost dprev = doc@;
        let sec = &matcher.heading_key[p].0;
        let key = &matcher.heading_key[p].1;
        proof {
            assert(hkv[p as int] == (sec@, key@));
        }
        match find_entry_index(&doc, sec) {
            Option::Some(j) => {
                let ghost pre = doc.entries@;
                proof {
                    lemma_view_entries(pre);
                }
                let e = doc.entries.remove(j);
                let ghost e0 = e;
                proof {
                    assert(e0 == pre[j as int]);
                    assert(view_entry(e0) == dprev.entries[j as int]);
                }
                let Entry { key: ek, key_decor: ed, item } = e;
                match item {
                    Item::Tbl(inner) => {
                        proof {
                            assert(view_entry(e0).item->Tbl_0 == inner@);
                        }
                        let ghost tv = inner@;
                        let sorted = sort_value_in_table_exec(inner, key, group);
                        doc.entries.insert(
                            j,
                            Entry { key: ek, key_decor: ed, item: Item::Tbl(sorted) },
                        );
                        proof {
                            lemma_view_entries(doc.entries@);
                            assert(doc@.entries =~~= dprev.entries.update(
                                j as int,
                                EntryV {
                                    key: view_entry(e0).key,
                                    key_decor: view_entry(e0).key_decor,
                                    item: ItemV::Tbl(sort_value_in_table(tv, key@, group)),
                                },
                            ));
                            assert(doc@ =~~= apply_one_heading_key(dprev, sec@, key@, group));
                        }
                    },
                    other => {
                        doc.entries.insert(j, Entry { key: ek, key_decor: ed, item: other });
                        proof {
                            lemma_view_entries(doc.entries@);
                            assert(doc@.entries =~~= dprev.entries);
                            assert(doc@ =~~= dprev);
                            assert(doc@ =~~= apply_one_heading_key(dprev, sec@, key@, group));
                        }
                    },
                }
            },
            Option::None => {
                proof {
                    assert(doc@ =~~= apply_one_heading_key(dprev, sec@, key@, group));
                }
            },
        }
        p = p + 1;
    }
    doc
}

/// Sorts one qualifying top-level table and gathers its headings: the
/// collector runs on the unsorted table, then the table's own entries are
/// sorted, then the located conditional tables beneath it.
#[verifier::loop_isolation(false)]
#[verifier::rlimit(100)]
fn sort_qualifying_table(
    inner: Table,
    name: &String,
    heading: &Vec<String>,
    group: bool,
    is_target: bool,
) -> (r: (Table, Vec<Heading>))
    requires
        is_target ==> name@ == target_name(),
    ensures
        r.0@ == sort_nested_spec(
            sort_table_spec(inner@, group),
            if is_target {
                target_paths(inner@, heading.deep_view(), 0)
            } else {
                Seq::empty()
            },
            0,
        ),
        view_headings(r.1@) == sort_headings_spec(
            gather_tbl(inner@, seq![HeadingV::Complete(seq![name@])], 1),
        ),
{
    let ghost tv = inner@;
    let ghost hv = heading.deep_view();
    // locate the conditional tables
    let mut tpaths: Vec<Vec<String>> = Vec::new();
    if is_target {
        let mut n: usize = 0;
        proof {
            assert(tpaths.deep_view() + target_paths(tv, hv, 0) =~= target_paths(tv, hv, 0));
        }
        while n < heading.len()
            invariant
                0 <= n <= heading@.len(),
                tpaths.deep_view() + target_paths(tv, hv, n as int) == target_paths(tv, hv, 0),
            decreases heading@.len() - n,
        {
            let ghost tp0 = tpaths.deep_view();
            let hname = &heading[n];
            proof {
                assert(hv[n as int] == heading@[n as int]@);
            }
            let mut p0: Vec<String> = Vec::new();
            p0.push(name.clone());
            proof {
                assert(p0.deep_view() =~~= seq![target_name()]);
            }
            let pr = nested_tables_with_key(&inner, p0, hname, tpaths);
            tpaths = pr.1;
            n = n + 1;
            proof {
                assert(tpaths.deep_view() =~~= tp0 + nested_paths_tbl(
                    tv,
                    seq![target_name()],
                    hv[n - 1],
                ));
                assert(tpaths.deep_view() + target_paths(tv, hv, n as int) =~~= target_paths(
                    tv,
                    hv,
                    0,
                ));
            }
        }
        proof {
            assert(target_paths(tv, hv, hv.len() as int) =~~= Seq::<Seq<Seq<char>>>::empty());
            assert(tpaths.deep_view() =~~= target_paths(tv, hv, 0));
        }
    } else {
        proof {
            assert(tpaths.deep_view() =~~= Seq::<Seq<Seq<char>>>::empty());
        }
    }
    // gather and sort the headings, on the table as it stands
    let mut hd: Vec<Heading> = Vec::new();
    let mut seed: Vec<String> = Vec::new();
    seed.push(name.clone());
    hd.push(Heading::Complete(seed));
    proof {
        assert(view_headings(hd@) =~~= seq![HeadingV::Complete(seq![name@])]);
    }
    let hd2 = gather_headings(&inner, hd, 1);
    let hs = sort_headings(hd2);
    // sort the table's own entries, then the conditional tables beneath it
    let t2 = sort_table(inner, group);
    let t3 = sort_nested_table(t2, &tpaths);
    (t3, hs)
}

/// Sorts a whole document: the engine's entry point.
#[verifier::loop_isolation(false)]
#[verifier::rlimit(100)]
pub fn sort_toml(doc: Table, matcher: &Matcher, group: bool, ordering: &Vec<String>) -> (r: Table)
    ensures
        r@ == sort_toml_spec(
            doc@,
            matcher.heading.deep_view(),
            view_hk(matcher.heading_key@),
            group,
            ordering.deep_view(),
        ),
{
    let ghost hv = matcher.heading.deep_view();
    let ghost hkv = view_hk(matcher.heading_key@);
    let ghost ov = ordering.deep_view();
    // sort the configured (section, key) values
    let mut doc = apply_heading_keys_exec(doc, matcher, group);
    let ghost d1 = doc@;
    // the main pass over the top-level entries
    let mut ord: Vec<String> = clone_path(ordering);
    let mut first_table: Option<usize> = Option::None;
    let mut records: Vec<HeadingRecord> = Vec::new();
    let mut i: usize = 0;
    proof {
        lemma_view_entries(doc.entries@);
        assert(ord.deep_view() =~~= ov);
        assert(view_records(records@) =~~= Seq::<HeadingRecordV>::empty());
    }
    while i < doc.entries.len()
        invariant
            0 <= i <= doc.entries@.len(),
            doc@.entries.len() == doc.entries@.len(),
            main_pass(doc@, hv, group, i as int, first_table, view_records(records@),
                ord.deep_view()) == main_pass(
                d1,
                hv,
                group,
                0,
                Option::None,
                Seq::empty(),
                ov,
            ),
        decreases doc.entries@.len() - i,
    {
        let ghost dprev = doc@;
        let ghost fprev = first_table;
        let ghost rprev = view_records(records@);
        let ghost oprev = ord.deep_view();
        let ghost pre = doc.entries@;
        proof {
            lemma_view_entries(pre);
            assert(dprev.entries[i as int] == view_entry(pre[i as int]));
        }
        let e = doc.entries.remove(i);
        let ghost e0 = e;
        let Entry { key: ek, key_decor: ed, item } = e;
        let ghost ev = view_entry(e0);
        let is_target = str_eq_exec(ek.as_str(), "target");
        proof {
            reveal_strlit("target");
            assert(is_target == (ev.key == target_name()));
        }
        let in_heading = contains_exec(&matcher.heading, &ek);
        match item {
            Item::Tbl(inner) => {
                proof {
                    assert(ev.item->Tbl_0 == inner@);
                }
                let qualifies = in_heading || (is_target && matcher.heading.len() > 0);
                if !qualifies {
                    if ord.len() > 0 && !contains_exec(&ord, &ek) {
                        let ghost o0 = ord.deep_view();
                        ord.push(ek.clone());
                        proof {
                            assert(ord.deep_view() =~~= o0.push(ev.key));
                        }
                    }
                    doc.entries.insert(i, Entry { key: ek, key_decor: ed, item: Item::Tbl(inner) });
                    proof {
                        lemma_view_entries(doc.entries@);
                        assert(doc@.entries =~~= dprev.entries);
                        assert(doc@ =~~= dprev);
                    }
                } else {
                    if first_table.is_none() {
                        first_table = Option::Some(sat_add(i, 1));
                    }
                    let ghost tv = inner@;
                    let ghost tp = if is_target {
                        target_paths(tv, hv, 0)
                    } else {
                        Seq::<Seq<Seq<char>>>::empty()
                    };
                    let rq = sort_qualifying_table(inner, &ek, &matcher.heading, group, is_target);
                    let t3 = rq.0;
                    let hs = rq.1;
                    proof {
                        assert(t3@ == sort_nested_spec(sort_table_spec(tv, group), tp, 0));
                    }
                    doc.entries.insert(
                        i,
                        Entry { key: ek.clone(), key_decor: ed, item: Item::Tbl(t3) },
                    );
                    let ghost r0 = view_records(records@);
                    records.push(HeadingRecord { index: i, name: ek, headings: hs });
                    proof {
                        lemma_view_entries(doc.entries@);
                        assert(doc@.entries =~~= dprev.entries.update(
                            i as int,
                            EntryV {
                                key: ev.key,
                                key_decor: ev.key_decor,
                                item: ItemV::Tbl(sort_nested_spec(sort_table_spec(tv, group), tp, 0)),
                            },
                        ));
                        assert(view_records(records@) =~~= r0.push(
                            HeadingRecordV {
                                index: sat(i as int),
                                name: ev.key,
                                headings: sort_headings_spec(
                                    gather_tbl(tv, seq![HeadingV::Complete(seq![ev.key])], 1),
                                ),
                            },
                        ));
                    }
                }
            },
            other => {
                let qualifies = in_heading;
                if !qualifies {
                    if ord.len() > 0 && !contains_exec(&ord, &ek) {
                        let ghost o0 = ord.deep_view();
                        ord.push(ek.clone());
                        proof {
                            assert(ord.deep_view() =~~= o0.push(ev.key));
                        }
                    }
                }
                doc.entries.insert(i, Entry { key: ek, key_decor: ed, item: other });
                proof {
                    lemma_view_entries(doc.entries@);
                    assert(doc@.entries =~~= dprev.entries);
                    assert(doc@ =~~= dprev);
                }
            },
        }
        i = i + 1;
        proof {
            assert(main_pass(dprev, hv, group, i - 1, fprev, rprev, oprev) == main_pass(
                doc@,
                hv,
                group,
                i as int,
                first_table,
                view_records(records@),
                ord.deep_view(),
            ));
        }
    }
    proof {
        let r = main_pass(d1, hv, group, 0, Option::None, Seq::empty(), ov);
        assert(main_pass(doc@, hv, group, i as int, first_table, view_records(records@),
            ord.deep_view()) == (doc@, first_table, view_records(records@), ord.deep_view()));
        assert(doc@ == r.0);
        assert(first_table == r.1);
        assert(view_records(records@) == r.2);
        assert(ord.deep_view() == r.3);
    }
    // assign the output positions
    if ordering.len() == 0 {
        sort_lexicographical(first_table, &records, doc)
    } else {
        sort_by_ordering(&ord, &records, doc)
    }
}

} // verus!
