//! The position assigner: computes final output positions for the gathered
//! heading paths, under the lexicographic policy or a caller-given ordering.

use vstd::prelude::*;
use crate::model::{
    Entry, Table, Item, EntryV, TableV, ItemV, view_entry, view_table, view_item, view_entries,
    view_tables, lemma_view_entries, lemma_view_tables,
};
use crate::headings::{Heading, HeadingV, view_heading, view_headings, heading_path, clone_path, clone_path_elem};
use crate::tables::{find_key, lemma_find_key};
use crate::order::{str_leq, lemma_str_leq_total, lemma_str_leq_antisym, str_leq_exec};
use crate::sorting::{
    SortKey, SortKeyV, sort_spec, sort_pairs, view_pairs, payloads, map_payload,
    lemma_sort_payload_map, lemma_sort_sorted,
};

verus! {

/// One processed top-level table: its index in the document, its name, and
/// the headings gathered beneath it.
pub struct HeadingRecord {
    pub index: usize,
    pub name: String,
    pub headings: Vec<Heading>,
}

/// Mathematical mirror of `HeadingRecord`.
#[verifier::ext_equal]
pub struct HeadingRecordV {
    pub index: usize,
    pub name: Seq<char>,
    pub headings: Seq<HeadingV>,
}

impl View for HeadingRecord {
    type V = HeadingRecordV;

    open spec fn view(&self) -> HeadingRecordV {
        HeadingRecordV {
            index: self.index,
            name: self.name@,
            headings: view_headings(self.headings@),
        }
    }
}

pub open spec fn view_records(s: Seq<HeadingRecord>) -> Seq<HeadingRecordV> {
    Seq::new(s.len(), |i: int| s[i]@)
}

/// Addition clipped to the machine word.
pub open spec fn sat(x: int) -> usize {
    if x < 0 {
        0
    } else if x > usize::MAX {
        usize::MAX
    } else {
        x as usize
    }
}

pub fn sat_add(a: usize, b: usize) -> (r: usize)
    ensures
        r == sat(a + b),
{
    if a <= usize::MAX - b {
        a + b
    } else {
        usize::MAX
    }
}

/// Every segment of the path names a nested table.
pub open spec fn path_resolves(t: TableV, segs: Seq<Seq<char>>, i: int) -> bool
    decreases segs.len() - i,
{
    if i < 0 || i >= segs.len() {
        true
    } else {
        let j = find_key(t.entries, segs[i]);
        j >= 0 && j < t.entries.len() && t.entries[j].item is Tbl && path_resolves(
            t.entries[j].item->Tbl_0,
            segs,
            i + 1,
        )
    }
}

/// Sets the position of the table the path leads to; where a segment does
/// not resolve, the tree is unchanged.
pub open spec fn set_pos_at_path(t: TableV, segs: Seq<Seq<char>>, i: int, pos: usize) -> TableV
    decreases segs.len() - i,
{
    if i < 0 || i >= segs.len() {
        TableV {
            entries: t.entries,
            implicit: t.implicit,
            dotted: t.dotted,
            position: Option::Some(pos),
            decor: t.decor,
        }
    } else {
        let j = find_key(t.entries, segs[i]);
        if j >= 0 && j < t.entries.len() && t.entries[j].item is Tbl {
            let inner = t.entries[j].item->Tbl_0;
            TableV {
                entries: t.entries.update(
                    j,
                    EntryV {
                        key: t.entries[j].key,
                        key_decor: t.entries[j].key_decor,
                        item: ItemV::Tbl(set_pos_at_path(inner, segs, i + 1, pos)),
                    },
                ),
                implicit: t.implicit,
                dotted: t.dotted,
                position: t.position,
                decor: t.decor,
            }
        } else {
            t
        }
    }
}

/// An unresolved path leaves the tree exactly as it was.
pub proof fn lemma_set_pos_unresolved(t: TableV, segs: Seq<Seq<char>>, i: int, pos: usize)
    requires
        !path_resolves(t, segs, i),
    ensures
        set_pos_at_path(t, segs, i, pos) == t,
    decreases segs.len() - i,
{
    if i < 0 || i >= segs.len() {
    } else {
        let j = find_key(t.entries, segs[i]);
        if j >= 0 && j < t.entries.len() && t.entries[j].item is Tbl {
            let inner = t.entries[j].item->Tbl_0;
            lemma_set_pos_unresolved(inner, segs, i + 1, pos);
            assert(ItemV::Tbl(set_pos_at_path(inner, segs, i + 1, pos)) =~= t.entries[j].item);
            assert(EntryV {
                key: t.entries[j].key,
                key_decor: t.entries[j].key_decor,
                item: ItemV::Tbl(set_pos_at_path(inner, segs, i + 1, pos)),
            } =~= t.entries[j]);
            assert(t.entries.update(
                j,
                EntryV {
                    key: t.entries[j].key,
                    key_decor: t.entries[j].key_decor,
                    item: ItemV::Tbl(set_pos_at_path(inner, segs, i + 1, pos)),
                },
            ) =~= t.entries);
            assert(set_pos_at_path(t, segs, i, pos) =~= t);
        }
    }
}

/// Walks the path and sets the position of the table it ends at; reports
/// whether the path resolved.
pub fn set_pos_at(t: Table, segs: &Vec<String>, i: usize, pos: usize) -> (r: (Table, bool))
    requires
        i <= segs@.len(),
    ensures
        r.0@ == set_pos_at_path(t@, segs.deep_view(), i as int, pos),
        r.1 == path_resolves(t@, segs.deep_view(), i as int),
    decreases segs@.len() - i,
{
    let ghost sv = segs.deep_view();
    let ghost tv = t@;
    if i == segs.len() {
        let mut t = t;
        t.position = Option::Some(pos);
        proof {
            assert(t@ =~= set_pos_at_path(tv, sv, i as int, pos));
        }
        return (t, true);
    }
    let ghost key = sv[i as int];
    proof {
        assert(sv[i as int] == segs@[i as int]@);
        lemma_view_entries(t.entries@);
        lemma_find_key(tv.entries, key);
    }
    // find the entry the segment names
    let mut j: usize = 0;
    let mut found = false;
    loop
        invariant
            0 <= j <= t.entries@.len(),
            tv == t@,
            tv.entries.len() == t.entries@.len(),
            key == sv[i as int],
            key == segs@[i as int]@,
            i < segs@.len(),
            !found ==> forall|jj: int| 0 <= jj < j ==> (#[trigger] tv.entries[jj]).key != key,
            found ==> j < tv.entries.len() && tv.entries[j as int].key == key && forall|jj: int|
                0 <= jj < j ==> (#[trigger] tv.entries[jj]).key != key,
        ensures
            found ==> j as int == find_key(tv.entries, key),
            !found ==> find_key(tv.entries, key) < 0,
        decreases t.entries@.len() - j + (if found { 0int } else { 1int }),
    {
        if found {
            proof {
                lemma_find_key(tv.entries, key);
                let f = find_key(tv.entries, key);
                if f < j as int {
                    assert(tv.entries[f].key == key);
                }
                if f > j as int {
                    assert(tv.entries[j as int].key != key);
                }
            }
            break;
        }
        if j == t.entries.len() {
            proof {
                lemma_find_key(tv.entries, key);
                if find_key(tv.entries, key) >= 0 {
                    assert(tv.entries[find_key(tv.entries, key)].key == key);
                }
            }
            break;
        }
        proof {
            lemma_view_entries(t.entries@);
            assert(tv.entries[j as int] == view_entry(t.entries@[j as int]));
        }
        if t.entries[j].key.eq(&segs[i]) {
            found = true;
        } else {
            j = j + 1;
        }
    }
    if !found {
        proof {
            assert(t@ =~= set_pos_at_path(tv, sv, i as int, pos));
        }
        return (t, false);
    }
    let mut t = t;
    let e = t.entries.remove(j);
    let ghost e0 = e;
    let Entry { key: ek, key_decor: ed, item } = e;
    match item {
        Item::Tbl(inner) => {
            proof {
                assert(view_entry(e0).item is Tbl);
                assert(view_entry(e0).item->Tbl_0 == inner@);
            }
            let rr = set_pos_at(inner, segs, i + 1, pos);
            let resolved = rr.1;
            t.entries.insert(j, Entry { key: ek, key_decor: ed, item: Item::Tbl(rr.0) });
            proof {
                lemma_view_entries(t.entries@);
                assert(t@.entries =~= tv.entries.update(
                    j as int,
                    EntryV {
                        key: tv.entries[j as int].key,
                        key_decor: tv.entries[j as int].key_decor,
                        item: ItemV::Tbl(set_pos_at_path(inner@, sv, i + 1int, pos)),
                    },
                ));
                assert(t@ =~= set_pos_at_path(tv, sv, i as int, pos));
            }
            (t, resolved)
        },
        other => {
            t.entries.insert(j, Entry { key: ek, key_decor: ed, item: other });
            proof {
                lemma_view_entries(t.entries@);
                assert(t@.entries =~= tv.entries);
                assert(t@ =~= set_pos_at_path(tv, sv, i as int, pos));
                assert(!(view_entry(e0).item is Tbl));
            }
            (t, false)
        },
    }
}

/// Are two strings the same text?
pub fn str_eq_exec(a: &str, b: &str) -> (r: bool)
    ensures
        r == (a@ == b@),
{
    let le = str_leq_exec(a, b);
    let ge = str_leq_exec(b, a);
    proof {
        if le && ge {
            lemma_str_leq_antisym(a@, b@);
        }
        lemma_str_leq_total(a@, b@);
    }
    le && ge
}

/// The path segments joined with dots.
pub open spec fn join_dots(parts: Seq<Seq<char>>) -> Seq<char>
    decreases parts.len(),
{
    if parts.len() == 0 {
        Seq::empty()
    } else if parts.len() == 1 {
        parts[0]
    } else {
        parts[0] + seq!['.'] + join_dots(parts.subrange(1, parts.len() as int))
    }
}

/// Appending one more segment appends a dot and the segment.
pub proof fn lemma_join_dots_snoc(parts: Seq<Seq<char>>, x: Seq<char>)
    ensures
        join_dots(parts.push(x)) == if parts.len() == 0 {
            x
        } else {
            join_dots(parts) + seq!['.'] + x
        },
    decreases parts.len(),
{
    let p = parts.push(x);
    if parts.len() == 0 {
        assert(p.len() == 1);
        assert(p[0] == x);
    } else {
        assert(p[0] == parts[0]);
        assert(p.subrange(1, p.len() as int) =~= parts.subrange(1, parts.len() as int).push(x));
        lemma_join_dots_snoc(parts.subrange(1, parts.len() as int), x);
        if parts.len() == 1 {
            assert(parts.subrange(1, parts.len() as int).len() == 0);
            assert(join_dots(p) =~= parts[0] + seq!['.'] + x);
            assert(join_dots(parts) == parts[0]);
        } else {
            assert(join_dots(p) == p[0] + seq!['.'] + join_dots(p.subrange(1, p.len() as int)));
            assert(join_dots(p) =~= join_dots(parts) + seq!['.'] + x);
        }
    }
}

/// The first index at which the path holds this segment, or -1.
pub open spec fn find_seg(p: Seq<Seq<char>>, h: Seq<char>) -> int
    decreases p.len(),
{
    if p.len() == 0 {
        -1
    } else if p[0] == h {
        0
    } else {
        let r = find_seg(p.subrange(1, p.len() as int), h);
        if r < 0 {
            -1
        } else {
            r + 1
        }
    }
}

pub proof fn lemma_find_seg(p: Seq<Seq<char>>, h: Seq<char>)
    ensures
        find_seg(p, h) >= 0 ==> find_seg(p, h) < p.len() && p[find_seg(p, h)] == h,
        forall|j: int| 0 <= j < find_seg(p, h) ==> (#[trigger] p[j]) != h,
        find_seg(p, h) < 0 ==> forall|j: int| 0 <= j < p.len() ==> (#[trigger] p[j]) != h,
    decreases p.len(),
{
    if p.len() > 0 && p[0] != h {
        let dl = p.subrange(1, p.len() as int);
        lemma_find_seg(dl, h);
        assert(forall|j: int| 0 <= j < dl.len() ==> #[trigger] dl[j] == p[j + 1]);
        assert forall|j: int| 0 <= j < find_seg(p, h) implies (#[trigger] p[j]) != h by {
            if j >= 1 {
                assert(dl[j - 1] == p[j]);
            }
        }
        if find_seg(p, h) < 0 {
            assert forall|j: int| 0 <= j < p.len() implies (#[trigger] p[j]) != h by {
                if j >= 1 {
                    assert(dl[j - 1] == p[j]);
                }
            }
        }
    }
}

/// The rotation key: split at the first occurrence of the pivot, reverse the
/// pivot-inclusive left part, keep the right part, join with dots. Absent
/// pivot: no key.
pub open spec fn rotation(p: Seq<Seq<char>>, h: Seq<char>) -> Option<Seq<char>> {
    let q = find_seg(p, h);
    if q < 0 {
        Option::None
    } else {
        Option::Some(join_dots(p.subrange(0, q + 1).reverse() + p.subrange(q + 1, p.len() as int)))
    }
}

/// Builds the rotation key of a path around a pivot segment.
pub fn rotation_exec(p: &Vec<String>, h: &String) -> (r: Option<String>)
    ensures
        match r {
            Option::Some(s) => rotation(p.deep_view(), h@) == Option::Some(s@),
            Option::None => rotation(p.deep_view(), h@) is None,
        },
{
    let ghost pv = p.deep_view();
    proof {
        lemma_find_seg(pv, h@);
    }
    // find the pivot
    let mut q: usize = 0;
    let mut found = false;
    loop
        invariant
            0 <= q <= p@.len(),
            pv == p.deep_view(),
            pv.len() == p@.len(),
            !found ==> forall|j: int| 0 <= j < q ==> (#[trigger] pv[j]) != h@,
            found ==> q < pv.len() && pv[q as int] == h@ && forall|j: int|
                0 <= j < q ==> (#[trigger] pv[j]) != h@,
        ensures
            found ==> q as int == find_seg(pv, h@),
            !found ==> find_seg(pv, h@) < 0,
        decreases p@.len() - q + (if found { 0int } else { 1int }),
    {
        if found {
            proof {
                lemma_find_seg(pv, h@);
                let f = find_seg(pv, h@);
                if f < q as int {
                    assert(pv[f] == h@);
                }
                if f > q as int {
                    assert(pv[q as int] != h@);
                }
            }
            break;
        }
        if q == p.len() {
            proof {
                lemma_find_seg(pv, h@);
                if find_seg(pv, h@) >= 0 {
                    assert(pv[find_seg(pv, h@)] == h@);
                }
            }
            break;
        }
        proof {
            assert(pv[q as int] == p@[q as int]@);
        }
        if str_eq_exec(p[q].as_str(), h.as_str()) {
            found = true;
        } else {
            q = q + 1;
        }
    }
    if !found {
        return Option::None;
    }
    // build the rotated part list: left reversed, then the right part
    let plen = p.len();
    let mut parts: Vec<String> = Vec::new();
    let mut k: usize = 0;
    let ghost left_rev = pv.subrange(0, q + 1int).reverse();
    while k <= q
        invariant
            0 <= k <= q + 1,
            q < p@.len(),
            plen == p@.len(),
            pv == p.deep_view(),
            pv.len() == p@.len(),
            parts@.len() == k,
            forall|jj: int| 0 <= jj < k ==> (#[trigger] parts@[jj])@ == pv[q - jj],
        decreases q - k + 1,
    {
        let s = clone_path_elem(p, q - k);
        parts.push(s);
        k = k + 1;
    }
    let mut m: usize = q + 1;
    while m < plen
        invariant
            q + 1 <= m <= p@.len(),
            plen == p@.len(),
            pv == p.deep_view(),
            pv.len() == p@.len(),
            parts@.len() == m,
            forall|jj: int| 0 <= jj <= q ==> (#[trigger] parts@[jj])@ == pv[q - jj],
            forall|jj: int| q < jj < m ==> (#[trigger] parts@[jj])@ == pv[jj],
        decreases p@.len() - m,
    {
        let s = clone_path_elem(p, m);
        parts.push(s);
        m = m + 1;
    }
    proof {
        let target = left_rev + pv.subrange(q + 1int, pv.len() as int);
        assert(pv.subrange(0, q + 1int).len() == q + 1);
        assert(left_rev.len() == q + 1);
        assert(parts.deep_view().len() == parts@.len());
        assert forall|j: int|
            0 <= j < parts.deep_view().len() implies parts.deep_view()[j] == target[j] by {
            if j <= q {
                assert(left_rev[j] == pv.subrange(0, q + 1int)[q + 1 - 1 - j]);
                assert(pv.subrange(0, q + 1int)[q - j] == pv[q - j]);
                assert(parts@[j]@ == pv[q - j]);
            } else {
                assert(target[j] == pv.subrange(q + 1int, pv.len() as int)[j - (q + 1)]);
                assert(parts@[j]@ == pv[j]);
            }
        }
        assert(parts.deep_view() =~= target);
    }
    Option::Some(join_dots_exec(&parts))
}

/// Joins path segments with dots.
pub fn join_dots_exec(parts: &Vec<String>) -> (r: String)
    ensures
        r@ == join_dots(parts.deep_view()),
{
    let ghost pv = parts.deep_view();
    let mut out = String::new();
    let mut i: usize = 0;
    proof {
        assert(pv.subrange(0, 0) =~= Seq::<Seq<char>>::empty());
        assert(out@ =~= join_dots(pv.subrange(0, 0)));
    }
    while i < parts.len()
        invariant
            0 <= i <= parts@.len(),
            pv == parts.deep_view(),
            pv.len() == parts@.len(),
            out@ == join_dots(pv.subrange(0, i as int)),
        decreases parts@.len() - i,
    {
        if i > 0 {
            out.append(".");
        }
        out.append(parts[i].as_str());
        i = i + 1;
        proof {
            reveal_strlit(".");
            assert(pv.subrange(0, i as int).drop_last() =~= pv.subrange(0, i - 1));
            assert(pv.subrange(0, i as int) =~= pv.subrange(0, i - 1).push(pv[i - 1]));
            lemma_join_dots_snoc(pv.subrange(0, i - 1), pv[i - 1]);
            assert(pv[i - 1] == parts@[i - 1]@);
            if i == 1 {
                assert(out@ =~= join_dots(pv.subrange(0, i as int)));
            } else {
                assert(out@ =~= join_dots(pv.subrange(0, i - 1)) + seq!['.'] + pv[i - 1]);
                assert(out@ =~= join_dots(pv.subrange(0, i as int)));
            }
        }
    }
    proof {
        assert(pv.subrange(0, pv.len() as int) =~= pv);
    }
    out
}

/// The longest rotation key among the completed headings; of equal lengths,
/// the later one. Headings without the pivot contribute nothing; with no
/// candidate at all the key is empty.
pub open spec fn extract_best(
    hs: Seq<HeadingV>,
    h: Seq<char>,
    i: int,
    best: Option<Seq<char>>,
) -> Seq<char>
    decreases hs.len() - i,
{
    if i < 0 || i >= hs.len() {
        match best {
            Option::Some(b) => b,
            Option::None => Seq::empty(),
        }
    } else {
        let cand = if hs[i] is Complete {
            rotation(heading_path(hs[i]), h)
        } else {
            Option::None
        };
        let b2 = match (best, cand) {
            (b, Option::None) => b,
            (Option::None, Option::Some(c)) => Option::Some(c),
            (Option::Some(b), Option::Some(c)) => if c.len() >= b.len() {
                Option::Some(c)
            } else {
                Option::Some(b)
            },
        };
        extract_best(hs, h, i + 1, b2)
    }
}

pub open spec fn extract_spec(hs: Seq<HeadingV>, h: Seq<char>) -> Seq<char> {
    extract_best(hs, h, 0, Option::None)
}

/// Computes the longest rotation key of a record's headings.
pub fn extract_exec(hs: &Vec<Heading>, h: &String) -> (r: String)
    ensures
        r@ == extract_spec(view_headings(hs@), h@),
{
    let ghost hsv = view_headings(hs@);
    let mut best: Option<String> = Option::None;
    let mut i: usize = 0;
    while i < hs.len()
        invariant
            0 <= i <= hs@.len(),
            hsv == view_headings(hs@),
            hsv.len() == hs@.len(),
            extract_best(hsv, h@, 0, Option::None) == extract_best(
                hsv,
                h@,
                i as int,
                match best {
                    Option::Some(b) => Option::Some(b@),
                    Option::None => Option::<Seq<char>>::None,
                },
            ),
        decreases hs@.len() - i,
    {
        proof {
            assert(hsv[i as int] == view_heading(hs@[i as int]));
        }
        let cand: Option<String> = match &hs[i] {
            Heading::Complete(p) => rotation_exec(p, h),
            Heading::Next(_) => Option::None,
        };
        proof {
            match &cand {
                Option::Some(c) => {
                    assert(hsv[i as int] is Complete);
                    assert(rotation(heading_path(hsv[i as int]), h@) == Option::Some(c@));
                },
                Option::None => {},
            }
        }
        best = match (best, cand) {
            (b, Option::None) => b,
            (Option::None, Option::Some(c)) => Option::Some(c),
            (Option::Some(b), Option::Some(c)) => {
                if c.as_str().unicode_len() >= b.as_str().unicode_len() {
                    Option::Some(c)
                } else {
                    Option::Some(b)
                }
            },
        };
        i = i + 1;
    }
    match best {
        Option::Some(b) => b,
        Option::None => String::new(),
    }
}

/// A heading selects a record for a name when it is completed and one of its
/// segments is that name.
pub open spec fn heading_contains(hv: HeadingV, h: Seq<char>) -> bool {
    hv is Complete && find_seg(heading_path(hv), h) >= 0
}

pub open spec fn record_matches(r: HeadingRecordV, h: Seq<char>) -> bool {
    r.name == h || exists|j: int|
        0 <= j < r.headings.len() && heading_contains(#[trigger] r.headings[j], h)
}

fn heading_contains_exec(hd: &Heading, h: &String) -> (r: bool)
    ensures
        r == heading_contains(view_heading(*hd), h@),
{
    match hd {
        Heading::Next(_) => false,
        Heading::Complete(p) => {
            let ghost pv = p.deep_view();
            proof {
                assert(view_heading(*hd) == HeadingV::Complete(pv));
                lemma_find_seg(pv, h@);
            }
            let mut j: usize = 0;
            while j < p.len()
                invariant
                    0 <= j <= p@.len(),
                    pv == p.deep_view(),
                    pv.len() == p@.len(),
                    view_heading(*hd) == HeadingV::Complete(pv),
                    forall|jj: int| 0 <= jj < j ==> (#[trigger] pv[jj]) != h@,
                decreases p@.len() - j,
            {
                proof {
                    assert(pv[j as int] == p@[j as int]@);
                }
                if str_eq_exec(p[j].as_str(), h.as_str()) {
                    proof {
                        assert(view_heading(*hd) == HeadingV::Complete(pv));
                        assert(pv[j as int] == h@);
                        lemma_find_seg(pv, h@);
                        if find_seg(pv, h@) < 0 {
                            assert(pv[j as int] != h@);
                        }
                        assert(find_seg(pv, h@) >= 0);
                    }
                    return true;
                }
                j = j + 1;
            }
            proof {
                lemma_find_seg(pv, h@);
                if find_seg(pv, h@) >= 0 {
                    assert(pv[find_seg(pv, h@)] == h@);
                }
            }
            false
        },
    }
}

fn record_matches_exec(r: &HeadingRecord, h: &String) -> (res: bool)
    ensures
        res == record_matches(r@, h@),
{
    if str_eq_exec(r.name.as_str(), h.as_str()) {
        return true;
    }
    let mut j: usize = 0;
    while j < r.headings.len()
        invariant
            0 <= j <= r.headings@.len(),
            forall|jj: int|
                0 <= jj < j ==> !heading_contains(
                    #[trigger] view_headings(r.headings@)[jj],
                    h@,
                ),
            r@.name != h@,
        decreases r.headings@.len() - j,
    {
        proof {
            assert(view_headings(r.headings@)[j as int] == view_heading(r.headings@[j as int]));
        }
        if heading_contains_exec(&r.headings[j], h) {
            proof {
                assert(heading_contains(r@.headings[j as int], h@));
            }
            return true;
        }
        j = j + 1;
    }
    false
}

/// The records a name selects, keyed for sorting: the longest rotation key,
/// then the record's own name; the payload is the record's index.
pub open spec fn selected_pairs(rs: Seq<HeadingRecordV>, h: Seq<char>, i: int) -> Seq<
    (SortKeyV, usize),
>
    decreases rs.len() - i,
{
    if i < 0 || i >= rs.len() {
        Seq::empty()
    } else {
        let rest = selected_pairs(rs, h, i + 1);
        if record_matches(rs[i], h) {
            seq![
                (
                    SortKeyV::TextPair(extract_spec(rs[i].headings, h), rs[i].name),
                    i as usize,
                ),
            ] + rest
        } else {
            rest
        }
    }
}

/// All gathered headings, across the records in document order.
pub open spec fn flat_headings(rs: Seq<HeadingRecordV>) -> Seq<HeadingV>
    decreases rs.len(),
{
    if rs.len() == 0 {
        Seq::empty()
    } else {
        rs[0].headings + flat_headings(rs.subrange(1, rs.len() as int))
    }
}

/// The lexicographic policy: every completed nested path (two or more
/// segments), taken in flattened order, receives position `base + its index`
/// in that enumeration; single-segment paths keep their original place.
pub open spec fn sort_lex_spec(doc: TableV, flat: Seq<HeadingV>, i: int, base: usize) -> TableV
    decreases flat.len() - i,
{
    if i < 0 || i >= flat.len() {
        doc
    } else {
        let d2 = if flat[i] is Complete && heading_path(flat[i]).len() > 1 {
            set_pos_at_path(doc, heading_path(flat[i]), 0, sat(base + i))
        } else {
            doc
        };
        sort_lex_spec(d2, flat, i + 1, base)
    }
}

/// Applies the lexicographic policy.
pub fn sort_lexicographical(
    first_table: Option<usize>,
    heading_order: &Vec<HeadingRecord>,
    doc: Table,
) -> (r: Table)
    ensures
        r@ == sort_lex_spec(
            doc@,
            flat_headings(view_records(heading_order@)),
            0,
            sat(
                1 + match first_table {
                    Option::Some(f) => f as int,
                    Option::None => 0int,
                },
            ),
        ),
{
    let base = match first_table {
        Option::Some(f) => sat_add(f, 1),
        Option::None => 1,
    };
    // flatten the headings
    let mut flat: Vec<Heading> = Vec::new();
    let mut ri: usize = 0;
    let ghost rv = view_records(heading_order@);
    proof {
        assert(rv.subrange(0, rv.len() as int) =~= rv);
        assert(view_headings(flat@) + flat_headings(rv.subrange(0, rv.len() as int))
            =~= flat_headings(rv));
    }
    while ri < heading_order.len()
        invariant
            0 <= ri <= heading_order@.len(),
            rv == view_records(heading_order@),
            rv.len() == heading_order@.len(),
            view_headings(flat@) + flat_headings(rv.subrange(ri as int, rv.len() as int))
                == flat_headings(rv),
        decreases heading_order@.len() - ri,
    {
        let ghost flat0 = flat@;
        let hs = &heading_order[ri].headings;
        let mut hi: usize = 0;
        proof {
            assert(view_headings(flat@) =~= view_headings(flat0) + view_headings(hs@).subrange(
                0,
                0,
            ));
        }
        while hi < hs.len()
            invariant
                0 <= hi <= hs@.len(),
                view_headings(flat@) =~= view_headings(flat0) + view_headings(hs@).subrange(
                    0,
                    hi as int,
                ),
            decreases hs@.len() - hi,
        {
            let h = match &hs[hi] {
                Heading::Next(p) => Heading::Next(clone_path(p)),
                Heading::Complete(p) => Heading::Complete(clone_path(p)),
            };
            proof {
                assert(view_heading(h) == view_headings(hs@)[hi as int]);
            }
            let ghost fprev = flat@;
            let ghost hi0 = hi as int;
            flat.push(h);
            hi = hi + 1;
            proof {
                let rhs = view_headings(flat0) + view_headings(hs@).subrange(0, hi as int);
                assert(view_headings(fprev) =~= view_headings(flat0) + view_headings(hs@).subrange(
                    0,
                    hi0,
                ));
                assert(0 <= hi0 < hs@.len());
                assert(view_headings(hs@).subrange(0, hi0).len() == hi0);
                assert(view_headings(fprev).len() == fprev.len());
                assert(fprev.len() == flat0.len() + hi0);
                assert(flat@.len() == fprev.len() + 1);
                assert forall|j: int|
                    0 <= j < flat@.len() implies view_headings(flat@)[j] == rhs[j] by {
                    if j < fprev.len() {
                        assert(flat@[j] == fprev[j]);
                        assert(view_headings(fprev)[j] == (view_headings(flat0) + view_headings(
                            hs@,
                        ).subrange(0, hi0))[j]);
                    } else {
                        assert(flat@[j] == h);
                        assert(view_heading(h) == view_headings(hs@)[hi0]);
                    }
                }
                assert(view_headings(flat@) =~= rhs);
            }
        }
        proof {
            assert(view_headings(hs@).subrange(0, hs@.len() as int) =~= view_headings(hs@));
            assert(rv[ri as int].headings == view_headings(hs@));
            assert(rv.subrange(ri as int, rv.len() as int)[0] == rv[ri as int]);
            assert(rv.subrange(ri as int, rv.len() as int).subrange(
                1,
                rv.len() - ri,
            ) =~= rv.subrange(ri + 1int, rv.len() as int));
        }
        ri = ri + 1;
    }
    proof {
        assert(flat_headings(rv.subrange(ri as int, rv.len() as int)).len() == 0);
        assert(view_headings(flat@) =~= flat_headings(rv));
    }
    // assign positions
    let ghost fv = view_headings(flat@);
    let mut cur = doc;
    let mut i: usize = 0;
    while i < flat.len()
        invariant
            0 <= i <= flat@.len(),
            fv == view_headings(flat@),
            fv.len() == flat@.len(),
            sort_lex_spec(doc@, fv, 0, base) == sort_lex_spec(cur@, fv, i as int, base),
            base == sat(
                1 + match first_table {
                    Option::Some(f) => f as int,
                    Option::None => 0int,
                },
            ),
        decreases flat@.len() - i,
    {
        proof {
            assert(fv[i as int] == view_heading(flat@[i as int]));
        }
        let is_complete_long = match &flat[i] {
            Heading::Complete(p) => p.len() > 1,
            Heading::Next(_) => false,
        };
        if is_complete_long {
            let segs = match &flat[i] {
                Heading::Complete(p) => p,
                Heading::Next(p) => p,
            };
            proof {
                assert(segs.deep_view() == heading_path(fv[i as int]));
                assert(segs.deep_view().len() == segs@.len());
            }
            let pos = sat_add(base, i);
            let rr = set_pos_at(cur, segs, 0, pos);
            cur = rr.0;
        }
        i = i + 1;
    }
    cur
}

/// Depth-first position numbering of every nested table (and element of an
/// array of tables) beneath a table whose own position was just set.
pub open spec fn walk_tbl_at(t: TableV, pos: usize, idx: usize) -> (TableV, usize)
    decreases t,
{
    let r = walk_entries(t.entries, idx);
    (
        TableV {
            entries: r.0,
            implicit: t.implicit,
            dotted: t.dotted,
            position: Option::Some(pos),
            decor: t.decor,
        },
        r.1,
    )
}

pub open spec fn walk_entries(s: Seq<EntryV>, idx: usize) -> (Seq<EntryV>, usize)
    decreases s,
{
    if s.len() == 0 {
        (s, idx)
    } else {
        let r0 = walk_entry(s[0], idx);
        let r1 = walk_entries(s.subrange(1, s.len() as int), r0.1);
        (seq![r0.0] + r1.0, r1.1)
    }
}

pub open spec fn walk_entry(e: EntryV, idx: usize) -> (EntryV, usize)
    decreases e,
{
    let r = walk_item(e.item, idx);
    (EntryV { key: e.key, key_decor: e.key_decor, item: r.0 }, r.1)
}

pub open spec fn walk_item(it: ItemV, idx: usize) -> (ItemV, usize)
    decreases it,
{
    match it {
        ItemV::Tbl(t) => {
            let r = walk_tbl_at(t, idx, sat(idx + 1));
            (ItemV::Tbl(r.0), r.1)
        },
        ItemV::TblArr(ts) => {
            let r = walk_tables(ts, idx);
            (ItemV::TblArr(r.0), r.1)
        },
        _ => (it, idx),
    }
}

pub open spec fn walk_tables(s: Seq<TableV>, idx: usize) -> (Seq<TableV>, usize)
    decreases s,
{
    if s.len() == 0 {
        (s, idx)
    } else {
        let r0 = walk_tbl_at(s[0], idx, sat(idx + 1));
        let r1 = walk_tables(s.subrange(1, s.len() as int), r0.1);
        (seq![r0.0] + r1.0, r1.1)
    }
}

/// Numbers this table `pos` and all nested tables depth-first from `idx` on.
#[verifier::loop_isolation(false)]
#[verifier::rlimit(100)]
pub fn walk_tbl_at_exec(t: Table, pos: usize, idx: usize) -> (r: (Table, usize))
    ensures
        (r.0@, r.1) == walk_tbl_at(t@, pos, idx),
    decreases t,
{
    let ghost tv = t@;
    let ghost t0 = t;
    let Table { entries, implicit, dotted, position, decor } = t;
    let ghost orig = entries@;
    proof {
        assert(orig == t0.entries@);
    }
    let mut rest = entries;
    let mut out: Vec<Entry> = Vec::new();
    let mut cur: usize = idx;
    let mut k: usize = 0;
    proof {
        lemma_view_entries(orig);
        vstd::std_specs::vec::axiom_spec_len(&rest);
        assert(orig.len() <= usize::MAX);
        assert(view_entries(orig).subrange(0, view_entries(orig).len() as int) =~= view_entries(
            orig,
        ));
        assert(view_entries(out@) =~= Seq::<EntryV>::empty());
    }
    while rest.len() > 0
        invariant
            0 <= k <= orig.len(),
            rest@.len() == orig.len() - k,
            rest@ == orig.subrange(k as int, orig.len() as int),
            orig == t0.entries@,
            orig.len() <= usize::MAX,
            tv.entries == view_entries(orig),
            walk_entries(view_entries(orig), idx) == {
                let r = walk_entries(
                    view_entries(orig).subrange(k as int, orig.len() as int),
                    cur,
                );
                (view_entries(out@) + r.0, r.1)
            },
        decreases rest@.len(),
    {
        let ghost rem = view_entries(orig).subrange(k as int, orig.len() as int);
        let ghost r0 = rest@;
        let e = rest.remove(0);
        proof {
            lemma_view_entries(orig);
            assert(e == orig[k as int]);
            assert(rem[0] == view_entry(orig[k as int]));
            assert(rest@ =~= orig.subrange(k + 1int, orig.len() as int));
            assert(rem.subrange(1, rem.len() as int) =~= view_entries(orig).subrange(
                k + 1int,
                orig.len() as int,
            ));
        }
        let Entry { key, key_decor, item } = e;
        let ghost kcur = cur;
        let new_item: Item;
        match item {
            Item::Tbl(inner) => {
                proof {
                    assert(decreases_to!(t0 => t0.entries));
                    assert(decreases_to!(t0.entries => t0.entries@));
                    assert(decreases_to!(t0.entries@ => t0.entries@[k as int]));
                    assert(decreases_to!(t0.entries@[k as int] => t0.entries@[k as int].item));
                    assert(decreases_to!(
                        t0.entries@[k as int].item => t0.entries@[k as int].item->Tbl_0));
                    assert(inner == t0.entries@[k as int].item->Tbl_0);
                    assert(decreases_to!(t0 => inner));
                }
                let ri = walk_tbl_at_exec(inner, cur, sat_add(cur, 1));
                cur = ri.1;
                new_item = Item::Tbl(ri.0);
                proof {
                    assert(view_item(new_item) == walk_item(rem[0].item, kcur).0);
                    assert(cur == walk_item(rem[0].item, kcur).1);
                }
            },
            Item::TblArr(tbls) => {
                let ghost tbs0 = view_tables(tbls@);
                let ghost tbls0 = tbls@;
                let mut trest = tbls;
                let mut tout: Vec<Table> = Vec::new();
                let mut j: usize = 0;
                proof {
                    lemma_view_tables(trest@);
                    vstd::std_specs::vec::axiom_spec_len(&trest);
                    assert(tbs0.len() == trest@.len());
                    assert(tbs0.len() <= usize::MAX);
                    assert(tbs0.subrange(0, tbs0.len() as int) =~= tbs0);
                    assert(view_tables(tout@) =~= Seq::<TableV>::empty());
                    assert(decreases_to!(t0 => t0.entries));
                    assert(decreases_to!(t0.entries => t0.entries@));
                    assert(decreases_to!(t0.entries@ => t0.entries@[k as int]));
                    assert(decreases_to!(t0.entries@[k as int] => t0.entries@[k as int].item));
                    assert(decreases_to!(
                        t0.entries@[k as int].item => t0.entries@[k as int].item->TblArr_0));
                    assert(tbls0 == t0.entries@[k as int].item->TblArr_0@) by {
                        assert(t0.entries@[k as int].item is TblArr);
                    }
                    assert(decreases_to!(
                        t0.entries@[k as int].item->TblArr_0
                            => t0.entries@[k as int].item->TblArr_0@));
                    assert forall|jj: int|
                        0 <= jj < tbls0.len() implies decreases_to!(t0 => #[trigger] tbls0[jj]) by {
                        assert(decreases_to!(
                            t0.entries@[k as int].item->TblArr_0@
                                => t0.entries@[k as int].item->TblArr_0@[jj]));
                        assert(tbls0[jj] == t0.entries@[k as int].item->TblArr_0@[jj]);
                    }
                }
                while trest.len() > 0
                    invariant
                        0 <= j <= tbs0.len(),
                        trest@.len() == tbs0.len() - j,
                        view_tables(trest@) == tbs0.subrange(j as int, tbs0.len() as int),
                        walk_tables(tbs0, kcur) == {
                            let r = walk_tables(
                                tbs0.subrange(j as int, tbs0.len() as int),
                                cur,
                            );
                            (view_tables(tout@) + r.0, r.1)
                        },
                        j <= tbs0.len() <= usize::MAX,
                        forall|jj: int|
                            0 <= jj < trest@.len() ==> decreases_to!(t0 => #[trigger] trest@[jj]),
                    decreases trest@.len(),
                {
                    let ghost trem = tbs0.subrange(j as int, tbs0.len() as int);
                    let ghost tr0 = trest@;
                    let tb = trest.remove(0);
                    proof {
                        lemma_view_tables(tr0);
                        assert(tb == tr0[0]);
                        assert(view_tables(tr0)[0] == view_table(tr0[0]));
                        assert(trem[0] == view_table(tb));
                        lemma_view_tables(trest@);
                        assert forall|ii: int|
                            0 <= ii < view_tables(trest@).len() implies view_tables(trest@)[ii]
                            == tbs0.subrange(j + 1int, tbs0.len() as int)[ii] by {
                            assert(trest@[ii] == tr0[ii + 1]);
                            assert(view_tables(tr0)[ii + 1] == tbs0.subrange(
                                j as int,
                                tbs0.len() as int,
                            )[ii + 1]);
                        }
                        assert(view_tables(trest@) =~= tbs0.subrange(
                            j + 1int,
                            tbs0.len() as int,
                        ));
                        assert(trem.subrange(1, trem.len() as int) =~= tbs0.subrange(
                            j + 1int,
                            tbs0.len() as int,
                        ));
                        assert(decreases_to!(t0 => tb));
                    }
                    let ghost jcur = cur;
                    let rt = walk_tbl_at_exec(tb, cur, sat_add(cur, 1));
                    cur = rt.1;
                    let ghost tout0 = tout@;
                    tout.push(rt.0);
                    j = j + 1;
                    proof {
                        lemma_view_tables(tout@);
                        lemma_view_tables(tout0);
                        assert(view_tables(tout@) =~= view_tables(tout0).push(
                            walk_tbl_at(trem[0], jcur, sat(jcur + 1)).0,
                        ));
                        assert(forall|jj: int|
                            0 <= jj < trest@.len() ==> trest@[jj] == #[trigger] tr0[jj + 1]);
                    }
                }
                proof {
                    assert(tbs0.subrange(j as int, tbs0.len() as int).len() == 0);
                    assert(view_tables(tout@) =~= walk_tables(tbs0, kcur).0);
                    assert(cur == walk_tables(tbs0, kcur).1);
                }
                new_item = Item::TblArr(tout);
                proof {
                    assert(view_item(new_item) == walk_item(rem[0].item, kcur).0);
                }
            },
            other => {
                new_item = other;
                proof {
                    assert(view_item(new_item) == walk_item(rem[0].item, kcur).0);
                    assert(cur == walk_item(rem[0].item, kcur).1);
                }
            },
        }
        let ghost out0 = out@;
        out.push(Entry { key, key_decor, item: new_item });
        k = k + 1;
        proof {
            lemma_view_entries(out@);
            lemma_view_entries(out0);
            assert(view_entries(out@) =~= view_entries(out0).push(walk_entry(rem[0], kcur).0));
        }
    }
    proof {
        assert(view_entries(orig).subrange(k as int, orig.len() as int).len() == 0);
    }
    let rt = Table { entries: out, implicit, dotted, position: Option::Some(pos), decor };
    proof {
        assert(rt@ =~= walk_tbl_at(tv, pos, idx).0);
        assert(cur == walk_tbl_at(tv, pos, idx).1);
    }
    (rt, cur)
}

/// The platform-conditional section's name.
pub open spec fn target_name() -> Seq<char> {
    "target"@
}

/// The key a kept heading is ordered by: under the conditional section its
/// rotation key around the pivot, else its dotted path.
pub open spec fn prune_key(hv: HeadingV, is_target: bool, h: Seq<char>) -> SortKeyV {
    SortKeyV::Text(
        if is_target {
            match rotation(heading_path(hv), h) {
                Option::Some(sx) => sx,
                Option::None => Seq::empty(),
            }
        } else {
            join_dots(heading_path(hv))
        },
    )
}

/// The completed headings of a record kept for this name, keyed for sorting:
/// under the conditional section only those holding the name as a segment.
pub open spec fn prune_pairs(hs: Seq<HeadingV>, is_target: bool, h: Seq<char>, i: int) -> Seq<
    (SortKeyV, HeadingV),
>
    decreases hs.len() - i,
{
    if i < 0 || i >= hs.len() {
        Seq::empty()
    } else {
        let rest = prune_pairs(hs, is_target, h, i + 1);
        if hs[i] is Complete && (!is_target || find_seg(heading_path(hs[i]), h) >= 0) {
            seq![(prune_key(hs[i], is_target, h), hs[i])] + rest
        } else {
            rest
        }
    }
}

/// Assigns the counter to each heading's table in turn; the counter advances
/// only when the path resolves.
pub open spec fn apply_headings(
    doc: TableV,
    phs: Seq<(SortKeyV, HeadingV)>,
    j: int,
    idx: usize,
) -> (TableV, usize)
    decreases phs.len() - j,
{
    if j < 0 || j >= phs.len() {
        (doc, idx)
    } else {
        let segs = heading_path(phs[j].1);
        let r = if path_resolves(doc, segs, 0) {
            (set_pos_at_path(doc, segs, 0, idx), sat(idx + 1))
        } else {
            (doc, idx)
        };
        apply_headings(r.0, phs, j + 1, r.1)
    }
}

/// A name no record matched, but a literal top-level table or array of
/// tables of that name exists: it and every table beneath it receive
/// consecutive positions, depth-first.
pub open spec fn apply_literal(doc: TableV, h: Seq<char>, idx: usize) -> (TableV, usize) {
    let j = find_key(doc.entries, h);
    if 0 <= j < doc.entries.len() {
        match doc.entries[j].item {
            ItemV::Tbl(t) => {
                let r = walk_tbl_at(t, idx, sat(idx + 1));
                (
                    TableV {
                        entries: doc.entries.update(
                            j,
                            EntryV {
                                key: doc.entries[j].key,
                                key_decor: doc.entries[j].key_decor,
                                item: ItemV::Tbl(r.0),
                            },
                        ),
                        implicit: doc.implicit,
                        dotted: doc.dotted,
                        position: doc.position,
                        decor: doc.decor,
                    },
                    r.1,
                )
            },
            ItemV::TblArr(ts) => {
                let r = walk_tables(ts, idx);
                (
                    TableV {
                        entries: doc.entries.update(
                            j,
                            EntryV {
                                key: doc.entries[j].key,
                                key_decor: doc.entries[j].key_decor,
                                item: ItemV::TblArr(r.0),
                            },
                        ),
                        implicit: doc.implicit,
                        dotted: doc.dotted,
                        position: doc.position,
                        decor: doc.decor,
                    },
                    r.1,
                )
            },
            _ => (doc, idx),
        }
    } else {
        (doc, idx)
    }
}

/// Processes the selected records in sorted order.
pub open spec fn apply_records(
    doc: TableV,
    rs: Seq<HeadingRecordV>,
    sel: Seq<(SortKeyV, usize)>,
    j: int,
    idx: usize,
    h: Seq<char>,
) -> (TableV, usize)
    decreases sel.len() - j,
{
    if j < 0 || j >= sel.len() {
        (doc, idx)
    } else {
        let ri = sel[j].1;
        let r = if ri < rs.len() {
            let rec = rs[ri as int];
            let pruned = sort_spec(prune_pairs(rec.headings, rec.name == target_name(), h, 0));
            apply_headings(doc, pruned, 0, idx)
        } else {
            (doc, idx)
        };
        apply_records(r.0, rs, sel, j + 1, r.1, h)
    }
}

/// One name of the ordering list: position its selected records, or, with
/// none, the literal table of that name.
pub open spec fn ordering_step(
    doc: TableV,
    rs: Seq<HeadingRecordV>,
    h: Seq<char>,
    idx: usize,
) -> (TableV, usize) {
    let sel = sort_spec(selected_pairs(rs, h, 0));
    if sel.len() > 0 {
        apply_records(doc, rs, sel, 0, idx, h)
    } else {
        apply_literal(doc, h, idx)
    }
}

/// The custom-ordering policy: one shared counter over the whole list.
pub open spec fn sort_by_ordering_spec(
    doc: TableV,
    rs: Seq<HeadingRecordV>,
    ordering: Seq<Seq<char>>,
    i: int,
    idx: usize,
) -> TableV
    decreases ordering.len() - i,
{
    if i < 0 || i >= ordering.len() {
        doc
    } else {
        let r = ordering_step(doc, rs, ordering[i], idx);
        sort_by_ordering_spec(r.0, rs, ordering, i + 1, r.1)
    }
}

/// The index of the top-level entry holding this key, if any.
#[verifier::loop_isolation(false)]
pub fn find_entry_index(t: &Table, h: &String) -> (r: Option<usize>)
    ensures
        match r {
            Option::Some(j) => j as int == find_key(t@.entries, h@) && j < t.entries@.len(),
            Option::None => find_key(t@.entries, h@) < 0,
        },
{
    let ghost tv = t@;
    proof {
        lemma_view_entries(t.entries@);
    }
    let mut j: usize = 0;
    while j < t.entries.len()
        invariant
            0 <= j <= t.entries@.len(),
            tv == t@,
            tv.entries.len() == t.entries@.len(),
            forall|jj: int| 0 <= jj < j ==> (#[trigger] tv.entries[jj]).key != h@,
        decreases t.entries@.len() - j,
    {
        proof {
            lemma_view_entries(t.entries@);
            assert(tv.entries[j as int] == view_entry(t.entries@[j as int]));
        }
        if t.entries[j].key.eq(h) {
            proof {
                lemma_find_key(tv.entries, h@);
                let f = find_key(tv.entries, h@);
                if f < j as int {
                    assert(tv.entries[f].key == h@);
                }
                if f > j as int {
                    assert(tv.entries[j as int].key != h@);
                }
            }
            return Option::Some(j);
        }
        j = j + 1;
    }
    proof {
        lemma_find_key(tv.entries, h@);
        if find_key(tv.entries, h@) >= 0 {
            assert(tv.entries[find_key(tv.entries, h@)].key == h@);
        }
    }
    Option::None
}

/// Numbers the tables of a top-level array of tables, one after the other.
fn walk_tables_exec(ts: Vec<Table>, idx: usize) -> (r: (Vec<Table>, usize))
    ensures
        (view_tables(r.0@), r.1) == walk_tables(view_tables(ts@), idx),
{
    let ghost tbs0 = view_tables(ts@);
    let mut trest = ts;
    let mut tout: Vec<Table> = Vec::new();
    let mut cur: usize = idx;
    let mut j: usize = 0;
    proof {
        lemma_view_tables(trest@);
        vstd::std_specs::vec::axiom_spec_len(&trest);
        assert(tbs0.len() == trest@.len());
        assert(tbs0.subrange(0, tbs0.len() as int) =~= tbs0);
        assert(view_tables(tout@) =~= Seq::<TableV>::empty());
    }
    while trest.len() > 0
        invariant
            0 <= j <= tbs0.len(),
            tbs0.len() <= usize::MAX,
            trest@.len() == tbs0.len() - j,
            view_tables(trest@) == tbs0.subrange(j as int, tbs0.len() as int),
            walk_tables(tbs0, idx) == {
                let r = walk_tables(tbs0.subrange(j as int, tbs0.len() as int), cur);
                (view_tables(tout@) + r.0, r.1)
            },
        decreases trest@.len(),
    {
        let ghost trem = tbs0.subrange(j as int, tbs0.len() as int);
        let ghost tr0 = trest@;
        let tb = trest.remove(0);
        proof {
            lemma_view_tables(tr0);
            assert(tb == tr0[0]);
            assert(trem[0] == view_table(tb));
            lemma_view_tables(trest@);
            assert forall|ii: int|
                0 <= ii < view_tables(trest@).len() implies view_tables(trest@)[ii]
                == tbs0.subrange(j + 1int, tbs0.len() as int)[ii] by {
                assert(trest@[ii] == tr0[ii + 1]);
                assert(view_tables(tr0)[ii + 1] == tbs0.subrange(
                    j as int,
                    tbs0.len() as int,
                )[ii + 1]);
            }
            assert(view_tables(trest@) =~= tbs0.subrange(j + 1int, tbs0.len() as int));
            assert(trem.subrange(1, trem.len() as int) =~= tbs0.subrange(
                j + 1int,
                tbs0.len() as int,
            ));
        }
        let ghost jcur = cur;
        let rt = walk_tbl_at_exec(tb, cur, sat_add(cur, 1));
        cur = rt.1;
        let ghost tout0 = tout@;
        tout.push(rt.0);
        j = j + 1;
        proof {
            lemma_view_tables(tout@);
            lemma_view_tables(tout0);
            assert(view_tables(tout@) =~= view_tables(tout0).push(
                walk_tbl_at(trem[0], jcur, sat(jcur + 1)).0,
            ));
        }
    }
    proof {
        assert(tbs0.subrange(j as int, tbs0.len() as int).len() == 0);
        assert(view_tables(tout@) =~= walk_tables(tbs0, idx).0);
    }
    (tout, cur)
}

/// Keys, prunes and positions one record's headings.
#[verifier::loop_isolation(false)]
#[verifier::rlimit(100)]
fn apply_record_exec(doc: Table, idx: usize, rec: &HeadingRecord, h: &String) -> (r: (
    Table,
    usize,
))
    ensures
        (r.0@, r.1) == apply_headings(
            doc@,
            sort_spec(prune_pairs(rec@.headings, rec@.name == target_name(), h@, 0)),
            0,
            idx,
        ),
{
    let ghost hv = h@;
    let ghost doc_r = doc@;
    let ghost idx_r = idx;
    let mut doc = doc;
    let mut idx = idx;
    let is_t = str_eq_exec(rec.name.as_str(), "target");
    proof {
        reveal_strlit("target");
        assert(is_t == (rec@.name == target_name()));
    }
    let ghost hsv = view_headings(rec.headings@);
    // keep and key the record's completed headings
    let mut pairs: Vec<(SortKey, Heading)> = Vec::new();
    let mut hj: usize = 0;
    let ghost f = |hd: Heading| view_heading(hd);
    proof {
        assert(map_payload(view_pairs(pairs@), f) + prune_pairs(hsv, is_t, hv, 0) =~= prune_pairs(
            hsv,
            is_t,
            hv,
            0,
        ));
    }
    while hj < rec.headings.len()
        invariant
            0 <= hj <= rec.headings@.len(),
            hsv.len() == rec.headings@.len(),
            map_payload(view_pairs(pairs@), f) + prune_pairs(hsv, is_t, hv, hj as int)
                == prune_pairs(hsv, is_t, hv, 0),
        decreases rec.headings@.len() - hj,
    {
        proof {
            assert(hsv[hj as int] == view_heading(rec.headings@[hj as int]));
        }
        let ghost p0 = map_payload(view_pairs(pairs@), f);
        let hd = &rec.headings[hj];
        let keep = match hd {
            Heading::Complete(_) => {
                if is_t {
                    heading_contains_exec(hd, h)
                } else {
                    true
                }
            },
            Heading::Next(_) => false,
        };
        proof {
            assert(keep == (hsv[hj as int] is Complete && (!is_t || find_seg(
                heading_path(hsv[hj as int]),
                hv,
            ) >= 0)));
        }
        if keep {
            let p = match hd {
                Heading::Complete(pp) => pp,
                Heading::Next(pp) => pp,
            };
            let keystr = if is_t {
                match rotation_exec(p, h) {
                    Option::Some(sx) => sx,
                    Option::None => String::new(),
                }
            } else {
                join_dots_exec(p)
            };
            proof {
                assert(p.deep_view() == heading_path(hsv[hj as int]));
                assert(keystr@ == prune_key(hsv[hj as int], is_t, hv)->Text_0);
            }
            let nh = Heading::Complete(clone_path(p));
            proof {
                assert(view_heading(nh) == hsv[hj as int]);
            }
            pairs.push((SortKey::Text(keystr), nh));
            proof {
                assert(map_payload(view_pairs(pairs@), f) =~= p0 + seq![
                    (prune_key(hsv[hj as int], is_t, hv), hsv[hj as int]),
                ]);
            }
        }
        hj = hj + 1;
        proof {
            assert(map_payload(view_pairs(pairs@), f) + prune_pairs(hsv, is_t, hv, hj as int)
                =~= prune_pairs(hsv, is_t, hv, 0));
        }
    }
    proof {
        assert(prune_pairs(hsv, is_t, hv, hsv.len() as int) =~= Seq::<
            (SortKeyV, HeadingV),
        >::empty());
        assert(map_payload(view_pairs(pairs@), f) =~= prune_pairs(hsv, is_t, hv, 0));
    }
    let ghost pairs0 = view_pairs(pairs@);
    let sorted2 = sort_pairs(pairs);
    let ghost pruned = sort_spec(prune_pairs(hsv, is_t, hv, 0));
    proof {
        lemma_sort_payload_map(pairs0, f);
        lemma_sort_sorted(pairs0);
        assert(pruned == map_payload(view_pairs(sorted2@), f));
        assert(pruned.len() == sorted2@.len());
        assert forall|q: int|
            0 <= q < sorted2@.len() implies view_heading((#[trigger] sorted2@[q]).1) == pruned[
            q].1 by {
            assert(map_payload(view_pairs(sorted2@), f)[q].1 == f(view_pairs(sorted2@)[q].1));
        }
    }
    // set the positions
    let mut aj: usize = 0;
    while aj < sorted2.len()
        invariant
            0 <= aj <= sorted2@.len(),
            apply_headings(doc@, pruned, aj as int, idx) == apply_headings(
                doc_r,
                pruned,
                0,
                idx_r,
            ),
        decreases sorted2@.len() - aj,
    {
        let hd = &sorted2[aj].1;
        let segs = match hd {
            Heading::Complete(pp) => pp,
            Heading::Next(pp) => pp,
        };
        proof {
            assert(view_heading(sorted2@[aj as int].1) == pruned[aj as int].1);
            assert(segs.deep_view() == heading_path(pruned[aj as int].1));
        }
        let ghost dprev = doc@;
        let ghost iprev = idx;
        let rr = set_pos_at(doc, segs, 0, idx);
        doc = rr.0;
        if rr.1 {
            idx = sat_add(idx, 1);
        }
        let ghost aj0 = aj as int;
        aj = aj + 1;
        proof {
            if !path_resolves(dprev, heading_path(pruned[aj0].1), 0) {
                lemma_set_pos_unresolved(dprev, heading_path(pruned[aj0].1), 0, iprev);
            }
            assert(apply_headings(dprev, pruned, aj0, iprev) == apply_headings(
                doc@,
                pruned,
                aj as int,
                idx,
            ));
        }
    }
    (doc, idx)
}

/// Positions a literal top-level table (or array of tables) of this name and
/// everything beneath it.
#[verifier::loop_isolation(false)]
fn apply_literal_exec(doc: Table, idx: usize, h: &String) -> (r: (Table, usize))
    ensures
        (r.0@, r.1) == apply_literal(doc@, h@, idx),
{
    let ghost hv = h@;
    let ghost idx_in = idx;
    let mut doc = doc;
    let mut idx = idx;
    match find_entry_index(&doc, h) {
        Option::Some(j) => {
            let ghost dv = doc@;
            let ghost pre = doc.entries@;
            proof {
                lemma_view_entries(pre);
                assert(dv.entries == view_entries(pre));
                assert(j < pre.len());
                assert(dv.entries[j as int] == view_entry(pre[j as int]));
            }
            let e = doc.entries.remove(j);
            let ghost e0 = e;
            proof {
                assert(e0 == pre[j as int]);
                assert(view_entry(e0) == dv.entries[j as int]);
            }
            let Entry { key: ek, key_decor: ed, item } = e;
            match item {
                Item::Tbl(inner) => {
                    proof {
                        assert(view_entry(e0).item->Tbl_0 == inner@);
                    }
                    let rw = walk_tbl_at_exec(inner, idx, sat_add(idx, 1));
                    doc.entries.insert(j, Entry { key: ek, key_decor: ed, item: Item::Tbl(rw.0) });
                    idx = rw.1;
                    proof {
                        lemma_view_entries(doc.entries@);
                        assert(doc@.entries =~= dv.entries.update(
                            j as int,
                            EntryV {
                                key: dv.entries[j as int].key,
                                key_decor: dv.entries[j as int].key_decor,
                                item: ItemV::Tbl(walk_tbl_at(inner@, idx_in, sat(idx_in + 1)).0),
                            },
                        ));
                        assert((doc@, idx) =~= apply_literal(dv, hv, idx_in));
                    }
                },
                Item::TblArr(tbls) => {
                    proof {
                        assert(view_entry(e0).item->TblArr_0 == view_tables(tbls@));
                    }
                    let rw = walk_tables_exec(tbls, idx);
                    doc.entries.insert(
                        j,
                        Entry { key: ek, key_decor: ed, item: Item::TblArr(rw.0) },
                    );
                    idx = rw.1;
                    proof {
                        lemma_view_entries(doc.entries@);
                        assert(doc@.entries =~= dv.entries.update(
                            j as int,
                            EntryV {
                                key: dv.entries[j as int].key,
                                key_decor: dv.entries[j as int].key_decor,
                                item: ItemV::TblArr(
                                    walk_tables(view_entry(e0).item->TblArr_0, idx_in).0,
                                ),
                            },
                        ));
                        assert((doc@, idx) =~= apply_literal(dv, hv, idx_in));
                    }
                },
                other => {
                    doc.entries.insert(j, Entry { key: ek, key_decor: ed, item: other });
                    proof {
                        lemma_view_entries(doc.entries@);
                        assert(doc@.entries =~= dv.entries);
                        assert(doc@ =~= dv);
                        assert((doc@, idx) =~= apply_literal(dv, hv, idx_in));
                    }
                },
            }
        },
        Option::None => {
            proof {
                assert((doc@, idx) =~= apply_literal(doc@, hv, idx_in));
            }
        },
    }
    (doc, idx)
}

/// One name of the ordering list.
#[verifier::loop_isolation(false)]
#[verifier::rlimit(100)]
fn ordering_step_exec(
    doc: Table,
    idx: usize,
    h: &String,
    heading_order: &Vec<HeadingRecord>,
) -> (r: (Table, usize))
    ensures
        (r.0@, r.1) == ordering_step(doc@, view_records(heading_order@), h@, idx),
{
    let ghost rsv = view_records(heading_order@);
    let ghost hv = h@;
    let ghost doc_in = doc@;
    let ghost idx_in = idx;
    let mut doc = doc;
    let mut idx = idx;
    // collect the matching records
    let mut sel: Vec<(SortKey, usize)> = Vec::new();
    let mut ri: usize = 0;
    proof {
        assert(rsv.len() == heading_order@.len());
        assert(view_pairs(sel@) + selected_pairs(rsv, hv, 0) =~= selected_pairs(rsv, hv, 0));
    }
    while ri < heading_order.len()
        invariant
            0 <= ri <= heading_order@.len(),
            view_pairs(sel@) + selected_pairs(rsv, hv, ri as int) == selected_pairs(rsv, hv, 0),
        decreases heading_order@.len() - ri,
    {
        let rec = &heading_order[ri];
        proof {
            assert(rsv[ri as int] == heading_order@[ri as int]@);
        }
        let ghost sel0 = view_pairs(sel@);
        if record_matches_exec(rec, h) {
            let key = SortKey::TextPair(extract_exec(&rec.headings, h), rec.name.clone());
            sel.push((key, ri));
            proof {
                assert(view_pairs(sel@) =~= sel0 + seq![
                    (
                        SortKeyV::TextPair(
                            extract_spec(rsv[ri as int].headings, hv),
                            rsv[ri as int].name,
                        ),
                        ri as usize,
                    ),
                ]);
            }
        }
        ri = ri + 1;
        proof {
            assert(view_pairs(sel@) + selected_pairs(rsv, hv, ri as int) =~= selected_pairs(
                rsv,
                hv,
                0,
            ));
        }
    }
    proof {
        assert(selected_pairs(rsv, hv, rsv.len() as int) =~= Seq::<(SortKeyV, usize)>::empty());
        assert(view_pairs(sel@) =~= selected_pairs(rsv, hv, 0));
    }
    let sorted = sort_pairs(sel);
    let ghost sortedv = view_pairs(sorted@);
    proof {
        assert(sortedv == sort_spec(selected_pairs(rsv, hv, 0)));
        lemma_sort_sorted(selected_pairs(rsv, hv, 0));
    }
    if sorted.len() > 0 {
        // position the selected records' headings
        let mut sj: usize = 0;
        while sj < sorted.len()
            invariant
                0 <= sj <= sorted@.len(),
                apply_records(doc@, rsv, sortedv, sj as int, idx, hv) == apply_records(
                    doc_in,
                    rsv,
                    sortedv,
                    0,
                    idx_in,
                    hv,
                ),
            decreases sorted@.len() - sj,
        {
            let rj = sorted[sj].1;
            proof {
                assert(sortedv[sj as int].1 == sorted@[sj as int].1);
            }
            let ghost doc_r = doc@;
            let ghost idx_r = idx;
            if rj < heading_order.len() {
                let rec = &heading_order[rj];
                proof {
                    assert(rsv[rj as int] == heading_order@[rj as int]@);
                }
                let rr = apply_record_exec(doc, idx, rec, h);
                doc = rr.0;
                idx = rr.1;
            }
            let ghost sj0 = sj as int;
            sj = sj + 1;
            proof {
                assert(apply_records(doc_r, rsv, sortedv, sj0, idx_r, hv) == apply_records(
                    doc@,
                    rsv,
                    sortedv,
                    sj as int,
                    idx,
                    hv,
                ));
            }
        }
        proof {
            assert(apply_records(doc@, rsv, sortedv, sorted@.len() as int, idx, hv) == (
                doc@,
                idx,
            ));
            assert(ordering_step(doc_in, rsv, hv, idx_in) == (doc@, idx));
        }
        (doc, idx)
    } else {
        let rl = apply_literal_exec(doc, idx, h);
        proof {
            assert(ordering_step(doc_in, rsv, hv, idx_in) == (rl.0@, rl.1));
        }
        rl
    }
}

/// Applies the custom-ordering policy.
#[verifier::loop_isolation(false)]
pub fn sort_by_ordering(
    ordering: &Vec<String>,
    heading_order: &Vec<HeadingRecord>,
    doc: Table,
) -> (r: Table)
    ensures
        r@ == sort_by_ordering_spec(
            doc@,
            view_records(heading_order@),
            ordering.deep_view(),
            0,
            0,
        ),
{
    let ghost rsv = view_records(heading_order@);
    let ghost ov = ordering.deep_view();
    let mut doc = doc;
    let ghost doc0 = doc@;
    let mut idx: usize = 0;
    let mut i: usize = 0;
    while i < ordering.len()
        invariant
            0 <= i <= ordering@.len(),
            sort_by_ordering_spec(doc@, rsv, ov, i as int, idx) == sort_by_ordering_spec(
                doc0,
                rsv,
                ov,
                0,
                0,
            ),
        decreases ordering@.len() - i,
    {
        let h = &ordering[i];
        let ghost hv = ov[i as int];
        proof {
            assert(hv == ordering@[i as int]@);
        }
        let ghost doc_in = doc@;
        let ghost idx_in = idx;
        let rs = ordering_step_exec(doc, idx, h, heading_order);
        doc = rs.0;
        idx = rs.1;
        i = i + 1;
        proof {
            assert(sort_by_ordering_spec(doc_in, rsv, ov, i - 1, idx_in) == sort_by_ordering_spec(
                doc@,
                rsv,
                ov,
                i as int,
                idx,
            ));
        }
    }
    doc
}

} // verus!
