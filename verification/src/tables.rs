//! Sorting of arrays and of table entries: the array sorter, the plain
//! (ungrouped) table sorter, the grouped table sorter that respects
//! blank-line-delimited groups, and sorting of a nested table reached by a
//! key path.

use vstd::prelude::*;
use crate::model::{
    Decor, Val, Arr, Entry, Table, Item, DecorV, ValV, ArrV, EntryV, TableV, ItemV,
    view_decor, view_val, view_arr, view_entry, view_table, view_item, view_entries,
    view_entries_vec, lemma_view_entries,
};
use crate::sorting::{
    SortKey, SortKeyV, sort_spec, sort_pairs, view_pairs, payloads, map_payload,
    lemma_sort_payload_map, lemma_sort_sorted, lemma_sort_multiset,
};

verus! {

/// The sort key of a table entry: its key text.
pub open spec fn entry_key_pairs(s: Seq<EntryV>) -> Seq<(SortKeyV, EntryV)> {
    Seq::new(s.len(), |i: int| (SortKeyV::Text(s[i].key), s[i]))
}

/// Table entries sorted by key, stably.
pub open spec fn sort_entries_spec(s: Seq<EntryV>) -> Seq<EntryV> {
    payloads(sort_spec(entry_key_pairs(s)))
}

/// The text an array element is compared by: the content of a string value.
pub open spec fn val_text(v: ValV) -> Seq<char> {
    match v {
        ValV::Str { text, decor } => text,
        ValV::Other { repr, decor } => Seq::empty(),
    }
}

pub open spec fn val_key_pairs(s: Seq<ValV>) -> Seq<(SortKeyV, ValV)> {
    Seq::new(s.len(), |i: int| (SortKeyV::Text(val_text(s[i])), s[i]))
}

/// Array elements sorted by string content, stably.
pub open spec fn sort_vals_spec(s: Seq<ValV>) -> Seq<ValV> {
    payloads(sort_spec(val_key_pairs(s)))
}

/// Every element of the array is a string.
pub open spec fn all_strings(s: Seq<ValV>) -> bool {
    forall|i: int| 0 <= i < s.len() ==> (#[trigger] s[i]) is Str
}

/// What the array sorter does: a homogeneous string array is sorted, any
/// other array is left exactly as it was; the trailing text and the
/// trailing-comma flag are preserved either way.
pub open spec fn sort_array_spec(a: ArrV) -> ArrV {
    if all_strings(a.items) {
        ArrV { items: sort_vals_spec(a.items), trailing: a.trailing, trailing_comma: a.trailing_comma }
    } else {
        a
    }
}

/// Sorts table entries by key.
pub fn sort_entries(v: Vec<Entry>) -> (r: Vec<Entry>)
    ensures
        view_entries(r@) == sort_entries_spec(view_entries(v@)),
        r@.len() == v@.len(),
{
    let ghost orig = v@;
    let mut pairs: Vec<(SortKey, Entry)> = Vec::new();
    let mut rest = v;
    proof {
        assert(rest@ =~= orig.subrange(pairs@.len() as int, orig.len() as int));
    }
    while rest.len() > 0
        invariant
            pairs@.len() + rest@.len() == orig.len(),
            rest@ == orig.subrange(pairs@.len() as int, orig.len() as int),
            forall|i: int|
                0 <= i < pairs@.len() ==> (#[trigger] pairs@[i]).1 == orig[i] && pairs@[i].0@
                    == SortKeyV::Text(orig[i].key@),
        decreases rest@.len(),
    {
        let ghost r0 = rest@;
        let e = rest.remove(0);
        proof {
            assert(e == orig[pairs@.len() as int]);
        }
        let k = SortKey::Text(e.key.clone());
        pairs.push((k, e));
        proof {
            assert(rest@ =~= orig.subrange(pairs@.len() as int, orig.len() as int));
        }
    }
    let sorted = sort_pairs(pairs);
    let ghost sorted_v = view_pairs(sorted@);
    let mut r: Vec<Entry> = Vec::new();
    let mut srest = sorted;
    while srest.len() > 0
        invariant
            r@.len() + srest@.len() == sorted_v.len(),
            forall|i: int| 0 <= i < r@.len() ==> #[trigger] r@[i] == sorted_v[i].1,
            forall|i: int|
                0 <= i < srest@.len() ==> (#[trigger] srest@[i]).1 == sorted_v[r@.len() + i].1,
        decreases srest@.len(),
    {
        let ghost s0 = srest@;
        let p = srest.remove(0);
        r.push(p.1);
        proof {
            assert(forall|i: int| 0 <= i < srest@.len() ==> srest@[i] == #[trigger] s0[i + 1]);
        }
    }
    proof {
        lemma_view_entries(orig);
        lemma_view_entries(r@);
        let f = |e: Entry| view_entry(e);
        // the view of the built pairs is the raw key pairs of the original
        let raw = Seq::new(orig.len(), |i: int| (SortKeyV::Text(orig[i].key@), orig[i]));
        assert(view_pairs(pairs@) =~= raw);
        assert(entry_key_pairs(view_entries(orig)) =~= map_payload(raw, f));
        lemma_sort_payload_map(raw, f);
        lemma_sort_sorted(raw);
        assert(sorted_v == sort_spec(raw));
        assert(view_entries(r@) =~= sort_entries_spec(view_entries(orig)));
    }
    r
}

/// Sorts array elements by string content.
pub fn sort_vals(v: Vec<Val>) -> (r: Vec<Val>)
    ensures
        view_vals(r@) == sort_vals_spec(view_vals(v@)),
        r@.len() == v@.len(),
{
    let ghost orig = v@;
    let mut pairs: Vec<(SortKey, Val)> = Vec::new();
    let mut rest = v;
    proof {
        assert(rest@ =~= orig.subrange(pairs@.len() as int, orig.len() as int));
    }
    while rest.len() > 0
        invariant
            pairs@.len() + rest@.len() == orig.len(),
            rest@ == orig.subrange(pairs@.len() as int, orig.len() as int),
            forall|i: int|
                0 <= i < pairs@.len() ==> (#[trigger] pairs@[i]).1 == orig[i] && pairs@[i].0@
                    == SortKeyV::Text(val_text(view_val(orig[i]))),
        decreases rest@.len(),
    {
        let e = rest.remove(0);
        proof {
            assert(e == orig[pairs@.len() as int]);
        }
        let k = match &e {
            Val::Str { text, decor } => SortKey::Text(text.clone()),
            Val::Other { repr, decor } => SortKey::Text(String::new()),
        };
        pairs.push((k, e));
        proof {
            assert(rest@ =~= orig.subrange(pairs@.len() as int, orig.len() as int));
        }
    }
    let sorted = sort_pairs(pairs);
    let ghost sorted_v = view_pairs(sorted@);
    let mut r: Vec<Val> = Vec::new();
    let mut srest = sorted;
    while srest.len() > 0
        invariant
            r@.len() + srest@.len() == sorted_v.len(),
            forall|i: int| 0 <= i < r@.len() ==> #[trigger] r@[i] == sorted_v[i].1,
            forall|i: int|
                0 <= i < srest@.len() ==> (#[trigger] srest@[i]).1 == sorted_v[r@.len() + i].1,
        decreases srest@.len(),
    {
        let ghost s0 = srest@;
        let p = srest.remove(0);
        r.push(p.1);
        proof {
            assert(forall|i: int| 0 <= i < srest@.len() ==> srest@[i] == #[trigger] s0[i + 1]);
        }
    }
    proof {
        let f = |x: Val| view_val(x);
        let raw = Seq::new(orig.len(), |i: int| (SortKeyV::Text(val_text(view_val(orig[i]))), orig[i]));
        assert(view_pairs(pairs@) =~= raw);
        assert(val_key_pairs(view_vals(orig)) =~= map_payload(raw, f));
        lemma_sort_payload_map(raw, f);
        lemma_sort_sorted(raw);
        assert(sorted_v == sort_spec(raw));
        assert(view_vals(r@) =~= sort_vals_spec(view_vals(orig)));
    }
    r
}

/// The view of a sequence of array elements.
pub open spec fn view_vals(s: Seq<Val>) -> Seq<ValV> {
    Seq::new(s.len(), |i: int| view_val(s[i]))
}

/// The array sorter: sorts a homogeneous string array, leaves any other
/// array untouched, and preserves the trailing decoration either way.
pub fn sort_array(a: Arr) -> (r: Arr)
    ensures
        r@ == sort_array_spec(a@),
{
    let Arr { items, trailing, trailing_comma } = a;
    let ghost orig = items@;
    proof {
        assert(view_arr(Arr { items, trailing, trailing_comma }).items =~= view_vals(items@));
    }
    let mut all_str = true;
    let mut i: usize = 0;
    while i < items.len()
        invariant
            0 <= i <= items@.len(),
            items@ == orig,
            all_str == forall|j: int| 0 <= j < i ==> (#[trigger] view_vals(orig)[j]) is Str,
        decreases items@.len() - i,
    {
        let is_str = match &items[i] {
            Val::Str { text, decor } => true,
            Val::Other { repr, decor } => false,
        };
        proof {
            assert(view_vals(orig)[i as int] == view_val(orig[i as int]));
        }
        all_str = all_str && is_str;
        i = i + 1;
    }
    if all_str {
        let sorted = sort_vals(items);
        let r = Arr { items: sorted, trailing, trailing_comma };
        proof {
            assert(all_strings(view_vals(orig)));
            assert(r@.items =~= view_vals(sorted@));
            assert(r@ == sort_array_spec(ArrV {
                items: view_vals(orig),
                trailing: r@.trailing,
                trailing_comma: trailing_comma,
            }));
        }
        r
    } else {
        let r = Arr { items, trailing, trailing_comma };
        proof {
            assert(!all_strings(view_vals(orig)));
        }
        r
    }
}

/// Sorting already-sorted entries changes nothing: the table sorter is
/// idempotent, which is the heart of the engine's no-op-on-sorted-input
/// behaviour.
pub proof fn lemma_sort_entries_idempotent(s: Seq<EntryV>)
    ensures
        sort_entries_spec(sort_entries_spec(s)) == sort_entries_spec(s),
{
    broadcast use vstd::seq_lib::group_to_multiset_ensures;

    let p = entry_key_pairs(s);
    let sp = sort_spec(p);
    lemma_sort_sorted(p);
    lemma_sort_multiset(p);
    // every element of the sorted pair list still carries its own key
    assert forall|i: int| 0 <= i < sp.len() implies (#[trigger] sp[i]).0 == SortKeyV::Text(
        sp[i].1.key,
    ) by {
        assert(sp.to_multiset().count(sp[i]) > 0);
        assert(p.to_multiset().count(sp[i]) > 0);
        assert(p.contains(sp[i]));
        let j = choose|j: int| 0 <= j < p.len() && p[j] == sp[i];
        assert(p[j].0 == SortKeyV::Text(p[j].1.key));
    }
    assert(entry_key_pairs(payloads(sp)) =~= sp);
    crate::sorting::lemma_sort_of_sorted_id(sp);
}

/// Decoration rendered by default: nothing recorded.
pub open spec fn default_decor() -> DecorV {
    DecorV { prefix: Option::None, suffix: Option::None }
}

pub open spec fn decor_prefix_or_empty(d: DecorV) -> Seq<char> {
    match d.prefix {
        Option::Some(p) => p,
        Option::None => Seq::empty(),
    }
}

/// The prefix text holds a line that is not a comment line: a blank line, or
/// any line whose first character is not `#`. Such a prefix opens a new group.
pub open spec fn is_group_boundary(s: Seq<char>) -> bool {
    exists|p: int| 0 <= p < s.len() && (p == 0 || s[p - 1] == '\n') && (#[trigger] s[p]) != '#'
}

/// The prefix that decides whether an entry opens a group: for a dotted
/// sub-table the decoration of its first inner key, else the key's own.
pub open spec fn entry_group_prefix(e: EntryV) -> Seq<char> {
    match e.item {
        ItemV::Tbl(t) => if t.dotted && t.entries.len() > 0 {
            decor_prefix_or_empty(t.entries[0].key_decor)
        } else {
            decor_prefix_or_empty(e.key_decor)
        },
        _ => decor_prefix_or_empty(e.key_decor),
    }
}

pub open spec fn entry_is_boundary(e: EntryV) -> bool {
    is_group_boundary(entry_group_prefix(e))
}

/// How many entries the run starting at the front covers: everything up to,
/// and not including, the next boundary entry.
pub open spec fn first_run_len(s: Seq<EntryV>) -> int
    decreases s.len(),
{
    if s.len() <= 1 {
        s.len() as int
    } else if entry_is_boundary(s[1]) {
        1
    } else {
        1 + first_run_len(s.drop_first())
    }
}

pub proof fn lemma_first_run_len(s: Seq<EntryV>)
    requires
        s.len() > 0,
    ensures
        1 <= first_run_len(s) <= s.len(),
        forall|j: int| 1 <= j < first_run_len(s) ==> !entry_is_boundary(#[trigger] s[j]),
        first_run_len(s) < s.len() ==> entry_is_boundary(s[first_run_len(s)]),
    decreases s.len(),
{
    if s.len() > 1 && !entry_is_boundary(s[1]) {
        let dl = s.drop_first();
        lemma_first_run_len(dl);
        assert forall|j: int| 1 <= j < first_run_len(s) implies !entry_is_boundary(
            #[trigger] s[j],
        ) by {
            if j >= 2 {
                assert(dl[j - 1] == s[j]);
            }
        }
        if first_run_len(s) < s.len() {
            assert(dl[first_run_len(dl)] == s[first_run_len(s)]);
        }
    }
}

pub open spec fn with_key_decor(e: EntryV, d: DecorV) -> EntryV {
    EntryV { key: e.key, key_decor: d, item: e.item }
}

/// Sorts one run. A run opened by a boundary entry lends that entry's key
/// decoration to whichever entry comes first after sorting; the original
/// first entry is left with default decoration.
pub open spec fn process_run(r: Seq<EntryV>) -> Seq<EntryV> {
    if r.len() > 0 && entry_is_boundary(r[0]) {
        let d = r[0].key_decor;
        let stripped = r.update(0, with_key_decor(r[0], default_decor()));
        let sorted = sort_entries_spec(stripped);
        if sorted.len() > 0 {
            sorted.update(0, with_key_decor(sorted[0], d))
        } else {
            sorted
        }
    } else {
        sort_entries_spec(r)
    }
}

/// The grouped table sorter: entries split into blank-line-delimited runs,
/// each run sorted by key on its own, runs kept in first-appearance order.
pub open spec fn sort_by_group_spec(s: Seq<EntryV>) -> Seq<EntryV>
    decreases s.len(),
{
    if s.len() == 0 {
        s
    } else {
        let n = first_run_len(s);
        if 1 <= n <= s.len() {
            process_run(s.subrange(0, n)) + sort_by_group_spec(s.subrange(n, s.len() as int))
        } else {
            s
        }
    }
}

/// What the table sorter does: entries sorted by key, group by group when
/// asked; everything else about the table is untouched.
pub open spec fn sort_table_spec(t: TableV, group: bool) -> TableV {
    TableV {
        entries: if group {
            sort_by_group_spec(t.entries)
        } else {
            sort_entries_spec(t.entries)
        },
        implicit: t.implicit,
        dotted: t.dotted,
        position: t.position,
        decor: t.decor,
    }
}

/// Scans a prefix text for a line that is not a comment line.
#[verifier::rlimit(50)]
fn prefix_has_boundary(s: &str) -> (r: bool)
    ensures
        r == is_group_boundary(s@),
{
    let n = s.unicode_len();
    let mut i: usize = 0;
    while i < n
        invariant
            0 <= i <= n,
            n == s@.len(),
            forall|p: int| 0 <= p < i ==> !((p == 0 || s@[p - 1] == '\n') && (#[trigger] s@[p]) != '#'),
        decreases n - i,
    {
        let c = s.get_char(i);
        let at_start = if i == 0 {
            true
        } else {
            s.get_char(i - 1) == '\n'
        };
        if at_start && c != '#' {
            proof {
                assert((i as int == 0 || s@[i as int - 1] == '\n') && s@[i as int] != '#');
            }
            return true;
        }
        i = i + 1;
    }
    false
}

fn decor_boundary(d: &Decor) -> (r: bool)
    ensures
        r == is_group_boundary(decor_prefix_or_empty(view_decor(*d))),
{
    match &d.prefix {
        Option::Some(s) => prefix_has_boundary(s.as_str()),
        Option::None => {
            proof {
                assert(decor_prefix_or_empty(view_decor(*d)).len() == 0);
            }
            false
        },
    }
}

/// Does this entry open a new group?
fn entry_boundary(e: &Entry) -> (r: bool)
    ensures
        r == entry_is_boundary(view_entry(*e)),
{
    match &e.item {
        Item::Tbl(t) => {
            if t.dotted && t.entries.len() > 0 {
                proof {
                    lemma_view_entries(t.entries@);
                    assert(view_table(*t).entries[0] == view_entry(t.entries@[0]));
                }
                decor_boundary(&t.entries[0].key_decor)
            } else {
                proof {
                    lemma_view_entries(t.entries@);
                }
                decor_boundary(&e.key_decor)
            }
        },
        _ => decor_boundary(&e.key_decor),
    }
}

/// Sorts table entries group by group.
pub fn sort_by_group(v: Vec<Entry>) -> (r: Vec<Entry>)
    ensures
        view_entries(r@) == sort_by_group_spec(view_entries(v@)),
{
    let ghost orig = view_entries(v@);
    let mut rest = v;
    let mut out: Vec<Entry> = Vec::new();
    proof {
        lemma_view_entries(rest@);
        assert(view_entries(out@) + sort_by_group_spec(view_entries(rest@))
            =~= sort_by_group_spec(orig));
    }
    loop
        invariant
            view_entries(out@) + sort_by_group_spec(view_entries(rest@)) == sort_by_group_spec(
                orig,
            ),
        ensures
            rest@.len() == 0,
            view_entries(out@) + sort_by_group_spec(view_entries(rest@)) == sort_by_group_spec(
                orig,
            ),
        decreases rest@.len(),
    {
        if rest.len() == 0 {
            break;
        }
        let ghost rv = view_entries(rest@);
        proof {
            lemma_view_entries(rest@);
            lemma_first_run_len(rv);
        }
        // measure the first run
        let mut n: usize = 1;
        loop
            invariant
                1 <= n <= rest@.len(),
                rv == view_entries(rest@),
                rv.len() == rest@.len(),
                forall|j: int| 1 <= j < n ==> !entry_is_boundary(#[trigger] rv[j]),
            ensures
                1 <= n <= rv.len(),
                forall|j: int| 1 <= j < n ==> !entry_is_boundary(#[trigger] rv[j]),
                n < rv.len() ==> entry_is_boundary(rv[n as int]),
            decreases rest@.len() - n,
        {
            if n == rest.len() {
                break;
            }
            proof {
                lemma_view_entries(rest@);
            }
            if entry_boundary(&rest[n]) {
                break;
            }
            n = n + 1;
        }
        proof {
            // the scan found exactly the first run length
            let f = first_run_len(rv);
            if n < f {
                assert(entry_is_boundary(rv[n as int]));
                assert(!entry_is_boundary(rv[n as int]));
            }
            if f < n {
                assert(entry_is_boundary(rv[f]));
                assert(!entry_is_boundary(rv[f]));
            }
            assert(n == f);
        }
        // split the run off
        let mut run: Vec<Entry> = Vec::new();
        let ghost rest0 = rest@;
        let mut k: usize = 0;
        while k < n
            invariant
                0 <= k <= n,
                n <= rest0.len(),
                run@.len() == k,
                rest@.len() == rest0.len() - k,
                run@ == rest0.subrange(0, k as int),
                rest@ == rest0.subrange(k as int, rest0.len() as int),
            decreases n - k,
        {
            let ghost rprev = rest@;
            let e = rest.remove(0);
            run.push(e);
            k = k + 1;
            proof {
                assert(run@ =~= rest0.subrange(0, k as int));
                assert(rest@ =~= rest0.subrange(k as int, rest0.len() as int));
            }
        }
        proof {
            lemma_view_entries(run@);
            lemma_view_entries(rest0);
            assert(view_entries(run@) =~= rv.subrange(0, n as int));
            lemma_view_entries(rest@);
            assert(view_entries(rest@) =~= rv.subrange(n as int, rv.len() as int));
        }
        let ghost runv = view_entries(run@);
        // process the run
        let b0 = entry_boundary(&run[0]);
        proof {
            lemma_view_entries(run@);
            assert(view_entries(run@)[0] == view_entry(run@[0]));
        }
        let mut processed: Vec<Entry>;
        if b0 {
            let e0 = run.remove(0);
            let Entry { key, key_decor, item } = e0;
            let d = key_decor;
            run.insert(
                0,
                Entry { key, key_decor: Decor { prefix: Option::None, suffix: Option::None }, item },
            );
            proof {
                lemma_view_entries(run@);
                assert(view_entries(run@) =~= runv.update(
                    0,
                    with_key_decor(runv[0], default_decor()),
                ));
            }
            let mut sorted = sort_entries(run);
            let ghost pre = sorted@;
            let s0 = sorted.remove(0);
            let Entry { key: k2, key_decor: _old_d, item: it2 } = s0;
            sorted.insert(0, Entry { key: k2, key_decor: d, item: it2 });
            processed = sorted;
            proof {
                lemma_view_entries(pre);
                lemma_view_entries(processed@);
                assert(forall|i: int|
                    1 <= i < processed@.len() ==> processed@[i] == #[trigger] pre[i]);
                assert(view_entries(processed@) =~= process_run(runv));
            }
        } else {
            processed = sort_entries(run);
            proof {
                assert(view_entries(processed@) == process_run(runv));
            }
        }
        let ghost out0 = out@;
        let ghost proc0 = processed@;
        out.append(&mut processed);
        proof {
            lemma_view_entries(out@);
            lemma_view_entries(out0);
            lemma_view_entries(proc0);
            assert(view_entries(proc0) == process_run(runv));
            assert(out@ == out0 + proc0);
            assert(view_entries(out@) =~= view_entries(out0) + process_run(runv));
            assert(sort_by_group_spec(rv) == process_run(rv.subrange(0, n as int))
                + sort_by_group_spec(rv.subrange(n as int, rv.len() as int)));
            assert(view_entries(out@) + sort_by_group_spec(view_entries(rest@))
                =~= sort_by_group_spec(orig));
        }
    }
    proof {
        assert(view_entries(rest@) =~= Seq::<EntryV>::empty());
        assert(sort_by_group_spec(view_entries(rest@)) =~= Seq::<EntryV>::empty());
        assert(view_entries(out@) =~= sort_by_group_spec(orig));
    }
    out
}

/// The index of the first entry holding this key, or -1.
pub open spec fn find_key(s: Seq<EntryV>, k: Seq<char>) -> int
    decreases s.len(),
{
    if s.len() == 0 {
        -1
    } else if s[0].key == k {
        0
    } else {
        let r = find_key(s.drop_first(), k);
        if r < 0 {
            -1
        } else {
            r + 1
        }
    }
}

pub proof fn lemma_find_key(s: Seq<EntryV>, k: Seq<char>)
    ensures
        find_key(s, k) >= 0 ==> find_key(s, k) < s.len() && s[find_key(s, k)].key == k,
        forall|j: int| 0 <= j < find_key(s, k) ==> (#[trigger] s[j]).key != k,
        find_key(s, k) < 0 ==> forall|j: int| 0 <= j < s.len() ==> (#[trigger] s[j]).key != k,
    decreases s.len(),
{
    if s.len() > 0 && s[0].key != k {
        let dl = s.drop_first();
        lemma_find_key(dl, k);
        assert(forall|j: int| 0 <= j < dl.len() ==> #[trigger] dl[j] == s[j + 1]);
        assert forall|j: int| 0 <= j < find_key(s, k) implies (#[trigger] s[j]).key != k by {
            if j >= 1 {
                assert(dl[j - 1] == s[j]);
            }
        }
        if find_key(s, k) < 0 {
            assert forall|j: int| 0 <= j < s.len() implies (#[trigger] s[j]).key != k by {
                if j >= 1 {
                    assert(dl[j - 1] == s[j]);
                }
            }
        }
    }
}

/// Sorting a nested table reached by a key path: walk the path; when it ends,
/// sort that table's entries (always ungrouped); a segment that is missing or
/// does not lead to a table leaves the tree unchanged.
pub open spec fn sort_table_by_path_spec(t: TableV, path: Seq<Seq<char>>) -> TableV
    decreases path.len(),
{
    if path.len() == 0 {
        TableV {
            entries: sort_entries_spec(t.entries),
            implicit: t.implicit,
            dotted: t.dotted,
            position: t.position,
            decor: t.decor,
        }
    } else {
        let j = find_key(t.entries, path[0]);
        if j >= 0 && j < t.entries.len() && t.entries[j].item is Tbl {
            let inner = t.entries[j].item->Tbl_0;
            let sorted = sort_table_by_path_spec(inner, path.drop_first());
            TableV {
                entries: t.entries.update(
                    j,
                    EntryV {
                        key: t.entries[j].key,
                        key_decor: t.entries[j].key_decor,
                        item: ItemV::Tbl(sorted),
                    },
                ),
                implicit: t.implicit,
                dotted: t.dotted,
                position: t.position,
                decor: t.decor,
            }
        } else {
            t
        }
    }
}

/// Walks `path` from index `i` on and sorts the table it leads to.
pub fn sort_table_by_path(t: Table, path: &Vec<String>, i: usize) -> (r: Table)
    requires
        i <= path@.len(),
    ensures
        r@ == sort_table_by_path_spec(
            t@,
            path.deep_view().subrange(i as int, path.deep_view().len() as int),
        ),
    decreases path@.len() - i,
{
    let ghost sub = path.deep_view().subrange(i as int, path.deep_view().len() as int);
    if i == path.len() {
        let Table { entries, implicit, dotted, position, decor } = t;
        let sorted = sort_entries(entries);
        let r = Table { entries: sorted, implicit, dotted, position, decor };
        proof {
            assert(sub.len() == 0);
            assert(r@ =~= sort_table_by_path_spec(t@, sub));
        }
        r
    } else {
        let ghost tv = t@;
        let ghost key = sub[0];
        proof {
            assert(path.deep_view()[i as int] == path@[i as int]@);
            lemma_view_entries(t.entries@);
            lemma_find_key(tv.entries, key);
        }
        // find the entry the first segment names
        let mut j: usize = 0;
        let mut found = false;
        loop
            invariant
                0 <= j <= t.entries@.len(),
                tv == t@,
                tv.entries.len() == t.entries@.len(),
                key == path.deep_view()[i as int],
                key == path@[i as int]@,
                i < path@.len(),
                !found ==> forall|jj: int|
                    0 <= jj < j ==> (#[trigger] tv.entries[jj]).key != key,
                found ==> j < tv.entries.len() && tv.entries[j as int].key == key
                    && forall|jj: int| 0 <= jj < j ==> (#[trigger] tv.entries[jj]).key != key,
            ensures
                found ==> j as int == find_key(tv.entries, key),
                !found ==> find_key(tv.entries, key) < 0,
            decreases t.entries@.len() - j + (if found { 0int } else { 1int }),
        {
            if found {
                proof {
                    lemma_find_key(tv.entries, key);
                    let f = find_key(tv.entries, key);
                    if f < j as int {
                        assert(tv.entries[f].key == key);
                    }
                    if f > j as int {
                        assert(tv.entries[j as int].key != key);
                    }
                }
                break;
            }
            if j == t.entries.len() {
                proof {
                    lemma_find_key(tv.entries, key);
                    if find_key(tv.entries, key) >= 0 {
                        assert(tv.entries[find_key(tv.entries, key)].key == key);
                    }
                }
                break;
            }
            proof {
                lemma_view_entries(t.entries@);
                assert(tv.entries[j as int] == view_entry(t.entries@[j as int]));
            }
            if t.entries[j].key.eq(&path[i]) {
                found = true;
            } else {
                j = j + 1;
            }
        }
        if !found {
            proof {
                assert(t@ =~= sort_table_by_path_spec(t@, sub));
            }
            return t;
        }
        let mut t = t;
        let e = t.entries.remove(j);
        let ghost e0 = e;
        let Entry { key: ek, key_decor: ed, item } = e;
        match item {
            Item::Tbl(inner) => {
                proof {
                    assert(view_entry(e0).item is Tbl);
                    assert(view_entry(e0).item->Tbl_0 == inner@);
                    assert(sub.drop_first() =~= path.deep_view().subrange(
                        i + 1int,
                        path.deep_view().len() as int,
                    ));
                }
                let sorted = sort_table_by_path(inner, path, i + 1);
                t.entries.insert(j, Entry { key: ek, key_decor: ed, item: Item::Tbl(sorted) });
                proof {
                    lemma_view_entries(t.entries@);
                    assert(t@.entries =~= tv.entries.update(
                        j as int,
                        EntryV {
                            key: tv.entries[j as int].key,
                            key_decor: tv.entries[j as int].key_decor,
                            item: ItemV::Tbl(sort_table_by_path_spec(inner@, sub.drop_first())),
                        },
                    ));
                    assert(t@ =~= sort_table_by_path_spec(tv, sub));
                }
                t
            },
            other => {
                t.entries.insert(j, Entry { key: ek, key_decor: ed, item: other });
                proof {
                    lemma_view_entries(t.entries@);
                    assert(t@.entries =~= tv.entries);
                    assert(t@ =~= sort_table_by_path_spec(tv, sub));
                }
                t
            },
        }
    }
}

/// Sorts every nested table the gathered paths point at. The first segment
/// of each path names the top-level table itself and is skipped.
pub open spec fn sort_nested_spec(t: TableV, paths: Seq<Seq<Seq<char>>>, i: int) -> TableV
    decreases paths.len() - i,
{
    if i < 0 || i >= paths.len() {
        t
    } else {
        let t2 = if paths[i].len() > 1 {
            sort_table_by_path_spec(t, paths[i].drop_first())
        } else {
            t
        };
        sort_nested_spec(t2, paths, i + 1)
    }
}

/// Sorts each located conditional table beneath this table.
pub fn sort_nested_table(t: Table, paths: &Vec<Vec<String>>) -> (r: Table)
    ensures
        r@ == sort_nested_spec(t@, paths.deep_view(), 0),
{
    let ghost pv = paths.deep_view();
    let mut cur = t;
    let mut i: usize = 0;
    proof {
        assert(pv.len() == paths@.len());
    }
    while i < paths.len()
        invariant
            0 <= i <= paths@.len(),
            pv == paths.deep_view(),
            pv.len() == paths@.len(),
            sort_nested_spec(t@, pv, 0) == sort_nested_spec(cur@, pv, i as int),
        decreases paths@.len() - i,
    {
        proof {
            assert(pv[i as int] == paths@[i as int].deep_view());
        }
        if paths[i].len() > 1 {
            let ghost before = cur@;
            let next = sort_table_by_path(cur, &paths[i], 1);
            proof {
                assert(paths@[i as int].deep_view().subrange(
                    1,
                    paths@[i as int].deep_view().len() as int,
                ) =~= pv[i as int].drop_first());
            }
            cur = next;
        }
        i = i + 1;
    }
    cur
}

/// The table sorter: by key over all entries, or group by group.
pub fn sort_table(t: Table, group: bool) -> (r: Table)
    ensures
        r@ == sort_table_spec(t@, group),
{
    let Table { entries, implicit, dotted, position, decor } = t;
    let sorted = if group {
        sort_by_group(entries)
    } else {
        sort_entries(entries)
    };
    let r = Table { entries: sorted, implicit, dotted, position, decor };
    proof {
        assert(r@ =~= sort_table_spec(t@, group));
    }
    r
}

} // verus!
