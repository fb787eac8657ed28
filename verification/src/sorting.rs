//! A stable sort shared by every reordering step of the engine.
//!
//! The entries to sort are (key, payload) pairs; `sort_spec` is insertion
//! sort at the specification level — each element is placed after every
//! element already holding a key at or below its own, so equal keys keep
//! their original relative order. The executable sort is proved to return
//! exactly `sort_spec` of its input.

use vstd::prelude::*;
use crate::order::{
    str_leq, path_leq, lemma_str_leq_total, lemma_str_leq_trans, lemma_str_leq_antisym,
    lemma_path_leq_total, lemma_path_leq_trans, str_leq_exec, path_leq_exec,
};

verus! {

/// A sort key: plain text, a text pair ordered by first then second
/// component, or a heading (completed flag, then path).
pub enum SortKey {
    Text(String),
    TextPair(String, String),
    PathKey(bool, Vec<String>),
}

/// Mathematical mirror of `SortKey`.
pub enum SortKeyV {
    Text(Seq<char>),
    TextPair(Seq<char>, Seq<char>),
    PathKey(bool, Seq<Seq<char>>),
}

impl View for SortKey {
    type V = SortKeyV;

    open spec fn view(&self) -> SortKeyV {
        match self {
            SortKey::Text(s) => SortKeyV::Text(s@),
            SortKey::TextPair(s, t) => SortKeyV::TextPair(s@, t@),
            SortKey::PathKey(c, p) => SortKeyV::PathKey(*c, p.deep_view()),
        }
    }
}

pub open spec fn key_rank(k: SortKeyV) -> int {
    match k {
        SortKeyV::Text(_) => 0,
        SortKeyV::TextPair(_, _) => 1,
        SortKeyV::PathKey(_, _) => 2,
    }
}

/// The total order on sort keys.
pub open spec fn key_leq(a: SortKeyV, b: SortKeyV) -> bool {
    match (a, b) {
        (SortKeyV::Text(x), SortKeyV::Text(y)) => str_leq(x, y),
        (SortKeyV::TextPair(x1, x2), SortKeyV::TextPair(y1, y2)) => if x1 == y1 {
            str_leq(x2, y2)
        } else {
            str_leq(x1, y1)
        },
        (SortKeyV::PathKey(c1, p1), SortKeyV::PathKey(c2, p2)) => if c1 == c2 {
            path_leq(p1, p2)
        } else {
            !c1
        },
        _ => key_rank(a) < key_rank(b),
    }
}

/// Any two keys are comparable.
pub proof fn lemma_key_leq_total(a: SortKeyV, b: SortKeyV)
    ensures
        key_leq(a, b) || key_leq(b, a),
{
    match (a, b) {
        (SortKeyV::Text(x), SortKeyV::Text(y)) => lemma_str_leq_total(x, y),
        (SortKeyV::TextPair(x1, x2), SortKeyV::TextPair(y1, y2)) => {
            lemma_str_leq_total(x1, y1);
            lemma_str_leq_total(x2, y2);
        },
        (SortKeyV::PathKey(c1, p1), SortKeyV::PathKey(c2, p2)) => {
            lemma_path_leq_total(p1, p2);
        },
        _ => {},
    }
}

/// The key order is transitive.
pub proof fn lemma_key_leq_trans(a: SortKeyV, b: SortKeyV, c: SortKeyV)
    requires
        key_leq(a, b),
        key_leq(b, c),
    ensures
        key_leq(a, c),
{
    match (a, b, c) {
        (SortKeyV::Text(x), SortKeyV::Text(y), SortKeyV::Text(z)) => {
            lemma_str_leq_trans(x, y, z);
        },
        (
            SortKeyV::TextPair(x1, x2),
            SortKeyV::TextPair(y1, y2),
            SortKeyV::TextPair(z1, z2),
        ) => {
            if x1 == y1 && y1 == z1 {
                lemma_str_leq_trans(x2, y2, z2);
            } else if x1 == y1 || y1 == z1 {
            } else {
                lemma_str_leq_trans(x1, y1, z1);
                if x1 == z1 {
                    lemma_str_leq_total(x1, y1);
                    if str_leq(y1, x1) {
                        lemma_str_leq_antisym(x1, y1);
                    }
                }
            }
        },
        (SortKeyV::PathKey(c1, p1), SortKeyV::PathKey(c2, p2), SortKeyV::PathKey(c3, p3)) => {
            if c1 == c2 && c2 == c3 {
                lemma_path_leq_trans(p1, p2, p3);
            }
        },
        _ => {},
    }
}

/// Compares two keys; true when `a` is at or before `b`.
pub fn key_leq_exec(a: &SortKey, b: &SortKey) -> (r: bool)
    ensures
        r == key_leq(a@, b@),
{
    match (a, b) {
        (SortKey::Text(x), SortKey::Text(y)) => str_leq_exec(x.as_str(), y.as_str()),
        (SortKey::TextPair(x1, x2), SortKey::TextPair(y1, y2)) => {
            if x1.eq(y1) {
                str_leq_exec(x2.as_str(), y2.as_str())
            } else {
                str_leq_exec(x1.as_str(), y1.as_str())
            }
        },
        (SortKey::PathKey(c1, p1), SortKey::PathKey(c2, p2)) => {
            if *c1 == *c2 {
                path_leq_exec(p1, p2)
            } else {
                !*c1
            }
        },
        (SortKey::Text(_), _) => true,
        (SortKey::TextPair(_, _), SortKey::PathKey(_, _)) => true,
        (SortKey::TextPair(_, _), SortKey::Text(_)) => false,
        (SortKey::PathKey(_, _), _) => false,
    }
}

/// The view of a sequence of (key, payload) pairs: keys viewed, payloads kept.
pub open spec fn view_pairs<T>(s: Seq<(SortKey, T)>) -> Seq<(SortKeyV, T)> {
    Seq::new(s.len(), |i: int| (s[i].0@, s[i].1))
}

/// Inserts `x` after every element whose key is at or below `x`'s key.
pub open spec fn insert_pair<T>(s: Seq<(SortKeyV, T)>, x: (SortKeyV, T)) -> Seq<(SortKeyV, T)>
    decreases s.len(),
{
    if s.len() == 0 {
        seq![x]
    } else if key_leq(s.last().0, x.0) {
        s.push(x)
    } else {
        insert_pair(s.drop_last(), x).push(s.last())
    }
}

/// The stable sort: insert the elements one by one, in their original order.
pub open spec fn sort_spec<T>(s: Seq<(SortKeyV, T)>) -> Seq<(SortKeyV, T)>
    decreases s.len(),
{
    if s.len() == 0 {
        s
    } else {
        insert_pair(sort_spec(s.drop_last()), s.last())
    }
}

/// Keys appear in nondecreasing order.
pub open spec fn sorted_pairs<T>(s: Seq<(SortKeyV, T)>) -> bool {
    forall|i: int, j: int| 0 <= i < j < s.len() ==> key_leq(#[trigger] s[i].0, #[trigger] s[j].0)
}

/// Where an element lands: if everything from `p` on refuses `x`'s key and
/// the element before `p` (if any) accepts it, `x` is inserted at `p`.
pub proof fn lemma_insert_at<T>(s: Seq<(SortKeyV, T)>, x: (SortKeyV, T), p: int)
    requires
        0 <= p <= s.len(),
        forall|j: int| p <= j < s.len() ==> !key_leq(#[trigger] s[j].0, x.0),
        p > 0 ==> key_leq(s[p - 1].0, x.0),
    ensures
        insert_pair(s, x) == s.subrange(0, p).push(x) + s.subrange(p, s.len() as int),
    decreases s.len(),
{
    if s.len() == 0 {
        assert(insert_pair(s, x) =~= s.subrange(0, p).push(x) + s.subrange(p, s.len() as int));
    } else if key_leq(s.last().0, x.0) {
        assert(p == s.len());
        assert(s.subrange(0, p) =~= s);
        assert(insert_pair(s, x) =~= s.subrange(0, p).push(x) + s.subrange(p, s.len() as int));
    } else {
        assert(p < s.len());
        let dl = s.drop_last();
        assert(forall|j: int| p <= j < dl.len() ==> !key_leq(#[trigger] dl[j].0, x.0));
        if p > 0 {
            assert(dl[p - 1] == s[p - 1]);
        }
        lemma_insert_at(dl, x, p);
        assert(insert_pair(s, x) =~= s.subrange(0, p).push(x) + s.subrange(
            p,
            s.len() as int,
        )) by {
            assert(dl.subrange(0, p) =~= s.subrange(0, p));
            assert(dl.subrange(p, dl.len() as int) =~= s.subrange(p, s.len() as int - 1));
        }
    }
}

/// Inserting keeps a sequence sorted.
pub proof fn lemma_insert_sorted<T>(s: Seq<(SortKeyV, T)>, x: (SortKeyV, T))
    requires
        sorted_pairs(s),
    ensures
        sorted_pairs(insert_pair(s, x)),
        insert_pair(s, x).len() == s.len() + 1,
    decreases s.len(),
{
    if s.len() == 0 {
    } else if key_leq(s.last().0, x.0) {
        let r = s.push(x);
        assert forall|i: int, j: int| 0 <= i < j < r.len() implies key_leq(r[i].0, r[j].0) by {
            if j == r.len() - 1 {
                if i < s.len() - 1 {
                    lemma_key_leq_trans(s[i].0, s.last().0, x.0);
                }
            }
        }
    } else {
        let dl = s.drop_last();
        lemma_insert_sorted(dl, x);
        let ri = insert_pair(dl, x);
        let r = ri.push(s.last());
        // every element of ri is below s.last()
        let p = insert_position(dl, x);
        lemma_insert_position(dl, x);
        lemma_insert_at(dl, x, p);
        assert forall|i: int, j: int| 0 <= i < j < r.len() implies key_leq(r[i].0, r[j].0) by {
            if j == r.len() - 1 {
                // r[i] is either x or an element of dl, both below s.last()
                if i == p {
                    assert(r[i] == x);
                    lemma_key_leq_total(x.0, s.last().0);
                } else if i < p {
                    assert(dl[i] == r[i]);
                    assert(key_leq(s[i].0, s.last().0));
                } else {
                    assert(dl[i - 1] == r[i]);
                    assert(key_leq(s[i - 1].0, s.last().0));
                }
            }
        }
    }
}

/// The position `insert_pair` puts a new element at.
pub open spec fn insert_position<T>(s: Seq<(SortKeyV, T)>, x: (SortKeyV, T)) -> int
    decreases s.len(),
{
    if s.len() == 0 {
        0
    } else if key_leq(s.last().0, x.0) {
        s.len() as int
    } else {
        insert_position(s.drop_last(), x)
    }
}

pub proof fn lemma_insert_position<T>(s: Seq<(SortKeyV, T)>, x: (SortKeyV, T))
    ensures
        0 <= insert_position(s, x) <= s.len(),
        forall|j: int|
            insert_position(s, x) <= j < s.len() ==> !key_leq(#[trigger] s[j].0, x.0),
        insert_position(s, x) > 0 ==> key_leq(s[insert_position(s, x) - 1].0, x.0),
    decreases s.len(),
{
    if s.len() == 0 {
    } else if key_leq(s.last().0, x.0) {
    } else {
        let dl = s.drop_last();
        lemma_insert_position(dl, x);
        let p = insert_position(s, x);
        assert(p == insert_position(dl, x));
        assert forall|j: int| p <= j < s.len() implies !key_leq(#[trigger] s[j].0, x.0) by {
            if j < s.len() - 1 {
                assert(dl[j] == s[j]);
            }
        }
        if p > 0 {
            assert(dl[p - 1] == s[p - 1]);
        }
    }
}

/// The sort returns a sorted sequence.
pub proof fn lemma_sort_sorted<T>(s: Seq<(SortKeyV, T)>)
    ensures
        sorted_pairs(sort_spec(s)),
        sort_spec(s).len() == s.len(),
    decreases s.len(),
{
    if s.len() > 0 {
        lemma_sort_sorted(s.drop_last());
        lemma_insert_sorted(sort_spec(s.drop_last()), s.last());
    }
}

/// Sorting a sorted sequence returns it unchanged: the sort is idempotent.
pub proof fn lemma_sort_of_sorted_id<T>(s: Seq<(SortKeyV, T)>)
    requires
        sorted_pairs(s),
    ensures
        sort_spec(s) == s,
    decreases s.len(),
{
    if s.len() > 0 {
        let dl = s.drop_last();
        assert(sorted_pairs(dl)) by {
            assert(forall|j: int| 0 <= j < dl.len() ==> dl[j] == #[trigger] s[j]);
        }
        lemma_sort_of_sorted_id(dl);
        if dl.len() == 0 {
            assert(sort_spec(s) =~= s);
        } else {
            assert(key_leq(dl.last().0, s.last().0)) by {
                assert(dl.last() == s[s.len() - 2]);
            }
            assert(sort_spec(s) =~= s);
        }
    }
}

/// Sorting preserves the elements: the result carries the same multiset.
pub proof fn lemma_sort_multiset<T>(s: Seq<(SortKeyV, T)>)
    ensures
        sort_spec(s).to_multiset() == s.to_multiset(),
    decreases s.len(),
{
    broadcast use vstd::seq_lib::group_to_multiset_ensures;

    if s.len() > 0 {
        let dl = s.drop_last();
        lemma_sort_multiset(dl);
        let sd = sort_spec(dl);
        let p = insert_position(sd, s.last());
        lemma_insert_position(sd, s.last());
        lemma_insert_at(sd, s.last(), p);
        let r = sd.subrange(0, p).push(s.last()) + sd.subrange(p, sd.len() as int);
        assert(r.to_multiset() == sd.to_multiset().insert(s.last())) by {
            vstd::seq_lib::lemma_multiset_commutative(
                sd.subrange(0, p).push(s.last()),
                sd.subrange(p, sd.len() as int),
            );
            vstd::seq_lib::lemma_multiset_commutative(
                sd.subrange(0, p),
                sd.subrange(p, sd.len() as int),
            );
            assert(sd.subrange(0, p) + sd.subrange(p, sd.len() as int) =~= sd);
            assert(sd.subrange(0, p).push(s.last()).to_multiset() =~= sd.subrange(
                0,
                p,
            ).to_multiset().insert(s.last()));
            assert(r.to_multiset() =~= sd.to_multiset().insert(s.last()));
        }
        assert(s.to_multiset() == dl.to_multiset().insert(s.last())) by {
            assert(dl.push(s.last()) =~= s);
        }
    }
}

/// The payloads of a pair sequence, in order.
pub open spec fn payloads<T>(s: Seq<(SortKeyV, T)>) -> Seq<T> {
    Seq::new(s.len(), |i: int| s[i].1)
}

/// Keys of a pair sequence with the payloads mapped through `f`.
pub open spec fn map_payload<T, U>(s: Seq<(SortKeyV, T)>, f: spec_fn(T) -> U) -> Seq<
    (SortKeyV, U),
> {
    Seq::new(s.len(), |i: int| (s[i].0, f(s[i].1)))
}

pub proof fn lemma_insert_payload_map<T, U>(
    s: Seq<(SortKeyV, T)>,
    x: (SortKeyV, T),
    f: spec_fn(T) -> U,
)
    ensures
        insert_pair(map_payload(s, f), (x.0, f(x.1))) == map_payload(insert_pair(s, x), f),
    decreases s.len(),
{
    let m = map_payload(s, f);
    if s.len() == 0 {
        assert(insert_pair(m, (x.0, f(x.1))) =~= map_payload(insert_pair(s, x), f));
    } else if key_leq(s.last().0, x.0) {
        assert(m.last().0 == s.last().0);
        assert(insert_pair(m, (x.0, f(x.1))) =~= map_payload(insert_pair(s, x), f));
    } else {
        assert(m.last().0 == s.last().0);
        lemma_insert_payload_map(s.drop_last(), x, f);
        assert(map_payload(s.drop_last(), f) =~= m.drop_last());
        assert(insert_pair(m, (x.0, f(x.1))) =~= map_payload(insert_pair(s, x), f));
    }
}

/// Sorting commutes with mapping the payloads: the order is fixed by the keys.
pub proof fn lemma_sort_payload_map<T, U>(s: Seq<(SortKeyV, T)>, f: spec_fn(T) -> U)
    ensures
        sort_spec(map_payload(s, f)) == map_payload(sort_spec(s), f),
    decreases s.len(),
{
    let m = map_payload(s, f);
    if s.len() == 0 {
        assert(sort_spec(m) =~= map_payload(sort_spec(s), f));
    } else {
        lemma_sort_payload_map(s.drop_last(), f);
        assert(map_payload(s.drop_last(), f) =~= m.drop_last());
        assert(m.last() == (s.last().0, f(s.last().1)));
        lemma_insert_payload_map(sort_spec(s.drop_last()), s.last(), f);
    }
}

/// The executable stable sort: returns exactly `sort_spec` of its input.
pub fn sort_pairs<T>(v: Vec<(SortKey, T)>) -> (r: Vec<(SortKey, T)>)
    ensures
        view_pairs(r@) == sort_spec(view_pairs(v@)),
{
    let ghost orig = view_pairs(v@);
    let mut rest = v;
    let mut out: Vec<(SortKey, T)> = Vec::new();
    let ghost k: int = 0;
    proof {
        assert(view_pairs(rest@) =~= orig.subrange(k, orig.len() as int));
        assert(view_pairs(out@) =~= sort_spec(orig.subrange(0, k)));
    }
    while rest.len() > 0
        invariant
            0 <= k <= orig.len(),
            rest@.len() == orig.len() - k,
            view_pairs(rest@) == orig.subrange(k, orig.len() as int),
            view_pairs(out@) == sort_spec(orig.subrange(0, k)),
        decreases rest@.len(),
    {
        let ghost rest0 = rest@;
        let x = rest.remove(0);
        proof {
            assert(rest@ =~= rest0.subrange(1, rest0.len() as int));
            assert((x.0@, x.1) == orig[k]) by {
                assert(view_pairs(rest0)[0] == orig.subrange(k, orig.len() as int)[0]);
            }
        }
        let ghost sd = view_pairs(out@);
        // find the insertion point: skip the maximal suffix refusing x's key
        let mut j = out.len();
        loop
            invariant
                0 <= j <= out@.len(),
                sd == view_pairs(out@),
                sd.len() == out@.len(),
                forall|jj: int| j <= jj < out@.len() ==> !key_leq(#[trigger] sd[jj].0, x.0@),
            ensures
                0 <= j <= sd.len(),
                forall|jj: int| j <= jj < sd.len() ==> !key_leq(#[trigger] sd[jj].0, x.0@),
                j > 0 ==> key_leq(sd[j - 1].0, x.0@),
            decreases j,
        {
            if j == 0 {
                break;
            }
            if key_leq_exec(&out[j - 1].0, &x.0) {
                break;
            }
            j = j - 1;
        }
        proof {
            lemma_insert_at(sd, (x.0@, x.1), j as int);
        }
        out.insert(j, x);
        proof {
            assert(view_pairs(out@) =~= sd.subrange(0, j as int).push((x.0@, x.1)) + sd.subrange(
                j as int,
                sd.len() as int,
            ));
            assert(orig.subrange(0, k + 1).drop_last() =~= orig.subrange(0, k));
            assert(orig.subrange(0, k + 1).last() == orig[k]);
            k = k + 1;
            assert forall|i: int|
                0 <= i < rest@.len() implies view_pairs(rest@)[i] == orig.subrange(
                k,
                orig.len() as int,
            )[i] by {
                assert(rest@[i] == rest0[i + 1]);
                assert(view_pairs(rest0)[i + 1] == orig.subrange(k - 1, orig.len() as int)[i + 1]);
            }
            assert(view_pairs(rest@) =~= orig.subrange(k, orig.len() as int));
        }
    }
    proof {
        assert(orig.subrange(0, k) =~= orig);
    }
    out
}

} // verus!
