//! The orders the engine sorts by: code-point-lexicographic order on strings,
//! element-wise order on key paths, and the composite sort keys the call
//! sites use.

use vstd::prelude::*;

verus! {

/// Lexicographic "less or equal" on character sequences, by code point.
pub open spec fn str_leq(a: Seq<char>, b: Seq<char>) -> bool
    decreases a.len(),
{
    if a.len() == 0 {
        true
    } else if b.len() == 0 {
        false
    } else if a[0] == b[0] {
        str_leq(a.subrange(1, a.len() as int), b.subrange(1, b.len() as int))
    } else {
        (a[0] as int) < (b[0] as int)
    }
}

/// Lexicographic "less or equal" on key paths, comparing segment by segment.
pub open spec fn path_leq(a: Seq<Seq<char>>, b: Seq<Seq<char>>) -> bool
    decreases a.len(),
{
    if a.len() == 0 {
        true
    } else if b.len() == 0 {
        false
    } else if a[0] == b[0] {
        path_leq(a.subrange(1, a.len() as int), b.subrange(1, b.len() as int))
    } else {
        str_leq(a[0], b[0])
    }
}

/// Any two strings are comparable.
pub proof fn lemma_str_leq_total(a: Seq<char>, b: Seq<char>)
    ensures
        str_leq(a, b) || str_leq(b, a),
    decreases a.len(),
{
    if a.len() > 0 && b.len() > 0 {
        if a[0] == b[0] {
            lemma_str_leq_total(a.subrange(1, a.len() as int), b.subrange(1, b.len() as int));
        } else {
            assert((a[0] as int) != (b[0] as int));
        }
    }
}

/// Two strings below each other are equal.
pub proof fn lemma_str_leq_antisym(a: Seq<char>, b: Seq<char>)
    requires
        str_leq(a, b),
        str_leq(b, a),
    ensures
        a == b,
    decreases a.len(),
{
    if a.len() == 0 {
        assert(b.len() == 0);
        assert(a =~= b);
    } else {
        assert(b.len() > 0);
        assert(a[0] == b[0]);
        lemma_str_leq_antisym(a.subrange(1, a.len() as int), b.subrange(1, b.len() as int));
        assert(a =~= b) by {
            assert(forall|i: int|
                1 <= i < a.len() ==> a[i] == a.subrange(1, a.len() as int)[i - 1]);
        }
    }
}

/// String order is transitive.
pub proof fn lemma_str_leq_trans(a: Seq<char>, b: Seq<char>, c: Seq<char>)
    requires
        str_leq(a, b),
        str_leq(b, c),
    ensures
        str_leq(a, c),
    decreases a.len(),
{
    if a.len() > 0 && b.len() > 0 && c.len() > 0 {
        if a[0] == b[0] && b[0] == c[0] {
            lemma_str_leq_trans(
                a.subrange(1, a.len() as int),
                b.subrange(1, b.len() as int),
                c.subrange(1, c.len() as int),
            );
        }
    }
}

/// Any two paths are comparable.
pub proof fn lemma_path_leq_total(a: Seq<Seq<char>>, b: Seq<Seq<char>>)
    ensures
        path_leq(a, b) || path_leq(b, a),
    decreases a.len(),
{
    if a.len() > 0 && b.len() > 0 {
        if a[0] == b[0] {
            lemma_path_leq_total(a.subrange(1, a.len() as int), b.subrange(1, b.len() as int));
        } else {
            lemma_str_leq_total(a[0], b[0]);
            if str_leq(a[0], b[0]) && str_leq(b[0], a[0]) {
                lemma_str_leq_antisym(a[0], b[0]);
            }
        }
    }
}

/// Path order is transitive.
pub proof fn lemma_path_leq_trans(a: Seq<Seq<char>>, b: Seq<Seq<char>>, c: Seq<Seq<char>>)
    requires
        path_leq(a, b),
        path_leq(b, c),
    ensures
        path_leq(a, c),
    decreases a.len(),
{
    if a.len() > 0 && b.len() > 0 && c.len() > 0 {
        if a[0] == b[0] && b[0] == c[0] {
            lemma_path_leq_trans(
                a.subrange(1, a.len() as int),
                b.subrange(1, b.len() as int),
                c.subrange(1, c.len() as int),
            );
        } else if a[0] == b[0] {
            // a[0] == b[0], b[0] != c[0]: str_leq(b[0], c[0]) decides a vs c
        } else if b[0] == c[0] {
            // a[0] != b[0] == c[0]
        } else {
            // all heads distinct: need strict transitivity of str_leq
            lemma_str_leq_trans(a[0], b[0], c[0]);
            if a[0] == c[0] {
                // then str_leq(a[0], b[0]) and str_leq(b[0], a[0]) would force a[0] == b[0]
                lemma_str_leq_total(a[0], b[0]);
                if str_leq(b[0], a[0]) {
                    lemma_str_leq_antisym(a[0], b[0]);
                }
            }
        }
    }
}

/// Compares two strings; true when `a` is at or before `b` in code-point order.
pub fn str_leq_exec(a: &str, b: &str) -> (r: bool)
    ensures
        r == str_leq(a@, b@),
{
    let a_len = a.unicode_len();
    let b_len = b.unicode_len();
    let mut i: usize = 0;
    proof {
        assert(a@.subrange(0, a@.len() as int) =~= a@);
        assert(b@.subrange(0, b@.len() as int) =~= b@);
    }
    loop
        invariant
            i <= a_len,
            i <= b_len,
            a_len == a@.len(),
            b_len == b@.len(),
            str_leq(a@, b@) == str_leq(a@.subrange(i as int, a@.len() as int),
                b@.subrange(i as int, b@.len() as int)),
        decreases a_len - i,
    {
        if i == a_len {
            assert(a@.subrange(i as int, a@.len() as int).len() == 0);
            return true;
        }
        if i == b_len {
            assert(b@.subrange(i as int, b@.len() as int).len() == 0);
            assert(a@.subrange(i as int, a@.len() as int).len() > 0);
            return false;
        }
        let ca = a.get_char(i);
        let cb = b.get_char(i);
        proof {
            let sa = a@.subrange(i as int, a@.len() as int);
            let sb = b@.subrange(i as int, b@.len() as int);
            assert(sa[0] == a@[i as int]);
            assert(sb[0] == b@[i as int]);
            if ca == cb {
                assert(sa.subrange(1, sa.len() as int)
                    =~= a@.subrange(i + 1int, a@.len() as int));
                assert(sb.subrange(1, sb.len() as int)
                    =~= b@.subrange(i + 1int, b@.len() as int));
            }
        }
        if ca != cb {
            return (ca as u32) < (cb as u32);
        }
        i = i + 1;
    }
}

/// Compares two key paths; true when `a` is at or before `b`.
pub fn path_leq_exec(a: &Vec<String>, b: &Vec<String>) -> (r: bool)
    ensures
        r == path_leq(a.deep_view(), b.deep_view()),
{
    let mut i: usize = 0;
    proof {
        assert(a.deep_view().subrange(0, a@.len() as int) =~= a.deep_view());
        assert(b.deep_view().subrange(0, b@.len() as int) =~= b.deep_view());
    }
    loop
        invariant
            i <= a.len(),
            i <= b.len(),
            path_leq(a.deep_view(), b.deep_view()) == path_leq(
                a.deep_view().subrange(i as int, a@.len() as int),
                b.deep_view().subrange(i as int, b@.len() as int),
            ),
        decreases a.len() - i,
    {
        let ghost sa = a.deep_view().subrange(i as int, a@.len() as int);
        let ghost sb = b.deep_view().subrange(i as int, b@.len() as int);
        if i == a.len() {
            assert(sa.len() == 0);
            return true;
        }
        if i == b.len() {
            assert(sb.len() == 0);
            assert(sa.len() > 0);
            return false;
        }
        proof {
            assert(sa[0] == a.deep_view()[i as int]);
            assert(sb[0] == b.deep_view()[i as int]);
            assert(a.deep_view()[i as int] == a@[i as int]@);
            assert(b.deep_view()[i as int] == b@[i as int]@);
        }
        let eq = a[i] == b[i];
        proof {
            if sa[0] == sb[0] {
                assert(sa.subrange(1, sa.len() as int)
                    =~= a.deep_view().subrange(i + 1int, a@.len() as int));
                assert(sb.subrange(1, sb.len() as int)
                    =~= b.deep_view().subrange(i + 1int, b@.len() as int));
            }
        }
        if !eq {
            return str_leq_exec(a[i].as_str(), b[i].as_str());
        }
        i = i + 1;
    }
}

} // verus!
