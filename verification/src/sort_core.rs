use vstd::prelude::*;

use crate::bytes::{lemma_lex_le_total, lemma_lex_le_trans, lex_le};

verus! {

/// No element from position `i` on compares at or below `b` under `key`.
/// The entries are in key order throughout.
pub open spec fn sorted_by<A>(s: Seq<A>, key: spec_fn(A) -> Seq<u8>) -> bool {
    forall|i: int, j: int| 0 <= i < j < s.len() ==> lex_le(key(#[trigger] s[i]), key(#[trigger] s[j]))
}

/// Insert `e` after every element whose key compares at or below `e`'s key:
/// the insertion step of a stable sort.
pub open spec fn insert_sorted<A>(s: Seq<A>, e: A, key: spec_fn(A) -> Seq<u8>) -> Seq<A>
    decreases s.len(),
{
    if s.len() == 0 {
        seq![e]
    } else if lex_le(key(s.last()), key(e)) {
        s.push(e)
    } else {
        insert_sorted(s.drop_last(), e, key).push(s.last())
    }
}

/// Stable insertion sort by `key`: ties keep their original order.
pub open spec fn stable_sort<A>(s: Seq<A>, key: spec_fn(A) -> Seq<u8>) -> Seq<A>
    decreases s.len(),
{
    if s.len() == 0 {
        s
    } else {
        insert_sorted(stable_sort(s.drop_last(), key), s.last(), key)
    }
}

/// The predicate selecting elements whose key is exactly `kk`.
pub open spec fn key_eq<A>(key: spec_fn(A) -> Seq<u8>, kk: Seq<u8>) -> spec_fn(A) -> bool {
    |x: A| key(x) == kk
}

/// Where `insert_sorted` puts the new element: after all elements up to `p`,
/// which compare at or below it, and before all from `p` on, which compare
/// strictly above it.
pub proof fn lemma_insert_pos<A>(s: Seq<A>, e: A, key: spec_fn(A) -> Seq<u8>) -> (p: int)
    ensures
        0 <= p <= s.len(),
        insert_sorted(s, e, key) == s.take(p) + seq![e] + s.skip(p),
        forall|k: int| p <= k < s.len() ==> !lex_le(key(#[trigger] s[k]), key(e)),
        p > 0 ==> lex_le(key(s[p - 1]), key(e)),
    decreases s.len(),
{
    if s.len() == 0 {
        assert(insert_sorted(s, e, key) =~= s.take(0) + seq![e] + s.skip(0));
        0
    } else if lex_le(key(s.last()), key(e)) {
        assert(s.push(e) =~= s.take(s.len() as int) + seq![e] + s.skip(s.len() as int));
        s.len() as int
    } else {
        let p = lemma_insert_pos(s.drop_last(), e, key);
        assert(s.drop_last().take(p) =~= s.take(p));
        assert((s.drop_last().take(p) + seq![e] + s.drop_last().skip(p)).push(s.last()) =~= s.take(
            p,
        ) + seq![e] + s.skip(p));
        assert forall|k: int| p <= k < s.len() implies !lex_le(key(#[trigger] s[k]), key(e)) by {
            if k < s.len() - 1 {
                assert(s.drop_last()[k] == s[k]);
            }
        }
        if p > 0 {
            assert(s.drop_last()[p - 1] == s[p - 1]);
        }
        p
    }
}

/// Inserting adds exactly the new element: the contents are preserved as a
/// multiset.
pub proof fn lemma_insert_multiset<A>(s: Seq<A>, e: A, key: spec_fn(A) -> Seq<u8>)
    ensures
        insert_sorted(s, e, key).to_multiset() == s.to_multiset().insert(e),
    decreases s.len(),
{
    if s.len() == 0 {
        Seq::<A>::empty().to_multiset_ensures();
        assert(insert_sorted(s, e, key) =~= Seq::<A>::empty().push(e));
        assert(s =~= Seq::<A>::empty());
    } else if lex_le(key(s.last()), key(e)) {
        s.to_multiset_ensures();
    } else {
        let dl = s.drop_last();
        let t0 = insert_sorted(dl, e, key);
        lemma_insert_multiset(dl, e, key);
        t0.to_multiset_ensures();
        dl.to_multiset_ensures();
        assert(s =~= dl.push(s.last()));
        assert(dl.to_multiset().insert(e).insert(s.last()) =~= dl.to_multiset().insert(
            s.last(),
        ).insert(e));
    }
}

/// Inserting into an ordered run keeps it ordered.
pub proof fn lemma_insert_keeps_sorted<A>(s: Seq<A>, e: A, key: spec_fn(A) -> Seq<u8>)
    requires
        sorted_by(s, key),
    ensures
        sorted_by(insert_sorted(s, e, key), key),
{
    let p = lemma_insert_pos(s, e, key);
    let t = insert_sorted(s, e, key);
    assert forall|i: int, j: int|
        0 <= i < j < t.len() implies lex_le(key(#[trigger] t[i]), key(#[trigger] t[j])) by {
        if i < p {
            assert(t[i] == s[i]);
        } else if i == p {
            assert(t[i] == e);
        } else {
            assert(t[i] == s[i - 1]);
        }
        if j < p {
            assert(t[j] == s[j]);
        } else if j == p {
            assert(t[j] == e);
        } else {
            assert(t[j] == s[j - 1]);
        }
        if j == p {
            // t[i] = s[i] with i < p: s[i] <= s[p-1] <= e
            if i < p - 1 {
                lemma_lex_le_trans(key(s[i]), key(s[p - 1]), key(e));
            }
        } else if i == p {
            // e before s[j-1], j-1 >= p: s[j-1] > e, so e <= s[j-1] by totality
            lemma_lex_le_total(key(s[j - 1]), key(e));
        }
    }
}

/// Among the elements with any one key, inserting appends the new element
/// at the end when its key matches, and changes nothing when it does not:
/// the insertion is stable.
#[verifier::rlimit(100)]
pub proof fn lemma_insert_filter<A>(s: Seq<A>, e: A, key: spec_fn(A) -> Seq<u8>, kk: Seq<u8>)
    ensures
        insert_sorted(s, e, key).filter(key_eq(key, kk)) == if key(e) == kk {
            s.filter(key_eq(key, kk)).push(e)
        } else {
            s.filter(key_eq(key, kk))
        },
{
    let pred = key_eq(key, kk);
    let p = lemma_insert_pos(s, e, key);
    let t = insert_sorted(s, e, key);
    let a = s.take(p);
    let b = s.skip(p);
    assert(t =~= (a + seq![e]) + b);
    Seq::filter_distributes_over_add(a + seq![e], b, pred);
    Seq::filter_distributes_over_add(a, seq![e], pred);
    assert(s =~= a + b);
    Seq::filter_distributes_over_add(a, b, pred);
    assert(seq![e].filter(pred) =~= if pred(e) {
        seq![e]
    } else {
        Seq::<A>::empty()
    }) by {
        reveal_with_fuel(Seq::filter, 3);
        assert(seq![e].drop_last() =~= Seq::<A>::empty());
        assert(seq![e].last() == e);
        assert(Seq::<A>::empty().filter(pred) =~= Seq::<A>::empty());
    }
    if key(e) == kk {
        // no element from p on carries key kk, so that side filters to nothing
        assert forall|i: int| 0 <= i < b.len() implies !pred(#[trigger] b[i]) by {
            assert(b[i] == s[p + i]);
            lemma_lex_le_total(key(s[p + i]), key(e));
        }
        b.lemma_all_neg_filter_empty(pred);
        assert(t.filter(pred) =~= s.filter(pred).push(e));
    } else {
        assert(t.filter(pred) =~= s.filter(pred));
    }
}

/// A stable sort returns a permutation (same multiset), in key order.
pub proof fn lemma_sort_props<A>(s: Seq<A>, key: spec_fn(A) -> Seq<u8>)
    ensures
        stable_sort(s, key).len() == s.len(),
        stable_sort(s, key).to_multiset() == s.to_multiset(),
        sorted_by(stable_sort(s, key), key),
    decreases s.len(),
{
    if s.len() == 0 {
    } else {
        let dl = s.drop_last();
        lemma_sort_props(dl, key);
        lemma_insert_multiset(stable_sort(dl, key), s.last(), key);
        lemma_insert_keeps_sorted(stable_sort(dl, key), s.last(), key);
        let p = lemma_insert_pos(stable_sort(dl, key), s.last(), key);
        dl.to_multiset_ensures();
        assert(s =~= dl.push(s.last()));
    }
}

/// A stable sort keeps the relative order of elements that share a key:
/// filtering by any one key gives the same run before and after sorting.
pub proof fn lemma_sort_stable<A>(s: Seq<A>, key: spec_fn(A) -> Seq<u8>, kk: Seq<u8>)
    ensures
        stable_sort(s, key).filter(key_eq(key, kk)) == s.filter(key_eq(key, kk)),
    decreases s.len(),
{
    let pred = key_eq(key, kk);
    if s.len() == 0 {
    } else {
        let dl = s.drop_last();
        lemma_sort_stable(dl, key, kk);
        lemma_insert_filter(stable_sort(dl, key), s.last(), key, kk);
        assert(s.filter(pred) =~= if pred(s.last()) {
            dl.filter(pred).push(s.last())
        } else {
            dl.filter(pred)
        }) by {
            reveal(Seq::filter);
        }
    }
}

/// Sorting an already ordered run changes nothing.
pub proof fn lemma_sorted_id<A>(s: Seq<A>, key: spec_fn(A) -> Seq<u8>)
    requires
        sorted_by(s, key),
    ensures
        stable_sort(s, key) == s,
    decreases s.len(),
{
    if s.len() == 0 {
    } else {
        let dl = s.drop_last();
        assert(sorted_by(dl, key)) by {
            assert forall|i: int, j: int|
                0 <= i < j < dl.len() implies lex_le(key(#[trigger] dl[i]), key(#[trigger] dl[j])) by {
                assert(dl[i] == s[i]);
                assert(dl[j] == s[j]);
            }
        }
        lemma_sorted_id(dl, key);
        if dl.len() > 0 {
            assert(lex_le(key(dl.last()), key(s.last())));
            assert(insert_sorted(dl, s.last(), key) == dl.push(s.last()));
        }
        assert(stable_sort(s, key) =~= s);
    }
}

/// Sorting twice is the same as sorting once.
pub proof fn lemma_sort_idempotent<A>(s: Seq<A>, key: spec_fn(A) -> Seq<u8>)
    ensures
        stable_sort(stable_sort(s, key), key) == stable_sort(s, key),
{
    lemma_sort_props(s, key);
    lemma_sorted_id(stable_sort(s, key), key);
}

} // verus!
