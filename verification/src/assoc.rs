//! Association sequences and the sequence lemmas the crate's proofs share.
//!
//! The small keyed collections here (schemas, partition maps, placeholder
//! bindings) store their entries as a sequence of key/value pairs with
//! pairwise-distinct keys; the abstract value of such a collection is the
//! finite map folded from its entries.  The remaining lemmas describe how
//! `filter`, `map_values` and prefixes grow element by element, which is how
//! every loop invariant in the crate is maintained.

use vstd::prelude::*;

verus! {

/// The finite map denoted by a sequence of key/value entries, later entries
/// winning (irrelevant once keys are distinct).
pub open spec fn assoc_map<K, V>(s: Seq<(K, V)>) -> Map<K, V>
    decreases s.len(),
{
    if s.len() == 0 {
        Map::empty()
    } else {
        assoc_map(s.drop_last()).insert(s.last().0, s.last().1)
    }
}

/// No key occurs twice in the entry sequence.
pub open spec fn distinct_keys<K, V>(s: Seq<(K, V)>) -> bool {
    forall|i: int, j: int| 0 <= i < j < s.len() ==> s[i].0 != s[j].0
}

/// A key is in the folded map exactly when some entry carries it.
pub proof fn lemma_assoc_map_domain<K, V>(s: Seq<(K, V)>)
    ensures
        forall|k: K|
            assoc_map(s).contains_key(k) <==> exists|i: int| 0 <= i < s.len() && s[i].0 == k,
    decreases s.len(),
{
    if s.len() > 0 {
        let d = s.drop_last();
        lemma_assoc_map_domain(d);
        assert forall|k: K| assoc_map(s).contains_key(k) implies exists|i: int|
            0 <= i < s.len() && s[i].0 == k by {
            if s.last().0 == k {
                assert(s[s.len() - 1].0 == k);
            } else {
                assert(assoc_map(d).contains_key(k));
                let i = choose|i: int| 0 <= i < d.len() && d[i].0 == k;
                assert(s[i] == d[i]);
                assert(s[i].0 == k);
            }
        }
        assert forall|k: K| (exists|i: int| 0 <= i < s.len() && s[i].0 == k) implies assoc_map(
            s,
        ).contains_key(k) by {
            let i = choose|i: int| 0 <= i < s.len() && s[i].0 == k;
            if i < s.len() - 1 {
                assert(d[i] == s[i]);
                assert(d[i].0 == k);
                assert(assoc_map(d).contains_key(k));
                assert(assoc_map(s) == assoc_map(d).insert(s.last().0, s.last().1));
            } else {
                assert(s.last().0 == k);
            }
        }
    }
}

/// With distinct keys, each entry is reflected exactly in the folded map.
pub proof fn lemma_assoc_map_entry<K, V>(s: Seq<(K, V)>, i: int)
    requires
        distinct_keys(s),
        0 <= i < s.len(),
    ensures
        assoc_map(s).contains_key(s[i].0),
        assoc_map(s)[s[i].0] == s[i].1,
    decreases s.len(),
{
    if i == s.len() - 1 {
        lemma_assoc_map_domain(s);
    } else {
        lemma_assoc_map_entry(s.drop_last(), i);
        assert(s.drop_last()[i] == s[i]);
        assert(s[s.len() - 1].0 != s[i].0);
    }
}

/// Overwriting the value of one entry in place updates the folded map at
/// that entry's key and keeps the keys distinct.
pub proof fn lemma_assoc_map_update<K, V>(s: Seq<(K, V)>, i: int, v: V)
    requires
        distinct_keys(s),
        0 <= i < s.len(),
    ensures
        assoc_map(s.update(i, (s[i].0, v))) == assoc_map(s).insert(s[i].0, v),
        distinct_keys(s.update(i, (s[i].0, v))),
    decreases s.len(),
{
    let t = s.update(i, (s[i].0, v));
    assert(forall|j: int| 0 <= j < s.len() ==> t[j].0 == s[j].0);
    if i == s.len() - 1 {
        assert(t.drop_last() =~= s.drop_last());
        assert(assoc_map(t) == assoc_map(s.drop_last()).insert(s[i].0, v));
        assert(assoc_map(s).insert(s[i].0, v) =~= assoc_map(s.drop_last()).insert(s[i].0, v));
    } else {
        assert(t.drop_last() =~= s.drop_last().update(i, (s[i].0, v)));
        assert(s.drop_last()[i] == s[i]);
        lemma_assoc_map_update(s.drop_last(), i, v);
        let k = s.last().0;
        let w = s.last().1;
        assert(t.last() == s.last());
        assert(assoc_map(t) == assoc_map(s.drop_last()).insert(s[i].0, v).insert(k, w));
        // The two inserted keys differ, so the inserts commute.
        assert(k != s[i].0);
        assert(assoc_map(s.drop_last()).insert(s[i].0, v).insert(k, w) =~= assoc_map(
            s.drop_last(),
        ).insert(k, w).insert(s[i].0, v));
    }
}

/// Appending an entry with a fresh key inserts it into the folded map and
/// keeps the keys distinct.
pub proof fn lemma_assoc_map_push<K, V>(s: Seq<(K, V)>, k: K, v: V)
    requires
        distinct_keys(s),
        !assoc_map(s).contains_key(k),
    ensures
        assoc_map(s.push((k, v))) == assoc_map(s).insert(k, v),
        distinct_keys(s.push((k, v))),
{
    assert(s.push((k, v)).drop_last() =~= s);
    lemma_assoc_map_domain(s);
    assert forall|i: int, j: int|
        0 <= i < j < s.push((k, v)).len() implies s.push((k, v))[i].0 != s.push((k, v))[j].0 by {
        if j < s.len() {
            assert(s[i].0 != s[j].0);
        } else {
            assert(s.push((k, v))[j].0 == k);
            assert(s.push((k, v))[i] == s[i]);
        }
    }
}

/// Where some element satisfies a predicate, a first such element exists.
pub proof fn lemma_first_satisfying<A>(s: Seq<A>, pred: spec_fn(A) -> bool)
    requires
        exists|k: int| 0 <= k < s.len() && pred(s[k]),
    ensures
        exists|k: int|
            0 <= k < s.len() && pred(s[k]) && (forall|w: int| 0 <= w < k ==> !pred(s[w])),
    decreases s.len(),
{
    if pred(s[0]) {
        assert(0 <= 0 < s.len() && pred(s[0]) && (forall|w: int| 0 <= w < 0 ==> !pred(s[w])));
    } else {
        let t = s.subrange(1, s.len() as int);
        let k0 = choose|k: int| 0 <= k < s.len() && pred(s[k]);
        assert(t[k0 - 1] == s[k0]);
        lemma_first_satisfying(t, pred);
        let k1 = choose|k: int|
            0 <= k < t.len() && pred(t[k]) && (forall|w: int| 0 <= w < k ==> !pred(t[w]));
        assert forall|w: int| 0 <= w < k1 + 1 implies !pred(s[w]) by {
            if w > 0 {
                assert(t[w - 1] == s[w]);
            }
        }
        assert(t[k1] == s[k1 + 1]);
        assert(0 <= k1 + 1 < s.len() && pred(s[k1 + 1]) && (forall|w: int|
            0 <= w < k1 + 1 ==> !pred(s[w])));
    }
}

/// Filtering a sequence extended by one element keeps the old result and
/// appends the element exactly when it satisfies the predicate.
pub proof fn lemma_filter_push<A>(s: Seq<A>, x: A, pred: spec_fn(A) -> bool)
    ensures
        s.push(x).filter(pred) == if pred(x) {
            s.filter(pred).push(x)
        } else {
            s.filter(pred)
        },
{
    reveal(Seq::filter);
    assert(s.push(x).drop_last() =~= s);
    assert(s.push(x).last() == x);
}

/// Filtering the empty sequence yields the empty sequence.
pub proof fn lemma_filter_empty<A>(pred: spec_fn(A) -> bool)
    ensures
        Seq::<A>::empty().filter(pred) == Seq::<A>::empty(),
{
    reveal(Seq::filter);
}

/// The empty prefix is the empty sequence.
pub proof fn lemma_subrange_zero<A>(s: Seq<A>)
    ensures
        s.subrange(0, 0) == Seq::<A>::empty(),
{
    assert(s.subrange(0, 0) =~= Seq::<A>::empty());
}

/// A filtered sequence holds exactly those elements of the source sequence
/// that satisfy the predicate.
pub proof fn lemma_filter_membership<A>(s: Seq<A>, pred: spec_fn(A) -> bool)
    ensures
        forall|x: A| s.filter(pred).contains(x) <==> (s.contains(x) && pred(x)),
    decreases s.len(),
{
    reveal(Seq::filter);
    if s.len() == 0 {
        assert(forall|x: A| !s.contains(x));
        assert(forall|x: A| !s.filter(pred).contains(x));
    } else {
        let d = s.drop_last();
        lemma_filter_membership(d, pred);
        lemma_filter_push(d, s.last(), pred);
        assert(d.push(s.last()) =~= s);
        assert forall|x: A| s.filter(pred).contains(x) implies (s.contains(x) && pred(x)) by {
            let i = choose|i: int| 0 <= i < s.filter(pred).len() && s.filter(pred)[i] == x;
            if pred(s.last()) && i == s.filter(pred).len() - 1 {
                assert(x == s.last());
                assert(s[s.len() - 1] == x);
            } else {
                assert(d.filter(pred)[i] == x);
                assert(d.filter(pred).contains(x));
                assert(d.contains(x));
                let j = choose|j: int| 0 <= j < d.len() && d[j] == x;
                assert(d[j] == s[j]);
                assert(s[j] == x);
                assert(s.contains(x));
            }
        }
        assert forall|x: A| (s.contains(x) && pred(x)) implies s.filter(pred).contains(x) by {
            let j = choose|j: int| 0 <= j < s.len() && s[j] == x;
            if j < s.len() - 1 {
                assert(d[j] == s[j]);
                assert(d[j] == x);
                assert(d.contains(x));
                assert(d.filter(pred).contains(x));
                let i = choose|i: int| 0 <= i < d.filter(pred).len() && d.filter(pred)[i] == x;
                assert(s.filter(pred)[i] == x);
            } else {
                assert(x == s.last());
                assert(s.filter(pred)[s.filter(pred).len() - 1] == x);
            }
        }
    }
}

/// Mapping over a sequence extended by one element appends the image of that
/// element.
pub proof fn lemma_map_values_push<A, B>(s: Seq<A>, x: A, f: spec_fn(A) -> B)
    ensures
        s.push(x).map_values(f) == s.map_values(f).push(f(x)),
{
    assert(s.push(x).map_values(f) =~= s.map_values(f).push(f(x)));
}

/// Growing a prefix by one element appends that element.
pub proof fn lemma_subrange_push<A>(s: Seq<A>, i: int)
    requires
        0 <= i < s.len(),
    ensures
        s.subrange(0, i + 1) == s.subrange(0, i).push(s[i]),
{
    assert(s.subrange(0, i + 1) =~= s.subrange(0, i).push(s[i]));
}

/// A whole sequence is its own full prefix.
pub proof fn lemma_subrange_all<A>(s: Seq<A>)
    ensures
        s.subrange(0, s.len() as int) == s,
{
    assert(s.subrange(0, s.len() as int) =~= s);
}

} // verus!
