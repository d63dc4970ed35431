//! Walks over hash maps and hash sets.
use std::collections::hash_map::RandomState;
use std::collections::{HashMap, HashSet};
use std::hash::Hash;
use vstd::prelude::*;
use vstd::std_specs::iter::IteratorSpec;
use vstd::std_specs::hash::{builds_valid_hashers, obeys_key_model};

#[allow(unused_imports)]
use vstd::seq_lib::lemma_multiset_commutative;

verus! {

/// Whether the keys are all met, each once, in the order in which they are listed. A hash map may
/// be walked in any such order.
pub open spec fn is_walk<K>(order: Seq<K>, keys: Set<K>) -> bool {
    order.no_duplicates() && order.to_set() == keys
}

/// The keys of a map, in the order in which it is walked.
pub fn keys_of<K: Copy + Eq + Hash, V>(m: &HashMap<K, V>) -> (r: Vec<K>)
    requires
        obeys_key_model::<K>(),
        builds_valid_hashers::<RandomState>(),
    ensures
        is_walk(r@, m@.dom()),
{
    broadcast use vstd::std_specs::hash::group_hash_axioms;

    let mut r: Vec<K> = Vec::new();
    let it0 = m.keys();
    let ghost walk = IteratorSpec::remaining(&it0);
    for k in it: it0
        invariant
            it.seq() == walk,
            it.seq().unref().to_set() == m@.dom(),
            it.seq().no_duplicates(),
            r@ == it.seq().unref().take(it.index() as int),
    {
        r.push(*k);
        assert(r@ =~= it.seq().unref().take(it.index() + 1));
    }
    assert(r@ =~= walk.unref());
    r
}

/// The elements of a set, in the order in which it is walked.
pub fn elements_of<K: Copy + Eq + Hash>(m: &HashSet<K>) -> (r: Vec<K>)
    requires
        obeys_key_model::<K>(),
        builds_valid_hashers::<RandomState>(),
    ensures
        is_walk(r@, m@),
{
    broadcast use vstd::std_specs::hash::group_hash_axioms;

    let mut r: Vec<K> = Vec::new();
    let it0 = m.iter();
    let ghost walk = IteratorSpec::remaining(&it0);
    for k in it: it0
        invariant
            it.seq() == walk,
            it.seq().unref().to_set() == m@,
            it.seq().no_duplicates(),
            r@ == it.seq().unref().take(it.index() as int),
    {
        r.push(*k);
        assert(r@ =~= it.seq().unref().take(it.index() + 1));
    }
    assert(r@ =~= walk.unref());
    r
}

/// What the parts hold, one part after the other.
pub open spec fn gather<K, A>(keys: Seq<K>, part: spec_fn(K) -> Seq<A>) -> Seq<A>
    decreases keys.len(),
{
    if keys.len() == 0 {
        Seq::empty()
    } else {
        gather(keys.drop_last(), part) + part(keys.last())
    }
}

/// What the parts up to one more hold.
pub proof fn lemma_gather_take<K, A>(keys: Seq<K>, i: int, part: spec_fn(K) -> Seq<A>)
    requires
        0 <= i < keys.len(),
    ensures
        gather(keys.take(i + 1), part) == gather(keys.take(i), part) + part(keys[i]),
{
    assert(keys.take(i + 1).drop_last() =~= keys.take(i));
}

/// Something is in all the parts together if and only if it is in one of them.
pub proof fn lemma_gather_contains<K, A>(keys: Seq<K>, part: spec_fn(K) -> Seq<A>, x: A)
    ensures
        gather(keys, part).contains(x) <==> exists|i: int|
            0 <= i < keys.len() && part(#[trigger] keys[i]).contains(x),
    decreases keys.len(),
{
    if keys.len() > 0 {
        let t = keys.drop_last();
        lemma_gather_contains(t, part, x);
        let (a, b) = (gather(t, part), part(keys.last()));
        if (a + b).contains(x) {
            let i = choose|i: int| 0 <= i < (a + b).len() && (a + b)[i] == x;
            if i < a.len() {
                assert(a[i] == x);
                let k = choose|k: int| 0 <= k < t.len() && part(#[trigger] t[k]).contains(x);
                assert(part(keys[k]).contains(x));
            } else {
                assert(b[i - a.len()] == x);
                assert(part(keys[keys.len() - 1]).contains(x));
            }
        }
        if exists|i: int| 0 <= i < keys.len() && part(#[trigger] keys[i]).contains(x) {
            let i = choose|i: int| 0 <= i < keys.len() && part(#[trigger] keys[i]).contains(x);
            if i < t.len() {
                assert(part(t[i]).contains(x));
                let k = choose|k: int| 0 <= k < a.len() && a[k] == x;
                assert((a + b)[k] == x);
            } else {
                let k = choose|k: int| 0 <= k < b.len() && b[k] == x;
                assert((a + b)[a.len() + k] == x);
            }
        }
    }
}

/// Of a walk the parts hold what the parts of the keys hold.
pub proof fn lemma_gather_walk<K, A>(
    order: Seq<K>,
    keys: Set<K>,
    part: spec_fn(K) -> Seq<A>,
    x: A,
)
    requires
        is_walk(order, keys),
    ensures
        gather(order, part).contains(x) <==> exists|k: K| #[trigger]
            keys.contains(k) && part(k).contains(x),
{
    lemma_gather_contains(order, part, x);
    if gather(order, part).contains(x) {
        let i = choose|i: int| 0 <= i < order.len() && part(#[trigger] order[i]).contains(x);
        assert(order.to_set().contains(order[i]));
    }
    if exists|k: K| #[trigger] keys.contains(k) && part(k).contains(x) {
        let k = choose|k: K| #[trigger] keys.contains(k) && part(k).contains(x);
        assert(order.to_set().contains(k));
        let i = choose|i: int| 0 <= i < order.len() && order[i] == k;
        assert(part(order[i]).contains(x));
    }
}

/// What the parts hold, from the first part on.
pub proof fn lemma_gather_front<K, A>(keys: Seq<K>, part: spec_fn(K) -> Seq<A>)
    requires
        keys.len() > 0,
    ensures
        gather(keys, part) == part(keys[0]) + gather(keys.skip(1), part),
    decreases keys.len(),
{
    let t = keys.drop_last();
    if t.len() == 0 {
        assert(t =~= Seq::empty());
        assert(keys.skip(1) =~= Seq::empty());
        assert(gather(keys, part) =~= part(keys[0]) + gather(keys.skip(1), part));
    } else {
        lemma_gather_front(t, part);
        assert(keys.skip(1).drop_last() =~= t.skip(1));
        assert(gather(keys, part) =~= part(keys[0]) + gather(keys.skip(1), part));
    }
}

/// Parts that are the same for every key hold the same together.
pub proof fn lemma_gather_same<K, A>(
    keys: Seq<K>,
    one: spec_fn(K) -> Seq<A>,
    other: spec_fn(K) -> Seq<A>,
)
    requires
        forall|i: int| 0 <= i < keys.len() ==> one(#[trigger] keys[i]) == other(keys[i]),
    ensures
        gather(keys, one) == gather(keys, other),
    decreases keys.len(),
{
    if keys.len() > 0 {
        let t = keys.drop_last();
        assert forall|i: int| 0 <= i < t.len() implies one(#[trigger] t[i]) == other(t[i]) by {
            assert(keys[i] == t[i]);
        }
        lemma_gather_same(t, one, other);
        assert(one(keys[keys.len() - 1]) == other(keys[keys.len() - 1]));
    }
}

/// What the parts hold, with the part of one more key, wherever it stands.
pub proof fn lemma_gather_insert<K, A>(keys: Seq<K>, i: int, k: K, part: spec_fn(K) -> Seq<A>)
    requires
        0 <= i <= keys.len(),
    ensures
        gather(keys.insert(i, k), part).to_multiset() == gather(keys, part).to_multiset().add(
            part(k).to_multiset(),
        ),
    decreases keys.len(),
{
    let r = keys.insert(i, k);
    if i == keys.len() {
        assert(r.drop_last() =~= keys);
        lemma_multiset_commutative(gather(keys, part), part(k));
    } else {
        let t = keys.drop_last();
        lemma_gather_insert(t, i, k, part);
        assert(r.drop_last() =~= t.insert(i, k));
        lemma_multiset_commutative(gather(t.insert(i, k), part), part(keys.last()));
        lemma_multiset_commutative(gather(t, part), part(keys.last()));
        assert(gather(r, part).to_multiset() =~= gather(keys, part).to_multiset().add(
            part(k).to_multiset(),
        ));
    }
}

/// What the parts hold does not depend on the order of the keys.
pub proof fn gathering_ignores_order<K, A>(a: Seq<K>, b: Seq<K>, part: spec_fn(K) -> Seq<A>)
    requires
        a.to_multiset() == b.to_multiset(),
    ensures
        gather(a, part).to_multiset() == gather(b, part).to_multiset(),
    decreases a.len(),
{
    broadcast use vstd::seq_lib::group_to_multiset_ensures;

    if a.len() == 0 {
        assert(a.to_multiset().len() == 0);
        assert(b.len() == 0);
    } else {
        let k = a.last();
        let t = a.drop_last();
        assert(a =~= t.insert(t.len() as int, k));
        assert(a =~= t.push(k));
        assert(a.contains(k));
        assert(b.to_multiset().count(k) > 0);
        assert(b.contains(k));
        let i = choose|i: int| 0 <= i < b.len() && b[i] == k;
        let c = b.remove(i);
        assert(c.to_multiset() =~= b.to_multiset().remove(k));
        assert(t.to_multiset() =~= a.to_multiset().remove(k));
        gathering_ignores_order(t, c, part);
        lemma_gather_insert(t, t.len() as int, k, part);
        lemma_gather_insert(c, i, k, part);
        assert(c.insert(i, k) =~= b);
    }
}

/// Two walks of the same keys meet the same in the parts, each thing as often.
pub proof fn walks_gather_the_same<K, A>(
    one: Seq<K>,
    other: Seq<K>,
    keys: Set<K>,
    part: spec_fn(K) -> Seq<A>,
)
    requires
        is_walk(one, keys),
        is_walk(other, keys),
    ensures
        gather(one, part).to_multiset() == gather(other, part).to_multiset(),
{
    broadcast use vstd::seq_lib::group_to_multiset_ensures;

    one.lemma_multiset_has_no_duplicates();
    other.lemma_multiset_has_no_duplicates();
    assert forall|k: K| one.to_multiset().count(k) == other.to_multiset().count(k) by {
        assert(one.to_set().contains(k) <==> one.contains(k));
        assert(other.to_set().contains(k) <==> other.contains(k));
        assert(one.to_multiset().contains(k) <==> one.contains(k));
        assert(other.to_multiset().contains(k) <==> other.contains(k));
    }
    assert(one.to_multiset() =~= other.to_multiset());
    gathering_ignores_order(one, other, part);
}

} // verus!
