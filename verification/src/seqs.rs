//! Sequences of views, sums over sequences, and a stable sort.
use vstd::prelude::*;

verus! {

/// The views of the elements, in order.
pub open spec fn views<T: View>(s: Seq<T>) -> Seq<T::V> {
    Seq::new(s.len(), |i: int| s[i]@)
}

/// The views of the values of a map.
pub open spec fn map_views<K, T: View>(m: Map<K, T>) -> Map<K, T::V> {
    Map::new(|k: K| m.dom().contains(k), |k: K| m[k]@)
}

/// The view of the content of an option.
pub open spec fn option_view<T: View>(o: Option<T>) -> Option<T::V> {
    match o {
        Some(x) => Some(x@),
        None => None,
    }
}

/// Changing one element changes its view alone.
pub proof fn lemma_views_update<T: View>(s: Seq<T>, i: int, x: T)
    requires
        0 <= i < s.len(),
    ensures
        views(s.update(i, x)) == views(s).update(i, x@),
{
    assert(views(s.update(i, x)) =~= views(s).update(i, x@));
}

/// Adding an element adds its view.
pub proof fn lemma_views_push<T: View>(s: Seq<T>, x: T)
    ensures
        views(s.push(x)) == views(s).push(x@),
{
    assert(views(s.push(x)) =~= views(s).push(x@));
}

/// Putting a value into a map puts its view there.
pub proof fn lemma_map_views_insert<K, T: View>(m: Map<K, T>, k: K, x: T)
    ensures
        map_views(m.insert(k, x)) == map_views(m).insert(k, x@),
{
    assert(map_views(m.insert(k, x)) =~= map_views(m).insert(k, x@));
}

/// Taking a key out of a map takes its view out.
pub proof fn lemma_map_views_remove<K, T: View>(m: Map<K, T>, k: K)
    ensures
        map_views(m.remove(k)) == map_views(m).remove(k),
{
    assert(map_views(m.remove(k)) =~= map_views(m).remove(k));
}

/// The sum of `f` over the elements.
pub open spec fn total<A>(s: Seq<A>, f: spec_fn(A) -> int) -> int
    decreases s.len(),
{
    if s.len() == 0 {
        0
    } else {
        total(s.drop_last(), f) + f(s.last())
    }
}

/// The sum over one more element.
pub proof fn lemma_total_push<A>(s: Seq<A>, x: A, f: spec_fn(A) -> int)
    ensures
        total(s.push(x), f) == total(s, f) + f(x),
{
    assert(s.push(x).drop_last() =~= s);
}

/// The sum over a prefix with one more element.
pub proof fn lemma_total_take<A>(s: Seq<A>, i: int, f: spec_fn(A) -> int)
    requires
        0 <= i < s.len(),
    ensures
        total(s.take(i + 1), f) == total(s.take(i), f) + f(s[i]),
{
    assert(s.take(i + 1).drop_last() =~= s.take(i));
}

/// The sum over a concatenation.
pub proof fn lemma_total_add<A>(a: Seq<A>, b: Seq<A>, f: spec_fn(A) -> int)
    ensures
        total(a + b, f) == total(a, f) + total(b, f),
    decreases b.len(),
{
    if b.len() == 0 {
        assert(a + b =~= a);
    } else {
        lemma_total_add(a, b.drop_last(), f);
        assert((a + b).drop_last() =~= a + b.drop_last());
    }
}

/// The sum after one element was replaced.
pub proof fn lemma_total_update<A>(s: Seq<A>, i: int, x: A, f: spec_fn(A) -> int)
    requires
        0 <= i < s.len(),
    ensures
        total(s.update(i, x), f) == total(s, f) - f(s[i]) + f(x),
    decreases s.len(),
{
    if i == s.len() - 1 {
        assert(s.update(i, x).drop_last() =~= s.drop_last());
    } else {
        lemma_total_update(s.drop_last(), i, x, f);
        assert(s.update(i, x).drop_last() =~= s.drop_last().update(i, x));
    }
}

/// The sum after one element was put in.
pub proof fn lemma_total_insert<A>(s: Seq<A>, i: int, x: A, f: spec_fn(A) -> int)
    requires
        0 <= i <= s.len(),
    ensures
        total(s.insert(i, x), f) == total(s, f) + f(x),
{
    let a = s.take(i);
    let b = s.skip(i);
    lemma_total_add(a, b, f);
    lemma_total_add(a.push(x), b, f);
    lemma_total_push(a, x, f);
    assert(a + b =~= s);
    assert(a.push(x) + b =~= s.insert(i, x));
}

/// A sum of values that are not negative is not negative, and none of its prefixes is larger.
pub proof fn lemma_total_monotone<A>(s: Seq<A>, i: int, f: spec_fn(A) -> int)
    requires
        0 <= i <= s.len(),
        forall|x: A| #[trigger] f(x) >= 0,
    ensures
        0 <= total(s.take(i), f) <= total(s, f),
    decreases s.len(),
{
    if s.len() == 0 {
        assert(s.take(i) =~= s);
    } else if i == s.len() {
        assert(s.take(i) =~= s);
        lemma_total_monotone(s.drop_last(), i - 1, f);
    } else {
        lemma_total_monotone(s.drop_last(), i, f);
        assert(s.drop_last().take(i) =~= s.take(i));
    }
}

/// The elements on which `keep` holds, in order.
pub open spec fn keep<A>(s: Seq<A>, keep_it: spec_fn(A) -> bool) -> Seq<A>
    decreases s.len(),
{
    if s.len() == 0 {
        Seq::empty()
    } else if keep_it(s.last()) {
        keep(s.drop_last(), keep_it).push(s.last())
    } else {
        keep(s.drop_last(), keep_it)
    }
}

/// What is kept of a prefix with one more element.
pub proof fn lemma_keep_take<A>(s: Seq<A>, i: int, keep_it: spec_fn(A) -> bool)
    requires
        0 <= i < s.len(),
    ensures
        keep(s.take(i + 1), keep_it) == (if keep_it(s[i]) {
            keep(s.take(i), keep_it).push(s[i])
        } else {
            keep(s.take(i), keep_it)
        }),
{
    assert(s.take(i + 1).drop_last() =~= s.take(i));
}

/// Just the elements on which `keep_it` holds are kept.
pub proof fn lemma_keep_contains<A>(s: Seq<A>, keep_it: spec_fn(A) -> bool)
    ensures
        forall|x: A| #[trigger]
            keep(s, keep_it).contains(x) <==> s.contains(x) && keep_it(x),
    decreases s.len(),
{
    if s.len() > 0 {
        let t = s.drop_last();
        lemma_keep_contains(t, keep_it);
        assert forall|x: A| #[trigger] keep(s, keep_it).contains(x) <==> s.contains(x) && keep_it(
            x,
        ) by {
            assert(s.contains(x) <==> t.contains(x) || x == s.last()) by {
                if s.contains(x) {
                    let i = choose|i: int| 0 <= i < s.len() && s[i] == x;
                    if i < t.len() {
                        assert(t[i] == x);
                    }
                }
                if t.contains(x) {
                    let i = choose|i: int| 0 <= i < t.len() && t[i] == x;
                    assert(s[i] == x);
                }
            }
            let k = keep(t, keep_it);
            if keep_it(s.last()) {
                let r = k.push(s.last());
                if r.contains(x) {
                    let i = choose|i: int| 0 <= i < r.len() && r[i] == x;
                    if i < k.len() {
                        assert(k[i] == x);
                    }
                }
                if k.contains(x) {
                    let i = choose|i: int| 0 <= i < k.len() && k[i] == x;
                    assert(r[i] == x);
                }
                assert(r[k.len() as int] == s.last());
            }
        }
    }
}

/// What holds of each pair of elements, in order, holds of each pair that is kept.
pub proof fn lemma_keep_pairs<A>(
    s: Seq<A>,
    keep_it: spec_fn(A) -> bool,
    related: spec_fn(A, A) -> bool,
)
    requires
        forall|i: int, j: int|
            0 <= i < j < s.len() ==> related(#[trigger] s[i], #[trigger] s[j]),
    ensures
        forall|i: int, j: int|
            0 <= i < j < keep(s, keep_it).len() ==> related(
                #[trigger] keep(s, keep_it)[i],
                #[trigger] keep(s, keep_it)[j],
            ),
    decreases s.len(),
{
    if s.len() > 0 {
        let t = s.drop_last();
        let k = keep(t, keep_it);
        let r = keep(s, keep_it);
        assert forall|i: int, j: int| 0 <= i < j < t.len() implies related(
            #[trigger] t[i],
            #[trigger] t[j],
        ) by {
            assert(s[i] == t[i] && s[j] == t[j]);
        }
        lemma_keep_pairs(t, keep_it, related);
        lemma_keep_contains(t, keep_it);
        assert forall|i: int, j: int| 0 <= i < j < r.len() implies related(
            #[trigger] r[i],
            #[trigger] r[j],
        ) by {
            assert(r[i] == k[i]);
            if j < k.len() {
                assert(r[j] == k[j]);
            } else {
                assert(k.contains(k[i]));
                let a = choose|a: int| 0 <= a < t.len() && t[a] == k[i];
                assert(s[a] == k[i]);
                assert(s[s.len() - 1] == r[j]);
            }
        }
    }
}

/// What is kept is what a filter lets through.
pub proof fn lemma_keep_is_filter<A>(s: Seq<A>, keep_it: spec_fn(A) -> bool)
    ensures
        keep(s, keep_it) == s.filter(keep_it),
    decreases s.len(),
{
    reveal(Seq::filter);
    if s.len() > 0 {
        lemma_keep_is_filter(s.drop_last(), keep_it);
    } else {
        assert(s.filter(keep_it) =~= Seq::empty());
    }
}

/// A filter that lets the first elements through, and no other, leaves these.
pub proof fn lemma_filter_prefix<A>(s: Seq<A>, n: int, p: spec_fn(A) -> bool)
    requires
        0 <= n <= s.len(),
        forall|i: int| 0 <= i < n ==> p(#[trigger] s[i]),
        forall|i: int| n <= i < s.len() ==> !p(#[trigger] s[i]),
    ensures
        s.filter(p) == s.take(n),
    decreases s.len(),
{
    reveal(Seq::filter);
    if s.len() > 0 {
        let t = s.drop_last();
        assert forall|i: int| 0 <= i < t.len() implies #[trigger] t[i] == s[i] by {}
        if n == s.len() {
            lemma_filter_prefix(t, n - 1, p);
            assert(p(s[n - 1]));
            assert(s.take(n) =~= t.take(n - 1).push(s.last()));
        } else {
            lemma_filter_prefix(t, n, p);
            assert(!p(s[s.len() - 1]));
            assert(s.take(n) =~= t.take(n));
        }
    } else {
        assert(s.filter(p) =~= s.take(n));
    }
}

/// A filter that lets the last elements through, and no other, leaves these.
pub proof fn lemma_filter_suffix<A>(s: Seq<A>, n: int, p: spec_fn(A) -> bool)
    requires
        0 <= n <= s.len(),
        forall|i: int| 0 <= i < n ==> !p(#[trigger] s[i]),
        forall|i: int| n <= i < s.len() ==> p(#[trigger] s[i]),
    ensures
        s.filter(p) == s.skip(n),
    decreases s.len(),
{
    reveal(Seq::filter);
    if s.len() > 0 {
        let t = s.drop_last();
        assert forall|i: int| 0 <= i < t.len() implies #[trigger] t[i] == s[i] by {}
        if n == s.len() {
            lemma_filter_suffix(t, n - 1, p);
            assert(!p(s[n - 1]));
            assert(s.skip(n) =~= t.skip(n - 1));
        } else {
            lemma_filter_suffix(t, n, p);
            assert(p(s[s.len() - 1]));
            assert(s.skip(n) =~= t.skip(n).push(s.last()));
        }
    } else {
        assert(s.filter(p) =~= s.skip(n));
    }
}

/// The place of the first element on which `found` holds; behind all where there is none.
pub open spec fn first_index<A>(s: Seq<A>, found: spec_fn(A) -> bool) -> int
    decreases s.len(),
{
    if s.len() == 0 {
        0
    } else {
        let p = first_index(s.drop_last(), found);
        if p < s.len() - 1 || found(s.last()) {
            p
        } else {
            s.len() as int
        }
    }
}

/// The first element is the one on which `found` holds, and on none in front of it.
pub proof fn lemma_first_index<A>(s: Seq<A>, found: spec_fn(A) -> bool)
    ensures
        0 <= first_index(s, found) <= s.len(),
        forall|i: int| 0 <= i < first_index(s, found) ==> !found(#[trigger] s[i]),
        first_index(s, found) < s.len() ==> found(s[first_index(s, found)]),
    decreases s.len(),
{
    if s.len() > 0 {
        let t = s.drop_last();
        lemma_first_index(t, found);
        assert forall|i: int| 0 <= i < first_index(s, found) implies !found(#[trigger] s[i]) by {
            if i < t.len() {
                assert(t[i] == s[i]);
            }
        }
        let p = first_index(t, found);
        if p < t.len() {
            assert(t[p] == s[p]);
        }
    }
}

/// A place with nothing found in front of it, and with something found on it unless it is behind
/// all elements, is the first.
pub proof fn lemma_is_first_index<A>(s: Seq<A>, found: spec_fn(A) -> bool, at: int)
    requires
        0 <= at <= s.len(),
        forall|i: int| 0 <= i < at ==> !found(#[trigger] s[i]),
        at < s.len() ==> found(s[at]),
    ensures
        first_index(s, found) == at,
{
    lemma_first_index(s, found);
    let p = first_index(s, found);
    if p < at {
        assert(!found(s[p]));
    }
    if at < p {
        assert(!found(s[at]));
    }
}

/// `x` put behind the elements of `s` that it is not before.
pub open spec fn insert_sorted<A>(s: Seq<A>, x: A, before: spec_fn(A, A) -> bool) -> Seq<A>
    decreases s.len(),
{
    if s.len() > 0 && before(x, s.last()) {
        insert_sorted(s.drop_last(), x, before).push(s.last())
    } else {
        s.push(x)
    }
}

/// The elements in order; those of which neither is before the other stay as they were.
pub open spec fn sort_seq<A>(s: Seq<A>, before: spec_fn(A, A) -> bool) -> Seq<A>
    decreases s.len(),
{
    if s.len() == 0 {
        Seq::empty()
    } else {
        insert_sorted(sort_seq(s.drop_last(), before), s.last(), before)
    }
}

/// Whether a relation can order elements: it is irreflexive and transitive, and so is being
/// ordered neither way.
pub open spec fn orders<A>(before: spec_fn(A, A) -> bool) -> bool {
    &&& forall|a: A, b: A| #[trigger] before(a, b) ==> !before(b, a)
    &&& forall|a: A, b: A, c: A| #[trigger] before(a, b) && !#[trigger] before(c, b) ==> before(a, c)
}

/// Whether no element is before one that stands in front of it.
pub open spec fn in_order<A>(s: Seq<A>, before: spec_fn(A, A) -> bool) -> bool {
    forall|i: int, j: int| 0 <= i < j < s.len() ==> !before(#[trigger] s[j], #[trigger] s[i])
}

/// Putting an element into a sorted sequence at a place keeps every element.
pub proof fn lemma_insert_sorted_multiset<A>(s: Seq<A>, x: A, before: spec_fn(A, A) -> bool)
    ensures
        insert_sorted(s, x, before).to_multiset() == s.to_multiset().insert(x),
        insert_sorted(s, x, before).len() == s.len() + 1,
    decreases s.len(),
{
    broadcast use vstd::seq_lib::group_to_multiset_ensures;

    if s.len() > 0 && before(x, s.last()) {
        lemma_insert_sorted_multiset(s.drop_last(), x, before);
        assert(s =~= s.drop_last().push(s.last()));
        assert(insert_sorted(s, x, before).to_multiset() =~= s.to_multiset().insert(x));
    }
}

/// Sorting keeps every element, as often as it was there.
pub proof fn sort_keeps_elements<A>(s: Seq<A>, before: spec_fn(A, A) -> bool)
    ensures
        sort_seq(s, before).to_multiset() == s.to_multiset(),
        sort_seq(s, before).len() == s.len(),
    decreases s.len(),
{
    broadcast use vstd::seq_lib::group_to_multiset_ensures;

    if s.len() > 0 {
        sort_keeps_elements(s.drop_last(), before);
        lemma_insert_sorted_multiset(sort_seq(s.drop_last(), before), s.last(), before);
        assert(s =~= s.drop_last().push(s.last()));
    } else {
        assert(s =~= Seq::empty());
    }
}

/// An element is there after sorting if and only if it was there before.
pub proof fn lemma_sort_contains<A>(s: Seq<A>, before: spec_fn(A, A) -> bool, x: A)
    ensures
        sort_seq(s, before).contains(x) <==> s.contains(x),
{
    broadcast use vstd::seq_lib::group_to_multiset_ensures;

    sort_keeps_elements(s, before);
    assert(s.contains(x) <==> s.to_multiset().count(x) > 0);
    assert(sort_seq(s, before).contains(x) <==> sort_seq(s, before).to_multiset().count(x) > 0);
}

proof fn lemma_insert_sorted_in_order<A>(s: Seq<A>, x: A, before: spec_fn(A, A) -> bool)
    requires
        orders(before),
        in_order(s, before),
    ensures
        in_order(insert_sorted(s, x, before), before),
        forall|i: int|
            0 <= i < insert_sorted(s, x, before).len() ==> (#[trigger] insert_sorted(
                s,
                x,
                before,
            )[i] == x || s.contains(insert_sorted(s, x, before)[i])),
    decreases s.len(),
{
    let r = insert_sorted(s, x, before);
    if s.len() > 0 && before(x, s.last()) {
        let t = s.drop_last();
        let q = insert_sorted(t, x, before);
        lemma_insert_sorted_in_order(t, x, before);
        assert(r == q.push(s.last()));
        assert forall|i: int, j: int| 0 <= i < j < r.len() implies !before(
            #[trigger] r[j],
            #[trigger] r[i],
        ) by {
            if j == q.len() {
                assert(r[i] == q[i]);
                if q[i] != x {
                    assert(t.contains(q[i]));
                    let k = choose|k: int| 0 <= k < t.len() && t[k] == q[i];
                    assert(s[k] == t[k]);
                    assert(s.last() == s[s.len() - 1]);
                }
            } else {
                assert(r[i] == q[i] && r[j] == q[j]);
            }
        }
        assert forall|i: int| 0 <= i < r.len() implies (#[trigger] r[i] == x || s.contains(r[i])) by {
            if i == q.len() {
                assert(s[s.len() - 1] == r[i]);
            } else {
                assert(r[i] == q[i]);
                if q[i] != x {
                    let k = choose|k: int| 0 <= k < t.len() && t[k] == q[i];
                    assert(s[k] == t[k]);
                }
            }
        }
    } else {
        assert(r == s.push(x));
        assert forall|i: int, j: int| 0 <= i < j < r.len() implies !before(
            #[trigger] r[j],
            #[trigger] r[i],
        ) by {
            if j == s.len() {
                let l = s[s.len() - 1];
                if before(x, s[i]) {
                    assert(!before(l, s[i]) || i == s.len() - 1);
                    if i != s.len() - 1 {
                        assert(before(x, l));
                    }
                }
            }
        }
        assert forall|i: int| 0 <= i < r.len() implies (#[trigger] r[i] == x || s.contains(r[i])) by {
            if i < s.len() {
                assert(s[i] == r[i]);
            }
        }
    }
}

/// Sorting puts the elements in order.
pub proof fn sort_puts_in_order<A>(s: Seq<A>, before: spec_fn(A, A) -> bool)
    requires
        orders(before),
    ensures
        in_order(sort_seq(s, before), before),
    decreases s.len(),
{
    if s.len() > 0 {
        sort_puts_in_order(s.drop_last(), before);
        lemma_insert_sorted_in_order(sort_seq(s.drop_last(), before), s.last(), before);
    }
}

/// Sorting leaves a sequence that is in order as it is; in particular sorting twice is sorting
/// once.
pub proof fn sort_leaves_ordered<A>(s: Seq<A>, before: spec_fn(A, A) -> bool)
    requires
        in_order(s, before),
    ensures
        sort_seq(s, before) == s,
    decreases s.len(),
{
    if s.len() > 0 {
        let t = s.drop_last();
        assert forall|i: int, j: int| 0 <= i < j < t.len() implies !before(
            #[trigger] t[j],
            #[trigger] t[i],
        ) by {
            assert(s[i] == t[i] && s[j] == t[j]);
        }
        sort_leaves_ordered(t, before);
        if t.len() > 0 {
            assert(!before(s[s.len() - 1], s[t.len() - 1]));
        }
        assert(t.push(s.last()) =~= s);
    } else {
        assert(s =~= Seq::empty());
    }
}

/// Elements of which neither is before the other keep their places relative to each other.
pub proof fn sort_is_stable<A>(s: Seq<A>, before: spec_fn(A, A) -> bool, class: spec_fn(A) -> bool)
    requires
        forall|a: A, b: A| class(a) && class(b) ==> !#[trigger] before(a, b),
    ensures
        keep(sort_seq(s, before), class) == keep(s, class),
    decreases s.len(),
{
    if s.len() > 0 {
        sort_is_stable(s.drop_last(), before, class);
        lemma_insert_sorted_stable(sort_seq(s.drop_last(), before), s.last(), before, class);
    }
}

proof fn lemma_insert_sorted_stable<A>(
    s: Seq<A>,
    x: A,
    before: spec_fn(A, A) -> bool,
    class: spec_fn(A) -> bool,
)
    requires
        forall|a: A, b: A| class(a) && class(b) ==> !#[trigger] before(a, b),
    ensures
        keep(insert_sorted(s, x, before), class) == (if class(x) {
            keep(s, class).push(x)
        } else {
            keep(s, class)
        }),
    decreases s.len(),
{
    let r = insert_sorted(s, x, before);
    assert(r.drop_last() =~= (if s.len() > 0 && before(x, s.last()) {
        insert_sorted(s.drop_last(), x, before)
    } else {
        s
    }));
    if s.len() > 0 && before(x, s.last()) {
        lemma_insert_sorted_stable(s.drop_last(), x, before, class);
    }
}

/// The sum does not depend on the order of the elements.
pub proof fn lemma_total_multiset<A>(a: Seq<A>, b: Seq<A>, f: spec_fn(A) -> int)
    requires
        a.to_multiset() == b.to_multiset(),
    ensures
        total(a, f) == total(b, f),
    decreases a.len(),
{
    broadcast use vstd::seq_lib::group_to_multiset_ensures;

    if a.len() == 0 {
        assert(a.to_multiset().len() == 0);
        assert(b.len() == 0);
    } else {
        let x = a.last();
        assert(a =~= a.drop_last().push(x));
        assert(a.contains(x));
        assert(b.to_multiset().count(x) > 0);
        assert(b.contains(x));
        let i = choose|i: int| 0 <= i < b.len() && b[i] == x;
        let c = b.remove(i);
        assert(c.to_multiset() =~= b.to_multiset().remove(x));
        assert(a.drop_last().to_multiset() =~= a.to_multiset().remove(x));
        lemma_total_multiset(a.drop_last(), c, f);
        lemma_total_insert(c, i, x, f);
        assert(c.insert(i, x) =~= b);
    }
}

/// Sorting does not change a sum.
pub proof fn lemma_total_sorted<A>(
    s: Seq<A>,
    before: spec_fn(A, A) -> bool,
    f: spec_fn(A) -> int,
)
    ensures
        total(sort_seq(s, before), f) == total(s, f),
{
    sort_keeps_elements(s, before);
    lemma_total_multiset(sort_seq(s, before), s, f);
}

/// A type whose values are put in order by what they stand for.
pub trait Sortable: View + Sized {
    /// When one value comes before another.
    spec fn before() -> spec_fn(Self::V, Self::V) -> bool;

    /// Whether this value comes before the other.
    fn is_before(&self, other: &Self) -> (r: bool)
        ensures
            r == Self::before()(self@, other@),
    ;
}

impl Sortable for u32 {
    open spec fn before() -> spec_fn(u32, u32) -> bool {
        |a: u32, b: u32| a < b
    }

    fn is_before(&self, other: &Self) -> (r: bool) {
        *self < *other
    }
}

/// Sorts the elements; equal ones keep their places relative to each other.
pub fn sort<T: Sortable>(v: &mut Vec<T>)
    ensures
        views(final(v)@) == sort_seq(views(old(v)@), T::before()),
{
    let ghost start = views(v@);
    let n: usize = v.len();
    let mut i: usize = 0;
    assert(start.take(0) =~= Seq::empty());
    assert(views(v@).take(0) =~= Seq::empty());
    while i < n
        invariant
            i <= n,
            n == v.len(),
            start.len() == n,
            views(v@).take(i as int) == sort_seq(start.take(i as int), T::before()),
            views(v@).skip(i as int) == start.skip(i as int),
        decreases n - i,
    {
        let ghost prior = v@;
        let ghost sorted = views(v@).take(i as int);
        let x = v.remove(i);
        let ghost rest = v@;
        let mut j: usize = i;
        assert(sorted.take(j as int) =~= sorted);
        while j > 0 && x.is_before(&v[j - 1])
            invariant
                j <= i,
                i < n,
                v@.len() == n - 1,
                v@ == rest,
                sorted.len() == i,
                forall|k: int| 0 <= k < i ==> sorted[k] == #[trigger] v@[k]@,
                insert_sorted(sorted, x@, T::before()) == insert_sorted(
                    sorted.take(j as int),
                    x@,
                    T::before(),
                ) + sorted.skip(j as int),
            decreases j,
        {
            proof {
                let cur = sorted.take(j as int);
                assert(cur.last() == v@[j - 1]@);
                assert(cur.drop_last() =~= sorted.take(j - 1));
                assert(insert_sorted(cur, x@, T::before()) + sorted.skip(j as int) =~= insert_sorted(
                    sorted.take(j - 1),
                    x@,
                    T::before(),
                ) + sorted.skip(j - 1));
            }
            j = j - 1;
        }
        let ghost shown = x@;
        v.insert(j, x);
        proof {
            let b = T::before();
            assert(insert_sorted(sorted.take(j as int), shown, b) =~= sorted.take(j as int).push(
                shown,
            )) by {
                if j > 0 {
                    assert(sorted.take(j as int).last() == rest[j - 1]@);
                }
            }
            assert(shown == start[i as int]) by {
                assert(views(prior).skip(i as int)[0] == start.skip(i as int)[0]);
            }
            assert(start.take(i + 1).drop_last() =~= start.take(i as int));
            assert(views(v@).take(i + 1) =~= sorted.take(j as int).push(shown) + sorted.skip(
                j as int,
            ));
            assert(views(v@).skip(i + 1) =~= start.skip(i + 1)) by {
                assert forall|k: int| 0 <= k < n - i - 1 implies #[trigger] views(v@).skip(i + 1)[k]
                    == start.skip(i + 1)[k] by {
                    assert(views(prior).skip(i as int)[k + 1] == start.skip(i as int)[k + 1]);
                    assert(v@[i + 1 + k] == prior[i + 1 + k]);
                }
            }
        }
        i = i + 1;
    }
    assert(start.take(n as int) =~= start);
    assert(views(v@).take(n as int) =~= views(v@));
}

/// Keeps the elements of which `f` says so.
pub(crate) fn retain<T: View, F: Fn(&T) -> bool>(
    v: &mut Vec<T>,
    f: F,
    Ghost(keep_it): Ghost<spec_fn(T::V) -> bool>,
)
    requires
        forall|x: T| #[trigger] call_requires(f, (&x,)),
        forall|x: T, b: bool| #[trigger] call_ensures(f, (&x,), b) ==> b == keep_it(x@),
    ensures
        views(final(v)@) == keep(views(old(v)@), keep_it),
{
    let ghost start = views(v@);
    let n: usize = v.len();
    let mut i: usize = 0;
    let mut j: usize = 0;
    assert(keep(start.take(0), keep_it) =~= Seq::empty());
    assert(Seq::<T::V>::empty() + start.skip(0) =~= start);
    while j < n
        invariant
            i <= j <= n,
            start.len() == n,
            v.len() == n - j + i,
            i == keep(start.take(j as int), keep_it).len(),
            views(v@) == keep(start.take(j as int), keep_it) + start.skip(j as int),
            forall|x: T| #[trigger] call_requires(f, (&x,)),
            forall|x: T, b: bool| #[trigger] call_ensures(f, (&x,), b) ==> b == keep_it(x@),
        decreases n - j,
    {
        let ghost kept = keep(start.take(j as int), keep_it);
        let ghost prior = v@;
        proof {
            lemma_keep_take(start, j as int, keep_it);
            assert(views(prior)[i as int] == start[j as int]);
        }
        if f(&v[i]) {
            proof {
                assert(kept + start.skip(j as int) =~= kept.push(start[j as int]) + start.skip(
                    j + 1,
                ));
            }
            i = i + 1;
        } else {
            let _ = v.remove(i);
            proof {
                assert(views(v@) =~= views(prior).remove(i as int));
                assert(views(v@) =~= kept + start.skip(j + 1));
            }
        }
        j = j + 1;
    }
    assert(start.take(n as int) =~= start);
    assert(views(v@) =~= keep(start, keep_it));
}

} // verus!
