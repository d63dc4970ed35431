//! What a merge of two groups leaves, stated level by level.
use crate::level::{CompactionGroupId, Level, LevelType};
use crate::seqs::Sortable;
use vstd::prelude::*;

#[allow(unused_imports)]
use crate::level::{L0View, LevelView, LevelsView};
#[allow(unused_imports)]
use crate::merge::{id_is, ssts_at};
#[allow(unused_imports)]
use crate::seqs::{lemma_first_index, lemma_sort_contains, sort_keeps_elements};
#[allow(unused_imports)]
use crate::sstable_info::{concatable, ends_before_next, raw_size, size, SstView, SstableInfo};
#[allow(unused_imports)]
use crate::valid_laws::parted;
#[allow(unused_imports)]
use crate::version::VersionView;
#[allow(unused_imports)]
use vstd::seq_lib::lemma_multiset_commutative;

verus! {

/// Whether a level is another one but for what it holds.
pub open spec fn same_place(a: LevelView, b: LevelView) -> bool {
    &&& a.level_idx == b.level_idx
    &&& a.level_type == b.level_type
    &&& a.sub_level_id == b.sub_level_id
    &&& a.vnode_partition_count == b.vnode_partition_count
}

/// Whether the SST in front of the one at `i` ends before it.
pub open spec fn apart_at(ssts: Seq<SstView>, i: int) -> bool {
    0 < i < ssts.len() ==> parted(ssts[i - 1].key_range, ssts[i].key_range)
}

/// Whether the SSTs stand in the order of their key ranges, none overlapping.
pub open spec fn all_apart(ssts: Seq<SstView>) -> bool {
    forall|i: int| #[trigger] apart_at(ssts, i)
}

/// The sum of the sizes of the SSTs.
pub open spec fn sizes(ssts: Seq<SstView>) -> int
    decreases ssts.len(),
{
    if ssts.len() == 0 {
        0
    } else {
        ssts[0].estimated_sst_size + sizes(ssts.skip(1))
    }
}

/// The sum of the sizes of the SSTs when not compressed.
pub open spec fn raw_sizes(ssts: Seq<SstView>) -> int
    decreases ssts.len(),
{
    if ssts.len() == 0 {
        0
    } else {
        ssts[0].uncompressed_file_size + raw_sizes(ssts.skip(1))
    }
}

/// Whether each sub-level has an id of its own.
pub open spec fn ids_differ(subs: Seq<LevelView>) -> bool {
    forall|i: int, j: int|
        0 <= i < j < subs.len() ==> (#[trigger] subs[i]).sub_level_id != (
        #[trigger] subs[j]).sub_level_id
}

/// Whether one of the sub-levels has the id.
pub open spec fn has_id(subs: Seq<LevelView>, sub_level_id: u64) -> bool {
    exists|i: int| 0 <= i < subs.len() && (#[trigger] subs[i]).sub_level_id == sub_level_id
}

/// Whether a level is another one with the SSTs added: behind those that it holds, or in the order
/// of their key ranges where it lets none overlap.
pub open spec fn joined(before: LevelView, ssts: Seq<SstView>, after: LevelView) -> bool {
    &&& same_place(after, before)
    &&& after.table_infos.to_multiset() == before.table_infos.to_multiset().add(
        ssts.to_multiset(),
    )
    &&& before.level_type == LevelType::Nonoverlapping ==> all_apart(after.table_infos)
    &&& before.level_type != LevelType::Nonoverlapping ==> after.table_infos == before.table_infos
        + ssts
    &&& after.total_file_size == before.total_file_size + sizes(ssts)
    &&& after.uncompressed_file_size == before.uncompressed_file_size + raw_sizes(ssts)
}

/// Whether a sub-level is a new one for another group's.
pub open spec fn taken_over(from: LevelView, after: LevelView) -> bool {
    &&& after.sub_level_id == from.sub_level_id
    &&& after.level_type == from.level_type
    &&& after.table_infos == from.table_infos
    &&& after.level_idx == 0
    &&& after.vnode_partition_count == 0
    &&& after.total_file_size == sizes(from.table_infos)
    &&& after.uncompressed_file_size == raw_sizes(from.table_infos)
}

/// Sums of sizes go from the front as from the end.
pub proof fn lemma_sizes(ssts: Seq<SstView>)
    ensures
        crate::seqs::total(ssts, size()) == sizes(ssts),
        crate::seqs::total(ssts, raw_size()) == raw_sizes(ssts),
        0 <= sizes(ssts),
        0 <= raw_sizes(ssts),
    decreases ssts.len(),
{
    if ssts.len() > 0 {
        let front = seq![ssts[0]];
        lemma_sizes(ssts.skip(1));
        assert(front + ssts.skip(1) =~= ssts);
        assert(front =~= Seq::empty().push(ssts[0]));
        crate::seqs::lemma_total_push(Seq::empty(), ssts[0], size());
        crate::seqs::lemma_total_push(Seq::empty(), ssts[0], raw_size());
        crate::seqs::lemma_total_add(front, ssts.skip(1), size());
        crate::seqs::lemma_total_add(front, ssts.skip(1), raw_size());
    }
}

/// SSTs that can stand behind each other are apart.
pub proof fn lemma_concatable_apart(ssts: Seq<SstView>)
    requires
        concatable(ssts),
    ensures
        all_apart(ssts),
{
    assert forall|i: int| #[trigger] apart_at(ssts, i) by {
        if 0 < i < ssts.len() {
            assert(ends_before_next(ssts, i));
        }
    }
}

proof fn lemma_joined_sub_level(before: LevelView, ssts: Seq<SstView>)
    requires
        before.has_room_for(ssts),
        before.level_type == LevelType::Nonoverlapping ==> concatable(
            before.with_ssts(ssts).table_infos,
        ),
    ensures
        joined(before, ssts, before.with_ssts(ssts)),
{
    lemma_sizes(ssts);
    lemma_multiset_commutative(before.table_infos, ssts);
    sort_keeps_elements(before.table_infos + ssts, SstableInfo::before());
    if before.level_type == LevelType::Nonoverlapping {
        lemma_concatable_apart(before.with_ssts(ssts).table_infos);
    }
}

/// Whether the first sub-levels are those of the left group with those of the right one that have
/// the same ids joined in, and the others those of the right group whose ids the left one lacks.
spec fn merged_so_far(left: Seq<LevelView>, right: Seq<LevelView>, r: Seq<LevelView>) -> bool {
    &&& r.len() >= left.len()
    &&& forall|i: int| 0 <= i < left.len() ==> #[trigger] follows(left, right, r, i)
    &&& forall|j: int| 0 <= j < right.len() ==> #[trigger] brought(left, right, r, j)
    &&& forall|k: int| left.len() <= k < r.len() ==> #[trigger] from_right(left, right, r[k])
}

spec fn follows(
    left: Seq<LevelView>,
    right: Seq<LevelView>,
    r: Seq<LevelView>,
    i: int,
) -> bool {
    &&& !has_id(right, left[i].sub_level_id) ==> r[i] == left[i]
    &&& forall|j: int|
        0 <= j < right.len() && (#[trigger] right[j]).sub_level_id == left[i].sub_level_id
            ==> joined(left[i], right[j].table_infos, r[i])
}

spec fn brought(
    left: Seq<LevelView>,
    right: Seq<LevelView>,
    r: Seq<LevelView>,
    j: int,
) -> bool {
    !has_id(left, right[j].sub_level_id) && right[j].sub_level_id != u64::MAX ==> exists|k: int|
        left.len() <= k < r.len() && taken_over(right[j], #[trigger] r[k])
}

spec fn from_right(left: Seq<LevelView>, right: Seq<LevelView>, s: LevelView) -> bool {
    exists|j: int|
        0 <= j < right.len() && taken_over(#[trigger] right[j], s) && !has_id(
            left,
            right[j].sub_level_id,
        )
}

proof fn lemma_followed_id(
    left: Seq<LevelView>,
    right: Seq<LevelView>,
    r: Seq<LevelView>,
    i: int,
)
    requires
        0 <= i < left.len(),
        follows(left, right, r, i),
    ensures
        r[i].sub_level_id == left[i].sub_level_id,
{
    if has_id(right, left[i].sub_level_id) {
        let j = choose|j: int|
            0 <= j < right.len() && (#[trigger] right[j]).sub_level_id == left[i].sub_level_id;
        assert(joined(left[i], right[j].table_infos, r[i]));
    }
}

proof fn lemma_has_id_push(subs: Seq<LevelView>, x: LevelView, id: u64)
    ensures
        has_id(subs.push(x), id) <==> has_id(subs, id) || x.sub_level_id == id,
{
    let all = subs.push(x);
    assert(all[subs.len() as int] == x);
    if has_id(all, id) {
        let k = choose|k: int| 0 <= k < all.len() && (#[trigger] all[k]).sub_level_id == id;
        if k < subs.len() {
            assert(subs[k].sub_level_id == id);
        }
    }
    if has_id(subs, id) {
        let k = choose|k: int| 0 <= k < subs.len() && (#[trigger] subs[k]).sub_level_id == id;
        assert(all[k].sub_level_id == id);
    }
}

proof fn lemma_from_right_push(
    left: Seq<LevelView>,
    right: Seq<LevelView>,
    o: LevelView,
    s: LevelView,
)
    requires
        from_right(left, right, s),
    ensures
        from_right(left, right.push(o), s),
{
    let j = choose|j: int|
        0 <= j < right.len() && taken_over(#[trigger] right[j], s) && !has_id(
            left,
            right[j].sub_level_id,
        );
    assert(right.push(o)[j] == right[j]);
}

/// The sub-level joins one of the left group.
proof fn lemma_joining_step(
    a: Seq<LevelView>,
    right: Seq<LevelView>,
    o: LevelView,
    r: Seq<LevelView>,
    at: int,
)
    requires
        ids_differ(a),
        !has_id(right, o.sub_level_id),
        merged_so_far(a, right, r),
        0 <= at < a.len(),
        a[at].sub_level_id == o.sub_level_id,
        joined(a[at], o.table_infos, r[at].with_ssts(o.table_infos)),
    ensures
        merged_so_far(a, right.push(o), r.update(at, r[at].with_ssts(o.table_infos))),
{
    let b = right.push(o);
    let s = r.update(at, r[at].with_ssts(o.table_infos));
    assert forall|i: int| 0 <= i < a.len() implies #[trigger] follows(a, b, s, i) by {
        assert(follows(a, right, r, i));
        lemma_has_id_push(right, o, a[i].sub_level_id);
        assert forall|j: int|
            0 <= j < b.len() && (#[trigger] b[j]).sub_level_id == a[i].sub_level_id implies joined(
            a[i],
            b[j].table_infos,
            s[i],
        ) by {
            if j < right.len() {
                assert(right[j] == b[j]);
                assert(i != at);
            } else {
                assert(b[j] == o);
                if i < at {
                    assert(a[i].sub_level_id != a[at].sub_level_id);
                }
                if at < i {
                    assert(a[at].sub_level_id != a[i].sub_level_id);
                }
            }
        }
    }
    assert(has_id(a, o.sub_level_id));
    assert forall|j: int| 0 <= j < b.len() implies #[trigger] brought(a, b, s, j) by {
        if j < right.len() {
            assert(brought(a, right, r, j));
            assert(right[j] == b[j]);
            if !has_id(a, right[j].sub_level_id) && right[j].sub_level_id != u64::MAX {
                let k = choose|k: int|
                    a.len() <= k < r.len() && taken_over(right[j], #[trigger] r[k]);
                assert(s[k] == r[k]);
            }
        }
    }
    assert forall|k: int| a.len() <= k < s.len() implies #[trigger] from_right(a, b, s[k]) by {
        assert(from_right(a, right, r[k]));
        lemma_from_right_push(a, right, o, r[k]);
    }
}

/// The sub-level comes as a new one, or not at all.
proof fn lemma_appending_step(
    a: Seq<LevelView>,
    right: Seq<LevelView>,
    o: LevelView,
    r: Seq<LevelView>,
    s: Seq<LevelView>,
)
    requires
        !has_id(a, o.sub_level_id),
        merged_so_far(a, right, r),
        o.sub_level_id == u64::MAX ==> s == r,
        o.sub_level_id != u64::MAX ==> s.len() == r.len() + 1 && s.drop_last() == r && taken_over(
            o,
            s.last(),
        ),
    ensures
        merged_so_far(a, right.push(o), s),
{
    let b = right.push(o);
    assert forall|k: int| 0 <= k < r.len() implies #[trigger] s[k] == r[k] by {
        if o.sub_level_id != u64::MAX {
            assert(s.drop_last()[k] == s[k]);
        }
    }
    assert forall|i: int| 0 <= i < a.len() implies #[trigger] follows(a, b, s, i) by {
        assert(follows(a, right, r, i));
        assert(s[i] == r[i]);
        lemma_has_id_push(right, o, a[i].sub_level_id);
        assert forall|j: int|
            0 <= j < b.len() && (#[trigger] b[j]).sub_level_id == a[i].sub_level_id implies joined(
            a[i],
            b[j].table_infos,
            s[i],
        ) by {
            if j < right.len() {
                assert(right[j] == b[j]);
            } else {
                assert(a[i].sub_level_id == o.sub_level_id);
            }
        }
    }
    assert forall|j: int| 0 <= j < b.len() implies #[trigger] brought(a, b, s, j) by {
        if j < right.len() {
            assert(brought(a, right, r, j));
            assert(right[j] == b[j]);
            if !has_id(a, right[j].sub_level_id) && right[j].sub_level_id != u64::MAX {
                let k = choose|k: int|
                    a.len() <= k < r.len() && taken_over(right[j], #[trigger] r[k]);
                assert(s[k] == r[k]);
            }
        } else if o.sub_level_id != u64::MAX {
            assert(taken_over(b[j], s[r.len() as int]));
        }
    }
    assert forall|k: int| a.len() <= k < s.len() implies #[trigger] from_right(a, b, s[k]) by {
        if k < r.len() {
            assert(s[k] == r[k]);
            assert(from_right(a, right, r[k]));
            lemma_from_right_push(a, right, o, r[k]);
        } else {
            assert(s[k] == s.last());
            assert(taken_over(b[right.len() as int], s[k]));
        }
    }
}

proof fn lemma_merged_step(left: L0View, right: Seq<LevelView>, o: LevelView, l0: L0View)
    requires
        ids_differ(left.sub_levels),
        !has_id(right, o.sub_level_id),
        merged_so_far(left.sub_levels, right, l0.sub_levels),
        l0.with_merged(o) is Some,
    ensures
        merged_so_far(left.sub_levels, right.push(o), l0.with_merged(o)->0.sub_levels),
{
    let (a, r) = (left.sub_levels, l0.sub_levels);
    let s = l0.with_merged(o)->0.sub_levels;
    let at = crate::seqs::first_index(r, id_is(o.sub_level_id));
    lemma_first_index(r, id_is(o.sub_level_id));
    if at < r.len() {
        assert(id_is(o.sub_level_id)(r[at]));
        if at >= a.len() {
            assert(from_right(a, right, r[at]));
            let j = choose|j: int|
                0 <= j < right.len() && taken_over(#[trigger] right[j], r[at]) && !has_id(
                    a,
                    right[j].sub_level_id,
                );
            assert(right[j].sub_level_id == o.sub_level_id);
        }
        assert(follows(a, right, r, at));
        lemma_followed_id(a, right, r, at);
        assert(r[at] == a[at]);
        lemma_joined_sub_level(a[at], o.table_infos);
        lemma_joining_step(a, right, o, r, at);
    } else {
        if has_id(a, o.sub_level_id) {
            let i = choose|i: int|
                0 <= i < a.len() && (#[trigger] a[i]).sub_level_id == o.sub_level_id;
            assert(follows(a, right, r, i));
            lemma_followed_id(a, right, r, i);
            assert(id_is(o.sub_level_id)(r[i]));
        }
        lemma_sizes(o.table_infos);
        if o.sub_level_id != u64::MAX {
            assert(s.drop_last() =~= r);
        }
        lemma_appending_step(a, right, o, r, s);
    }
}

proof fn lemma_merged_all(left: L0View, right: Seq<LevelView>)
    requires
        ids_differ(left.sub_levels),
        ids_differ(right),
        left.with_all_merged(right) is Some,
    ensures
        merged_so_far(left.sub_levels, right, left.with_all_merged(right)->0.sub_levels),
    decreases right.len(),
{
    if right.len() > 0 {
        let t = right.drop_last();
        assert(t.push(right.last()) =~= right);
        assert(ids_differ(t)) by {
            assert forall|i: int, j: int| 0 <= i < j < t.len() implies (
            #[trigger] t[i]).sub_level_id != (#[trigger] t[j]).sub_level_id by {
                assert(right[i].sub_level_id != right[j].sub_level_id);
            }
        }
        lemma_merged_all(left, t);
        if has_id(t, right.last().sub_level_id) {
            let k = choose|k: int|
                0 <= k < t.len() && (#[trigger] t[k]).sub_level_id == right.last().sub_level_id;
            assert(right[k].sub_level_id != right[right.len() - 1].sub_level_id);
        }
        lemma_merged_step(left, t, right.last(), left.with_all_merged(t)->0);
    } else {
        assert forall|i: int| 0 <= i < left.sub_levels.len() implies #[trigger] follows(
            left.sub_levels,
            right,
            left.sub_levels,
            i,
        ) by {}
    }
}

/// After a merge, a sub-level whose id the left group had keeps its level type, its number and its
/// partition count, and holds what both groups had under that id; it stays as it was where the right
/// group lacks the id. A sub-level whose id only the right group had comes with the level type and
/// the SSTs that it had there; the largest id stands for no sub-level. No other sub-level is there.
pub proof fn merged_sub_levels_keep_their_kind(left: LevelsView, right: LevelsView)
    requires
        left.with_merged(right) is Some,
        ids_differ(left.l0.sub_levels),
        ids_differ(right.l0.sub_levels),
    ensures
        ({
            let r = left.with_merged(right)->0.l0.sub_levels;
            let (a, b) = (left.l0.sub_levels, right.l0.sub_levels);
            &&& forall|i: int|
                0 <= i < a.len() && !has_id(b, (#[trigger] a[i]).sub_level_id) ==> r.contains(a[i])
            &&& forall|i: int, j: int|
                0 <= i < a.len() && 0 <= j < b.len() && (#[trigger] a[i]).sub_level_id == (
                #[trigger] b[j]).sub_level_id ==> exists|k: int|
                    0 <= k < r.len() && joined(a[i], b[j].table_infos, #[trigger] r[k])
            &&& forall|j: int|
                0 <= j < b.len() && !has_id(a, (#[trigger] b[j]).sub_level_id)
                    && b[j].sub_level_id != u64::MAX ==> exists|k: int|
                    0 <= k < r.len() && taken_over(b[j], #[trigger] r[k])
            &&& forall|k: int|
                0 <= k < r.len() ==> has_id(a, (#[trigger] r[k]).sub_level_id) || has_id(
                    b,
                    r[k].sub_level_id,
                )
            &&& forall|k: int, i: int|
                0 <= k < r.len() && 0 <= i < a.len() && (#[trigger] r[k]).sub_level_id == (
                #[trigger] a[i]).sub_level_id ==> same_place(r[k], a[i])
            &&& forall|k: int, j: int|
                0 <= k < r.len() && 0 <= j < b.len() && !has_id(a, (#[trigger] r[k]).sub_level_id)
                    && r[k].sub_level_id == (#[trigger] b[j]).sub_level_id ==> taken_over(
                    b[j],
                    r[k],
                )
        }),
{
    let merged = left.l0.with_all_merged(right.l0.sub_levels)->0;
    let r = left.with_merged(right)->0.l0.sub_levels;
    let (a, b, m) = (left.l0.sub_levels, right.l0.sub_levels, merged.sub_levels);
    lemma_merged_all(left.l0, b);
    assert(r == crate::seqs::sort_seq(m, Level::before()));
    assert forall|x: LevelView| #[trigger] m.contains(x) <==> r.contains(x) by {
        lemma_sort_contains(m, Level::before(), x);
    }
    assert forall|i: int| 0 <= i < a.len() implies m.contains(#[trigger] m[i]) && follows(
        a,
        b,
        m,
        i,
    ) by {}
    assert forall|i: int| 0 <= i < a.len() && !has_id(b, (#[trigger] a[i]).sub_level_id) implies
        r.contains(a[i]) by {
        assert(follows(a, b, m, i));
        assert(m[i] == a[i]);
        assert(m.contains(m[i]));
    }
    assert forall|i: int, j: int|
        0 <= i < a.len() && 0 <= j < b.len() && (#[trigger] a[i]).sub_level_id == (
        #[trigger] b[j]).sub_level_id implies exists|k: int|
        0 <= k < r.len() && joined(a[i], b[j].table_infos, #[trigger] r[k]) by {
        assert(follows(a, b, m, i));
        assert(joined(a[i], b[j].table_infos, m[i]));
        assert(m.contains(m[i]));
        let k = choose|k: int| 0 <= k < r.len() && r[k] == m[i];
        assert(joined(a[i], b[j].table_infos, r[k]));
    }
    assert forall|j: int|
        0 <= j < b.len() && !has_id(a, (#[trigger] b[j]).sub_level_id) && b[j].sub_level_id
            != u64::MAX implies exists|k: int|
        0 <= k < r.len() && taken_over(b[j], #[trigger] r[k]) by {
        assert(brought(a, b, m, j));
        let p = choose|p: int| a.len() <= p < m.len() && taken_over(b[j], #[trigger] m[p]);
        assert(m.contains(m[p]));
        let k = choose|k: int| 0 <= k < r.len() && r[k] == m[p];
        assert(taken_over(b[j], r[k]));
    }
    assert forall|k: int| 0 <= k < r.len() implies comes_from(a, b, #[trigger] r[k]) by {
        assert(r.contains(r[k]));
        assert(m.contains(r[k]));
        let p = choose|p: int| 0 <= p < m.len() && m[p] == r[k];
        if p < a.len() {
            assert(follows(a, b, m, p));
            lemma_followed_id(a, b, m, p);
            if has_id(b, a[p].sub_level_id) {
                let j = choose|j: int|
                    0 <= j < b.len() && (#[trigger] b[j]).sub_level_id == a[p].sub_level_id;
                assert(joined(a[p], b[j].table_infos, m[p]));
            }
            assert(same_place(r[k], a[p]));
        } else {
            assert(from_right(a, b, m[p]));
        }
    }
    assert forall|k: int, i: int|
        0 <= k < r.len() && 0 <= i < a.len() && (#[trigger] r[k]).sub_level_id == (
        #[trigger] a[i]).sub_level_id implies same_place(r[k], a[i]) by {
        assert(comes_from(a, b, r[k]));
        assert(has_id(a, r[k].sub_level_id));
    }
    assert forall|k: int, j: int|
        0 <= k < r.len() && 0 <= j < b.len() && !has_id(a, (#[trigger] r[k]).sub_level_id)
            && r[k].sub_level_id == (#[trigger] b[j]).sub_level_id implies taken_over(
        b[j],
        r[k],
    ) by {
        assert(comes_from(a, b, r[k]));
    }
}

/// Where a sub-level comes from.
spec fn comes_from(left: Seq<LevelView>, right: Seq<LevelView>, s: LevelView) -> bool {
    ||| exists|i: int| 0 <= i < left.len() && same_place(s, #[trigger] left[i])
    ||| from_right(left, right, s)
}

/// After a merge, each level above 0 of the left group holds its SSTs and those of the right group's
/// level at the same place, in the order of their key ranges and none overlapping; where the right
/// group has none there, the level stays as it was. The group itself stays the same one.
pub proof fn merged_levels_keep_their_place(left: LevelsView, right: LevelsView)
    requires
        left.with_merged(right) is Some,
    ensures
        ({
            let r = left.with_merged(right)->0;
            let (a, b) = (left.levels, right.levels);
            &&& r.group_id == left.group_id
            &&& r.parent_group_id == left.parent_group_id
            &&& r.member_table_ids == left.member_table_ids
            &&& r.levels.len() == a.len()
            &&& forall|i: int|
                0 <= i < a.len() && (i < b.len() ==> b[i].table_infos.len() == 0)
                    ==> #[trigger] r.levels[i] == a[i]
            &&& forall|i: int|
                0 <= i < b.len() && (#[trigger] b[i]).table_infos.len() > 0 ==> i < a.len()
                    && same_place(r.levels[i], a[i]) && all_apart(r.levels[i].table_infos)
                    && r.levels[i].table_infos.to_multiset()
                    == a[i].table_infos.to_multiset().add(b[i].table_infos.to_multiset())
                    && r.levels[i].total_file_size == a[i].total_file_size + sizes(
                    b[i].table_infos,
                ) && r.levels[i].uncompressed_file_size == a[i].uncompressed_file_size
                    + raw_sizes(b[i].table_infos)
        }),
{
    let r = left.with_merged(right)->0;
    let (a, b) = (left.levels, right.levels);
    assert forall|i: int| 0 <= i < a.len() && (i < b.len() ==> b[i].table_infos.len() == 0) implies
        #[trigger] r.levels[i] == a[i] by {
        assert(r.levels[i] == a[i].with_merged(ssts_at(b, i)));
    }
    assert forall|i: int| 0 <= i < b.len() && (#[trigger] b[i]).table_infos.len() > 0 implies i
        < a.len() && same_place(r.levels[i], a[i]) && all_apart(r.levels[i].table_infos)
        && r.levels[i].table_infos.to_multiset() == a[i].table_infos.to_multiset().add(
        b[i].table_infos.to_multiset(),
    ) && r.levels[i].total_file_size == a[i].total_file_size + sizes(b[i].table_infos)
        && r.levels[i].uncompressed_file_size == a[i].uncompressed_file_size + raw_sizes(
        b[i].table_infos,
    ) by {
        let ssts = b[i].table_infos;
        assert(r.levels[i] == a[i].with_merged(ssts_at(b, i)));
        assert(a[i].takes_merged(ssts));
        lemma_sizes(ssts);
        lemma_multiset_commutative(a[i].table_infos, ssts);
        sort_keeps_elements(a[i].table_infos + ssts, SstableInfo::before());
        lemma_concatable_apart(r.levels[i].table_infos);
    }
}

/// A merge of two groups of a version leaves every other group, and all else, as it was. Of the
/// group merged in, the levels above 0 lose their SSTs and nothing else changes.
pub proof fn merge_leaves_other_groups(
    version: VersionView,
    left_group_id: CompactionGroupId,
    right_group_id: CompactionGroupId,
)
    requires
        version.with_merged_groups(left_group_id, right_group_id) is Some,
    ensures
        ({
            let r = version.with_merged_groups(left_group_id, right_group_id)->0;
            let (before, after) = (version.levels[right_group_id], r.levels[right_group_id]);
            &&& left_group_id != right_group_id
            &&& version.levels.dom().contains(left_group_id)
            &&& version.levels.dom().contains(right_group_id)
            &&& version.levels[left_group_id].with_merged(version.levels[right_group_id]) == Some(
                r.levels[left_group_id],
            )
            &&& r == (VersionView { levels: r.levels, ..version })
            &&& r.levels.dom() == version.levels.dom()
            &&& forall|g: CompactionGroupId|
                #[trigger] version.levels.dom().contains(g) && g != left_group_id && g
                    != right_group_id ==> r.levels[g] == version.levels[g]
            &&& after == (LevelsView { levels: after.levels, ..before })
            &&& after.levels.len() == before.levels.len()
            &&& forall|i: int|
                0 <= i < before.levels.len() ==> #[trigger] after.levels[i] == (LevelView {
                    table_infos: Seq::empty(),
                    ..before.levels[i]
                })
        }),
{
    let r = version.with_merged_groups(left_group_id, right_group_id)->0;
    assert(r.levels.dom() =~= version.levels.dom());
}

} // verus!
