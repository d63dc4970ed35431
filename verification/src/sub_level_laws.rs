//! Which sub-levels two groups have after a split or a merge, and which SSTs these hold.
use crate::level::{CompactionGroupId, Level};
use crate::seqs::Sortable;
use crate::sstable_info::SstableInfo;
use vstd::prelude::*;

#[allow(unused_imports)]
use crate::compact::{first_at_least, id_at_least};
#[allow(unused_imports)]
use crate::delta_laws::division_keeps_order;
#[allow(unused_imports)]
use crate::level::{L0View, LevelView, LevelsView};
#[allow(unused_imports)]
use crate::maps::{gather, gathering_ignores_order, lemma_gather_insert};
#[allow(unused_imports)]
use crate::merge::{id_is, merge_keeps_sub_level_order};
#[allow(unused_imports)]
use crate::parent_group::{
    lemma_levels_shape, lemma_sub_levels_shape, split_level, Division, NEW_COMPACTION_GROUP,
};
#[allow(unused_imports)]
use crate::seqs::{first_index, lemma_first_index, sort_keeps_elements};
#[allow(unused_imports)]
use crate::sstable_info::SstView;
#[allow(unused_imports)]
use crate::version::VersionView;
#[allow(unused_imports)]
use vstd::seq_lib::lemma_multiset_commutative;

verus! {

/// The ids of sub-levels, in their order.
pub open spec fn sub_level_ids(sub_levels: Seq<LevelView>) -> Seq<u64> {
    Seq::new(sub_levels.len(), |i: int| sub_levels[i].sub_level_id)
}

/// The SSTs of a sub-level, where it has the id.
pub open spec fn ssts_if_id(sub_level_id: u64) -> spec_fn(LevelView) -> Seq<SstView> {
    |l: LevelView|
        if l.sub_level_id == sub_level_id {
            l.table_infos
        } else {
            Seq::empty()
        }
}

/// The SSTs of all sub-levels with the id.
pub open spec fn ssts_under(sub_levels: Seq<LevelView>, sub_level_id: u64) -> Seq<SstView> {
    gather(sub_levels, ssts_if_id(sub_level_id))
}

/// Putting branched SSTs into level 0 brings in no id but that of the sub-level that they come from.
proof fn lemma_placed_ids(l0: L0View, from: LevelView, ssts: Seq<SstView>, id: u64)
    requires
        l0.with_branched(from, ssts) is Some,
        sub_level_ids(l0.with_branched(from, ssts)->0.sub_levels).contains(id),
    ensures
        sub_level_ids(l0.sub_levels).contains(id) || id == from.sub_level_id,
{
    let at = first_at_least(l0.sub_levels, from.sub_level_id);
    lemma_first_index(l0.sub_levels, id_at_least(from.sub_level_id));
    let before = l0.sub_levels;
    let after = l0.with_branched(from, ssts)->0.sub_levels;
    let ids = sub_level_ids(after);
    let i = choose|i: int| 0 <= i < ids.len() && ids[i] == id;
    let found = at < before.len() && before[at].sub_level_id == from.sub_level_id;
    if ssts.len() == 0 || found || from.sub_level_id == u64::MAX {
        assert(sub_level_ids(before)[i] == id);
    } else if i < at {
        assert(sub_level_ids(before)[i] == id);
    } else if i > at {
        assert(after[i] == before[i - 1]);
        assert(sub_level_ids(before)[i - 1] == id);
    }
}

proof fn lemma_divided_ids(d: Division, n: nat, members: Set<u32>, split_key: Option<Seq<u8>>)
    requires
        n <= d.parent.l0.sub_levels.len(),
        d.with_sub_levels(n, members, split_key) is Some,
    ensures
        ({
            let r = d.with_sub_levels(n, members, split_key)->0;
            &&& sub_level_ids(r.parent.l0.sub_levels) == sub_level_ids(d.parent.l0.sub_levels)
            &&& forall|id: u64| #[trigger]
                sub_level_ids(r.target.l0.sub_levels).contains(id) ==> sub_level_ids(
                    d.target.l0.sub_levels,
                ).contains(id) || sub_level_ids(d.parent.l0.sub_levels).contains(id)
        }),
    decreases n,
{
    if n > 0 {
        let m = (n - 1) as nat;
        lemma_divided_ids(d, m, members, split_key);
        lemma_sub_levels_shape(d, m, members, split_key);
        let before = d.with_sub_levels(m, members, split_key)->0;
        let r = d.with_sub_levels(n, members, split_key)->0;
        let level = before.parent.l0.sub_levels[m as int];
        let split = split_level(level, before.next_sst_id, members, split_key)->0;
        let ids = sub_level_ids(d.parent.l0.sub_levels);
        assert(split.level.sub_level_id == level.sub_level_id);
        assert(sub_level_ids(before.parent.l0.sub_levels)[m as int] == level.sub_level_id);
        assert(sub_level_ids(r.parent.l0.sub_levels) =~= sub_level_ids(
            before.parent.l0.sub_levels,
        ));
        assert forall|id: u64| #[trigger]
            sub_level_ids(r.target.l0.sub_levels).contains(id) implies sub_level_ids(
            d.target.l0.sub_levels,
        ).contains(id) || ids.contains(id) by {
            lemma_placed_ids(before.target.l0, split.level, split.branched, id);
            assert(ids[m as int] == level.sub_level_id);
        }
    }
}

/// A split of a group leaves the parent's list of sub-level ids as it was, and each id of the new
/// group's sub-levels was one of the new group or of the parent.
pub proof fn division_keeps_sub_level_ids(
    d: Division,
    members: Set<u32>,
    split_key: Option<Seq<u8>>,
)
    requires
        d.divided(members, split_key) is Some,
    ensures
        sub_level_ids(d.divided(members, split_key)->0.parent.l0.sub_levels) == sub_level_ids(
            d.parent.l0.sub_levels,
        ),
        forall|id: u64| #[trigger]
            sub_level_ids(d.divided(members, split_key)->0.target.l0.sub_levels).contains(id)
                ==> sub_level_ids(d.target.l0.sub_levels).contains(id) || sub_level_ids(
                d.parent.l0.sub_levels,
            ).contains(id),
{
    let subs = d.parent.l0.sub_levels.len();
    let middle = d.with_sub_levels(subs, members, split_key)->0;
    lemma_sub_levels_shape(d, subs, members, split_key);
    lemma_divided_ids(d, subs, members, split_key);
    lemma_levels_shape(middle, d.parent.levels.len(), members, split_key);
}

/// Where a group is split off a parent that is there, and the sub-levels of both are in the order of
/// their ids, they stay so. The parent's list of ids stays as it was, and each id of the new group
/// was one of the new group or of the parent.
pub proof fn split_keeps_sub_level_ids(
    v: VersionView,
    parent_group_id: CompactionGroupId,
    group_id: CompactionGroupId,
    members: Set<u32>,
    new_sst_start_id: u64,
    split_key: Option<Seq<u8>>,
)
    requires
        parent_group_id != NEW_COMPACTION_GROUP,
        v.levels.dom().contains(parent_group_id),
        v.with_split_group(
            parent_group_id,
            group_id,
            members,
            new_sst_start_id,
            split_key,
        ) is Some,
        v.levels[parent_group_id].l0.ids_increase(),
        v.levels[group_id].l0.ids_increase(),
    ensures
        ({
            let r = v.with_split_group(
                parent_group_id,
                group_id,
                members,
                new_sst_start_id,
                split_key,
            )->0;
            let parent_ids = sub_level_ids(v.levels[parent_group_id].l0.sub_levels);
            &&& r.levels[parent_group_id].l0.ids_increase()
            &&& r.levels[group_id].l0.ids_increase()
            &&& sub_level_ids(r.levels[parent_group_id].l0.sub_levels) == parent_ids
            &&& forall|id: u64| #[trigger]
                sub_level_ids(r.levels[group_id].l0.sub_levels).contains(id) ==> sub_level_ids(
                    v.levels[group_id].l0.sub_levels,
                ).contains(id) || parent_ids.contains(id)
        }),
{
    let d = Division {
        parent: v.levels[parent_group_id],
        target: v.levels[group_id],
        next_sst_id: new_sst_start_id,
    };
    division_keeps_order(d, members, split_key);
    division_keeps_sub_level_ids(d, members, split_key);
}

/// What is under an id after the sub-level at a place was replaced by one of the same id that holds
/// more.
proof fn lemma_under_updated(
    levels: Seq<LevelView>,
    at: int,
    level: LevelView,
    added: Seq<SstView>,
    id: u64,
)
    requires
        0 <= at < levels.len(),
        level.sub_level_id == levels[at].sub_level_id,
        level.table_infos.to_multiset() == levels[at].table_infos.to_multiset().add(
            added.to_multiset(),
        ),
    ensures
        ssts_under(levels.update(at, level), id).to_multiset() == (if level.sub_level_id == id {
            ssts_under(levels, id).to_multiset().add(added.to_multiset())
        } else {
            ssts_under(levels, id).to_multiset()
        }),
{
    let part = ssts_if_id(id);
    let rest = levels.remove(at);
    lemma_gather_insert(rest, at, levels[at], part);
    lemma_gather_insert(rest, at, level, part);
    assert(rest.insert(at, levels[at]) =~= levels);
    assert(rest.insert(at, level) =~= levels.update(at, level));
    let after = ssts_under(levels.update(at, level), id).to_multiset();
    if level.sub_level_id == id {
        assert(after =~= ssts_under(levels, id).to_multiset().add(added.to_multiset()));
    }
}

/// SSTs added to a level are there besides those that it held.
proof fn lemma_with_ssts_multiset(level: LevelView, ssts: Seq<SstView>)
    ensures
        level.with_ssts(ssts).table_infos.to_multiset() == level.table_infos.to_multiset().add(
            ssts.to_multiset(),
        ),
{
    lemma_multiset_commutative(level.table_infos, ssts);
    sort_keeps_elements(level.table_infos + ssts, SstableInfo::before());
}

/// Merging a sub-level in adds its id, and its SSTs under that id.
proof fn lemma_merged_one(l0: L0View, other: LevelView, id: u64)
    requires
        l0.with_merged(other) is Some,
        other.sub_level_id != u64::MAX,
    ensures
        sub_level_ids(l0.with_merged(other)->0.sub_levels).contains(id) <==> sub_level_ids(
            l0.sub_levels,
        ).contains(id) || id == other.sub_level_id,
        ssts_under(l0.with_merged(other)->0.sub_levels, id).to_multiset() == ssts_under(
            l0.sub_levels,
            id,
        ).to_multiset().add(ssts_if_id(id)(other).to_multiset()),
{
    broadcast use vstd::seq_lib::group_to_multiset_ensures;

    let before = l0.sub_levels;
    let after = l0.with_merged(other)->0.sub_levels;
    let at = first_index(before, id_is(other.sub_level_id));
    lemma_first_index(before, id_is(other.sub_level_id));
    let (ids, next) = (sub_level_ids(before), sub_level_ids(after));
    let under = ssts_under(before, id).to_multiset();
    assert(Seq::<SstView>::empty().to_multiset().len() == 0);
    assert(under.add(Seq::<SstView>::empty().to_multiset()) =~= under);
    if at < before.len() {
        let level = before[at].with_ssts(other.table_infos);
        lemma_with_ssts_multiset(before[at], other.table_infos);
        lemma_under_updated(before, at, level, other.table_infos, id);
        assert(next =~= ids);
        assert(ids[at] == other.sub_level_id);
    } else {
        let n = before.len() as int;
        let level = after[n];
        lemma_gather_insert(before, n, level, ssts_if_id(id));
        assert(next =~= ids.push(other.sub_level_id));
        if ids.contains(id) {
            let i = choose|i: int| 0 <= i < ids.len() && ids[i] == id;
            assert(next[i] == id);
        }
        if next.contains(id) {
            let i = choose|i: int| 0 <= i < next.len() && next[i] == id;
            if i < n {
                assert(ids[i] == id);
            }
        }
        assert(next[n] == other.sub_level_id);
    }
}

proof fn lemma_merged_all(l0: L0View, others: Seq<LevelView>, id: u64)
    requires
        l0.with_all_merged(others) is Some,
        forall|i: int| 0 <= i < others.len() ==> (#[trigger] others[i]).sub_level_id != u64::MAX,
    ensures
        sub_level_ids(l0.with_all_merged(others)->0.sub_levels).contains(id) <==> sub_level_ids(
            l0.sub_levels,
        ).contains(id) || sub_level_ids(others).contains(id),
        ssts_under(l0.with_all_merged(others)->0.sub_levels, id).to_multiset() == ssts_under(
            l0.sub_levels,
            id,
        ).to_multiset().add(ssts_under(others, id).to_multiset()),
    decreases others.len(),
{
    broadcast use vstd::seq_lib::group_to_multiset_ensures;

    let under = ssts_under(l0.sub_levels, id).to_multiset();
    if others.len() == 0 {
        assert(ssts_under(others, id).to_multiset().len() == 0);
        assert(under.add(ssts_under(others, id).to_multiset()) =~= under);
    } else {
        let t = others.drop_last();
        assert forall|i: int| 0 <= i < t.len() implies (#[trigger] t[i]).sub_level_id
            != u64::MAX by {
            assert(others[i] == t[i]);
        }
        assert(others[others.len() - 1] == others.last());
        lemma_merged_all(l0, t, id);
        lemma_merged_one(l0.with_all_merged(t)->0, others.last(), id);
        lemma_multiset_commutative(ssts_under(t, id), ssts_if_id(id)(others.last()));
        assert(ssts_under(l0.with_all_merged(others)->0.sub_levels, id).to_multiset() =~= under.add(
            ssts_under(others, id).to_multiset(),
        ));
        let (ids, fewer) = (sub_level_ids(others), sub_level_ids(t));
        if ids.contains(id) {
            let i = choose|i: int| 0 <= i < ids.len() && ids[i] == id;
            if i < t.len() {
                assert(fewer[i] == id);
            }
        }
        if fewer.contains(id) {
            let i = choose|i: int| 0 <= i < fewer.len() && fewer[i] == id;
            assert(ids[i] == id);
        }
        assert(ids[others.len() - 1] == others.last().sub_level_id);
    }
}

/// Where each id is there once, what is under an id is what its sub-level holds.
proof fn lemma_under_one(levels: Seq<LevelView>, i: int)
    requires
        forall|a: int, b: int|
            0 <= a < b < levels.len() ==> (#[trigger] levels[a]).sub_level_id < (
            #[trigger] levels[b]).sub_level_id,
        0 <= i < levels.len(),
    ensures
        ssts_under(levels, levels[i].sub_level_id) == levels[i].table_infos,
    decreases levels.len(),
{
    let t = levels.drop_last();
    let id = levels[i].sub_level_id;
    assert forall|a: int, b: int| 0 <= a < b < t.len() implies (#[trigger] t[a]).sub_level_id < (
    #[trigger] t[b]).sub_level_id by {
        assert(levels[a] == t[a] && levels[b] == t[b]);
    }
    if i < t.len() {
        lemma_under_one(t, i);
        assert(levels[i].sub_level_id < levels[levels.len() - 1].sub_level_id);
        assert(ssts_under(levels, id) =~= t[i].table_infos);
    } else {
        assert forall|k: int| 0 <= k < t.len() implies (#[trigger] t[k]).sub_level_id != id by {
            assert(levels[k].sub_level_id < levels[i].sub_level_id);
        }
        lemma_under_none(t, id);
        assert(ssts_under(levels, id) =~= levels[i].table_infos);
    }
}

proof fn lemma_under_none(levels: Seq<LevelView>, id: u64)
    requires
        forall|i: int| 0 <= i < levels.len() ==> (#[trigger] levels[i]).sub_level_id != id,
    ensures
        ssts_under(levels, id) == Seq::<SstView>::empty(),
    decreases levels.len(),
{
    if levels.len() > 0 {
        let t = levels.drop_last();
        assert forall|i: int| 0 <= i < t.len() implies (#[trigger] t[i]).sub_level_id != id by {
            assert(levels[i] == t[i]);
        }
        lemma_under_none(t, id);
        assert(levels[levels.len() - 1].sub_level_id != id);
        assert(ssts_under(levels, id) =~= Seq::empty());
    }
}

/// Merging a group in gives the union of the ids of the sub-levels of both groups, in order, where
/// those of the first were in order and none of the second stands for no sub-level. Under each id are
/// the SSTs of both groups, each as often, and they are what the sub-level with that id holds. Level
/// 0 of the group merged in stays as it was.
pub proof fn merge_joins_sub_levels(left: LevelsView, right: LevelsView)
    requires
        left.with_merged(right) is Some,
        left.l0.ids_increase(),
        forall|i: int|
            0 <= i < right.l0.sub_levels.len() ==> (
            #[trigger] right.l0.sub_levels[i]).sub_level_id != u64::MAX,
    ensures
        ({
            let r = left.with_merged(right)->0.l0;
            let (a, b) = (left.l0.sub_levels, right.l0.sub_levels);
            &&& r.ids_increase()
            &&& forall|id: u64| #[trigger]
                sub_level_ids(r.sub_levels).contains(id) <==> sub_level_ids(a).contains(id)
                    || sub_level_ids(b).contains(id)
            &&& forall|id: u64|
                (#[trigger] ssts_under(r.sub_levels, id)).to_multiset() == ssts_under(
                    a,
                    id,
                ).to_multiset().add(ssts_under(b, id).to_multiset())
            &&& forall|i: int|
                0 <= i < r.sub_levels.len() ==> (
                #[trigger] r.sub_levels[i]).table_infos.to_multiset() == ssts_under(
                    a,
                    r.sub_levels[i].sub_level_id,
                ).to_multiset().add(ssts_under(b, r.sub_levels[i].sub_level_id).to_multiset())
        }),
        right.merged_away().l0 == right.l0,
{
    let merged = left.l0.with_all_merged(right.l0.sub_levels)->0;
    let (a, b) = (left.l0.sub_levels, right.l0.sub_levels);
    let (subs, sorted) = (merged.sub_levels, left.with_merged(right)->0.l0.sub_levels);
    merge_keeps_sub_level_order(left, right);
    sort_keeps_elements(subs, Level::before());
    assert forall|id: u64| #[trigger]
        sub_level_ids(sorted).contains(id) <==> sub_level_ids(a).contains(id) || sub_level_ids(
        b,
    ).contains(id) by {
        lemma_merged_all(left.l0, b, id);
        if sub_level_ids(subs).contains(id) {
            lemma_same_ids(subs, sorted, id);
        }
        if sub_level_ids(sorted).contains(id) {
            lemma_same_ids(sorted, subs, id);
        }
    }
    assert forall|id: u64|
        (#[trigger] ssts_under(sorted, id)).to_multiset() == ssts_under(a, id).to_multiset().add(
            ssts_under(b, id).to_multiset(),
        ) by {
        lemma_merged_all(left.l0, b, id);
        gathering_ignores_order(subs, sorted, ssts_if_id(id));
    }
    assert forall|i: int| 0 <= i < sorted.len() implies (
    #[trigger] sorted[i]).table_infos.to_multiset() == ssts_under(
        a,
        sorted[i].sub_level_id,
    ).to_multiset().add(ssts_under(b, sorted[i].sub_level_id).to_multiset()) by {
        lemma_under_one(sorted, i);
        let id = sorted[i].sub_level_id;
        assert(ssts_under(sorted, id).to_multiset() == ssts_under(a, id).to_multiset().add(
            ssts_under(b, id).to_multiset(),
        ));
    }
}

proof fn lemma_same_ids(one: Seq<LevelView>, other: Seq<LevelView>, id: u64)
    requires
        one.to_multiset() == other.to_multiset(),
        sub_level_ids(one).contains(id),
    ensures
        sub_level_ids(other).contains(id),
{
    broadcast use vstd::seq_lib::group_to_multiset_ensures;

    let ids = sub_level_ids(one);
    let i = choose|i: int| 0 <= i < ids.len() && ids[i] == id;
    assert(one.contains(one[i]));
    assert(other.to_multiset().count(one[i]) > 0);
    assert(other.contains(one[i]));
    let k = choose|k: int| 0 <= k < other.len() && other[k] == one[i];
    assert(sub_level_ids(other)[k] == id);
}

} // verus!
