//! Which SSTs a group holds after a commit or a compaction.
use crate::seqs::Sortable;
use crate::sstable_info::SstableInfo;
use vstd::prelude::*;

#[allow(unused_imports)]
use crate::compact::{first_at_least, holds_ssts, id_at_least, not_among};
#[allow(unused_imports)]
use crate::group_deltas::SummaryView;
#[allow(unused_imports)]
use crate::level::{LevelView, LevelsView};
#[allow(unused_imports)]
use crate::maps::lemma_gather_contains;
#[allow(unused_imports)]
use crate::queries::ssts_in;
#[allow(unused_imports)]
use crate::seqs::{lemma_first_index, lemma_keep_contains, lemma_sort_contains};
#[allow(unused_imports)]
use crate::sstable_info::SstView;
#[allow(unused_imports)]
use crate::version::VersionView;

verus! {

/// Whether one of the levels holds the SST.
pub open spec fn levels_hold(levels: Seq<LevelView>, sst: SstView) -> bool {
    exists|i: int| 0 <= i < levels.len() && (#[trigger] levels[i]).table_infos.contains(sst)
}

/// The SSTs of a group are those of its levels.
pub proof fn group_ssts_are_in_levels(levels: LevelsView, sst: SstView)
    ensures
        levels.ssts().contains(sst) <==> levels_hold(levels.l0.sub_levels, sst) || levels_hold(
            levels.levels,
            sst,
        ),
{
    let all = levels.newest_first();
    let subs = levels.l0.sub_levels;
    let n = subs.len() as int;
    lemma_gather_contains(all, ssts_in(), sst);
    if levels.ssts().contains(sst) {
        let i = choose|i: int| 0 <= i < all.len() && ssts_in()(#[trigger] all[i]).contains(sst);
        if i < n {
            assert(subs[n - 1 - i].table_infos.contains(sst));
        } else {
            assert(levels.levels[i - n].table_infos.contains(sst));
        }
    }
    if levels_hold(subs, sst) {
        let i = choose|i: int|
            0 <= i < subs.len() && (#[trigger] subs[i]).table_infos.contains(sst);
        assert(ssts_in()(all[n - 1 - i]).contains(sst));
    }
    if levels_hold(levels.levels, sst) {
        let i = choose|i: int|
            0 <= i < levels.levels.len() && (#[trigger] levels.levels[i]).table_infos.contains(sst);
        assert(ssts_in()(all[n + i]).contains(sst));
    }
}

/// What a list of levels holds after one of them was replaced by one that holds more.
proof fn lemma_update_holds(levels: Seq<LevelView>, i: int, level: LevelView, sst: SstView)
    requires
        0 <= i < levels.len(),
        levels[i].table_infos.contains(sst) ==> level.table_infos.contains(sst),
    ensures
        levels_hold(levels.update(i, level), sst) <==> levels_hold(levels, sst)
            || level.table_infos.contains(sst),
{
    let after = levels.update(i, level);
    assert(after[i] == level);
    if levels_hold(levels, sst) {
        let k = choose|k: int|
            0 <= k < levels.len() && (#[trigger] levels[k]).table_infos.contains(sst);
        assert(after[k].table_infos.contains(sst));
    }
    if levels_hold(after, sst) {
        let k = choose|k: int|
            0 <= k < after.len() && (#[trigger] after[k]).table_infos.contains(sst);
        if k != i {
            assert(levels[k].table_infos.contains(sst));
        }
    }
}

/// A level holds the result of a compaction besides what it held.
proof fn lemma_compacted_holds(level: LevelView, ssts: Seq<SstView>, sst: SstView)
    ensures
        level.with_compacted(ssts).table_infos.contains(sst) <==> level.table_infos.contains(sst)
            || ssts.contains(sst),
{
    let all = level.table_infos + ssts;
    lemma_sort_contains(all, SstableInfo::before(), sst);
    lemma_add_contains(level.table_infos, ssts, sst);
}

proof fn lemma_add_contains(a: Seq<SstView>, b: Seq<SstView>, sst: SstView)
    ensures
        (a + b).contains(sst) <==> a.contains(sst) || b.contains(sst),
{
    let all = a + b;
    if all.contains(sst) {
        let k = choose|k: int| 0 <= k < all.len() && all[k] == sst;
        if k < a.len() {
            assert(a[k] == sst);
        } else {
            assert(b[k - a.len()] == sst);
        }
    }
    if a.contains(sst) {
        let k = choose|k: int| 0 <= k < a.len() && a[k] == sst;
        assert(all[k] == sst);
    }
    if b.contains(sst) {
        let k = choose|k: int| 0 <= k < b.len() && b[k] == sst;
        assert(all[a.len() + k] == sst);
    }
}

/// Deleting by ids loses no SST with another id, and brings none in.
proof fn lemma_without_holds(
    levels: Seq<LevelView>,
    after: Seq<LevelView>,
    ids: Set<u64>,
    sst: SstView,
)
    requires
        after.len() == levels.len(),
        forall|i: int|
            0 <= i < levels.len() ==> (#[trigger] after[i] == levels[i] || after[i]
                == levels[i].without(ids)),
    ensures
        levels_hold(after, sst) ==> levels_hold(levels, sst),
        levels_hold(levels, sst) && !ids.contains(sst.sst_id) ==> levels_hold(after, sst),
{
    if levels_hold(after, sst) {
        let i = choose|i: int|
            0 <= i < after.len() && (#[trigger] after[i]).table_infos.contains(sst);
        lemma_keep_contains(levels[i].table_infos, not_among(ids));
        assert(levels[i].table_infos.contains(sst));
    }
    if levels_hold(levels, sst) && !ids.contains(sst.sst_id) {
        let i = choose|i: int|
            0 <= i < levels.len() && (#[trigger] levels[i]).table_infos.contains(sst);
        lemma_keep_contains(levels[i].table_infos, not_among(ids));
        assert(after[i].table_infos.contains(sst));
    }
}

/// The insertions of a compaction bring in their SSTs and lose none.
proof fn lemma_insertions_hold(
    levels: LevelsView,
    summary: SummaryView,
    members: Set<u32>,
    sst: SstView,
)
    requires
        levels.with_insertions(summary, members) is Some,
    ensures
        ({
            let r = levels.with_insertions(summary, members)->0;
            levels_hold(r.l0.sub_levels, sst) || levels_hold(r.levels, sst) <==> levels_hold(
                levels.l0.sub_levels,
                sst,
            ) || levels_hold(levels.levels, sst) || summary.insert_table_infos.contains(sst)
        }),
{
    let ssts = summary.insert_table_infos;
    let count = summary.new_vnode_partition_count;
    let r = levels.with_insertions(summary, members)->0;
    if ssts.len() == 0 {
        assert(!ssts.contains(sst));
    } else if summary.insert_sst_level_id == 0 {
        let i = first_at_least(levels.l0.sub_levels, summary.insert_sub_level_id);
        lemma_first_index(levels.l0.sub_levels, id_at_least(summary.insert_sub_level_id));
        let l = levels.l0.sub_levels[i];
        lemma_compacted_holds(l, ssts, sst);
        lemma_compacted_holds(LevelView { vnode_partition_count: count, ..l }, ssts, sst);
        lemma_update_holds(levels.l0.sub_levels, i, r.l0.sub_levels[i], sst);
    } else {
        let i = summary.insert_sst_level_id - 1;
        let l = levels.levels[i];
        lemma_compacted_holds(l, ssts, sst);
        lemma_compacted_holds(LevelView { vnode_partition_count: count, ..l }, ssts, sst);
        lemma_compacted_holds(LevelView { vnode_partition_count: 0, ..l }, ssts, sst);
        lemma_update_holds(levels.levels, i, r.levels[i], sst);
    }
}

/// A compaction that has not expired loses no SST but those whose ids it deletes, and brings in
/// those that it inserts and no others.
pub proof fn compaction_changes_named_ssts(
    levels: LevelsView,
    summary: SummaryView,
    members: Set<u32>,
    sst: SstView,
)
    requires
        levels.compacted(summary, members) is Some,
        levels.has_all(summary.delete_sst_levels, summary.delete_sst_ids),
    ensures
        summary.insert_table_infos.contains(sst) ==> levels.compacted(
            summary,
            members,
        )->0.ssts().contains(sst),
        levels.ssts().contains(sst) && !summary.delete_sst_ids.contains(sst.sst_id)
            ==> levels.compacted(summary, members)->0.ssts().contains(sst),
        levels.compacted(summary, members)->0.ssts().contains(sst) ==> levels.ssts().contains(sst)
            || summary.insert_table_infos.contains(sst),
{
    let from = summary.delete_sst_levels;
    let ids = summary.delete_sst_ids;
    let w = levels.without(from, ids);
    let g = w.with_insertions(summary, members)->0;
    let r = levels.compacted(summary, members)->0;
    group_ssts_are_in_levels(levels, sst);
    group_ssts_are_in_levels(r, sst);
    lemma_without_holds(levels.l0.sub_levels, w.l0.sub_levels, ids, sst);
    lemma_without_holds(levels.levels, w.levels, ids, sst);
    lemma_insertions_hold(w, summary, members, sst);
    if from.contains(0) {
        let all = g.l0.sub_levels;
        let left = r.l0.sub_levels;
        lemma_keep_contains(all, holds_ssts());
        if levels_hold(all, sst) {
            let i = choose|i: int|
                0 <= i < all.len() && (#[trigger] all[i]).table_infos.contains(sst);
            assert(all.contains(all[i]));
            assert(holds_ssts()(all[i]));
            assert(left.contains(all[i]));
            let k = choose|k: int| 0 <= k < left.len() && left[k] == all[i];
            assert(left[k].table_infos.contains(sst));
        }
        if levels_hold(left, sst) {
            let i = choose|i: int|
                0 <= i < left.len() && (#[trigger] left[i]).table_infos.contains(sst);
            assert(left.contains(left[i]));
            let k = choose|k: int| 0 <= k < all.len() && all[k] == left[i];
            assert(all[k].table_infos.contains(sst));
        }
    }
}

/// A commit brings in its SSTs and loses none, where their sub-level does not have the id that
/// stands for none.
pub proof fn commit_adds_its_ssts(levels: LevelsView, summary: SummaryView, sst: SstView)
    requires
        VersionView::committed(levels, summary) is Some,
        summary.insert_sub_level_id != u64::MAX || summary.insert_table_infos.len() == 0,
    ensures
        VersionView::committed(levels, summary)->0.ssts().contains(sst) <==> levels.ssts().contains(
            sst,
        ) || summary.insert_table_infos.contains(sst),
{
    let r = VersionView::committed(levels, summary)->0;
    let ssts = summary.insert_table_infos;
    group_ssts_are_in_levels(levels, sst);
    group_ssts_are_in_levels(r, sst);
    if ssts.len() == 0 {
        assert(!ssts.contains(sst));
    } else {
        let before = levels.l0.sub_levels;
        let after = r.l0.sub_levels;
        let n = before.len() as int;
        assert(after[n].table_infos == ssts);
        if levels_hold(before, sst) {
            let i = choose|i: int|
                0 <= i < before.len() && (#[trigger] before[i]).table_infos.contains(sst);
            assert(after[i].table_infos.contains(sst));
        }
        if levels_hold(after, sst) {
            let i = choose|i: int|
                0 <= i < after.len() && (#[trigger] after[i]).table_infos.contains(sst);
            if i < n {
                assert(before[i].table_infos.contains(sst));
            }
        }
    }
}

} // verus!
