//! When a delta leaves the sizes of all levels those of their SSTs.
use crate::level::CompactionGroupId;
use vstd::prelude::*;

#[allow(unused_imports)]
use crate::apply::members_after_all;
#[allow(unused_imports)]
use crate::compact::compaction_keeps_counts;
#[allow(unused_imports)]
use crate::division_laws::division_keeps_target_counts;
#[allow(unused_imports)]
use crate::group_deltas::{
    summary_of, CompatibilityVersion, GroupConstructView, GroupDeltaView, GroupTableChangeView,
    SummaryView,
};
#[allow(unused_imports)]
use crate::initial::initial_levels_are_counted;
#[allow(unused_imports)]
use crate::level::{level_raw_size, level_size, LevelType, LevelView, LevelsView};
#[allow(unused_imports)]
use crate::merge::merge_keeps_counts;
#[allow(unused_imports)]
use crate::parent_group::{
    has_tables, lacks_tables, lemma_levels_shape, lemma_sub_levels_shape, split_level, Division,
    NEW_COMPACTION_GROUP,
};
#[allow(unused_imports)]
use crate::seqs::{keep, lemma_total_push, lemma_total_update, total};
#[allow(unused_imports)]
use crate::split::remaining_ssts;
#[allow(unused_imports)]
use crate::sstable_info::{raw_size, size, SstView};
#[allow(unused_imports)]
use crate::sub_level::{lemma_sizes_not_negative, new_sub_level_keeps_counts};
#[allow(unused_imports)]
use crate::version::{info_after, tables_of, VersionDeltaView, VersionView};

verus! {

/// A sum over all SSTs is that over those with tables and that over those without.
proof fn lemma_total_parts(ssts: Seq<SstView>, f: spec_fn(SstView) -> int)
    ensures
        total(ssts, f) == total(keep(ssts, has_tables()), f) + total(
            keep(ssts, lacks_tables()),
            f,
        ),
    decreases ssts.len(),
{
    if ssts.len() > 0 {
        let t = ssts.drop_last();
        lemma_total_parts(t, f);
        lemma_total_push(keep(t, has_tables()), ssts.last(), f);
        lemma_total_push(keep(t, lacks_tables()), ssts.last(), f);
    }
}

/// Counting SSTs without tables out leaves a sub-level counted.
proof fn lemma_purged_counted(level: LevelView)
    requires
        level.counted(),
    ensures
        level.purged().counted(),
        level.purged().total_file_size == level.total_file_size - total(level.husks(), size()),
        level.purged().uncompressed_file_size == level.uncompressed_file_size - total(
            level.husks(),
            raw_size(),
        ),
{
    lemma_total_parts(level.table_infos, size());
    lemma_total_parts(level.table_infos, raw_size());
    lemma_sizes_not_negative(level.husks());
    lemma_sizes_not_negative(keep(level.table_infos, has_tables()));
}

/// SSTs that stay where tables move keep their sizes.
proof fn lemma_remaining_sizes(ssts: Seq<SstView>, members: Set<u32>, new_sst_id: u64)
    ensures
        total(remaining_ssts(ssts, members, new_sst_id), size()) == total(ssts, size()),
        total(remaining_ssts(ssts, members, new_sst_id), raw_size()) == total(ssts, raw_size()),
    decreases ssts.len(),
{
    if ssts.len() > 0 {
        let t = ssts.drop_last();
        lemma_remaining_sizes(t, members, new_sst_id);
        let before = remaining_ssts(t, members, new_sst_id);
        let all = remaining_ssts(ssts, members, new_sst_id);
        lemma_total_push(before, all.last(), size());
        lemma_total_push(before, all.last(), raw_size());
        assert(all == before.push(all.last()));
    }
}

/// Moving tables out of sub-levels leaves the parent's level 0 counted.
proof fn lemma_parent_counted(d: Division, n: nat, members: Set<u32>)
    requires
        n <= d.parent.l0.sub_levels.len(),
        d.with_sub_levels(n, members, None) is Some,
        d.parent.l0.counted(),
    ensures
        d.with_sub_levels(n, members, None)->0.parent.l0.counted(),
    decreases n,
{
    if n > 0 {
        let m = (n - 1) as nat;
        lemma_parent_counted(d, m, members);
        lemma_sub_levels_shape(d, m, members, None);
        let before = d.with_sub_levels(m, members, None)->0;
        let after = d.with_sub_levels(n, members, None)->0;
        let l0 = before.parent.l0;
        let prior = l0.sub_levels[m as int];
        let level = split_level(prior, before.next_sst_id, members, None)->0.level;
        assert(prior.counted());
        lemma_remaining_sizes(prior.table_infos, members, before.next_sst_id);
        assert(level.counted());
        lemma_purged_counted(level);
        lemma_sizes_not_negative(level.husks());
        lemma_total_update(l0.sub_levels, m as int, level.purged(), level_size());
        lemma_total_update(l0.sub_levels, m as int, level.purged(), level_raw_size());
        assert forall|i: int| 0 <= i < after.parent.l0.sub_levels.len() implies (
        #[trigger] after.parent.l0.sub_levels[i]).counted() by {
            if i != m {
                assert(l0.sub_levels[i].counted());
            }
        }
    }
}

/// Moving tables out of a group leaves the sizes of all levels of both groups those of their SSTs.
pub proof fn move_keeps_counts(d: Division, members: Set<u32>)
    requires
        d.divided(members, None) is Some,
        d.parent.counted(),
        d.target.counted(),
    ensures
        d.divided(members, None)->0.parent.counted(),
        d.divided(members, None)->0.target.counted(),
{
    let subs = d.parent.l0.sub_levels.len();
    let middle = d.with_sub_levels(subs, members, None)->0;
    lemma_sub_levels_shape(d, subs, members, None);
    lemma_parent_counted(d, subs, members);
    lemma_levels_shape(middle, d.parent.levels.len(), members, None);
    division_keeps_target_counts(d, members, None);
}

impl VersionView {
    /// Whether the sizes of all levels are those of their SSTs.
    pub open spec fn counted(self) -> bool {
        forall|g: CompactionGroupId| #[trigger]
            self.levels.dom().contains(g) ==> self.levels[g].counted()
    }

    /// Whether that holds but for one group.
    pub open spec fn counted_but(self, left_out: Option<CompactionGroupId>) -> bool {
        forall|g: CompactionGroupId| #[trigger]
            self.levels.dom().contains(g) && left_out != Some(g) ==> self.levels[g].counted()
    }
}

/// Whether a summary adds no SSTs to level 0 unless it deletes some there.
pub open spec fn counts_level_zero(s: SummaryView) -> bool {
    s.insert_table_infos.len() > 0 && s.insert_sst_level_id == 0
        ==> s.delete_sst_levels.contains(0)
}

/// Whether a summary splits no group at a key.
pub open spec fn splits_at_no_key(s: SummaryView) -> bool {
    s.group_construct is Some ==> s.group_construct->0.split_key is None
}

/// Whether the changes to each group split none at a key, and add no SSTs to level 0 by a compaction
/// that deletes none there.
pub open spec fn counts_kept(v: VersionView, delta: VersionDeltaView) -> bool {
    forall|g: CompactionGroupId| #[trigger]
        delta.group_deltas.dom().contains(g) && summary_of(delta.group_deltas[g], g) is Some ==> {
            let s = summary_of(delta.group_deltas[g], g)->0;
            &&& splits_at_no_key(s)
            &&& v.max_committed_epoch < delta.max_committed_epoch || counts_level_zero(s)
        }
}

proof fn lemma_split_counted(
    v: VersionView,
    parent_group_id: CompactionGroupId,
    group_id: CompactionGroupId,
    members: Set<u32>,
    new_sst_start_id: u64,
)
    requires
        v.counted(),
        v.with_split_group(parent_group_id, group_id, members, new_sst_start_id, None) is Some,
    ensures
        v.with_split_group(
            parent_group_id,
            group_id,
            members,
            new_sst_start_id,
            None,
        )->0.counted(),
{
    if parent_group_id != NEW_COMPACTION_GROUP && v.levels.dom().contains(parent_group_id) {
        let d = Division {
            parent: v.levels[parent_group_id],
            target: v.levels[group_id],
            next_sst_id: new_sst_start_id,
        };
        move_keeps_counts(d, members);
        let r = v.with_split_group(
            parent_group_id,
            group_id,
            members,
            new_sst_start_id,
            None,
        )->0;
        assert forall|g: CompactionGroupId| #[trigger]
            r.levels.dom().contains(g) implies r.levels[g].counted() by {
            if g != parent_group_id && g != group_id {
                assert(v.levels.dom().contains(g));
            }
        }
    }
}

proof fn lemma_constructed_counted(
    v: VersionView,
    group_id: CompactionGroupId,
    construct: GroupConstructView,
)
    requires
        v.counted(),
        v.with_constructed(group_id, construct) is Some,
        construct.split_key is None,
    ensures
        v.with_constructed(group_id, construct)->0.counted(),
{
    let config = construct.group_config->0;
    let levels = LevelsView {
        parent_group_id: construct.parent_group_id,
        member_table_ids: construct.table_ids,
        ..LevelsView::initial(group_id, config.max_level)
    };
    initial_levels_are_counted(group_id, config.max_level);
    assert(levels.counted());
    let begun = VersionView { levels: v.levels.insert(group_id, levels), ..v };
    assert forall|g: CompactionGroupId| #[trigger]
        begun.levels.dom().contains(g) implies begun.levels[g].counted() by {
        if g != group_id {
            assert(v.levels.dom().contains(g));
        }
    }
    let members = if construct.version >= CompatibilityVersion::NoMemberTableIds.number() {
        tables_of(v.state_table_info, group_id)
    } else {
        construct.table_ids.to_set()
    };
    lemma_split_counted(
        begun,
        construct.parent_group_id,
        group_id,
        members,
        construct.new_sst_start_id,
    );
}

proof fn lemma_moved_counted(
    v: VersionView,
    group_id: CompactionGroupId,
    change: GroupTableChangeView,
)
    requires
        v.counted(),
        v.with_moved_tables(group_id, change) is Some,
    ensures
        v.with_moved_tables(group_id, change)->0.counted(),
{
    let origin = change.origin_group_id;
    let members = change.table_ids.to_set();
    lemma_split_counted(v, origin, change.target_group_id, members, change.new_sst_start_id);
    let w = v.with_split_group(
        origin,
        change.target_group_id,
        members,
        change.new_sst_start_id,
        None,
    )->0;
    let r = v.with_moved_tables(group_id, change)->0;
    assert forall|g: CompactionGroupId| #[trigger]
        r.levels.dom().contains(g) implies r.levels[g].counted() by {
        assert(w.levels.dom().contains(g));
        assert(w.levels[g].counted());
    }
}

proof fn lemma_merged_counted(
    v: VersionView,
    left_group_id: CompactionGroupId,
    right_group_id: CompactionGroupId,
)
    requires
        v.counted(),
        v.with_merged_groups(left_group_id, right_group_id) is Some,
    ensures
        v.with_merged_groups(left_group_id, right_group_id)->0.counted_but(Some(right_group_id)),
{
    let (left, right) = (v.levels[left_group_id], v.levels[right_group_id]);
    merge_keeps_counts(left, right);
    let r = v.with_merged_groups(left_group_id, right_group_id)->0;
    assert forall|g: CompactionGroupId| #[trigger]
        r.levels.dom().contains(g) && Some(right_group_id) != Some(
            g,
        ) implies r.levels[g].counted() by {
        if g != left_group_id {
            assert(v.levels.dom().contains(g));
        }
    }
}

/// The group that a merge empties is the group that ends.
proof fn lemma_merge_ends_right(deltas: Seq<GroupDeltaView>, group_id: CompactionGroupId)
    requires
        summary_of(deltas, group_id) is Some,
        summary_of(deltas, group_id)->0.group_merge is Some,
    ensures
        summary_of(deltas, group_id)->0.group_destroy == Some(
            summary_of(deltas, group_id)->0.group_merge->0.right_group_id,
        ),
    decreases deltas.len(),
{
    if deltas.len() > 0 {
        let t = deltas.drop_last();
        if summary_of(t, group_id) is Some && summary_of(t, group_id)->0.group_merge is Some {
            lemma_merge_ends_right(t, group_id);
        }
    }
}

proof fn lemma_levels_after_counted(
    v: VersionView,
    group_id: CompactionGroupId,
    s: SummaryView,
    max_committed_epoch: u64,
)
    requires
        v.levels[group_id].counted(),
        v.levels_after(group_id, s, max_committed_epoch) is Some,
        v.max_committed_epoch < max_committed_epoch || counts_level_zero(s),
    ensures
        v.levels_after(group_id, s, max_committed_epoch)->0.counted(),
{
    let levels = LevelsView {
        member_table_ids: members_after_all(
            v.levels[group_id].member_table_ids,
            s.group_meta_changes,
        ),
        ..v.levels[group_id]
    };
    assert(levels.counted());
    if v.max_committed_epoch < max_committed_epoch {
        if s.insert_table_infos.len() > 0 {
            new_sub_level_keeps_counts(
                levels.l0,
                s.insert_sub_level_id,
                LevelType::Overlapping,
                s.insert_table_infos,
                None,
            );
        }
    } else {
        compaction_keeps_counts(levels, s, tables_of(v.state_table_info, group_id));
    }
}

/// The changes to groups, made one after the other in any order, leave the sizes of all levels those
/// of their SSTs, where they split no group at a key and no compaction adds SSTs to level 0 without
/// deleting any there.
pub proof fn group_changes_keep_counts(
    v: VersionView,
    delta: VersionDeltaView,
    order: Seq<CompactionGroupId>,
)
    requires
        v.counted(),
        counts_kept(v, delta),
        forall|i: int|
            0 <= i < order.len() ==> delta.group_deltas.dom().contains(#[trigger] order[i]),
        v.with_group_deltas(delta, order) is Some,
    ensures
        v.with_group_deltas(delta, order)->0.counted(),
    decreases order.len(),
{
    if order.len() > 0 {
        let t = order.drop_last();
        assert forall|i: int| 0 <= i < t.len() implies delta.group_deltas.dom().contains(
            #[trigger] t[i],
        ) by {
            assert(order[i] == t[i]);
        }
        group_changes_keep_counts(v, delta, t);
        crate::apply::lemma_group_deltas_change_levels(v, delta, t);
        let before = v.with_group_deltas(delta, t)->0;
        let group_id = order.last();
        assert(order[order.len() - 1] == group_id);
        assert(delta.group_deltas.dom().contains(group_id));
        let s = summary_of(delta.group_deltas[group_id], group_id)->0;
        let left_out = match (s.group_construct, s.group_table_change, s.group_merge) {
            (None, None, Some(merge)) => Some(merge.right_group_id),
            _ => None,
        };
        match (s.group_construct, s.group_table_change, s.group_merge) {
            (Some(construct), _, _) => {
                lemma_constructed_counted(before, group_id, construct);
            },
            (None, Some(change), _) => {
                lemma_moved_counted(before, group_id, change);
            },
            (None, None, Some(merge)) => {
                lemma_merged_counted(before, merge.left_group_id, merge.right_group_id);
                lemma_merge_ends_right(delta.group_deltas[group_id], group_id);
            },
            (None, None, None) => {},
        }
        let shaped = before.with_reshaped(group_id, s)->0;
        assert(shaped.counted_but(left_out));
        assert(shaped.max_committed_epoch == v.max_committed_epoch);
        assert(shaped.levels.dom().contains(group_id));
        if left_out != Some(group_id) {
            lemma_levels_after_counted(shaped, group_id, s, delta.max_committed_epoch);
        }
        let r = v.with_group_deltas(delta, order)->0;
        assert forall|g: CompactionGroupId| #[trigger]
            r.levels.dom().contains(g) implies r.levels[g].counted() by {
            assert(left_out != Some(g));
            if g != group_id {
                assert(shaped.levels.dom().contains(g));
            }
        }
    }
}

/// A delta leaves the sizes of all levels those of their SSTs, where it splits no group at a key and
/// no compaction adds SSTs to level 0 without deleting any there.
pub proof fn delta_keeps_counts(
    v: VersionView,
    delta: VersionDeltaView,
    order: Seq<CompactionGroupId>,
)
    requires
        v.counted(),
        counts_kept(v, delta),
        crate::maps::is_walk(order, delta.group_deltas.dom()),
        v.with_delta(delta, order) is Some,
    ensures
        v.with_delta(delta, order)->0.counted(),
{
    let info = info_after(
        v.state_table_info,
        delta.state_table_info_delta,
        delta.removed_table_ids,
    );
    let told = VersionView { state_table_info: info, ..v };
    assert(told.counted());
    assert forall|i: int| 0 <= i < order.len() implies delta.group_deltas.dom().contains(
        #[trigger] order[i],
    ) by {
        assert(order.to_set().contains(order[i]));
    }
    group_changes_keep_counts(told, delta, order);
}

} // verus!
