//! What every delta keeps, whatever it does to the groups of a version.
use crate::level::CompactionGroupId;
use vstd::prelude::*;

#[allow(unused_imports)]
use crate::apply::members_after_all;
#[allow(unused_imports)]
use crate::compact::compaction_keeps_sub_level_order;
#[allow(unused_imports)]
use crate::division_laws::division_keeps_target_order;
#[allow(unused_imports)]
use crate::group_deltas::{summary_of, GroupConstructView, GroupTableChangeView, SummaryView};
#[allow(unused_imports)]
use crate::initial::initial_levels_are_counted;
#[allow(unused_imports)]
use crate::level::{LevelType, LevelsView};
#[allow(unused_imports)]
use crate::merge::merge_keeps_sub_level_order;
#[allow(unused_imports)]
use crate::parent_group::{
    lemma_levels_shape, lemma_sub_levels_shape, Division, NEW_COMPACTION_GROUP,
};
#[allow(unused_imports)]
use crate::sub_level::appended_sub_level_keeps_order;
#[allow(unused_imports)]
use crate::sub_level_laws::{division_keeps_sub_level_ids, sub_level_ids};
#[allow(unused_imports)]
use crate::version::{info_after, tables_of, VersionDeltaView, VersionView};

verus! {

impl LevelsView {
    /// Whether the levels are those of the group, with the sub-levels in the order of their ids.
    pub open spec fn orderly(self, group_id: CompactionGroupId) -> bool {
        self.group_id == group_id && self.l0.ids_increase()
    }
}

impl VersionView {
    /// Whether each group is known under its own id and has its sub-levels in the order of their
    /// ids.
    pub open spec fn orderly(self) -> bool {
        forall|g: CompactionGroupId| #[trigger]
            self.levels.dom().contains(g) ==> self.levels[g].orderly(g)
    }
}

/// A split of a group keeps the ids of the sub-levels of both groups in order.
pub proof fn division_keeps_order(d: Division, members: Set<u32>, split_key: Option<Seq<u8>>)
    requires
        d.divided(members, split_key) is Some,
        d.parent.l0.ids_increase(),
        d.target.l0.ids_increase(),
    ensures
        d.divided(members, split_key)->0.parent.l0.ids_increase(),
        d.divided(members, split_key)->0.target.l0.ids_increase(),
{
    let r = d.divided(members, split_key)->0;
    let ids = sub_level_ids(d.parent.l0.sub_levels);
    division_keeps_target_order(d, members, split_key);
    division_keeps_sub_level_ids(d, members, split_key);
    assert(sub_level_ids(r.parent.l0.sub_levels).len() == ids.len());
    assert forall|i: int, j: int| 0 <= i < j < r.parent.l0.sub_levels.len() implies (
    #[trigger] r.parent.l0.sub_levels[i]).sub_level_id < (
    #[trigger] r.parent.l0.sub_levels[j]).sub_level_id by {
        assert(sub_level_ids(r.parent.l0.sub_levels)[i] == ids[i]);
        assert(sub_level_ids(r.parent.l0.sub_levels)[j] == ids[j]);
        assert(d.parent.l0.sub_levels[i].sub_level_id < d.parent.l0.sub_levels[j].sub_level_id);
    }
}

/// A division changes neither the id of a group nor that of another.
proof fn lemma_division_group_ids(d: Division, members: Set<u32>, split_key: Option<Seq<u8>>)
    requires
        d.divided(members, split_key) is Some,
    ensures
        d.divided(members, split_key)->0.parent.group_id == d.parent.group_id,
        d.divided(members, split_key)->0.target.group_id == d.target.group_id,
{
    let subs = d.parent.l0.sub_levels.len();
    let middle = d.with_sub_levels(subs, members, split_key)->0;
    lemma_sub_levels_shape(d, subs, members, split_key);
    lemma_levels_shape(middle, d.parent.levels.len(), members, split_key);
}

proof fn lemma_split_orderly(
    v: VersionView,
    parent_group_id: CompactionGroupId,
    group_id: CompactionGroupId,
    members: Set<u32>,
    new_sst_start_id: u64,
    split_key: Option<Seq<u8>>,
)
    requires
        v.orderly(),
        v.with_split_group(
            parent_group_id,
            group_id,
            members,
            new_sst_start_id,
            split_key,
        ) is Some,
    ensures
        v.with_split_group(
            parent_group_id,
            group_id,
            members,
            new_sst_start_id,
            split_key,
        )->0.orderly(),
{
    if parent_group_id != NEW_COMPACTION_GROUP && v.levels.dom().contains(parent_group_id) {
        let d = Division {
            parent: v.levels[parent_group_id],
            target: v.levels[group_id],
            next_sst_id: new_sst_start_id,
        };
        assert(v.levels[parent_group_id].orderly(parent_group_id));
        assert(v.levels[group_id].orderly(group_id));
        division_keeps_order(d, members, split_key);
        lemma_division_group_ids(d, members, split_key);
        let r = v.with_split_group(
            parent_group_id,
            group_id,
            members,
            new_sst_start_id,
            split_key,
        )->0;
        assert forall|g: CompactionGroupId| #[trigger]
            r.levels.dom().contains(g) implies r.levels[g].orderly(g) by {
            if g != parent_group_id && g != group_id {
                assert(v.levels.dom().contains(g));
            }
        }
    }
}

proof fn lemma_constructed_orderly(
    v: VersionView,
    group_id: CompactionGroupId,
    construct: GroupConstructView,
)
    requires
        v.orderly(),
        v.with_constructed(group_id, construct) is Some,
    ensures
        v.with_constructed(group_id, construct)->0.orderly(),
{
    let config = construct.group_config->0;
    let levels = LevelsView {
        parent_group_id: construct.parent_group_id,
        member_table_ids: construct.table_ids,
        ..LevelsView::initial(group_id, config.max_level)
    };
    initial_levels_are_counted(group_id, config.max_level);
    assert(levels.orderly(group_id));
    let begun = VersionView { levels: v.levels.insert(group_id, levels), ..v };
    assert forall|g: CompactionGroupId| #[trigger]
        begun.levels.dom().contains(g) implies begun.levels[g].orderly(g) by {
        if g != group_id {
            assert(v.levels.dom().contains(g));
        }
    }
    let members = if construct.version
        >= crate::group_deltas::CompatibilityVersion::NoMemberTableIds.number() {
        tables_of(v.state_table_info, group_id)
    } else {
        construct.table_ids.to_set()
    };
    lemma_split_orderly(
        begun,
        construct.parent_group_id,
        group_id,
        members,
        construct.new_sst_start_id,
        construct.split_key,
    );
}

proof fn lemma_moved_orderly(
    v: VersionView,
    group_id: CompactionGroupId,
    change: GroupTableChangeView,
)
    requires
        v.orderly(),
        v.with_moved_tables(group_id, change) is Some,
    ensures
        v.with_moved_tables(group_id, change)->0.orderly(),
{
    let origin = change.origin_group_id;
    let members = change.table_ids.to_set();
    lemma_split_orderly(
        v,
        origin,
        change.target_group_id,
        members,
        change.new_sst_start_id,
        None,
    );
    let w = v.with_split_group(
        origin,
        change.target_group_id,
        members,
        change.new_sst_start_id,
        None,
    )->0;
    let r = v.with_moved_tables(group_id, change)->0;
    assert forall|g: CompactionGroupId| #[trigger]
        r.levels.dom().contains(g) implies r.levels[g].orderly(g) by {
        assert(w.levels.dom().contains(g));
        assert(w.levels[g].orderly(g));
    }
}

proof fn lemma_merged_orderly(
    v: VersionView,
    left_group_id: CompactionGroupId,
    right_group_id: CompactionGroupId,
)
    requires
        v.orderly(),
        v.with_merged_groups(left_group_id, right_group_id) is Some,
    ensures
        v.with_merged_groups(left_group_id, right_group_id)->0.orderly(),
{
    let (left, right) = (v.levels[left_group_id], v.levels[right_group_id]);
    assert(left.orderly(left_group_id));
    assert(right.orderly(right_group_id));
    merge_keeps_sub_level_order(left, right);
    let r = v.with_merged_groups(left_group_id, right_group_id)->0;
    assert forall|g: CompactionGroupId| #[trigger]
        r.levels.dom().contains(g) implies r.levels[g].orderly(g) by {
        if g != left_group_id && g != right_group_id {
            assert(v.levels.dom().contains(g));
        }
    }
}

proof fn lemma_levels_after_orderly(
    v: VersionView,
    group_id: CompactionGroupId,
    s: SummaryView,
    max_committed_epoch: u64,
)
    requires
        v.levels[group_id].orderly(group_id),
        v.levels_after(group_id, s, max_committed_epoch) is Some,
    ensures
        v.levels_after(group_id, s, max_committed_epoch)->0.orderly(group_id),
{
    let levels = LevelsView {
        member_table_ids: members_after_all(
            v.levels[group_id].member_table_ids,
            s.group_meta_changes,
        ),
        ..v.levels[group_id]
    };
    if v.max_committed_epoch < max_committed_epoch {
        if s.insert_table_infos.len() > 0 {
            appended_sub_level_keeps_order(
                levels.l0,
                s.insert_sub_level_id,
                LevelType::Overlapping,
                s.insert_table_infos,
            );
        }
    } else {
        compaction_keeps_sub_level_order(levels, s, tables_of(v.state_table_info, group_id));
    }
}

/// The changes to groups, made one after the other in any order, leave each group known under its
/// own id and its sub-levels in the order of their ids.
pub proof fn group_changes_keep_order(
    v: VersionView,
    delta: VersionDeltaView,
    order: Seq<CompactionGroupId>,
)
    requires
        v.orderly(),
        v.with_group_deltas(delta, order) is Some,
    ensures
        v.with_group_deltas(delta, order)->0.orderly(),
    decreases order.len(),
{
    if order.len() > 0 {
        group_changes_keep_order(v, delta, order.drop_last());
        let before = v.with_group_deltas(delta, order.drop_last())->0;
        let group_id = order.last();
        let s = summary_of(delta.group_deltas[group_id], group_id)->0;
        match (s.group_construct, s.group_table_change, s.group_merge) {
            (Some(construct), _, _) => {
                lemma_constructed_orderly(before, group_id, construct);
            },
            (None, Some(change), _) => {
                lemma_moved_orderly(before, group_id, change);
            },
            (None, None, Some(merge)) => {
                lemma_merged_orderly(before, merge.left_group_id, merge.right_group_id);
            },
            (None, None, None) => {},
        }
        let shaped = before.with_reshaped(group_id, s)->0;
        assert(shaped.levels.dom().contains(group_id));
        lemma_levels_after_orderly(shaped, group_id, s, delta.max_committed_epoch);
        let r = v.with_group_deltas(delta, order)->0;
        assert forall|g: CompactionGroupId| #[trigger]
            r.levels.dom().contains(g) implies r.levels[g].orderly(g) by {
            if g != group_id {
                assert(shaped.levels.dom().contains(g));
            }
        }
    }
}

/// A delta leaves each group known under its own id and its sub-levels in the order of their ids.
pub proof fn delta_keeps_order(
    v: VersionView,
    delta: VersionDeltaView,
    order: Seq<CompactionGroupId>,
)
    requires
        v.orderly(),
        v.with_delta(delta, order) is Some,
    ensures
        v.with_delta(delta, order)->0.orderly(),
{
    let info = info_after(
        v.state_table_info,
        delta.state_table_info_delta,
        delta.removed_table_ids,
    );
    let told = VersionView { state_table_info: info, ..v };
    assert(told.orderly());
    group_changes_keep_order(told, delta, order);
}

} // verus!
