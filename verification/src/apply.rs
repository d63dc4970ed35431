//! Applying a delta to a version.
use crate::buf::bytes_from_vec;
use crate::group_deltas::{
    summarize_group_deltas, CompatibilityVersion, GroupConstruct, GroupDeltas, GroupDeltasSummary,
    GroupMetaChange, GroupTableChange,
};
use crate::initial::build_initial_compaction_group_levels;
use crate::level::{CompactionGroupId, LevelType};
use crate::maps::keys_of;
use crate::seqs::{retain, sort, Sortable};
use crate::sstable_info::clone_ids;
use crate::sub_level::insert_new_sub_level;
use crate::table_state::{apply_logs, apply_watermarks};
use crate::version::{HummockVersion, HummockVersionDelta};
use std::collections::{BTreeSet, HashSet};
use vstd::prelude::*;

#[allow(unused_imports)]
use crate::group_deltas::{
    lemma_take_to_set, summary_of, GroupConstructView, GroupDeltaView, GroupMetaChangeView,
    GroupTableChangeView, SummaryView,
};
#[allow(unused_imports)]
use crate::level::LevelsView;
#[allow(unused_imports)]
use crate::maps::is_walk;
#[allow(unused_imports)]
use crate::seqs::{keep, lemma_map_views_insert, lemma_map_views_remove, map_views, sort_seq, views};
#[allow(unused_imports)]
use crate::table_state::{
    all_logs_after, all_logs_follow, all_watermarks_after, all_watermarks_follow,
};
#[allow(unused_imports)]
use crate::version::{epochs_advance, info_after, tables_of, VersionDeltaView, VersionView};

verus! {

/// Whether a table id is in the list.
pub open spec fn listed(ids: Seq<u32>) -> spec_fn(u32) -> bool {
    |t: u32| ids.contains(t)
}

/// Whether a table id is not in the list.
pub open spec fn not_listed(ids: Seq<u32>) -> spec_fn(u32) -> bool {
    |t: u32| !ids.contains(t)
}

/// The member tables of a group after a change: with those added, without those removed, in order.
pub open spec fn members_after(ids: Seq<u32>, change: GroupMetaChangeView) -> Seq<u32> {
    sort_seq(
        keep(ids + change.table_ids_add, not_listed(change.table_ids_remove)),
        u32::before(),
    )
}

/// The member tables of a group after all changes, one after the other.
pub open spec fn members_after_all(ids: Seq<u32>, changes: Seq<GroupMetaChangeView>) -> Seq<u32>
    decreases changes.len(),
{
    if changes.len() == 0 {
        ids
    } else {
        members_after(members_after_all(ids, changes.drop_last()), changes.last())
    }
}

impl VersionView {
    /// The version with a new group, filled from its parent where it has one. Deltas of older
    /// formats name the group's tables; the table infos do in newer ones.
    pub open spec fn with_constructed(
        self,
        group_id: CompactionGroupId,
        construct: GroupConstructView,
    ) -> Option<VersionView> {
        match construct.group_config {
            None => None,
            Some(config) => {
                let levels = LevelsView {
                    parent_group_id: construct.parent_group_id,
                    member_table_ids: construct.table_ids,
                    ..LevelsView::initial(group_id, config.max_level)
                };
                let members = if construct.version
                    >= CompatibilityVersion::NoMemberTableIds.number() {
                    tables_of(self.state_table_info, group_id)
                } else {
                    construct.table_ids.to_set()
                };
                (VersionView { levels: self.levels.insert(group_id, levels), ..self }).with_split_group(
                    construct.parent_group_id,
                    group_id,
                    members,
                    construct.new_sst_start_id,
                    construct.split_key,
                )
            },
        }
    }

    /// The version with the tables of a list moved from the members of one group to those of
    /// another.
    pub open spec fn with_moved_members(
        self,
        origin: CompactionGroupId,
        group_id: CompactionGroupId,
        ids: Seq<u32>,
    ) -> Option<VersionView> {
        if !self.levels.dom().contains(origin) || !self.levels.dom().contains(group_id) {
            None
        } else {
            let from = self.levels[origin];
            let levels = self.levels.insert(
                origin,
                LevelsView {
                    member_table_ids: keep(from.member_table_ids, not_listed(ids)),
                    ..from
                },
            );
            let to = levels[group_id];
            Some(
                VersionView {
                    levels: levels.insert(
                        group_id,
                        LevelsView {
                            member_table_ids: to.member_table_ids + keep(
                                from.member_table_ids,
                                listed(ids),
                            ),
                            ..to
                        },
                    ),
                    ..self
                },
            )
        }
    }

    /// The version with tables moved between groups. Only deltas of older formats do so.
    pub open spec fn with_moved_tables(
        self,
        group_id: CompactionGroupId,
        change: GroupTableChangeView,
    ) -> Option<VersionView> {
        if change.version > CompatibilityVersion::NoTrivialSplit.number() {
            None
        } else {
            match self.with_split_group(
                change.origin_group_id,
                change.target_group_id,
                change.table_ids.to_set(),
                change.new_sst_start_id,
                None,
            ) {
                None => None,
                Some(v) => v.with_moved_members(
                    change.origin_group_id,
                    group_id,
                    change.table_ids,
                ),
            }
        }
    }

    /// The version with the construction, the move of tables or the merge made that a summary
    /// speaks of; the first of these where there are several.
    pub open spec fn with_reshaped(self, group_id: CompactionGroupId, s: SummaryView) -> Option<
        VersionView,
    > {
        match (s.group_construct, s.group_table_change, s.group_merge) {
            (Some(construct), _, _) => self.with_constructed(group_id, construct),
            (None, Some(change), _) => self.with_moved_tables(group_id, change),
            (None, None, Some(merge)) => self.with_merged_groups(
                merge.left_group_id,
                merge.right_group_id,
            ),
            (None, None, None) => Some(self),
        }
    }

    /// The levels of a group after an epoch was committed: new SSTs are in a new sub-level. There
    /// are none where SSTs come to another level, or go without the group's end.
    pub open spec fn committed(levels: LevelsView, s: SummaryView) -> Option<LevelsView> {
        if s.insert_sst_level_id != 0 && s.insert_table_infos.len() > 0 {
            None
        } else if !(s.delete_sst_levels == Set::<u32>::empty() && s.delete_sst_ids == Set::<
            u64,
        >::empty()) && s.group_destroy is None {
            None
        } else if s.insert_table_infos.len() == 0 {
            Some(levels)
        } else {
            match levels.l0.with_sub_level(
                s.insert_sub_level_id,
                LevelType::Overlapping,
                s.insert_table_infos,
                None,
            ) {
                None => None,
                Some(l0) => Some(LevelsView { l0, ..levels }),
            }
        }
    }

    /// The levels of a group after its SSTs changed: by a commit where the committed epoch
    /// advances, and by a compaction where it stays.
    pub open spec fn levels_after(
        self,
        group_id: CompactionGroupId,
        s: SummaryView,
        max_committed_epoch: u64,
    ) -> Option<LevelsView> {
        let levels = LevelsView {
            member_table_ids: members_after_all(
                self.levels[group_id].member_table_ids,
                s.group_meta_changes,
            ),
            ..self.levels[group_id]
        };
        if self.max_committed_epoch > max_committed_epoch {
            None
        } else if self.max_committed_epoch < max_committed_epoch {
            Self::committed(levels, s)
        } else {
            levels.compacted(s, tables_of(self.state_table_info, group_id))
        }
    }

    /// The version with the SSTs of a group changed, and with the group gone that ends.
    pub open spec fn with_changed_levels(
        self,
        group_id: CompactionGroupId,
        s: SummaryView,
        max_committed_epoch: u64,
    ) -> Option<VersionView> {
        if !self.levels.dom().contains(group_id) {
            None
        } else {
            match self.levels_after(group_id, s, max_committed_epoch) {
                None => None,
                Some(after) => {
                    let levels = self.levels.insert(group_id, after);
                    Some(
                        VersionView {
                            levels: match s.group_destroy {
                                Some(gone) => levels.remove(gone),
                                None => levels,
                            },
                            ..self
                        },
                    )
                },
            }
        }
    }

    /// The version after the changes to one group.
    pub open spec fn with_group_delta(
        self,
        group_id: CompactionGroupId,
        deltas: Seq<GroupDeltaView>,
        max_committed_epoch: u64,
    ) -> Option<VersionView> {
        match summary_of(deltas, group_id) {
            None => None,
            Some(s) => match self.with_reshaped(group_id, s) {
                None => None,
                Some(v) => v.with_changed_levels(group_id, s, max_committed_epoch),
            },
        }
    }

    /// The version after the changes to the groups, made in the given order.
    pub open spec fn with_group_deltas(
        self,
        delta: VersionDeltaView,
        order: Seq<CompactionGroupId>,
    ) -> Option<VersionView>
        decreases order.len(),
    {
        if order.len() == 0 {
            Some(self)
        } else {
            match self.with_group_deltas(delta, order.drop_last()) {
                None => None,
                Some(v) => v.with_group_delta(
                    order.last(),
                    delta.group_deltas[order.last()],
                    delta.max_committed_epoch,
                ),
            }
        }
    }
}

/// Where the changes can be made to more groups, they can be made to fewer.
pub proof fn lemma_group_deltas_prefix(
    v: VersionView,
    delta: VersionDeltaView,
    order: Seq<CompactionGroupId>,
    i: int,
)
    requires
        0 <= i <= order.len(),
        v.with_group_deltas(delta, order) is Some,
    ensures
        v.with_group_deltas(delta, order.take(i)) is Some,
    decreases order.len() - i,
{
    if i < order.len() {
        lemma_group_deltas_prefix(v, delta, order, i + 1);
        assert(order.take(i + 1).drop_last() =~= order.take(i));
    } else {
        assert(order.take(i) =~= order);
    }
}

/// The views of numbers are the numbers.
proof fn lemma_views_ids(ids: Seq<u32>)
    ensures
        views(ids) == ids,
{
    assert(views(ids) =~= ids);
}

/// Whether a table id is in the list.
fn lists_id(ids: &Vec<u32>, id: u32) -> (r: bool)
    ensures
        r == ids@.contains(id),
{
    let mut i: usize = 0;
    while i < ids.len()
        invariant
            i <= ids.len(),
            forall|k: int| 0 <= k < i ==> ids@[k] != id,
        decreases ids.len() - i,
    {
        if ids[i] == id {
            return true;
        }
        i = i + 1;
    }
    false
}

/// Keeps the table ids that are not in a list.
fn drop_listed(ids: &mut Vec<u32>, gone: &Vec<u32>)
    ensures
        final(ids)@ == keep(old(ids)@, not_listed(gone@)),
{
    let ghost keep_it = not_listed(gone@);
    let stays = |t: &u32| -> (b: bool)
        ensures
            b == keep_it(t@),
        { !lists_id(gone, *t) };
    proof {
        lemma_views_ids(ids@);
    }
    retain(ids, stays, Ghost(keep_it));
    proof {
        lemma_views_ids(ids@);
    }
}

/// Keeps the table ids that are in a list.
fn keep_listed(ids: &mut Vec<u32>, wanted: &Vec<u32>)
    ensures
        final(ids)@ == keep(old(ids)@, listed(wanted@)),
{
    let ghost keep_it = listed(wanted@);
    let stays = |t: &u32| -> (b: bool)
        ensures
            b == keep_it(t@),
        { lists_id(wanted, *t) };
    proof {
        lemma_views_ids(ids@);
    }
    retain(ids, stays, Ghost(keep_it));
    proof {
        lemma_views_ids(ids@);
    }
}

/// Makes a change to the member tables.
fn change_members(ids: &mut Vec<u32>, change: &GroupMetaChange)
    ensures
        final(ids)@ == members_after(old(ids)@, change@),
{
    let ghost prior = ids@;
    let mut added = clone_ids(&change.table_ids_add);
    ids.append(&mut added);
    assert(ids@ =~= prior + change@.table_ids_add);
    drop_listed(ids, &change.table_ids_remove);
    proof {
        lemma_views_ids(ids@);
    }
    sort(ids);
    proof {
        lemma_views_ids(ids@);
    }
}

/// Makes all changes to the member tables.
fn change_all_members(ids: &mut Vec<u32>, changes: &Vec<GroupMetaChange>)
    ensures
        final(ids)@ == members_after_all(old(ids)@, views(changes@)),
{
    let ghost start = ids@;
    let ghost all = views(changes@);
    let mut i: usize = 0;
    assert(all.take(0).len() == 0);
    while i < changes.len()
        invariant
            i <= changes.len(),
            all == views(changes@),
            ids@ == members_after_all(start, all.take(i as int)),
        decreases changes.len() - i,
    {
        proof {
            assert(all.take(i + 1).drop_last() =~= all.take(i as int));
            assert(all.take(i + 1).last() == changes@[i as int]@);
        }
        change_members(ids, &changes[i]);
        i = i + 1;
    }
    assert(all.take(i as int) =~= all);
}

/// The set of the ids in a list.
fn id_set(ids: &Vec<u32>) -> (r: HashSet<u32>)
    ensures
        r@ == ids@.to_set(),
{
    let mut r: HashSet<u32> = HashSet::new();
    let mut i: usize = 0;
    assert(ids@.take(0).to_set() =~= Set::empty());
    while i < ids.len()
        invariant
            i <= ids.len(),
            r@ == ids@.take(i as int).to_set(),
        decreases ids.len() - i,
    {
        r.insert(ids[i]);
        proof {
            lemma_take_to_set(ids@, i as int);
        }
        i = i + 1;
    }
    assert(ids@.take(i as int) =~= ids@);
    r
}

/// A hash set with the elements of an ordered set.
fn hash_set_of(set: &BTreeSet<u32>) -> (r: HashSet<u32>)
    ensures
        r@ == set@,
{
    let mut r: HashSet<u32> = HashSet::new();
    let it0 = set.iter();
    let ghost walk = vstd::std_specs::iter::IteratorSpec::remaining(&it0);
    assert(walk.unref().to_set() == set@);
    assert(walk.unref().take(0).to_set() =~= Set::empty());
    for k in it: it0
        invariant
            it.seq() == walk,
            r@ == walk.unref().take(it.index() as int).to_set(),
    {
        r.insert(*k);
        proof {
            lemma_take_to_set(walk.unref(), it.index() as int);
        }
    }
    assert(walk.unref().take(walk.len() as int) =~= walk.unref());
    r
}

impl HummockVersion {
    /// Makes a new group.
    fn construct_group(&mut self, group_id: CompactionGroupId, construct: &GroupConstruct)
        requires
            old(self)@.with_constructed(group_id, construct@) is Some,
        ensures
            final(self)@ == old(self)@.with_constructed(group_id, construct@)->0,
    {
        if let Some(config) = construct.group_config {
            let ghost start = self.levels@;
            let split_key = match &construct.split_key {
                Some(key) => {
                    let copy = key.clone();
                    assert(copy@ =~= key@);
                    Some(bytes_from_vec(copy))
                },
                None => None,
            };
            let mut new_levels = build_initial_compaction_group_levels(group_id, &config);
            new_levels.parent_group_id = construct.parent_group_id;
            new_levels.member_table_ids = clone_ids(&construct.table_ids);
            proof {
                lemma_map_views_insert(start, group_id, new_levels);
            }
            self.levels.insert(group_id, new_levels);
            let members = if construct.version >= CompatibilityVersion::NoMemberTableIds.code() {
                hash_set_of(&self.state_table_info.compaction_group_member_table_ids(group_id))
            } else {
                id_set(&construct.table_ids)
            };
            self.init_with_parent_group(
                construct.parent_group_id,
                group_id,
                members,
                construct.new_sst_start_id,
                split_key,
            );
        }
    }

    /// Moves member tables from one group to another.
    fn move_members(
        &mut self,
        origin: CompactionGroupId,
        group_id: CompactionGroupId,
        table_ids: &Vec<u32>,
    )
        requires
            old(self)@.with_moved_members(origin, group_id, table_ids@) is Some,
        ensures
            final(self)@ == old(self)@.with_moved_members(origin, group_id, table_ids@)->0,
    {
        let ghost start = self.levels@;
        let mut moving: Vec<u32> = Vec::new();
        if let Some(mut levels) = self.levels.remove(&origin) {
            moving = clone_ids(&levels.member_table_ids);
            keep_listed(&mut moving, table_ids);
            drop_listed(&mut levels.member_table_ids, table_ids);
            let ghost shown = levels@;
            self.levels.insert(origin, levels);
            assert(map_views(self.levels@) =~= map_views(start).insert(origin, shown));
        }
        let ghost middle = self.levels@;
        let ghost moved = moving@;
        if let Some(mut levels) = self.levels.remove(&group_id) {
            let ghost had = levels.member_table_ids@;
            levels.member_table_ids.append(&mut moving);
            assert(levels.member_table_ids@ =~= had + moved);
            let ghost shown = levels@;
            self.levels.insert(group_id, levels);
            assert(map_views(self.levels@) =~= map_views(middle).insert(group_id, shown));
        }
    }

    /// Moves tables between groups.
    fn move_tables(&mut self, group_id: CompactionGroupId, change: &GroupTableChange)
        requires
            old(self)@.with_moved_tables(group_id, change@) is Some,
        ensures
            final(self)@ == old(self)@.with_moved_tables(group_id, change@)->0,
    {
        self.init_with_parent_group(
            change.origin_group_id,
            change.target_group_id,
            id_set(&change.table_ids),
            change.new_sst_start_id,
            None,
        );
        self.move_members(change.origin_group_id, group_id, &change.table_ids);
    }

    /// Makes the construction, the move of tables or the merge that a summary speaks of.
    fn reshape(&mut self, group_id: CompactionGroupId, summary: &GroupDeltasSummary)
        requires
            old(self)@.with_reshaped(group_id, summary@) is Some,
        ensures
            final(self)@ == old(self)@.with_reshaped(group_id, summary@)->0,
    {
        if let Some(construct) = &summary.group_construct {
            self.construct_group(group_id, construct);
        } else if let Some(change) = &summary.group_table_change {
            self.move_tables(group_id, change);
        } else if let Some(merge) = &summary.group_merge {
            self.merge_compaction_group(merge.left_group_id, merge.right_group_id);
        }
    }

    /// Changes the SSTs of a group, and drops the group that ends.
    fn change_levels(
        &mut self,
        group_id: CompactionGroupId,
        summary: GroupDeltasSummary,
        max_committed_epoch: u64,
    )
        requires
            old(self)@.with_changed_levels(group_id, summary@, max_committed_epoch) is Some,
        ensures
            final(self)@ == old(self)@.with_changed_levels(
                group_id,
                summary@,
                max_committed_epoch,
            )->0,
    {
        let ghost start = self.levels@;
        let group_destroy = summary.group_destroy;
        if let Some(mut levels) = self.levels.remove(&group_id) {
            change_all_members(&mut levels.member_table_ids, &summary.group_meta_changes);
            if self.max_committed_epoch < max_committed_epoch {
                if summary.insert_table_infos.len() > 0 {
                    insert_new_sub_level(
                        &mut levels.l0,
                        summary.insert_sub_level_id,
                        LevelType::Overlapping,
                        summary.insert_table_infos,
                        None,
                    );
                }
            } else {
                levels.apply_compact_ssts(
                    summary,
                    &self.state_table_info.compaction_group_member_table_ids(group_id),
                );
            }
            let ghost shown = levels@;
            self.levels.insert(group_id, levels);
            assert(map_views(self.levels@) =~= map_views(start).insert(group_id, shown));
        }
        let ghost middle = self.levels@;
        if let Some(destroy_group_id) = group_destroy {
            let _ = self.levels.remove(&destroy_group_id);
            proof {
                lemma_map_views_remove(middle, destroy_group_id);
            }
        }
    }

    /// Makes the changes to one group.
    fn apply_group_delta(
        &mut self,
        group_id: CompactionGroupId,
        group_deltas: &GroupDeltas,
        max_committed_epoch: u64,
    )
        requires
            old(self)@.with_group_delta(group_id, group_deltas@, max_committed_epoch) is Some,
        ensures
            final(self)@ == old(self)@.with_group_delta(
                group_id,
                group_deltas@,
                max_committed_epoch,
            )->0,
    {
        let summary = summarize_group_deltas(group_deltas, group_id);
        self.reshape(group_id, &summary);
        self.change_levels(group_id, summary, max_committed_epoch);
    }

    /// Makes the changes to all groups, in the given order.
    fn apply_group_deltas(
        &mut self,
        version_delta: &HummockVersionDelta,
        order: &Vec<CompactionGroupId>,
    )
        requires
            is_walk(order@, version_delta@.group_deltas.dom()),
            old(self)@.with_group_deltas(version_delta@, order@) is Some,
        ensures
            final(self)@ == old(self)@.with_group_deltas(version_delta@, order@)->0,
    {
        let ghost start = self@;
        let ghost delta = version_delta@;
        let mut i: usize = 0;
        assert(order@.take(0).len() == 0);
        while i < order.len()
            invariant
                i <= order.len(),
                delta == version_delta@,
                is_walk(order@, delta.group_deltas.dom()),
                start.with_group_deltas(delta, order@) is Some,
                start.with_group_deltas(delta, order@.take(i as int)) == Some(self@),
            decreases order.len() - i,
        {
            let group_id: CompactionGroupId = order[i];
            proof {
                lemma_group_deltas_prefix(start, delta, order@, i + 1);
                assert(order@.take(i + 1).drop_last() =~= order@.take(i as int));
                assert(order@.take(i + 1).last() == group_id);
                assert(order@.to_set().contains(order@[i as int]));
            }
            if let Some(group_deltas) = version_delta.group_deltas.get(&group_id) {
                self.apply_group_delta(group_id, group_deltas, version_delta.max_committed_epoch);
            }
            i = i + 1;
        }
        assert(order@.take(i as int) =~= order@);
    }
}

impl VersionView {
    /// The version after a delta, with the changes to the groups made in the given order. There is
    /// none where the delta is not one to this version, an epoch goes back, or one of the changes
    /// cannot be made.
    pub open spec fn with_delta(
        self,
        delta: VersionDeltaView,
        order: Seq<CompactionGroupId>,
    ) -> Option<VersionView> {
        let removed = delta.removed_table_ids;
        let info = info_after(self.state_table_info, delta.state_table_info_delta, removed);
        let told = VersionView { state_table_info: info, ..self };
        if self.id != delta.prev_id || !epochs_advance(
            self.state_table_info,
            delta.state_table_info_delta,
            removed,
        ) || !all_watermarks_follow(self.table_watermarks, delta.new_table_watermarks, removed)
            || !all_logs_follow(self.table_change_log, delta.change_log_delta, removed) {
            None
        } else {
            match told.with_group_deltas(delta, order) {
                None => None,
                Some(v) => Some(
                    VersionView {
                        id: delta.id,
                        levels: v.levels,
                        max_committed_epoch: delta.max_committed_epoch,
                        safe_epoch: delta.safe_epoch,
                        table_watermarks: all_watermarks_after(
                            self.table_watermarks,
                            delta.new_table_watermarks,
                            removed,
                            info,
                        ),
                        table_change_log: all_logs_after(
                            self.table_change_log,
                            delta.change_log_delta,
                            removed,
                            self.state_table_info,
                            delta.state_table_info_delta,
                        ),
                        state_table_info: info,
                    },
                ),
            }
        }
    }

    /// Whether a delta can be applied, in whatever order its groups are met.
    pub open spec fn takes_delta(self, delta: VersionDeltaView) -> bool {
        forall|order: Seq<CompactionGroupId>| #[trigger]
            is_walk(order, delta.group_deltas.dom()) ==> self.with_delta(delta, order) is Some
    }
}

/// The changes to the groups change their levels alone.
pub proof fn lemma_group_deltas_change_levels(
    v: VersionView,
    delta: VersionDeltaView,
    order: Seq<CompactionGroupId>,
)
    requires
        v.with_group_deltas(delta, order) is Some,
    ensures
        v.with_group_deltas(delta, order)->0 == (VersionView {
            levels: v.with_group_deltas(delta, order)->0.levels,
            ..v
        }),
    decreases order.len(),
{
    if order.len() > 0 {
        lemma_group_deltas_change_levels(v, delta, order.drop_last());
    }
}

impl HummockVersion {
    /// Applies a delta, with the changes to the groups made in the given order.
    pub fn apply_version_delta_in_order(
        &mut self,
        version_delta: &HummockVersionDelta,
        order: &Vec<CompactionGroupId>,
    )
        requires
            is_walk(order@, version_delta@.group_deltas.dom()),
            old(self)@.with_delta(version_delta@, order@) is Some,
        ensures
            final(self)@ == old(self)@.with_delta(version_delta@, order@)->0,
    {
        let ghost start = self@;
        let ghost delta = version_delta@;
        let ghost info = self.state_table_info@;
        let changed_table_info = self.state_table_info.apply_delta(
            &version_delta.state_table_info_delta,
            &version_delta.removed_table_ids,
        );
        let ghost told = self@;
        self.apply_group_deltas(version_delta, order);
        proof {
            lemma_group_deltas_change_levels(told, delta, order@);
        }
        self.id = version_delta.id;
        self.max_committed_epoch = version_delta.max_committed_epoch;
        self.set_safe_epoch(version_delta.visible_table_safe_epoch());
        apply_watermarks(
            &mut self.table_watermarks,
            &version_delta.new_table_watermarks,
            &version_delta.removed_table_ids,
            self.state_table_info.info(),
        );
        apply_logs(
            &mut self.table_change_log,
            &version_delta.change_log_delta,
            &version_delta.removed_table_ids,
            &version_delta.state_table_info_delta,
            &changed_table_info,
            Ghost(info),
        );
        assert(start.with_delta(delta, order@) == Some(self@));
    }

    /// Applies a delta. The groups are met in the order in which the delta's hash map is walked.
    pub fn apply_version_delta(&mut self, version_delta: &HummockVersionDelta)
        requires
            old(self)@.takes_delta(version_delta@),
        ensures
            exists|order: Seq<CompactionGroupId>| #[trigger]
                is_walk(order, version_delta@.group_deltas.dom()) && old(self)@.with_delta(
                    version_delta@,
                    order,
                ) == Some(final(self)@),
    {
        let order = keys_of(&version_delta.group_deltas);
        proof {
            assert(version_delta@.group_deltas.dom() =~= version_delta.group_deltas@.dom());
            assert(is_walk(order@, version_delta@.group_deltas.dom()));
        }
        self.apply_version_delta_in_order(version_delta, &order);
    }
}

} // verus!
