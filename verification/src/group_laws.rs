//! What the changes to a group do to it, and to the groups that they name.
use crate::key::TableId;
use crate::level::{CompactionGroupId, LevelType};
use vstd::prelude::*;

#[allow(unused_imports)]
use crate::apply::{listed, members_after, members_after_all, not_listed};
#[allow(unused_imports)]
use crate::compact_laws::{
    all_present, commit_appends_a_sub_level, committed_as, compaction_changes_sub_levels,
    compaction_changes_upper_levels, compaction_of_absent_ssts_changes_nothing, same_group,
    sub_levels_compacted, upper_levels_compacted,
};
#[allow(unused_imports)]
use crate::group_deltas::{
    summary_of, GroupConstructView, GroupDeltaView, GroupMetaChangeView, GroupTableChangeView,
    SummaryView,
};
#[allow(unused_imports)]
use crate::level::{LevelView, LevelsView};
#[allow(unused_imports)]
use crate::merge_laws::ids_differ;
#[allow(unused_imports)]
use crate::parent_group::Division;
#[allow(unused_imports)]
use crate::seqs::{
    lemma_keep_contains, lemma_keep_is_filter, lemma_sort_contains, sort_keeps_elements,
    sort_puts_in_order, Sortable,
};
#[allow(unused_imports)]
use crate::version::{tables_of, StateTableInfo, VersionView};

verus! {

/// Whether ids do not decrease.
pub open spec fn in_order(ids: Seq<u32>) -> bool {
    forall|i: int, j: int| 0 <= i < j < ids.len() ==> #[trigger] ids[i] <= #[trigger] ids[j]
}

/// A change to the members of a group adds the tables named and then takes out those to be removed;
/// the members are in order then.
pub proof fn member_change_adds_and_removes(ids: Seq<u32>, change: GroupMetaChangeView)
    ensures
        members_after(ids, change).to_multiset() == (ids + change.table_ids_add).filter(
            |t: u32| !change.table_ids_remove.contains(t),
        ).to_multiset(),
        in_order(members_after(ids, change)),
        forall|t: u32| #[trigger]
            members_after(ids, change).contains(t) <==> (ids.contains(t)
                || change.table_ids_add.contains(t)) && !change.table_ids_remove.contains(t),
{
    let p = |t: u32| !change.table_ids_remove.contains(t);
    let all = ids + change.table_ids_add;
    let kept = all.filter(p);
    assert(not_listed(change.table_ids_remove) =~= p);
    lemma_keep_is_filter(all, p);
    sort_keeps_elements(kept, u32::before());
    sort_puts_in_order(kept, u32::before());
    let r = members_after(ids, change);
    assert forall|t: u32| #[trigger] r.contains(t) <==> (ids.contains(t)
        || change.table_ids_add.contains(t)) && !change.table_ids_remove.contains(t) by {
        lemma_sort_contains(kept, u32::before(), t);
        lemma_keep_contains(all, p);
        if r.contains(t) {
            assert(kept.contains(t));
            let m = choose|m: int| 0 <= m < all.len() && all[m] == t;
            if m < ids.len() {
                assert(ids[m] == t);
            } else {
                assert(change.table_ids_add[m - ids.len()] == t);
            }
        }
        if (ids.contains(t) || change.table_ids_add.contains(t)) && p(t) {
            if ids.contains(t) {
                let m = choose|m: int| 0 <= m < ids.len() && ids[m] == t;
                assert(all[m] == t);
            } else {
                let m = choose|m: int|
                    0 <= m < change.table_ids_add.len() && change.table_ids_add[m] == t;
                assert(all[ids.len() + m] == t);
            }
            assert(all.contains(t));
            assert(kept.contains(t));
        }
    }
}

/// Whether none of the changes from `i` on removes the table.
pub open spec fn not_removed_from(changes: Seq<GroupMetaChangeView>, i: int, t: u32) -> bool {
    forall|j: int|
        i <= j < changes.len() ==> !(#[trigger] changes[j]).table_ids_remove.contains(t)
}

/// After all changes a table is a member if and only if it was one and no change removed it, or a
/// change added it and neither that one nor a later one removed it.
pub proof fn last_change_decides_membership(ids: Seq<u32>, changes: Seq<GroupMetaChangeView>)
    ensures
        changes.len() == 0 ==> members_after_all(ids, changes) == ids,
        changes.len() > 0 ==> in_order(members_after_all(ids, changes)),
        forall|t: u32| #[trigger]
            members_after_all(ids, changes).contains(t) <==> (ids.contains(t)
                && not_removed_from(changes, 0, t)) || exists|i: int|
                0 <= i < changes.len() && (#[trigger] changes[i]).table_ids_add.contains(t)
                    && not_removed_from(changes, i, t),
    decreases changes.len(),
{
    if changes.len() > 0 {
        let t = changes.drop_last();
        let n = changes.len() - 1;
        let before = members_after_all(ids, t);
        let r = members_after_all(ids, changes);
        last_change_decides_membership(ids, t);
        member_change_adds_and_removes(before, changes.last());
        assert(changes[n] == changes.last());
        assert forall|x: u32| #[trigger] r.contains(x) <==> (ids.contains(x) && not_removed_from(
            changes,
            0,
            x,
        )) || exists|i: int|
            0 <= i < changes.len() && (#[trigger] changes[i]).table_ids_add.contains(x)
                && not_removed_from(changes, i, x) by {
            assert forall|i: int| 0 <= i <= n implies (#[trigger] not_removed_from(changes, i, x)
                <==> not_removed_from(t, i, x) && !changes[n].table_ids_remove.contains(x)) by {
                if not_removed_from(changes, i, x) {
                    assert forall|j: int| i <= j < t.len() implies !(
                    #[trigger] t[j]).table_ids_remove.contains(x) by {
                        assert(changes[j] == t[j]);
                    }
                }
                if not_removed_from(t, i, x) && !changes[n].table_ids_remove.contains(x) {
                    assert forall|j: int| i <= j < changes.len() implies !(
                    #[trigger] changes[j]).table_ids_remove.contains(x) by {
                        if j < n {
                            assert(changes[j] == t[j]);
                        }
                    }
                }
            }
            if r.contains(x) {
                if before.contains(x) {
                    if !(ids.contains(x) && not_removed_from(t, 0, x)) {
                        let i = choose|i: int|
                            0 <= i < t.len() && (#[trigger] t[i]).table_ids_add.contains(x)
                                && not_removed_from(t, i, x);
                        assert(changes[i] == t[i]);
                        assert(not_removed_from(changes, i, x));
                    } else {
                        assert(not_removed_from(changes, 0, x));
                    }
                } else {
                    assert(not_removed_from(t, n, x));
                    assert(not_removed_from(changes, n, x));
                }
            }
            if exists|i: int|
                0 <= i < changes.len() && (#[trigger] changes[i]).table_ids_add.contains(x)
                    && not_removed_from(changes, i, x) {
                let i = choose|i: int|
                    0 <= i < changes.len() && (#[trigger] changes[i]).table_ids_add.contains(x)
                        && not_removed_from(changes, i, x);
                assert(not_removed_from(changes, i, x));
                if i < n {
                    assert(changes[i] == t[i]);
                    assert(not_removed_from(t, i, x));
                }
                assert(!changes[n].table_ids_remove.contains(x));
            }
            if ids.contains(x) && not_removed_from(changes, 0, x) {
                assert(!changes[n].table_ids_remove.contains(x));
            }
        }
    }
}

/// Whether a group is what a compaction leaves of it.
pub open spec fn compacted_as(
    before: LevelsView,
    s: SummaryView,
    members: Set<u32>,
    after: LevelsView,
) -> bool {
    &&& !all_present(before, s.delete_sst_levels, s.delete_sst_ids) ==> after == before
    &&& all_present(before, s.delete_sst_levels, s.delete_sst_ids) ==> {
        &&& same_group(after, before)
        &&& upper_levels_compacted(before, s, members, after)
        &&& ids_differ(before.l0.sub_levels) ==> exists|changed: Seq<LevelView>| #[trigger]
            sub_levels_compacted(before, s, members, changed, after)
    }
}

/// Whether a set holds the tables that are in a group.
pub open spec fn are_tables_of(
    members: Set<TableId>,
    info: Map<TableId, StateTableInfo>,
    group_id: CompactionGroupId,
) -> bool {
    forall|t: TableId| #[trigger]
        members.contains(t) <==> info.dom().contains(t) && info[t].compaction_group_id == group_id
}

/// The changes to a group leave all other groups as they are after the group was made, filled or
/// merged, and all that is no level. The group's members change, and then its levels: by a commit
/// where the committed epoch advances, by a compaction where it stays. A group that ends is gone.
pub proof fn group_changes_are_commits_or_compactions(
    v: VersionView,
    group_id: CompactionGroupId,
    deltas: Seq<GroupDeltaView>,
    max_committed_epoch: u64,
) -> (members: Set<TableId>)
    requires
        v.with_group_delta(group_id, deltas, max_committed_epoch) is Some,
    ensures
        are_tables_of(members, v.state_table_info, group_id),
        summary_of(deltas, group_id) is Some,
        v.with_reshaped(group_id, summary_of(deltas, group_id)->0) is Some,
        ({
            let s = summary_of(deltas, group_id)->0;
            let mid = v.with_reshaped(group_id, s)->0;
            let r = v.with_group_delta(group_id, deltas, max_committed_epoch)->0;
            let before = LevelsView {
                member_table_ids: members_after_all(
                    mid.levels[group_id].member_table_ids,
                    s.group_meta_changes,
                ),
                ..mid.levels[group_id]
            };
            &&& v.max_committed_epoch <= max_committed_epoch
            &&& mid.levels.dom().contains(group_id)
            &&& r == (VersionView { levels: r.levels, ..v })
            &&& forall|g: CompactionGroupId| #[trigger]
                r.levels.dom().contains(g) <==> mid.levels.dom().contains(g) && s.group_destroy
                    != Some(g)
            &&& forall|g: CompactionGroupId| #[trigger]
                r.levels.dom().contains(g) && g != group_id ==> r.levels[g] == mid.levels[g]
            &&& r.levels.dom().contains(group_id) && v.max_committed_epoch < max_committed_epoch
                ==> committed_as(before, s, r.levels[group_id])
            &&& r.levels.dom().contains(group_id) && v.max_committed_epoch == max_committed_epoch
                ==> compacted_as(before, s, members, r.levels[group_id])
        }),
{
    let s = summary_of(deltas, group_id)->0;
    let mid = v.with_reshaped(group_id, s)->0;
    let r = v.with_group_delta(group_id, deltas, max_committed_epoch)->0;
    let before = LevelsView {
        member_table_ids: members_after_all(
            mid.levels[group_id].member_table_ids,
            s.group_meta_changes,
        ),
        ..mid.levels[group_id]
    };
    let members = tables_of(mid.state_table_info, group_id);
    let after = mid.levels_after(group_id, s, max_committed_epoch)->0;
    assert(mid == (VersionView { levels: mid.levels, ..v }));
    if v.max_committed_epoch < max_committed_epoch {
        commit_appends_a_sub_level(before, s);
    } else {
        lemma_compacted_as(before, s, members);
    }
    members
}

proof fn lemma_compacted_as(before: LevelsView, s: SummaryView, members: Set<u32>)
    requires
        before.compacted(s, members) is Some,
    ensures
        compacted_as(before, s, members, before.compacted(s, members)->0),
{
    if all_present(before, s.delete_sst_levels, s.delete_sst_ids) {
        compaction_changes_upper_levels(before, s, members);
        if ids_differ(before.l0.sub_levels) {
            let changed = compaction_changes_sub_levels(before, s, members);
        }
    } else {
        compaction_of_absent_ssts_changes_nothing(before, s, members);
    }
}

/// Whether a level is empty, with the number.
pub open spec fn empty_level(level: LevelView, level_idx: u32) -> bool {
    &&& level.level_idx == level_idx
    &&& level.level_type == LevelType::Nonoverlapping
    &&& level.table_infos.len() == 0
    &&& level.total_file_size == 0
    &&& level.uncompressed_file_size == 0
    &&& level.sub_level_id == 0
    &&& level.vnode_partition_count == 0
}

/// Whether a group is new: it has as many empty levels, numbered from 1, and no sub-level.
pub open spec fn new_group(
    levels: LevelsView,
    group_id: CompactionGroupId,
    parent_group_id: CompactionGroupId,
    max_level: u64,
    member_table_ids: Seq<u32>,
) -> bool {
    &&& levels.group_id == group_id
    &&& levels.parent_group_id == parent_group_id
    &&& levels.member_table_ids == member_table_ids
    &&& levels.l0.sub_levels.len() == 0
    &&& levels.l0.total_file_size == 0
    &&& levels.l0.uncompressed_file_size == 0
    &&& levels.levels.len() == max_level
    &&& forall|i: int|
        0 <= i < max_level ==> empty_level(#[trigger] levels.levels[i], (i + 1) as u32)
}

/// The levels made for a group are empty ones, numbered from 1, and the group has no parent and no
/// members.
pub proof fn initial_levels_are_empty(group_id: CompactionGroupId, max_level: u64)
    ensures
        new_group(
            LevelsView::initial(group_id, max_level),
            group_id,
            0,
            max_level,
            Seq::empty(),
        ),
{
}

/// Whether a version is another one with two groups divided, and nothing else changed.
pub open spec fn divided_as(
    before: VersionView,
    parent: CompactionGroupId,
    target: CompactionGroupId,
    members: Set<u32>,
    new_sst_start_id: u64,
    split_key: Option<Seq<u8>>,
    after: VersionView,
) -> bool {
    let d = Division {
        parent: before.levels[parent],
        target: before.levels[target],
        next_sst_id: new_sst_start_id,
    };
    if parent == 0 || !before.levels.dom().contains(parent) {
        after == before
    } else {
        &&& parent != target
        &&& before.levels.dom().contains(target)
        &&& after == (VersionView { levels: after.levels, ..before })
        &&& after.levels.dom() == before.levels.dom()
        &&& d.divided(members, split_key) is Some
        &&& after.levels[parent] == d.divided(members, split_key)->0.parent
        &&& after.levels[target] == d.divided(members, split_key)->0.target
        &&& forall|g: CompactionGroupId|
            #[trigger] before.levels.dom().contains(g) && g != parent && g != target
                ==> after.levels[g] == before.levels[g]
    }
}

/// Splitting a group off its parent divides the SSTs of the parent between the two, and changes
/// nothing where there is no parent.
pub proof fn split_divides_two_groups(
    v: VersionView,
    parent: CompactionGroupId,
    target: CompactionGroupId,
    members: Set<u32>,
    new_sst_start_id: u64,
    split_key: Option<Seq<u8>>,
)
    requires
        v.with_split_group(parent, target, members, new_sst_start_id, split_key) is Some,
    ensures
        divided_as(
            v,
            parent,
            target,
            members,
            new_sst_start_id,
            split_key,
            v.with_split_group(parent, target, members, new_sst_start_id, split_key)->0,
        ),
{
    let r = v.with_split_group(parent, target, members, new_sst_start_id, split_key)->0;
    if parent != 0 && v.levels.dom().contains(parent) {
        assert(r.levels.dom() =~= v.levels.dom());
    }
}

/// A construction makes a new group and fills it from its parent: with the tables that are in the
/// group by the table infos, or that the construction names where its format is older.
pub proof fn construction_makes_a_group(
    v: VersionView,
    group_id: CompactionGroupId,
    construct: GroupConstructView,
) -> (r: (VersionView, Set<TableId>))
    requires
        v.with_constructed(group_id, construct) is Some,
    ensures
        construct.group_config is Some,
        r.0 == (VersionView { levels: r.0.levels, ..v }),
        forall|g: CompactionGroupId| #[trigger]
            r.0.levels.dom().contains(g) <==> v.levels.dom().contains(g) || g == group_id,
        forall|g: CompactionGroupId| #[trigger]
            r.0.levels.dom().contains(g) && g != group_id ==> r.0.levels[g] == v.levels[g],
        new_group(
            r.0.levels[group_id],
            group_id,
            construct.parent_group_id,
            construct.group_config->0.max_level,
            construct.table_ids,
        ),
        construct.version >= 2 ==> are_tables_of(r.1, v.state_table_info, group_id),
        construct.version < 2 ==> forall|t: TableId| #[trigger]
            r.1.contains(t) <==> construct.table_ids.contains(t),
        divided_as(
            r.0,
            construct.parent_group_id,
            group_id,
            r.1,
            construct.new_sst_start_id,
            construct.split_key,
            v.with_constructed(group_id, construct)->0,
        ),
{
    let levels = LevelsView {
        parent_group_id: construct.parent_group_id,
        member_table_ids: construct.table_ids,
        ..LevelsView::initial(group_id, construct.group_config->0.max_level)
    };
    let w = VersionView { levels: v.levels.insert(group_id, levels), ..v };
    let members = if construct.version >= 2 {
        tables_of(v.state_table_info, group_id)
    } else {
        construct.table_ids.to_set()
    };
    split_divides_two_groups(
        w,
        construct.parent_group_id,
        group_id,
        members,
        construct.new_sst_start_id,
        construct.split_key,
    );
    (w, members)
}

/// A move of tables, made by older formats alone, divides the SSTs of the group of origin by the
/// tables; the tables go from the members of that group to those of the other, in the order in which
/// they were members.
pub proof fn move_takes_tables_along(
    v: VersionView,
    group_id: CompactionGroupId,
    change: GroupTableChangeView,
) -> (w: VersionView)
    requires
        v.with_moved_tables(group_id, change) is Some,
        change.origin_group_id != group_id,
    ensures
        change.version <= 1,
        divided_as(
            v,
            change.origin_group_id,
            change.target_group_id,
            change.table_ids.to_set(),
            change.new_sst_start_id,
            None,
            w,
        ),
        ({
            let r = v.with_moved_tables(group_id, change)->0;
            let origin = change.origin_group_id;
            let (from, to) = (w.levels[origin], w.levels[group_id]);
            &&& w.levels.dom().contains(origin)
            &&& w.levels.dom().contains(group_id)
            &&& r == (VersionView { levels: r.levels, ..w })
            &&& r.levels.dom() == w.levels.dom()
            &&& forall|g: CompactionGroupId|
                #[trigger] w.levels.dom().contains(g) && g != origin && g != group_id
                    ==> r.levels[g] == w.levels[g]
            &&& r.levels[origin] == (LevelsView {
                member_table_ids: from.member_table_ids.filter(
                    |t: u32| !change.table_ids.contains(t),
                ),
                ..from
            })
            &&& r.levels[group_id] == (LevelsView {
                member_table_ids: to.member_table_ids + from.member_table_ids.filter(
                    |t: u32| change.table_ids.contains(t),
                ),
                ..to
            })
        }),
{
    let w = v.with_split_group(
        change.origin_group_id,
        change.target_group_id,
        change.table_ids.to_set(),
        change.new_sst_start_id,
        None,
    )->0;
    split_divides_two_groups(
        v,
        change.origin_group_id,
        change.target_group_id,
        change.table_ids.to_set(),
        change.new_sst_start_id,
        None,
    );
    let r = v.with_moved_tables(group_id, change)->0;
    let ids = w.levels[change.origin_group_id].member_table_ids;
    let (p, q) = (|t: u32| !change.table_ids.contains(t), |t: u32| change.table_ids.contains(t));
    assert(not_listed(change.table_ids) =~= p);
    assert(listed(change.table_ids) =~= q);
    lemma_keep_is_filter(ids, p);
    lemma_keep_is_filter(ids, q);
    assert(r.levels.dom() =~= w.levels.dom());
    w
}

/// A summary that tells of a construction makes the group; one that tells of a move of tables, and of
/// no construction, moves them; one that tells of a merge alone merges the groups; and another one
/// leaves all groups as they are.
pub proof fn summary_reshapes_once(v: VersionView, group_id: CompactionGroupId, s: SummaryView)
    ensures
        s.group_construct is Some ==> v.with_reshaped(group_id, s) == v.with_constructed(
            group_id,
            s.group_construct->0,
        ),
        s.group_construct is None && s.group_table_change is Some ==> v.with_reshaped(group_id, s)
            == v.with_moved_tables(group_id, s.group_table_change->0),
        s.group_construct is None && s.group_table_change is None && s.group_merge is Some
            ==> v.with_reshaped(group_id, s) == v.with_merged_groups(
            (s.group_merge->0).left_group_id,
            (s.group_merge->0).right_group_id,
        ),
        s.group_construct is None && s.group_table_change is None && s.group_merge is None
            ==> v.with_reshaped(group_id, s) == Some(v),
{
}

} // verus!
