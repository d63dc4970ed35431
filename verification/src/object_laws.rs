//! Which objects a version holds, and that splits and merges of groups keep them.
use crate::key::TableId;
use crate::level::CompactionGroupId;
use vstd::prelude::*;

#[allow(unused_imports)]
use crate::division_laws::{division_keeps_objects, well_filled};
#[allow(unused_imports)]
use crate::level::LevelsView;
#[allow(unused_imports)]
use crate::maps::lemma_gather_contains;
#[allow(unused_imports)]
use crate::merge::{levels_have_object, merge_keeps_objects};
#[allow(unused_imports)]
use crate::parent_group::Division;
#[allow(unused_imports)]
use crate::queries::ssts_in;
#[allow(unused_imports)]
use crate::split::has_object;
#[allow(unused_imports)]
use crate::sstable_info::SstView;
#[allow(unused_imports)]
use crate::version::VersionView;

verus! {

impl VersionView {
    /// Whether the version holds an SST of the object.
    pub open spec fn holds_object(self, object_id: u64) -> bool {
        exists|sst: SstView| #[trigger] self.holds(sst) && sst.object_id == object_id
    }

    /// Whether a group holds an SST of the object.
    pub open spec fn groups_hold(self, object_id: u64) -> bool {
        exists|g: CompactionGroupId| #[trigger]
            self.levels.dom().contains(g) && self.levels[g].has_object(object_id)
    }

    /// Whether a change log holds an SST of the object.
    pub open spec fn logs_hold(self, object_id: u64) -> bool {
        exists|t: TableId| #[trigger]
            self.table_change_log.dom().contains(t) && has_object(
                self.log_ssts_of()(t),
                object_id,
            )
    }
}

/// A group's SSTs hold those of the object that one of its levels holds.
proof fn lemma_group_objects(levels: LevelsView, object_id: u64)
    ensures
        has_object(levels.ssts(), object_id) <==> levels.has_object(object_id),
{
    let all = levels.newest_first();
    let subs = levels.l0.sub_levels;
    let n = subs.len() as int;
    let ssts = levels.ssts();
    if has_object(ssts, object_id) {
        let k = choose|k: int| 0 <= k < ssts.len() && (#[trigger] ssts[k]).object_id == object_id;
        assert(ssts.contains(ssts[k]));
        lemma_gather_contains(all, ssts_in(), ssts[k]);
        let i = choose|i: int| 0 <= i < all.len() && ssts_in()(#[trigger] all[i]).contains(ssts[k]);
        let infos = all[i].table_infos;
        let j = choose|j: int| 0 <= j < infos.len() && infos[j] == ssts[k];
        assert(infos[j].object_id == object_id);
        if i < n {
            assert(all[i] == subs[n - 1 - i]);
            assert(has_object(subs[n - 1 - i].table_infos, object_id));
        } else {
            assert(all[i] == levels.levels[i - n]);
            assert(has_object(levels.levels[i - n].table_infos, object_id));
        }
    }
    if levels.has_object(object_id) {
        let i = if levels_have_object(subs, object_id) {
            let i = choose|i: int|
                0 <= i < subs.len() && has_object((#[trigger] subs[i]).table_infos, object_id);
            assert(all[n - 1 - i] == subs[i]);
            n - 1 - i
        } else {
            let i = choose|i: int|
                0 <= i < levels.levels.len() && has_object(
                    (#[trigger] levels.levels[i]).table_infos,
                    object_id,
                );
            assert(all[n + i] == levels.levels[i]);
            n + i
        };
        let infos = all[i].table_infos;
        let j = choose|j: int| 0 <= j < infos.len() && (#[trigger] infos[j]).object_id == object_id;
        assert(infos.contains(infos[j]));
        assert(ssts_in()(all[i]).contains(infos[j]));
        lemma_gather_contains(all, ssts_in(), infos[j]);
        let k = choose|k: int| 0 <= k < ssts.len() && ssts[k] == infos[j];
        assert(ssts[k].object_id == object_id);
    }
}

/// A version holds an object if and only if a group or a change log does.
pub proof fn objects_are_in_groups_or_logs(version: VersionView, object_id: u64)
    ensures
        version.holds_object(object_id) <==> version.groups_hold(object_id) || version.logs_hold(
            object_id,
        ),
{
    if version.holds_object(object_id) {
        let sst = choose|sst: SstView| #[trigger] version.holds(sst) && sst.object_id == object_id;
        if exists|g: CompactionGroupId| #[trigger]
            version.levels.dom().contains(g) && version.ssts_of()(g).contains(sst) {
            let g = choose|g: CompactionGroupId| #[trigger]
                version.levels.dom().contains(g) && version.ssts_of()(g).contains(sst);
            let ssts = version.levels[g].ssts();
            let k = choose|k: int| 0 <= k < ssts.len() && ssts[k] == sst;
            assert(ssts[k].object_id == object_id);
            lemma_group_objects(version.levels[g], object_id);
        } else {
            let t = choose|t: TableId| #[trigger]
                version.table_change_log.dom().contains(t) && version.log_ssts_of()(t).contains(
                    sst,
                );
            let ssts = version.log_ssts_of()(t);
            let k = choose|k: int| 0 <= k < ssts.len() && ssts[k] == sst;
            assert(ssts[k].object_id == object_id);
        }
    }
    if version.groups_hold(object_id) {
        let g = choose|g: CompactionGroupId| #[trigger]
            version.levels.dom().contains(g) && version.levels[g].has_object(object_id);
        lemma_group_objects(version.levels[g], object_id);
        let ssts = version.levels[g].ssts();
        let k = choose|k: int| 0 <= k < ssts.len() && (#[trigger] ssts[k]).object_id == object_id;
        assert(version.ssts_of()(g).contains(ssts[k]));
        assert(version.holds(ssts[k]));
    }
    if version.logs_hold(object_id) {
        let t = choose|t: TableId| #[trigger]
            version.table_change_log.dom().contains(t) && has_object(
                version.log_ssts_of()(t),
                object_id,
            );
        let ssts = version.log_ssts_of()(t);
        let k = choose|k: int| 0 <= k < ssts.len() && (#[trigger] ssts[k]).object_id == object_id;
        assert(ssts.contains(ssts[k]));
        assert(version.holds(ssts[k]));
    }
}

proof fn lemma_same_logs(one: VersionView, other: VersionView, object_id: u64)
    requires
        one.table_change_log == other.table_change_log,
    ensures
        one.logs_hold(object_id) == other.logs_hold(object_id),
{
    if one.logs_hold(object_id) {
        let t = choose|t: TableId| #[trigger]
            one.table_change_log.dom().contains(t) && has_object(one.log_ssts_of()(t), object_id);
        assert(has_object(other.log_ssts_of()(t), object_id));
    }
    if other.logs_hold(object_id) {
        let t = choose|t: TableId| #[trigger]
            other.table_change_log.dom().contains(t) && has_object(
                other.log_ssts_of()(t),
                object_id,
            );
        assert(has_object(one.log_ssts_of()(t), object_id));
    }
}

proof fn lemma_two_groups_changed(
    before: VersionView,
    after: VersionView,
    one: CompactionGroupId,
    other: CompactionGroupId,
    object_id: u64,
)
    requires
        one != other,
        before.levels.dom().contains(one),
        before.levels.dom().contains(other),
        after == (VersionView { levels: after.levels, ..before }),
        after.levels == before.levels.insert(one, after.levels[one]).insert(
            other,
            after.levels[other],
        ),
        before.levels[one].has_object(object_id) || before.levels[other].has_object(object_id)
            <==> after.levels[one].has_object(object_id) || after.levels[other].has_object(
            object_id,
        ),
    ensures
        after.holds_object(object_id) <==> before.holds_object(object_id),
{
    objects_are_in_groups_or_logs(before, object_id);
    objects_are_in_groups_or_logs(after, object_id);
    lemma_same_logs(before, after, object_id);
    if before.groups_hold(object_id) {
        let g = choose|g: CompactionGroupId| #[trigger]
            before.levels.dom().contains(g) && before.levels[g].has_object(object_id);
        if g != one && g != other {
            assert(after.levels.dom().contains(g) && after.levels[g] == before.levels[g]);
        } else {
            assert(after.levels.dom().contains(one) && after.levels.dom().contains(other));
        }
    }
    if after.groups_hold(object_id) {
        let g = choose|g: CompactionGroupId| #[trigger]
            after.levels.dom().contains(g) && after.levels[g].has_object(object_id);
        if g != one && g != other {
            assert(before.levels.dom().contains(g) && after.levels[g] == before.levels[g]);
        }
    }
}

/// Splitting a group off its parent changes nothing in which objects a version holds, where every
/// SST of the parent holds a table and no sub-level of it has the id that stands for none.
pub proof fn split_keeps_objects_of_version(
    version: VersionView,
    parent_group_id: CompactionGroupId,
    group_id: CompactionGroupId,
    members: Set<u32>,
    new_sst_start_id: u64,
    split_key: Option<Seq<u8>>,
    object_id: u64,
)
    requires
        version.with_split_group(
            parent_group_id,
            group_id,
            members,
            new_sst_start_id,
            split_key,
        ) is Some,
        version.levels.dom().contains(parent_group_id) ==> well_filled(
            version.levels[parent_group_id],
        ),
    ensures
        version.with_split_group(
            parent_group_id,
            group_id,
            members,
            new_sst_start_id,
            split_key,
        )->0.holds_object(object_id) <==> version.holds_object(object_id),
{
    let after = version.with_split_group(
        parent_group_id,
        group_id,
        members,
        new_sst_start_id,
        split_key,
    )->0;
    if parent_group_id != crate::parent_group::NEW_COMPACTION_GROUP
        && version.levels.dom().contains(parent_group_id) {
        let d = Division {
            parent: version.levels[parent_group_id],
            target: version.levels[group_id],
            next_sst_id: new_sst_start_id,
        };
        division_keeps_objects(d, members, split_key, object_id);
        lemma_two_groups_changed(version, after, parent_group_id, group_id, object_id);
    }
}

/// Merging groups changes nothing in which objects a version holds, where no sub-level of the group
/// merged in has the id that stands for none.
pub proof fn merge_keeps_objects_of_version(
    version: VersionView,
    left_group_id: CompactionGroupId,
    right_group_id: CompactionGroupId,
    object_id: u64,
)
    requires
        version.with_merged_groups(left_group_id, right_group_id) is Some,
        forall|i: int|
            0 <= i < version.levels[right_group_id].l0.sub_levels.len() ==> (
            #[trigger] version.levels[right_group_id].l0.sub_levels[i]).sub_level_id != u64::MAX,
    ensures
        version.with_merged_groups(left_group_id, right_group_id)->0.holds_object(object_id)
            <==> version.holds_object(object_id),
{
    let after = version.with_merged_groups(left_group_id, right_group_id)->0;
    let (left, right) = (version.levels[left_group_id], version.levels[right_group_id]);
    merge_keeps_objects(left, right, object_id);
    let away = right.merged_away();
    if away.has_object(object_id) && levels_have_object(away.levels, object_id) {
        let i = choose|i: int|
            0 <= i < away.levels.len() && has_object(
                (#[trigger] away.levels[i]).table_infos,
                object_id,
            );
        assert(away.levels[i].table_infos.len() == 0);
    }
    lemma_two_groups_changed(version, after, left_group_id, right_group_id, object_id);
}

} // verus!
