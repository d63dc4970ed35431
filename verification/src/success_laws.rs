//! When commits, compactions and deltas can be made.
use crate::key::TableId;
use crate::level::{CompactionGroupId, Level};
use vstd::prelude::*;

#[allow(unused_imports)]
use crate::change_log::ChangeLogEntryView;
#[allow(unused_imports)]
use crate::compact_laws::{all_present, deleted_ids_are_looked_for, staying};
#[allow(unused_imports)]
use crate::group_deltas::SummaryView;
#[allow(unused_imports)]
use crate::level::{LevelView, LevelsView};
#[allow(unused_imports)]
use crate::merge_laws::{lemma_sizes, raw_sizes, sizes};
#[allow(unused_imports)]
use crate::seqs::{lemma_keep_is_filter, sort_leaves_ordered, Sortable};
#[allow(unused_imports)]
use crate::sstable_info::SstView;
#[allow(unused_imports)]
use crate::table_watermark::TableWatermarksView;
#[allow(unused_imports)]
use crate::version::{VersionDeltaView, VersionView};
#[allow(unused_imports)]
use crate::watermark_laws::ascending;

verus! {

/// A commit can be made if and only if it inserts into level 0 alone, deletes nothing unless a group
/// ends, and its new sub-level can stand behind all others and be counted in.
pub proof fn commit_can_be_made(levels: LevelsView, s: SummaryView)
    ensures
        VersionView::committed(levels, s) is Some <==> {
            let (l0, ssts) = (levels.l0, s.insert_table_infos);
            &&& s.group_destroy is Some || (s.delete_sst_levels == Set::<u32>::empty()
                && s.delete_sst_ids == Set::<u64>::empty())
            &&& ssts.len() == 0 || s.insert_sst_level_id == 0
            &&& ssts.len() == 0 || s.insert_sub_level_id == u64::MAX || {
                &&& l0.sub_levels.len() > 0 ==> l0.sub_levels.last().sub_level_id
                    < s.insert_sub_level_id
                &&& l0.total_file_size + sizes(ssts) <= u64::MAX
                &&& l0.uncompressed_file_size + raw_sizes(ssts) <= u64::MAX
            }
        },
{
    lemma_sizes(s.insert_table_infos);
}

/// Whether what stays of a level without the ids can be counted.
pub open spec fn countable_without(level: LevelView, ids: Set<u64>) -> bool {
    &&& sizes(staying(level.table_infos, ids)) <= u64::MAX
    &&& raw_sizes(staying(level.table_infos, ids)) <= u64::MAX
}

proof fn lemma_countable(level: LevelView, ids: Set<u64>)
    ensures
        level.can_lose(ids) <==> countable_without(level, ids),
{
    let p = |s: SstView| !ids.contains(s.sst_id);
    assert(crate::compact::not_among(ids) =~= p);
    lemma_keep_is_filter(level.table_infos, p);
    lemma_sizes(staying(level.table_infos, ids));
}

/// A compaction that names a level that is not there cannot be made. One that has expired can. One that
/// deletes what is there, from levels above 0, and inserts nothing can be made if and only if what stays
/// can be counted.
pub proof fn compaction_can_be_made(levels: LevelsView, s: SummaryView, members: Set<u32>)
    ensures
        ({
            let (from, ids) = (s.delete_sst_levels, s.delete_sst_ids);
            let r = levels.compacted(s, members);
            let named = forall|l: u32| #[trigger] from.contains(l) ==> l <= levels.levels.len();
            &&& !named ==> r is None
            &&& named && !all_present(levels, from, ids) ==> r is Some
            &&& named && all_present(levels, from, ids) && !from.contains(0)
                && s.insert_table_infos.len() == 0 ==> (r is Some <==> forall|l: u32|
                #[trigger] from.contains(l) ==> countable_without(levels.levels[l - 1], ids))
        }),
{
    let (from, ids) = (s.delete_sst_levels, s.delete_sst_ids);
    let named = forall|l: u32| #[trigger] from.contains(l) ==> l <= levels.levels.len();
    if named {
        deleted_ids_are_looked_for(levels, from, ids);
        if !from.contains(0) {
            assert forall|i: int| 0 <= i < levels.levels.len() implies ((
            #[trigger] levels.levels[i]).can_lose(ids) <==> countable_without(
                levels.levels[i],
                ids,
            )) by {
                lemma_countable(levels.levels[i], ids);
            }
            if levels.can_lose(from, ids) {
                assert forall|l: u32| #[trigger] from.contains(l) implies countable_without(
                    levels.levels[l - 1],
                    ids,
                ) by {
                    assert(crate::compact::marks(from, l - 1));
                    assert(levels.levels[l - 1].can_lose(ids));
                }
            }
            if forall|l: u32| #[trigger]
                from.contains(l) ==> countable_without(levels.levels[l - 1], ids) {
                assert forall|i: int|
                    0 <= i < levels.levels.len() && crate::compact::marks(from, i) implies (
                #[trigger] levels.levels[i]).can_lose(ids) by {
                    assert(from.contains((i + 1) as u32));
                }
            }
        }
    }
}

/// Whether new watermarks can follow those that a table has.
pub open spec fn watermarks_in_turn(had: TableWatermarksView, new: TableWatermarksView) -> bool {
    &&& had.direction == new.direction
    &&& ascending(had.watermarks)
    &&& ascending(new.watermarks)
    &&& new.watermarks.len() > 0
    &&& had.watermarks.len() > 0 ==> had.watermarks.last().epoch < new.watermarks[0].epoch
}

/// Whether an entry can follow a change log: it is later than the last one there.
pub open spec fn entry_in_turn(had: Seq<ChangeLogEntryView>, new: ChangeLogEntryView) -> bool {
    had.len() > 0 ==> had.last().epochs.len() > 0 && new.epochs.len() > 0
        && had.last().epochs.last() < new.epochs[0]
}

/// Whether each entry of a change log has an epoch.
pub open spec fn all_have_epochs(log: Seq<ChangeLogEntryView>) -> bool {
    forall|i: int| 0 <= i < log.len() ==> (#[trigger] log[i]).epochs.len() > 0
}

/// Whether a table can take over what a delta says of it.
pub open spec fn table_takes(v: VersionView, delta: VersionDeltaView, t: TableId) -> bool {
    let stays = !delta.removed_table_ids.contains(t);
    let (info, next) = (v.state_table_info, delta.state_table_info_delta);
    let (marks, new_marks) = (v.table_watermarks, delta.new_table_watermarks);
    let (logs, entries) = (v.table_change_log, delta.change_log_delta);
    let log = if logs.dom().contains(t) {
        logs[t]
    } else {
        Seq::empty()
    };
    &&& stays && info.dom().contains(t) && next.dom().contains(t) ==> info[t].safe_epoch
        <= next[t].safe_epoch && info[t].committed_epoch <= next[t].committed_epoch
    &&& stays && marks.dom().contains(t) && new_marks.dom().contains(t) ==> watermarks_in_turn(
        marks[t],
        new_marks[t],
    )
    &&& entries.dom().contains(t) ==> entries[t].new_log is Some && entry_in_turn(
        log,
        entries[t].new_log->0,
    )
    &&& entries.dom().contains(t) && stays ==> all_have_epochs(log.push(entries[t].new_log->0))
}

/// A delta can be applied if and only if it follows the version by its id, each table can take over what
/// the delta says of it, and the changes to the groups can be made once the table infos have changed.
pub proof fn delta_can_be_applied(
    v: VersionView,
    delta: VersionDeltaView,
    order: Seq<CompactionGroupId>,
)
    ensures
        v.with_delta(delta, order) is Some <==> {
            let info = crate::version::info_after(
                v.state_table_info,
                delta.state_table_info_delta,
                delta.removed_table_ids,
            );
            &&& v.id == delta.prev_id
            &&& forall|t: TableId| #[trigger] table_takes(v, delta, t)
            &&& (VersionView { state_table_info: info, ..v }).with_group_deltas(
                delta,
                order,
            ) is Some
        },
{
    let removed = delta.removed_table_ids;
    let (a, b, c) = (
        crate::version::epochs_advance(
            v.state_table_info,
            delta.state_table_info_delta,
            removed,
        ),
        crate::table_state::all_watermarks_follow(
            v.table_watermarks,
            delta.new_table_watermarks,
            removed,
        ),
        crate::table_state::all_logs_follow(v.table_change_log, delta.change_log_delta, removed),
    );
    if a && b && c {
        assert forall|t: TableId| #[trigger] table_takes(v, delta, t) by {
            lemma_table_takes(v, delta, t);
        }
    }
    if forall|t: TableId| #[trigger] table_takes(v, delta, t) {
        assert(a) by {
            assert forall|t: TableId|
                #[trigger] delta.state_table_info_delta.dom().contains(t)
                    && v.state_table_info.dom().contains(t) && !removed.contains(t) implies
                v.state_table_info[t].safe_epoch <= delta.state_table_info_delta[t].safe_epoch
                && v.state_table_info[t].committed_epoch
                <= delta.state_table_info_delta[t].committed_epoch by {
                assert(table_takes(v, delta, t));
            }
        }
        assert(b) by {
            assert forall|t: TableId| #[trigger]
                delta.new_table_watermarks.dom().contains(t) implies
                crate::table_state::watermarks_follow(
                crate::table_state::lookup(v.table_watermarks, t),
                Some(delta.new_table_watermarks[t]),
                removed.contains(t),
            ) by {
                assert(table_takes(v, delta, t));
            }
        }
        assert(c) by {
            assert forall|t: TableId| #[trigger]
                delta.change_log_delta.dom().contains(t) implies crate::table_state::log_follows(
                crate::table_state::lookup(v.table_change_log, t),
                delta.change_log_delta[t],
                removed.contains(t),
            ) by {
                assert(table_takes(v, delta, t));
                lemma_log_joined(v, delta, t);
            }
        }
    }
}

proof fn lemma_log_joined(v: VersionView, delta: VersionDeltaView, t: TableId)
    requires
        delta.change_log_delta.dom().contains(t),
    ensures
        ({
            let logs = v.table_change_log;
            let log = if logs.dom().contains(t) {
                logs[t]
            } else {
                Seq::empty()
            };
            let d = delta.change_log_delta[t];
            let joined = crate::table_state::log_extended(
                crate::table_state::lookup(logs, t),
                Some(d),
            );
            joined == Some(log.push(d.new_log->0))
        }),
{
    let logs = v.table_change_log;
    if !logs.dom().contains(t) {
        assert(Seq::empty().push(delta.change_log_delta[t].new_log->0) =~= seq![
            delta.change_log_delta[t].new_log->0,
        ]);
    }
}

proof fn lemma_table_takes(v: VersionView, delta: VersionDeltaView, t: TableId)
    requires
        crate::version::epochs_advance(
            v.state_table_info,
            delta.state_table_info_delta,
            delta.removed_table_ids,
        ),
        crate::table_state::all_watermarks_follow(
            v.table_watermarks,
            delta.new_table_watermarks,
            delta.removed_table_ids,
        ),
        crate::table_state::all_logs_follow(
            v.table_change_log,
            delta.change_log_delta,
            delta.removed_table_ids,
        ),
    ensures
        table_takes(v, delta, t),
{
    if delta.change_log_delta.dom().contains(t) {
        assert(crate::table_state::log_follows(
            crate::table_state::lookup(v.table_change_log, t),
            delta.change_log_delta[t],
            delta.removed_table_ids.contains(t),
        ));
        lemma_log_joined(v, delta, t);
    }
    if delta.new_table_watermarks.dom().contains(t) {
        assert(crate::table_state::watermarks_follow(
            crate::table_state::lookup(v.table_watermarks, t),
            Some(delta.new_table_watermarks[t]),
            delta.removed_table_ids.contains(t),
        ));
    }
}

/// A group that holds no SST and has no sub-level can be merged into any group whose sub-levels are in
/// order, and changes nothing there.
pub proof fn merging_nothing_changes_nothing(left: LevelsView, right: LevelsView)
    requires
        forall|i: int, j: int|
            0 <= i < j < left.l0.sub_levels.len() ==> (
            #[trigger] left.l0.sub_levels[i]).sub_level_id <= (
            #[trigger] left.l0.sub_levels[j]).sub_level_id,
        right.l0.sub_levels.len() == 0,
        forall|i: int|
            0 <= i < right.levels.len() ==> (#[trigger] right.levels[i]).table_infos.len() == 0,
    ensures
        left.with_merged(right) == Some(left),
{
    assert(left.l0.with_all_merged(right.l0.sub_levels) == Some(left.l0));
    sort_leaves_ordered(left.l0.sub_levels, Level::before());
    let r = left.with_merged(right)->0;
    assert forall|i: int| 0 <= i < left.levels.len() implies #[trigger] r.levels[i]
        == left.levels[i] by {
        assert(crate::merge::ssts_at(right.levels, i).len() == 0);
    }
    assert(r.levels =~= left.levels);
    assert(r.l0 == left.l0);
}

} // verus!
