//! What a version holds after a delta, stated on the version before and on the delta.
use crate::key::TableId;
use crate::level::CompactionGroupId;
use vstd::prelude::*;

#[allow(unused_imports)]
use crate::apply::members_after_all;
#[allow(unused_imports)]
use crate::apply_laws::{all_local, local, local_changes_are_independent};
#[allow(unused_imports)]
use crate::change_log::{ends_later_than, later_than, truncated, ChangeLogEntryView};
#[allow(unused_imports)]
use crate::compact_laws::committed_as;
#[allow(unused_imports)]
use crate::group_deltas::{summary_of, GroupDeltaView};
#[allow(unused_imports)]
use crate::group_laws::{
    are_tables_of, compacted_as, construction_makes_a_group,
    group_changes_are_commits_or_compactions, split_divides_two_groups,
};
#[allow(unused_imports)]
use crate::level::LevelsView;
#[allow(unused_imports)]
use crate::maps::is_walk;
#[allow(unused_imports)]
use crate::merge_laws::merge_leaves_other_groups;
#[allow(unused_imports)]
use crate::seqs::lemma_keep_is_filter;
#[allow(unused_imports)]
use crate::summary_laws::summary_tells_of_groups;
#[allow(unused_imports)]
use crate::version::{StateTableInfo, VersionDeltaView, VersionView};

verus! {

/// A delta follows the version with its previous id, and gives the version its own id and epochs.
pub proof fn delta_sets_id_and_epochs(
    v: VersionView,
    delta: VersionDeltaView,
    order: Seq<CompactionGroupId>,
)
    requires
        v.with_delta(delta, order) is Some,
    ensures
        v.id == delta.prev_id,
        v.with_delta(delta, order)->0.id == delta.id,
        v.with_delta(delta, order)->0.max_committed_epoch == delta.max_committed_epoch,
        v.with_delta(delta, order)->0.safe_epoch == delta.safe_epoch,
{
}

/// After a delta, nothing is known of a table that it removes; of another table that it speaks of, what
/// it says; and of all others, what was known before. No epoch of a table goes back.
pub proof fn delta_updates_table_infos(
    v: VersionView,
    delta: VersionDeltaView,
    order: Seq<CompactionGroupId>,
    t: TableId,
)
    requires
        v.with_delta(delta, order) is Some,
    ensures
        ({
            let (a, d) = (v.state_table_info, delta.state_table_info_delta);
            let r = v.with_delta(delta, order)->0.state_table_info;
            &&& delta.removed_table_ids.contains(t) ==> !r.dom().contains(t)
            &&& !delta.removed_table_ids.contains(t) && d.dom().contains(t) ==> r.dom().contains(t)
                && r[t] == d[t]
            &&& !delta.removed_table_ids.contains(t) && !d.dom().contains(t) && a.dom().contains(t)
                ==> r.dom().contains(t) && r[t] == a[t]
            &&& !d.dom().contains(t) && !a.dom().contains(t) ==> !r.dom().contains(t)
            &&& r.dom().contains(t) && a.dom().contains(t) ==> r[t].safe_epoch >= a[t].safe_epoch
                && r[t].committed_epoch >= a[t].committed_epoch
        }),
{
}

/// Of a table that a delta to the table infos removes or speaks of, what was known before is given
/// back: of one removed if something was known, of another one that the delta speaks of in any case.
pub proof fn infos_before_are_given_back(
    info: Map<TableId, StateTableInfo>,
    delta: Map<TableId, StateTableInfo>,
    removed: Set<TableId>,
    t: TableId,
)
    ensures
        ({
            let r = crate::version::info_changed(info, delta, removed);
            &&& r.dom().contains(t) <==> (if removed.contains(t) {
                info.dom().contains(t)
            } else {
                delta.dom().contains(t)
            })
            &&& r.dom().contains(t) && info.dom().contains(t) ==> r[t] == Some(info[t])
            &&& r.dom().contains(t) && !info.dom().contains(t) ==> r[t] is None
        }),
{
}

/// Whether a change to a group names another group: as its parent, as one between which tables move,
/// or as one of a merge.
pub open spec fn names_group(d: GroupDeltaView, g: CompactionGroupId) -> bool {
    match d {
        GroupDeltaView::GroupConstruct(c) => c.parent_group_id == g,
        GroupDeltaView::GroupTableChange(c) => c.origin_group_id == g || c.target_group_id == g,
        GroupDeltaView::GroupMerge(m) => m.left_group_id == g || m.right_group_id == g,
        _ => false,
    }
}

/// Whether a delta is about a group: it changes it, or a change to a group names it.
pub open spec fn concerns(delta: VersionDeltaView, g: CompactionGroupId) -> bool {
    ||| delta.group_deltas.dom().contains(g)
    ||| exists|o: CompactionGroupId, i: int|
        delta.group_deltas.dom().contains(o) && 0 <= i < delta.group_deltas[o].len() && names_group(
            #[trigger] delta.group_deltas[o][i],
            g,
        )
}

proof fn lemma_last_move_is_there(deltas: Seq<GroupDeltaView>, group_id: CompactionGroupId)
    requires
        summary_of(deltas, group_id) is Some,
        summary_of(deltas, group_id)->0.group_table_change is Some,
    ensures
        exists|i: int|
            0 <= i < deltas.len() && #[trigger] deltas[i] == GroupDeltaView::GroupTableChange(
                summary_of(deltas, group_id)->0.group_table_change->0,
            ),
    decreases deltas.len(),
{
    if deltas.len() > 0 {
        let t = deltas.drop_last();
        let n = deltas.len() - 1;
        assert(deltas[n] == deltas.last());
        if deltas.last() is GroupTableChange {
        } else {
            lemma_last_move_is_there(t, group_id);
            let i = choose|i: int|
                0 <= i < t.len() && #[trigger] t[i] == GroupDeltaView::GroupTableChange(
                    summary_of(t, group_id)->0.group_table_change->0,
                );
            assert(deltas[i] == t[i]);
        }
    }
}

proof fn lemma_group_delta_frame(
    v: VersionView,
    group_id: CompactionGroupId,
    deltas: Seq<GroupDeltaView>,
    max_committed_epoch: u64,
    g: CompactionGroupId,
)
    requires
        v.with_group_delta(group_id, deltas, max_committed_epoch) is Some,
        g != group_id,
        forall|i: int| 0 <= i < deltas.len() ==> !names_group(#[trigger] deltas[i], g),
    ensures
        ({
            let r = v.with_group_delta(group_id, deltas, max_committed_epoch)->0;
            &&& r.levels.dom().contains(g) <==> v.levels.dom().contains(g)
            &&& r.levels.dom().contains(g) ==> r.levels[g] == v.levels[g]
        }),
{
    let s = summary_of(deltas, group_id)->0;
    summary_tells_of_groups(deltas, group_id);
    let members = group_changes_are_commits_or_compactions(
        v,
        group_id,
        deltas,
        max_committed_epoch,
    );
    let mid = v.with_reshaped(group_id, s)->0;
    let r = v.with_group_delta(group_id, deltas, max_committed_epoch)->0;
    if s.group_construct is Some {
        let i = choose|i: int| 0 <= i < deltas.len() && #[trigger] deltas[i] is GroupConstruct;
        assert(!names_group(deltas[i], g));
        let (w, m) = construction_makes_a_group(v, group_id, s.group_construct->0);
        assert(w.levels.dom().contains(g) <==> v.levels.dom().contains(g));
    } else if s.group_table_change is Some {
        lemma_last_move_is_there(deltas, group_id);
        let c = s.group_table_change->0;
        let i = choose|i: int|
            0 <= i < deltas.len() && #[trigger] deltas[i] == GroupDeltaView::GroupTableChange(c);
        assert(!names_group(deltas[i], g));
        split_divides_two_groups(
            v,
            c.origin_group_id,
            c.target_group_id,
            c.table_ids.to_set(),
            c.new_sst_start_id,
            None,
        );
    } else if s.group_merge is Some {
        let i = choose|i: int| 0 <= i < deltas.len() && #[trigger] deltas[i] is GroupMerge;
        assert(!names_group(deltas[i], g));
        merge_leaves_other_groups(
            v,
            (s.group_merge->0).left_group_id,
            (s.group_merge->0).right_group_id,
        );
    }
    assert(mid.levels.dom().contains(g) <==> v.levels.dom().contains(g));
    if s.group_destroy == Some(g) {
        if s.group_merge is Some {
            let i = choose|i: int| 0 <= i < deltas.len() && #[trigger] deltas[i] is GroupMerge;
            assert(!names_group(deltas[i], g));
        } else {
            let i = choose|i: int|
                0 <= i < deltas.len() && (#[trigger] deltas[i] is GroupDestroy
                    || deltas[i] is GroupMerge);
            assert(deltas[i] is GroupDestroy);
        }
    }
    assert(r.levels.dom().contains(g) <==> mid.levels.dom().contains(g));
}

proof fn lemma_group_deltas_frame(
    v: VersionView,
    delta: VersionDeltaView,
    order: Seq<CompactionGroupId>,
    g: CompactionGroupId,
)
    requires
        v.with_group_deltas(delta, order) is Some,
        !concerns(delta, g),
        forall|i: int|
            0 <= i < order.len() ==> delta.group_deltas.dom().contains(#[trigger] order[i]),
    ensures
        ({
            let r = v.with_group_deltas(delta, order)->0;
            &&& r.levels.dom().contains(g) <==> v.levels.dom().contains(g)
            &&& r.levels.dom().contains(g) ==> r.levels[g] == v.levels[g]
        }),
    decreases order.len(),
{
    if order.len() > 0 {
        let t = order.drop_last();
        let o = order.last();
        assert forall|i: int| 0 <= i < t.len() implies delta.group_deltas.dom().contains(
            #[trigger] t[i],
        ) by {
            assert(order[i] == t[i]);
        }
        assert(order[order.len() - 1] == o);
        lemma_group_deltas_frame(v, delta, t, g);
        let w = v.with_group_deltas(delta, t)->0;
        assert forall|i: int| 0 <= i < delta.group_deltas[o].len() implies !names_group(
            #[trigger] delta.group_deltas[o][i],
            g,
        ) by {}
        lemma_group_delta_frame(w, o, delta.group_deltas[o], delta.max_committed_epoch, g);
    }
}

/// A delta leaves a group that it is not about as it was.
pub proof fn delta_leaves_other_groups(
    v: VersionView,
    delta: VersionDeltaView,
    order: Seq<CompactionGroupId>,
    g: CompactionGroupId,
)
    requires
        v.with_delta(delta, order) is Some,
        is_walk(order, delta.group_deltas.dom()),
        !concerns(delta, g),
    ensures
        v.with_delta(delta, order)->0.levels.dom().contains(g) <==> v.levels.dom().contains(g),
        v.levels.dom().contains(g) ==> v.with_delta(delta, order)->0.levels[g] == v.levels[g],
{
    assert forall|i: int| 0 <= i < order.len() implies delta.group_deltas.dom().contains(
        #[trigger] order[i],
    ) by {
        assert(order.to_set().contains(order[i]));
    }
    let told = VersionView {
        state_table_info: v.with_delta(delta, order)->0.state_table_info,
        ..v
    };
    lemma_group_deltas_frame(told, delta, order, g);
}

/// The changes to groups are made in turn: those to the first group are made to the version, and those
/// to the others to what comes of it.
pub proof fn groups_change_in_turn(
    v: VersionView,
    delta: VersionDeltaView,
    order: Seq<CompactionGroupId>,
)
    ensures
        order.len() == 0 ==> v.with_group_deltas(delta, order) == Some(v),
        order.len() > 0 ==> v.with_group_deltas(delta, order) == (match v.with_group_delta(
            order[0],
            delta.group_deltas[order[0]],
            delta.max_committed_epoch,
        ) {
            Some(w) => w.with_group_deltas(delta, order.skip(1)),
            None => None,
        }),
    decreases order.len(),
{
    if order.len() > 0 {
        let g = order[0];
        let t = order.drop_last();
        let first = v.with_group_delta(g, delta.group_deltas[g], delta.max_committed_epoch);
        if order.len() == 1 {
            assert(t =~= Seq::empty());
            assert(order.skip(1) =~= Seq::empty());
            assert(v.with_group_deltas(delta, t) == Some(v));
            assert(order.last() == g);
            if first is Some {
                assert(first->0.with_group_deltas(delta, order.skip(1)) == first);
            }
        } else {
            groups_change_in_turn(v, delta, t);
            assert(t[0] == g);
            let rest = order.skip(1);
            assert(rest.drop_last() =~= t.skip(1));
            assert(rest.last() == order.last());
        }
    }
}

/// A delta changes the groups once the table infos have changed, and nothing else of it changes the
/// groups.
pub proof fn delta_changes_groups_by_new_infos(
    v: VersionView,
    delta: VersionDeltaView,
    order: Seq<CompactionGroupId>,
)
    requires
        v.with_delta(delta, order) is Some,
    ensures
        ({
            let r = v.with_delta(delta, order)->0;
            let told = VersionView { state_table_info: r.state_table_info, ..v };
            &&& told.with_group_deltas(delta, order) is Some
            &&& told.with_group_deltas(delta, order)->0.levels == r.levels
        }),
{
}

/// Whether all changes to a group are to its SSTs and to its members.
pub open spec fn only_content(deltas: Seq<GroupDeltaView>) -> bool {
    forall|i: int|
        0 <= i < deltas.len() ==> (#[trigger] deltas[i] is IntraLevel
            || deltas[i] is GroupMetaChange)
}

/// A delta that makes, ends, merges and fills no group keeps the groups, and changes each that it
/// changes on its own: its members, and then its levels, by a commit where the committed epoch
/// advances and by a compaction where it stays.
pub proof fn delta_changes_groups_on_their_own(
    v: VersionView,
    delta: VersionDeltaView,
    order: Seq<CompactionGroupId>,
    g: CompactionGroupId,
) -> (members: Set<TableId>)
    requires
        v.with_delta(delta, order) is Some,
        is_walk(order, delta.group_deltas.dom()),
        forall|o: CompactionGroupId| #[trigger]
            delta.group_deltas.dom().contains(o) ==> only_content(delta.group_deltas[o]),
        delta.group_deltas.dom().contains(g),
    ensures
        v.max_committed_epoch <= delta.max_committed_epoch,
        v.levels.dom().contains(g),
        v.with_delta(delta, order)->0.levels.dom() == v.levels.dom(),
        are_tables_of(members, v.with_delta(delta, order)->0.state_table_info, g),
        summary_of(delta.group_deltas[g], g) is Some,
        ({
            let s = summary_of(delta.group_deltas[g], g)->0;
            let before = LevelsView {
                member_table_ids: members_after_all(
                    v.levels[g].member_table_ids,
                    s.group_meta_changes,
                ),
                ..v.levels[g]
            };
            let after = v.with_delta(delta, order)->0.levels[g];
            &&& v.max_committed_epoch < delta.max_committed_epoch ==> committed_as(
                before,
                s,
                after,
            )
            &&& v.max_committed_epoch == delta.max_committed_epoch ==> compacted_as(
                before,
                s,
                members,
                after,
            )
        }),
{
    let r = v.with_delta(delta, order)->0;
    let told = VersionView { state_table_info: r.state_table_info, ..v };
    assert(all_local(delta)) by {
        assert forall|o: CompactionGroupId| #[trigger]
            delta.group_deltas.dom().contains(o) implies local(delta.group_deltas[o]) by {
            assert(only_content(delta.group_deltas[o]));
        }
    }
    assert forall|i: int| 0 <= i < order.len() implies delta.group_deltas.dom().contains(
        #[trigger] order[i],
    ) by {
        assert(order.to_set().contains(order[i]));
    }
    local_changes_are_independent(told, delta, order);
    assert(order.to_set().contains(g));
    let k = choose|k: int| 0 <= k < order.len() && order[k] == g;
    assert(told.locally_after(delta, order[k]) is Some);
    assert(r.levels == told.all_locally_after(delta, order.to_set()));
    assert(r.levels.dom() =~= v.levels.dom());
    let one = seq![g];
    assert(one.drop_last() =~= Seq::empty());
    assert(told.with_group_deltas(delta, one.drop_last()) == Some(told));
    assert(one[0] == g);
    assert(one.to_set().contains(g));
    local_changes_are_independent(told, delta, one);
    let w = told.with_group_deltas(delta, one)->0;
    assert(w == told.with_group_delta(g, delta.group_deltas[g], delta.max_committed_epoch)->0);
    assert(w.levels[g] == r.levels[g]);
    lemma_content_summary(delta.group_deltas[g], g);
    let members = group_changes_are_commits_or_compactions(
        told,
        g,
        delta.group_deltas[g],
        delta.max_committed_epoch,
    );
    members
}

proof fn lemma_content_summary(
    deltas: Seq<GroupDeltaView>,
    group_id: CompactionGroupId,
)
    requires
        only_content(deltas),
    ensures
        summary_of(deltas, group_id) is Some,
        summary_of(deltas, group_id)->0.group_construct is None,
        summary_of(deltas, group_id)->0.group_table_change is None,
        summary_of(deltas, group_id)->0.group_merge is None,
        summary_of(deltas, group_id)->0.group_destroy is None,
    decreases deltas.len(),
{
    if deltas.len() > 0 {
        let t = deltas.drop_last();
        assert forall|i: int| 0 <= i < t.len() implies (#[trigger] t[i] is IntraLevel
            || t[i] is GroupMetaChange) by {
            assert(deltas[i] == t[i]);
        }
        lemma_content_summary(t, group_id);
        assert(deltas[deltas.len() - 1] == deltas.last());
    }
}

/// Whether a change log is another one cut at an epoch: the entries that end later are left, and of the
/// first of them the later epochs; what the entries hold stays.
pub open spec fn cut_at(
    log: Seq<ChangeLogEntryView>,
    epoch: u64,
    after: Seq<ChangeLogEntryView>,
) -> bool {
    let left = log.filter(|e: ChangeLogEntryView| e.epochs.len() > 0 && e.epochs.last() > epoch);
    &&& after.len() == left.len()
    &&& forall|i: int| 0 < i < after.len() ==> #[trigger] after[i] == left[i]
    &&& after.len() > 0 ==> after[0].new_value == left[0].new_value && after[0].old_value
        == left[0].old_value && after[0].epochs == left[0].epochs.filter(|e: u64| e > epoch)
}

/// Cutting a change log leaves the entries that end later, and of the first of them the later epochs.
pub proof fn truncating_cuts_a_log(log: Seq<ChangeLogEntryView>, epoch: u64)
    ensures
        cut_at(log, epoch, truncated(log, epoch)),
{
    let p = |e: ChangeLogEntryView| e.epochs.len() > 0 && e.epochs.last() > epoch;
    let q = |e: u64| e > epoch;
    assert(ends_later_than(epoch) =~= p);
    assert(later_than(epoch) =~= q);
    lemma_keep_is_filter(log, p);
    if log.filter(p).len() > 0 {
        lemma_keep_is_filter(log.filter(p)[0].epochs, q);
    }
}

/// After a delta, a removed table has no change log. One that gets an entry has its log with the entry
/// behind it, cut at the epoch given. One that gets none keeps its log, and loses it where its
/// committed epoch advances.
pub proof fn delta_extends_change_logs(
    v: VersionView,
    delta: VersionDeltaView,
    order: Seq<CompactionGroupId>,
    t: TableId,
)
    requires
        v.with_delta(delta, order) is Some,
    ensures
        ({
            let (a, d) = (v.table_change_log, delta.change_log_delta);
            let r = v.with_delta(delta, order)->0.table_change_log;
            let had = if a.dom().contains(t) {
                a[t]
            } else {
                Seq::empty()
            };
            let (info, next) = (v.state_table_info, delta.state_table_info_delta);
            let advances = info.dom().contains(t) && next.dom().contains(t)
                && next[t].committed_epoch > info[t].committed_epoch;
            &&& delta.removed_table_ids.contains(t) ==> !r.dom().contains(t)
            &&& !delta.removed_table_ids.contains(t) && d.dom().contains(t) ==> {
                &&& r.dom().contains(t)
                &&& d[t].new_log is Some
                &&& cut_at(had.push(d[t].new_log->0), d[t].truncate_epoch, r[t])
            }
            &&& !delta.removed_table_ids.contains(t) && !d.dom().contains(t) ==> {
                &&& r.dom().contains(t) <==> a.dom().contains(t) && !advances
                &&& r.dom().contains(t) ==> r[t] == a[t]
            }
        }),
{
    let (a, d) = (v.table_change_log, delta.change_log_delta);
    if d.dom().contains(t) {
        let had = if a.dom().contains(t) {
            a[t]
        } else {
            Seq::empty()
        };
        let all = had.push(d[t].new_log->0);
        if !a.dom().contains(t) {
            assert(all =~= seq![d[t].new_log->0]);
        }
        truncating_cuts_a_log(all, d[t].truncate_epoch);
    }
}

} // verus!
