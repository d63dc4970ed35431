//! What a compaction and a commit leave in a group, stated level by level.
use crate::level::LevelType;
use vstd::prelude::*;

#[allow(unused_imports)]
use crate::compact::{first_at_least, has_sst, holds_ssts, id_at_least, marks, not_among};
#[allow(unused_imports)]
use crate::group_deltas::SummaryView;
#[allow(unused_imports)]
use crate::level::{level_raw_size, level_size, L0View, LevelView, LevelsView};
#[allow(unused_imports)]
use crate::merge_laws::{
    all_apart, ids_differ, lemma_concatable_apart, lemma_sizes, raw_sizes, same_place, sizes,
};
#[allow(unused_imports)]
use crate::seqs::{lemma_first_index, lemma_keep_is_filter, sort_keeps_elements, Sortable};
#[allow(unused_imports)]
use crate::sstable_info::{SstView, SstableInfo};
#[allow(unused_imports)]
use crate::version::VersionView;
#[allow(unused_imports)]
use vstd::seq_lib::lemma_multiset_commutative;

verus! {

/// Whether one of the SSTs of a level has the id.
pub open spec fn holds_id(level: LevelView, sst_id: u64) -> bool {
    exists|k: int|
        0 <= k < level.table_infos.len() && (#[trigger] level.table_infos[k]).sst_id == sst_id
}

/// Whether the level with the number holds an SST with the id.
pub open spec fn id_at_level(levels: LevelsView, level_idx: u32, sst_id: u64) -> bool {
    ||| level_idx == 0 && exists|i: int|
        0 <= i < levels.l0.sub_levels.len() && holds_id(
            #[trigger] levels.l0.sub_levels[i],
            sst_id,
        )
    ||| level_idx > 0 && holds_id(levels.levels[level_idx - 1], sst_id)
}

/// Whether each of the ids is that of an SST in one of the levels given.
pub open spec fn all_present(levels: LevelsView, from: Set<u32>, ids: Set<u64>) -> bool {
    forall|id: u64| #[trigger]
        ids.contains(id) ==> exists|l: u32| from.contains(l) && #[trigger] id_at_level(
            levels,
            l,
            id,
        )
}

/// The SSTs without those whose ids are among the given ones.
pub open spec fn staying(ssts: Seq<SstView>, ids: Set<u64>) -> Seq<SstView> {
    ssts.filter(|s: SstView| !ids.contains(s.sst_id))
}

/// Whether a level only lost the SSTs with the ids, and counts what is left.
pub open spec fn lost(before: LevelView, ids: Set<u64>, after: LevelView) -> bool {
    &&& same_place(after, before)
    &&& after.table_infos == staying(before.table_infos, ids)
    &&& after.total_file_size == sizes(after.table_infos)
    &&& after.uncompressed_file_size == raw_sizes(after.table_infos)
}

/// Whether a level took the result of a compaction in: its SSTs do not overlap any more.
pub open spec fn grew(
    before: LevelView,
    ssts: Seq<SstView>,
    partition_count: u32,
    after: LevelView,
) -> bool {
    &&& after.level_idx == before.level_idx
    &&& after.sub_level_id == before.sub_level_id
    &&& after.level_type == (if before.level_type == LevelType::Overlapping {
        LevelType::Nonoverlapping
    } else {
        before.level_type
    })
    &&& after.vnode_partition_count == partition_count
    &&& after.table_infos.to_multiset() == before.table_infos.to_multiset().add(
        ssts.to_multiset(),
    )
    &&& all_apart(after.table_infos)
    &&& after.total_file_size == before.total_file_size + sizes(ssts)
    &&& after.uncompressed_file_size == before.uncompressed_file_size + raw_sizes(ssts)
}

/// Whether each SST holds a single table.
pub open spec fn single_tables(ssts: Seq<SstView>) -> bool {
    forall|k: int| 0 <= k < ssts.len() ==> (#[trigger] ssts[k]).table_ids.len() == 1
}

/// Whether each SST holds a single table, one of the members.
pub open spec fn single_members(ssts: Seq<SstView>, members: Set<u32>) -> bool {
    forall|k: int|
        0 <= k < ssts.len() ==> (#[trigger] ssts[k]).table_ids.len() == 1 && members.contains(
            ssts[k].table_ids[0],
        )
}

/// The partition count of a level above 0 that takes SSTs in.
pub open spec fn level_partitions(level: LevelView, s: SummaryView, members: Set<u32>) -> u32 {
    if level.table_infos.len() == 0 && single_tables(s.insert_table_infos) {
        s.new_vnode_partition_count
    } else if s.new_vnode_partition_count == 0 && members.len() > 1 {
        0
    } else {
        level.vnode_partition_count
    }
}

/// The partition count of a sub-level that takes SSTs in.
pub open spec fn sub_level_partitions(level: LevelView, s: SummaryView, members: Set<u32>) -> u32 {
    if level.table_infos.len() == 0 && members.len() == 1 && single_members(
        s.insert_table_infos,
        members,
    ) {
        s.new_vnode_partition_count
    } else {
        level.vnode_partition_count
    }
}

/// Whether a level is what a compaction leaves of it: without what is deleted where the level is
/// one of those that lose SSTs, and with what is inserted where it is the one that takes it in.
pub open spec fn level_compacted(
    before: LevelView,
    loses: bool,
    ids: Set<u64>,
    takes: Option<(Seq<SstView>, spec_fn(LevelView) -> u32)>,
    after: LevelView,
) -> bool {
    exists|left: LevelView| #[trigger]
        left_of(before, loses, ids, left) && (match takes {
            Some(t) => grew(left, t.0, (t.1)(left), after),
            None => after == left,
        })
}

/// Whether a level is what is left of another one after SSTs were deleted.
pub open spec fn left_of(before: LevelView, loses: bool, ids: Set<u64>, left: LevelView) -> bool {
    if loses {
        lost(before, ids, left)
    } else {
        left == before
    }
}

/// What a compaction brings to the level with the number.
pub open spec fn brought_to_level(s: SummaryView, members: Set<u32>, level_idx: int) -> Option<
    (Seq<SstView>, spec_fn(LevelView) -> u32),
> {
    if s.insert_table_infos.len() > 0 && s.insert_sst_level_id == level_idx {
        Some((s.insert_table_infos, |l: LevelView| level_partitions(l, s, members)))
    } else {
        None
    }
}

/// What a compaction brings to the sub-level with the id.
pub open spec fn brought_to_sub_level(s: SummaryView, members: Set<u32>, id: u64) -> Option<
    (Seq<SstView>, spec_fn(LevelView) -> u32),
> {
    if s.insert_table_infos.len() > 0 && s.insert_sst_level_id == 0 && s.insert_sub_level_id
        == id {
        Some((s.insert_table_infos, |l: LevelView| sub_level_partitions(l, s, members)))
    } else {
        None
    }
}

/// The sum of the sizes of levels.
pub open spec fn level_sizes(levels: Seq<LevelView>) -> int
    decreases levels.len(),
{
    if levels.len() == 0 {
        0
    } else {
        levels[0].total_file_size + level_sizes(levels.skip(1))
    }
}

/// The sum of the sizes of levels when not compressed.
pub open spec fn level_raw_sizes(levels: Seq<LevelView>) -> int
    decreases levels.len(),
{
    if levels.len() == 0 {
        0
    } else {
        levels[0].uncompressed_file_size + level_raw_sizes(levels.skip(1))
    }
}

/// Whether a group is as it was but for its levels.
pub open spec fn same_group(a: LevelsView, b: LevelsView) -> bool {
    &&& a.group_id == b.group_id
    &&& a.parent_group_id == b.parent_group_id
    &&& a.member_table_ids == b.member_table_ids
}

/// Whether the levels above 0 are what a compaction leaves of them.
pub open spec fn upper_levels_compacted(
    before: LevelsView,
    s: SummaryView,
    members: Set<u32>,
    after: LevelsView,
) -> bool {
    &&& after.levels.len() == before.levels.len()
    &&& forall|i: int|
        0 <= i < before.levels.len() ==> level_compacted(
            before.levels[i],
            exists|l: u32| l == i + 1 && s.delete_sst_levels.contains(l),
            s.delete_sst_ids,
            brought_to_level(s, members, i + 1),
            #[trigger] after.levels[i],
        )
}

/// Whether the sub-levels are what a compaction leaves of them: each is changed, and where SSTs go
/// from level 0 the empty ones are dropped and the sizes counted anew.
pub open spec fn sub_levels_compacted(
    before: LevelsView,
    s: SummaryView,
    members: Set<u32>,
    changed: Seq<LevelView>,
    after: LevelsView,
) -> bool {
    let loses = s.delete_sst_levels.contains(0);
    &&& changed.len() == before.l0.sub_levels.len()
    &&& forall|i: int|
        0 <= i < changed.len() ==> level_compacted(
            before.l0.sub_levels[i],
            loses,
            s.delete_sst_ids,
            brought_to_sub_level(s, members, before.l0.sub_levels[i].sub_level_id),
            #[trigger] changed[i],
        )
    &&& !loses ==> after.l0 == (L0View { sub_levels: changed, ..before.l0 })
    &&& loses ==> after.l0.sub_levels == changed.filter(|l: LevelView| l.table_infos.len() > 0)
    &&& loses ==> after.l0.total_file_size == level_sizes(after.l0.sub_levels)
    &&& loses ==> after.l0.uncompressed_file_size == level_raw_sizes(after.l0.sub_levels)
}

/// The ids to be deleted are all there if and only if each is that of an SST in one of the levels
/// from which it is to be deleted.
pub proof fn deleted_ids_are_looked_for(levels: LevelsView, from: Set<u32>, ids: Set<u64>)
    requires
        levels.has_levels(from),
    ensures
        levels.has_all(from, ids) <==> all_present(levels, from, ids),
{
    assert forall|l: u32, id: u64| #[trigger]
        levels.level_has(l, id) <==> id_at_level(levels, l, id) by {
        if l == 0 {
            if levels.level_has(l, id) {
                let i = choose|i: int|
                    0 <= i < levels.l0.sub_levels.len() && has_sst(
                        (#[trigger] levels.l0.sub_levels[i]).table_infos,
                        id,
                    );
                assert(holds_id(levels.l0.sub_levels[i], id));
            }
            if id_at_level(levels, l, id) {
                let i = choose|i: int|
                    0 <= i < levels.l0.sub_levels.len() && holds_id(
                        #[trigger] levels.l0.sub_levels[i],
                        id,
                    );
                assert(has_sst(levels.l0.sub_levels[i].table_infos, id));
            }
        }
    }
    if levels.has_all(from, ids) {
        assert forall|id: u64| #[trigger] ids.contains(id) implies exists|l: u32|
            from.contains(l) && #[trigger] id_at_level(levels, l, id) by {
            let l = choose|l: u32| #[trigger] from.contains(l) && levels.level_has(l, id);
            assert(id_at_level(levels, l, id));
        }
    }
    if all_present(levels, from, ids) {
        assert forall|id: u64| #[trigger] ids.contains(id) implies exists|l: u32| #[trigger]
            from.contains(l) && levels.level_has(l, id) by {
            let l = choose|l: u32| from.contains(l) && #[trigger] id_at_level(levels, l, id);
            assert(levels.level_has(l, id));
        }
    }
}

/// A level from which ids are deleted only loses the SSTs with these ids.
pub proof fn deletion_leaves_other_ssts(level: LevelView, ids: Set<u64>)
    requires
        level.can_lose(ids),
    ensures
        lost(level, ids, level.without(ids)),
{
    let p = |s: SstView| !ids.contains(s.sst_id);
    assert(not_among(ids) =~= p);
    lemma_keep_is_filter(level.table_infos, not_among(ids));
    lemma_sizes(level.without(ids).table_infos);
}

/// A level that takes the result of a compaction in keeps what it holds, and lets nothing overlap.
pub proof fn insertion_joins_ssts(level: LevelView, ssts: Seq<SstView>, count: u32)
    requires
        (LevelView { vnode_partition_count: count, ..level }).takes_compacted(ssts),
    ensures
        grew(
            level,
            ssts,
            count,
            (LevelView { vnode_partition_count: count, ..level }).with_compacted(ssts),
        ),
{
    lemma_sizes(ssts);
    lemma_multiset_commutative(level.table_infos, ssts);
    sort_keeps_elements(level.table_infos + ssts, SstableInfo::before());
    lemma_concatable_apart(
        (LevelView { vnode_partition_count: count, ..level }).with_compacted(ssts).table_infos,
    );
}

/// A compaction whose SSTs to delete are not all there, in the levels from which it deletes, has
/// expired: the group stays as it was.
pub proof fn compaction_of_absent_ssts_changes_nothing(
    levels: LevelsView,
    s: SummaryView,
    members: Set<u32>,
)
    requires
        levels.compacted(s, members) is Some,
        !all_present(levels, s.delete_sst_levels, s.delete_sst_ids),
    ensures
        levels.compacted(s, members)->0 == levels,
{
    deleted_ids_are_looked_for(levels, s.delete_sst_levels, s.delete_sst_ids);
}

proof fn lemma_without_levels(levels: LevelsView, from: Set<u32>, ids: Set<u64>)
    requires
        levels.can_lose(from, ids),
    ensures
        forall|i: int|
            0 <= i < levels.levels.len() ==> left_of(
                levels.levels[i],
                exists|l: u32| l == i + 1 && from.contains(l),
                ids,
                #[trigger] levels.without(from, ids).levels[i],
            ),
        forall|i: int|
            0 <= i < levels.l0.sub_levels.len() ==> left_of(
                levels.l0.sub_levels[i],
                from.contains(0),
                ids,
                #[trigger] levels.without(from, ids).l0.sub_levels[i],
            ),
{
    let w = levels.without(from, ids);
    assert forall|i: int| 0 <= i < levels.levels.len() implies left_of(
        levels.levels[i],
        exists|l: u32| l == i + 1 && from.contains(l),
        ids,
        #[trigger] w.levels[i],
    ) by {
        if marks(from, i) {
            assert(from.contains((i + 1) as u32));
            assert(levels.levels[i].can_lose(ids));
            deletion_leaves_other_ssts(levels.levels[i], ids);
        }
    }
    assert forall|i: int| 0 <= i < levels.l0.sub_levels.len() implies left_of(
        levels.l0.sub_levels[i],
        from.contains(0),
        ids,
        #[trigger] w.l0.sub_levels[i],
    ) by {
        if from.contains(0) {
            assert(levels.l0.sub_levels[i].can_lose(ids));
            deletion_leaves_other_ssts(levels.l0.sub_levels[i], ids);
        }
    }
}

/// A compaction whose SSTs to delete are there deletes them from the levels given, and from those
/// alone, and brings what it inserts to the level given, and to that alone. What is inserted and what
/// stays stands in the order of key ranges, none overlapping. The group itself stays the same one.
pub proof fn compaction_changes_upper_levels(
    levels: LevelsView,
    s: SummaryView,
    members: Set<u32>,
)
    requires
        levels.compacted(s, members) is Some,
        all_present(levels, s.delete_sst_levels, s.delete_sst_ids),
    ensures
        same_group(levels.compacted(s, members)->0, levels),
        upper_levels_compacted(levels, s, members, levels.compacted(s, members)->0),
{
    let (from, ids) = (s.delete_sst_levels, s.delete_sst_ids);
    deleted_ids_are_looked_for(levels, from, ids);
    lemma_without_levels(levels, from, ids);
    let w = levels.without(from, ids);
    let grown = w.with_insertions(s, members)->0;
    let r = levels.compacted(s, members)->0;
    assert forall|i: int| 0 <= i < levels.levels.len() implies level_compacted(
        levels.levels[i],
        exists|l: u32| l == i + 1 && from.contains(l),
        ids,
        brought_to_level(s, members, i + 1),
        #[trigger] r.levels[i],
    ) by {
        let left = w.levels[i];
        assert(left_of(
            levels.levels[i],
            exists|l: u32| l == i + 1 && from.contains(l),
            ids,
            left,
        ));
        if s.insert_table_infos.len() > 0 && s.insert_sst_level_id == i + 1 {
            let ssts = s.insert_table_infos;
            assert(forall|k: int|
                0 <= k < ssts.len() ==> (crate::compact::of_one_table(#[trigger] ssts[k])
                    <==> ssts[k].table_ids.len() == 1));
            let count = level_partitions(left, s, members);
            assert(r.levels[i] == (LevelView {
                vnode_partition_count: count,
                ..left
            }).with_compacted(ssts));
            insertion_joins_ssts(left, ssts, count);
        } else {
            assert(r.levels[i] == left);
        }
    }
}

/// The sum of the sizes of levels goes from the front as from the end.
pub proof fn lemma_level_sizes(levels: Seq<LevelView>)
    ensures
        crate::seqs::total(levels, level_size()) == level_sizes(levels),
        crate::seqs::total(levels, level_raw_size()) == level_raw_sizes(levels),
        0 <= level_sizes(levels),
        0 <= level_raw_sizes(levels),
    decreases levels.len(),
{
    if levels.len() > 0 {
        let front = seq![levels[0]];
        lemma_level_sizes(levels.skip(1));
        assert(front + levels.skip(1) =~= levels);
        assert(front =~= Seq::empty().push(levels[0]));
        crate::seqs::lemma_total_push(Seq::empty(), levels[0], level_size());
        crate::seqs::lemma_total_push(Seq::empty(), levels[0], level_raw_size());
        crate::seqs::lemma_total_add(front, levels.skip(1), level_size());
        crate::seqs::lemma_total_add(front, levels.skip(1), level_raw_size());
    }
}

/// A compaction whose SSTs to delete are there deletes them from all sub-levels where level 0 is one
/// of the levels given, brings what it inserts to the sub-level with the id given where it inserts
/// into level 0, and drops the sub-levels that hold nothing then.
pub proof fn compaction_changes_sub_levels(
    levels: LevelsView,
    s: SummaryView,
    members: Set<u32>,
) -> (changed: Seq<LevelView>)
    requires
        levels.compacted(s, members) is Some,
        all_present(levels, s.delete_sst_levels, s.delete_sst_ids),
        ids_differ(levels.l0.sub_levels),
    ensures
        sub_levels_compacted(levels, s, members, changed, levels.compacted(s, members)->0),
        s.insert_table_infos.len() > 0 && s.insert_sst_level_id == 0 ==> exists|i: int|
            0 <= i < levels.l0.sub_levels.len() && (
            #[trigger] levels.l0.sub_levels[i]).sub_level_id == s.insert_sub_level_id,
{
    let (from, ids) = (s.delete_sst_levels, s.delete_sst_ids);
    deleted_ids_are_looked_for(levels, from, ids);
    lemma_without_levels(levels, from, ids);
    let w = levels.without(from, ids);
    let grown = w.with_insertions(s, members)->0;
    let r = levels.compacted(s, members)->0;
    let subs = levels.l0.sub_levels;
    let changed = grown.l0.sub_levels;
    let into = s.insert_table_infos.len() > 0 && s.insert_sst_level_id == 0;
    let at = first_at_least(w.l0.sub_levels, s.insert_sub_level_id);
    assert forall|i: int| 0 <= i < subs.len() implies (#[trigger] w.l0.sub_levels[i]).sub_level_id
        == subs[i].sub_level_id by {
        assert(left_of(subs[i], from.contains(0), ids, w.l0.sub_levels[i]));
    }
    if into {
        assert(0 <= at) by {
            lemma_first_index(w.l0.sub_levels, id_at_least(s.insert_sub_level_id));
        }
        assert(w.l0.sub_levels[at].sub_level_id == s.insert_sub_level_id);
        assert(subs[at].sub_level_id == s.insert_sub_level_id);
    }
    assert forall|i: int| 0 <= i < changed.len() implies level_compacted(
        subs[i],
        from.contains(0),
        ids,
        brought_to_sub_level(s, members, subs[i].sub_level_id),
        #[trigger] changed[i],
    ) by {
        let left = w.l0.sub_levels[i];
        assert(left_of(subs[i], from.contains(0), ids, left));
        if into && subs[i].sub_level_id == s.insert_sub_level_id {
            if i < at {
                assert(subs[i].sub_level_id != subs[at].sub_level_id);
            }
            if at < i {
                assert(subs[at].sub_level_id != subs[i].sub_level_id);
            }
            let ssts = s.insert_table_infos;
            let count = sub_level_partitions(left, s, members);
            assert(forall|k: int|
                0 <= k < ssts.len() ==> (crate::compact::of_one_table(#[trigger] ssts[k])
                    <==> ssts[k].table_ids.len() == 1));
            assert(changed[i] == (LevelView { vnode_partition_count: count, ..left }).with_compacted(
                ssts,
            ));
            insertion_joins_ssts(left, ssts, count);
        } else {
            assert(changed[i] == left);
        }
    }
    if from.contains(0) {
        assert(holds_ssts() =~= (|l: LevelView| l.table_infos.len() > 0));
        lemma_keep_is_filter(changed, holds_ssts());
        lemma_level_sizes(r.l0.sub_levels);
    } else if !into {
        assert(changed =~= subs);
    }
    changed
}

/// Whether a group is what a commit leaves of it: new SSTs are in one new sub-level behind all
/// others, which lets them overlap, and nothing else changes.
pub open spec fn committed_as(before: LevelsView, s: SummaryView, after: LevelsView) -> bool {
    let l0 = after.l0;
    if s.insert_table_infos.len() == 0 || s.insert_sub_level_id == u64::MAX {
        after == before
    } else {
        &&& after == (LevelsView { l0, ..before })
        &&& l0.sub_levels.len() == before.l0.sub_levels.len() + 1
        &&& l0.sub_levels.drop_last() == before.l0.sub_levels
        &&& l0.sub_levels.last().sub_level_id == s.insert_sub_level_id
        &&& l0.sub_levels.last().level_type == LevelType::Overlapping
        &&& l0.sub_levels.last().table_infos == s.insert_table_infos
        &&& l0.sub_levels.last().level_idx == 0
        &&& l0.sub_levels.last().vnode_partition_count == 0
        &&& l0.sub_levels.last().total_file_size == sizes(s.insert_table_infos)
        &&& l0.sub_levels.last().uncompressed_file_size == raw_sizes(s.insert_table_infos)
        &&& l0.total_file_size == before.l0.total_file_size + sizes(s.insert_table_infos)
        &&& l0.uncompressed_file_size == before.l0.uncompressed_file_size + raw_sizes(
            s.insert_table_infos,
        )
    }
}

/// A commit puts new SSTs into a new sub-level behind all others.
pub proof fn commit_appends_a_sub_level(levels: LevelsView, s: SummaryView)
    requires
        VersionView::committed(levels, s) is Some,
    ensures
        committed_as(levels, s, VersionView::committed(levels, s)->0),
{
    let r = VersionView::committed(levels, s)->0;
    lemma_sizes(s.insert_table_infos);
    if s.insert_table_infos.len() > 0 && s.insert_sub_level_id != u64::MAX {
        assert(r.l0.sub_levels.drop_last() =~= levels.l0.sub_levels);
    }
}

} // verus!
