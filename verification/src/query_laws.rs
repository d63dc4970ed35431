//! What the lists of levels, SSTs and objects hold, and in which order.
use crate::key::TableId;
use crate::level::CompactionGroupId;
use vstd::prelude::*;

#[allow(unused_imports)]
use crate::branched::branch_ids;
#[allow(unused_imports)]
use crate::change_log::ChangeLogEntryView;
#[allow(unused_imports)]
use crate::groups::{group_of_tables, id_pairs, sizes_by_object};
#[allow(unused_imports)]
use crate::level::{LevelView, LevelsView};
#[allow(unused_imports)]
use crate::maps::{gather, is_walk, lemma_gather_contains, lemma_gather_front};
#[allow(unused_imports)]
use crate::queries::{ssts_in, ssts_in_entry};
#[allow(unused_imports)]
use crate::seqs::lemma_keep_is_filter;
#[allow(unused_imports)]
use crate::split_count::{touched_count, touching};
#[allow(unused_imports)]
use crate::split_laws::{holds_one_of, with_one_of};
#[allow(unused_imports)]
use crate::sst_delta_laws::{laid_out, lemma_laid_out};
#[allow(unused_imports)]
use crate::sstable_info::SstView;
#[allow(unused_imports)]
use crate::version::{tables_of, StateTableInfo, VersionView};

verus! {

/// The parts, one behind the other.
pub open spec fn joined_up<A>(parts: Seq<Seq<A>>) -> Seq<A>
    decreases parts.len(),
{
    if parts.len() == 0 {
        Seq::empty()
    } else {
        parts[0] + joined_up(parts.skip(1))
    }
}

/// What is gathered over keys are the parts of the keys, one behind the other.
pub proof fn gathering_joins_parts<K, A>(keys: Seq<K>, part: spec_fn(K) -> Seq<A>)
    ensures
        gather(keys, part) == joined_up(keys.map_values(part)),
    decreases keys.len(),
{
    if keys.len() > 0 {
        lemma_gather_front(keys, part);
        gathering_joins_parts(keys.skip(1), part);
        assert(keys.map_values(part).skip(1) =~= keys.skip(1).map_values(part));
    }
}

/// A walk meets each key, and no other, once.
pub proof fn walk_meets_each_key_once<K>(order: Seq<K>, keys: Set<K>)
    requires
        is_walk(order, keys),
    ensures
        forall|k: K| #[trigger] keys.contains(k) <==> order.contains(k),
        forall|i: int, j: int|
            0 <= i < j < order.len() ==> #[trigger] order[i] != #[trigger] order[j],
{
    assert forall|k: K| #[trigger] keys.contains(k) <==> order.contains(k) by {
        assert(order.to_set().contains(k) <==> order.contains(k));
    }
}

/// From the newest data to the oldest, the sub-levels come first, the last one in front, and then the
/// levels above 0 in order. In place order, the sub-levels come first too, but as they stand.
pub proof fn newest_levels_come_first(levels: LevelsView)
    ensures
        ({
            let (subs, upper) = (levels.l0.sub_levels, levels.levels);
            let (newest, placed) = (levels.newest_first(), levels.in_place_order());
            &&& newest.len() == subs.len() + upper.len()
            &&& placed.len() == subs.len() + upper.len()
            &&& forall|i: int|
                0 <= i < subs.len() ==> #[trigger] newest[i] == subs[subs.len() - 1 - i]
            &&& forall|i: int| 0 <= i < subs.len() ==> #[trigger] placed[i] == subs[i]
            &&& forall|i: int|
                subs.len() <= i < newest.len() ==> #[trigger] newest[i] == upper[i - subs.len()]
            &&& forall|i: int|
                subs.len() <= i < placed.len() ==> #[trigger] placed[i] == upper[i - subs.len()]
        }),
{
}

/// The SSTs of a group are listed level by level, and as they stand in a level.
pub proof fn group_ssts_are_laid_out(levels: LevelsView)
    ensures
        levels.ssts() == laid_out(levels.newest_first()),
        levels.ssts_in_place() == laid_out(levels.in_place_order()),
        id_pairs(levels.ssts()) == laid_out(levels.newest_first()).map_values(
            |s: SstView| (s.object_id, s.sst_id),
        ),
{
    lemma_laid_out(levels.newest_first());
    lemma_laid_out(levels.in_place_order());
    assert(id_pairs(levels.ssts()) =~= levels.ssts().map_values(
        |s: SstView| (s.object_id, s.sst_id),
    ));
}

/// Lists over a version go group by group and table by table, in the order in which these are met. Of
/// a group the newest data comes first; of an entry of a change log the old values do. A group that is
/// not selected adds nothing.
pub proof fn version_lists_go_by_groups(
    v: VersionView,
    groups: Seq<CompactionGroupId>,
    tables: Seq<TableId>,
    selected: Set<CompactionGroupId>,
)
    ensures
        gather(groups, v.levels_of()) == joined_up(
            groups.map_values(|g: CompactionGroupId| v.levels[g].newest_first()),
        ),
        gather(groups, v.ssts_of()) == joined_up(
            groups.map_values(|g: CompactionGroupId| laid_out(v.levels[g].newest_first())),
        ),
        gather(groups, v.ssts_in_place_of()) == joined_up(
            groups.map_values(|g: CompactionGroupId| laid_out(v.levels[g].in_place_order())),
        ),
        gather(groups, v.selected_ssts_of(selected)) == joined_up(
            groups.map_values(
                |g: CompactionGroupId|
                    if selected.contains(g) {
                        laid_out(v.levels[g].newest_first())
                    } else {
                        Seq::empty()
                    },
            ),
        ),
        gather(tables, v.log_ssts_of()) == joined_up(
            tables.map_values(
                |t: TableId|
                    joined_up(
                        v.table_change_log[t].map_values(
                            |e: ChangeLogEntryView| e.old_value + e.new_value,
                        ),
                    ),
            ),
        ),
{
    gathering_joins_parts(groups, v.levels_of());
    gathering_joins_parts(groups, v.ssts_of());
    gathering_joins_parts(groups, v.ssts_in_place_of());
    gathering_joins_parts(groups, v.selected_ssts_of(selected));
    gathering_joins_parts(tables, v.log_ssts_of());
    assert forall|g: CompactionGroupId|
        #![auto]
        v.levels[g].ssts() == laid_out(v.levels[g].newest_first()) && v.levels[g].ssts_in_place()
            == laid_out(v.levels[g].in_place_order()) by {
        group_ssts_are_laid_out(v.levels[g]);
    }
    assert(groups.map_values(v.levels_of()) =~= groups.map_values(
        |g: CompactionGroupId| v.levels[g].newest_first(),
    ));
    assert(groups.map_values(v.ssts_of()) =~= groups.map_values(
        |g: CompactionGroupId| laid_out(v.levels[g].newest_first()),
    ));
    assert(groups.map_values(v.ssts_in_place_of()) =~= groups.map_values(
        |g: CompactionGroupId| laid_out(v.levels[g].in_place_order()),
    ));
    assert(groups.map_values(v.selected_ssts_of(selected)) =~= groups.map_values(
        |g: CompactionGroupId|
            if selected.contains(g) {
                laid_out(v.levels[g].newest_first())
            } else {
                Seq::empty()
            },
    ));
    let entry = |e: ChangeLogEntryView| e.old_value + e.new_value;
    assert(ssts_in_entry() =~= entry);
    let log = |t: TableId| joined_up(v.table_change_log[t].map_values(entry));
    assert forall|i: int| 0 <= i < tables.len() implies #[trigger] tables.map_values(
        v.log_ssts_of(),
    )[i] == tables.map_values(log)[i] by {
        gathering_joins_parts(v.table_change_log[tables[i]], ssts_in_entry());
    }
    assert(tables.map_values(v.log_ssts_of()) =~= tables.map_values(log));
}

proof fn lemma_laid_out_contains(levels: Seq<LevelView>, sst: SstView)
    ensures
        laid_out(levels).contains(sst) <==> exists|i: int|
            0 <= i < levels.len() && (#[trigger] levels[i]).table_infos.contains(sst),
{
    lemma_laid_out(levels);
    lemma_gather_contains(levels, ssts_in(), sst);
    if exists|i: int| 0 <= i < levels.len() && ssts_in()(#[trigger] levels[i]).contains(sst) {
        let i = choose|i: int|
            0 <= i < levels.len() && ssts_in()(#[trigger] levels[i]).contains(sst);
        assert(levels[i].table_infos.contains(sst));
    }
    if exists|i: int|
        0 <= i < levels.len() && (#[trigger] levels[i]).table_infos.contains(sst) {
        let i = choose|i: int|
            0 <= i < levels.len() && (#[trigger] levels[i]).table_infos.contains(sst);
        assert(ssts_in()(levels[i]).contains(sst));
    }
}

/// Whether an SST is in a level of a group.
pub open spec fn in_group(levels: LevelsView, sst: SstView) -> bool {
    ||| exists|i: int|
        0 <= i < levels.l0.sub_levels.len() && (
        #[trigger] levels.l0.sub_levels[i]).table_infos.contains(sst)
    ||| exists|i: int|
        0 <= i < levels.levels.len() && (#[trigger] levels.levels[i]).table_infos.contains(sst)
}

/// Whether an SST is in an entry of a change log.
pub open spec fn in_log(log: Seq<ChangeLogEntryView>, sst: SstView) -> bool {
    exists|i: int|
        0 <= i < log.len() && ((#[trigger] log[i]).old_value.contains(sst)
            || log[i].new_value.contains(sst))
}

proof fn lemma_in_group(levels: LevelsView, sst: SstView)
    ensures
        levels.ssts().contains(sst) <==> in_group(levels, sst),
{
    let all = levels.newest_first();
    let (subs, upper) = (levels.l0.sub_levels, levels.levels);
    newest_levels_come_first(levels);
    lemma_laid_out(all);
    lemma_laid_out_contains(all, sst);
    if levels.ssts().contains(sst) {
        let i = choose|i: int|
            0 <= i < all.len() && (#[trigger] all[i]).table_infos.contains(sst);
        if i < subs.len() {
            assert(subs[subs.len() - 1 - i].table_infos.contains(sst));
        } else {
            assert(upper[i - subs.len()].table_infos.contains(sst));
        }
    }
    if exists|i: int| 0 <= i < subs.len() && (#[trigger] subs[i]).table_infos.contains(sst) {
        let i = choose|i: int|
            0 <= i < subs.len() && (#[trigger] subs[i]).table_infos.contains(sst);
        assert(all[subs.len() - 1 - i].table_infos.contains(sst));
    }
    if exists|i: int| 0 <= i < upper.len() && (#[trigger] upper[i]).table_infos.contains(sst) {
        let i = choose|i: int|
            0 <= i < upper.len() && (#[trigger] upper[i]).table_infos.contains(sst);
        assert(all[subs.len() + i].table_infos.contains(sst));
    }
}

proof fn lemma_in_log(log: Seq<ChangeLogEntryView>, sst: SstView)
    ensures
        gather(log, ssts_in_entry()).contains(sst) <==> in_log(log, sst),
{
    lemma_gather_contains(log, ssts_in_entry(), sst);
    if gather(log, ssts_in_entry()).contains(sst) {
        let i = choose|i: int|
            0 <= i < log.len() && ssts_in_entry()(#[trigger] log[i]).contains(sst);
        let e = log[i];
        let both = e.old_value + e.new_value;
        let k = choose|k: int| 0 <= k < both.len() && both[k] == sst;
        if k < e.old_value.len() {
            assert(e.old_value[k] == sst);
        } else {
            assert(e.new_value[k - e.old_value.len()] == sst);
        }
    }
    if in_log(log, sst) {
        let i = choose|i: int|
            0 <= i < log.len() && ((#[trigger] log[i]).old_value.contains(sst)
                || log[i].new_value.contains(sst));
        let e = log[i];
        let both = e.old_value + e.new_value;
        if e.old_value.contains(sst) {
            let k = choose|k: int| 0 <= k < e.old_value.len() && e.old_value[k] == sst;
            assert(both[k] == sst);
        } else {
            let k = choose|k: int| 0 <= k < e.new_value.len() && e.new_value[k] == sst;
            assert(both[e.old_value.len() + k] == sst);
        }
        assert(ssts_in_entry()(log[i]).contains(sst));
    }
}

/// A version holds an SST if and only if a level of one of its groups does, or a change log of one of
/// its tables, among the old values or among the new ones.
pub proof fn version_holds_ssts_of_groups_and_logs(v: VersionView, sst: SstView)
    ensures
        v.holds(sst) <==> (exists|g: CompactionGroupId|
            v.levels.dom().contains(g) && #[trigger] in_group(v.levels[g], sst)) || (exists|
            t: TableId,
        |
            v.table_change_log.dom().contains(t) && #[trigger] in_log(v.table_change_log[t], sst)),
{
    assert forall|g: CompactionGroupId| #[trigger]
        v.ssts_of()(g).contains(sst) <==> in_group(v.levels[g], sst) by {
        lemma_in_group(v.levels[g], sst);
    }
    assert forall|t: TableId| #[trigger]
        v.log_ssts_of()(t).contains(sst) <==> in_log(v.table_change_log[t], sst) by {
        lemma_in_log(v.table_change_log[t], sst);
    }
    if v.holds(sst) {
        if exists|g: CompactionGroupId| #[trigger]
            v.levels.dom().contains(g) && v.ssts_of()(g).contains(sst) {
            let g = choose|g: CompactionGroupId| #[trigger]
                v.levels.dom().contains(g) && v.ssts_of()(g).contains(sst);
            assert(in_group(v.levels[g], sst));
        } else {
            let t = choose|t: TableId| #[trigger]
                v.table_change_log.dom().contains(t) && v.log_ssts_of()(t).contains(sst);
            assert(in_log(v.table_change_log[t], sst));
        }
    }
    if exists|g: CompactionGroupId|
        v.levels.dom().contains(g) && #[trigger] in_group(v.levels[g], sst) {
        let g = choose|g: CompactionGroupId|
            v.levels.dom().contains(g) && #[trigger] in_group(v.levels[g], sst);
        assert(v.ssts_of()(g).contains(sst));
    }
    if exists|t: TableId|
        v.table_change_log.dom().contains(t) && #[trigger] in_log(v.table_change_log[t], sst) {
        let t = choose|t: TableId|
            v.table_change_log.dom().contains(t) && #[trigger] in_log(v.table_change_log[t], sst);
        assert(v.log_ssts_of()(t).contains(sst));
    }
}

proof fn lemma_branch_ids(ssts: Seq<SstView>, object_id: u64)
    ensures
        branch_ids(ssts, object_id) == ssts.filter(
            |s: SstView| s.object_id == object_id && s.sst_id != object_id,
        ).map_values(|s: SstView| s.sst_id),
    decreases ssts.len(),
{
    reveal(Seq::filter);
    let p = |s: SstView| s.object_id == object_id && s.sst_id != object_id;
    let f = |s: SstView| s.sst_id;
    if ssts.len() > 0 {
        lemma_branch_ids(ssts.drop_last(), object_id);
        assert(branch_ids(ssts, object_id) =~= ssts.filter(p).map_values(f));
    } else {
        assert(ssts.filter(p) =~= Seq::empty());
        assert(ssts.filter(p).map_values(f) =~= Seq::empty());
    }
}

/// The branches of an object in a group are the ids, other than the object's, of the SSTs of it that
/// the group holds, each as often as it is there, sub-levels first; none where the group is not there.
pub proof fn branches_are_listed_in_place(
    v: VersionView,
    object_id: u64,
    group_id: CompactionGroupId,
)
    ensures
        v.branches(object_id, group_id) == (if v.levels.dom().contains(group_id) {
            laid_out(v.levels[group_id].in_place_order()).filter(
                |s: SstView| s.object_id == object_id && s.sst_id != object_id,
            ).map_values(|s: SstView| s.sst_id)
        } else {
            Seq::empty()
        }),
{
    lemma_laid_out(v.levels[group_id].in_place_order());
    lemma_branch_ids(v.levels[group_id].ssts_in_place(), object_id);
}

/// Whether the SST at `i` is the last one of its object.
pub open spec fn last_of_its_object(ssts: Seq<SstView>, i: int) -> bool {
    &&& 0 <= i < ssts.len()
    &&& forall|j: int| i < j < ssts.len() ==> (#[trigger] ssts[j]).object_id != ssts[i].object_id
}

/// An object has the size of the last SST of it in a list, and none where no SST is of it.
pub proof fn objects_have_sizes_of_last_ssts(ssts: Seq<SstView>)
    ensures
        forall|i: int| #[trigger]
            last_of_its_object(ssts, i) ==> sizes_by_object(ssts).dom().contains(
                ssts[i].object_id,
            ) && sizes_by_object(ssts)[ssts[i].object_id] == ssts[i].file_size,
        forall|o: u64| #[trigger]
            sizes_by_object(ssts).dom().contains(o) ==> exists|i: int|
                0 <= i < ssts.len() && (#[trigger] ssts[i]).object_id == o,
    decreases ssts.len(),
{
    if ssts.len() > 0 {
        let t = ssts.drop_last();
        let n = ssts.len() - 1;
        objects_have_sizes_of_last_ssts(t);
        let last = ssts.last();
        assert(ssts[n] == last);
        let (r, p) = (sizes_by_object(ssts), sizes_by_object(t));
        assert(r == p.insert(last.object_id, last.file_size));
        assert forall|i: int| #[trigger] last_of_its_object(ssts, i) implies r.dom().contains(
            ssts[i].object_id,
        ) && r[ssts[i].object_id] == ssts[i].file_size by {
            if i < n {
                assert(ssts[n].object_id != ssts[i].object_id);
                assert(t[i] == ssts[i]);
                assert forall|j: int| i < j < t.len() implies (#[trigger] t[j]).object_id
                    != t[i].object_id by {
                    assert(ssts[j].object_id != ssts[i].object_id);
                }
                assert(last_of_its_object(t, i));
            }
        }
        assert forall|o: u64| #[trigger] r.dom().contains(o) implies exists|i: int|
            0 <= i < ssts.len() && (#[trigger] ssts[i]).object_id == o by {
            if o != last.object_id {
                assert(p.dom().contains(o));
                let i = choose|i: int| 0 <= i < t.len() && (#[trigger] t[i]).object_id == o;
                assert(ssts[i] == t[i]);
            }
        }
    }
}

/// The tables of a group are those that are known to be in it, and each known table has its group.
pub proof fn tables_have_their_groups(
    info: Map<TableId, StateTableInfo>,
    group_id: CompactionGroupId,
    t: TableId,
)
    ensures
        tables_of(info, group_id).contains(t) <==> info.dom().contains(t)
            && info[t].compaction_group_id == group_id,
        group_of_tables(info).dom().contains(t) <==> info.dom().contains(t),
        info.dom().contains(t) ==> group_of_tables(info)[t] == info[t].compaction_group_id,
{
}

/// A move of tables touches the SSTs of a group that hold one of them, each as often as it is there.
pub proof fn touched_ssts_hold_a_table(levels: LevelsView, members: Set<u32>)
    ensures
        touched_count(levels, members) == with_one_of(
            laid_out(levels.in_place_order()),
            members,
        ).len(),
{
    lemma_laid_out(levels.in_place_order());
    let p = |s: SstView| holds_one_of(s, members);
    assert(touching(members) =~= p);
    lemma_keep_is_filter(levels.ssts_in_place(), p);
}

} // verus!
