//! What comes to a group and what leaves it, stated on the changes and on the SSTs held.
use crate::level::CompactionGroupId;
use vstd::prelude::*;

#[allow(unused_imports)]
use crate::compact::has_sst;
#[allow(unused_imports)]
use crate::group_deltas::GroupDeltaView;
#[allow(unused_imports)]
use crate::level::{LevelView, LevelsView};
#[allow(unused_imports)]
use crate::maps::{gather, lemma_gather_front};
#[allow(unused_imports)]
use crate::queries::ssts_in;
#[allow(unused_imports)]
use crate::sst_delta::{
    all_intra_level, inserted_by, inserted_level, number_seen, removed_from, removed_from_levels,
    removed_objects, sst_delta,
};
#[allow(unused_imports)]
use crate::sstable_info::SstView;
#[allow(unused_imports)]
use crate::summary_laws::{inserted_in_turn, inserts, last_insertion, names};
#[allow(unused_imports)]
use crate::version::{VersionDeltaView, VersionView};

verus! {

/// The SSTs of levels, one level after the other.
pub open spec fn laid_out(levels: Seq<LevelView>) -> Seq<SstView>
    decreases levels.len(),
{
    if levels.len() == 0 {
        Seq::empty()
    } else {
        levels[0].table_infos + laid_out(levels.skip(1))
    }
}

/// Whether one of the changes removes the SST from the level.
pub open spec fn removed(deltas: Seq<GroupDeltaView>, level_idx: u32, sst_id: u64) -> bool {
    exists|i: int| 0 <= i < deltas.len() && #[trigger] names(deltas[i], level_idx, sst_id)
}

/// Whether the SST at `k` is the first with its id.
pub open spec fn first_of_its_id(ssts: Seq<SstView>, k: int) -> bool {
    forall|j: int| 0 <= j < k ==> (#[trigger] ssts[j]).sst_id != ssts[k].sst_id
}

/// Whether the level at `i` is the first with its number, above level 0.
pub open spec fn first_of_its_number(levels: Seq<LevelView>, i: int) -> bool {
    levels[i].level_idx > 0 && forall|j: int|
        0 <= j < i ==> (#[trigger] levels[j]).level_idx != levels[i].level_idx
}

/// Whether each id stands once among the SSTs.
pub open spec fn ids_once(ssts: Seq<SstView>) -> bool {
    forall|i: int, j: int|
        0 <= i < j < ssts.len() ==> (#[trigger] ssts[i]).sst_id != (#[trigger] ssts[j]).sst_id
}

/// The objects of those of the SSTs that one of the changes removes from the level.
pub open spec fn objects_removed(
    ssts: Seq<SstView>,
    deltas: Seq<GroupDeltaView>,
    level_idx: u32,
) -> Seq<u64> {
    ssts.filter(|s: SstView| removed(deltas, level_idx, s.sst_id)).map_values(
        |s: SstView| s.object_id,
    )
}

/// The objects of the SSTs that changes remove from the levels, one level after the other.
pub open spec fn objects_removed_above(
    levels: Seq<LevelView>,
    deltas: Seq<GroupDeltaView>,
) -> Seq<u64>
    decreases levels.len(),
{
    if levels.len() == 0 {
        Seq::empty()
    } else {
        objects_removed(levels[0].table_infos, deltas, levels[0].level_idx)
            + objects_removed_above(levels.skip(1), deltas)
    }
}

/// SSTs are gathered level by level.
pub proof fn lemma_laid_out(levels: Seq<LevelView>)
    ensures
        gather(levels, ssts_in()) == laid_out(levels),
    decreases levels.len(),
{
    if levels.len() > 0 {
        lemma_gather_front(levels, ssts_in());
        lemma_laid_out(levels.skip(1));
    }
}

proof fn lemma_removed_from(deltas: Seq<GroupDeltaView>, level_idx: u32, sst_id: u64)
    ensures
        removed_from(deltas, level_idx).contains(sst_id) <==> removed(deltas, level_idx, sst_id),
    decreases deltas.len(),
{
    if deltas.len() > 0 {
        let t = deltas.drop_last();
        let n = deltas.len() - 1;
        let last = deltas.last();
        lemma_removed_from(t, level_idx, sst_id);
        assert(deltas[n] == last);
        if removed_from(deltas, level_idx).contains(sst_id) {
            if removed_from(t, level_idx).contains(sst_id) {
                let i = choose|i: int|
                    0 <= i < t.len() && #[trigger] names(t[i], level_idx, sst_id);
                assert(names(deltas[i], level_idx, sst_id));
            } else {
                let ids = (last->IntraLevel_0).removed_table_ids;
                assert(ids.to_set().contains(sst_id));
                let k = choose|k: int| 0 <= k < ids.len() && ids[k] == sst_id;
                assert(ids[k] == sst_id);
                assert(names(deltas[n], level_idx, sst_id));
            }
        }
        if removed(deltas, level_idx, sst_id) {
            let i = choose|i: int|
                0 <= i < deltas.len() && #[trigger] names(deltas[i], level_idx, sst_id);
            if i < n {
                assert(names(t[i], level_idx, sst_id));
            } else {
                let ids = (last->IntraLevel_0).removed_table_ids;
                let k = choose|k: int| 0 <= k < ids.len() && #[trigger] ids[k] == sst_id;
                assert(ids.contains(sst_id));
                assert(ids.to_set().contains(sst_id));
            }
        }
    }
}

proof fn lemma_first_is_removed(ssts: Seq<SstView>, ids: Set<u64>, k: int)
    requires
        0 <= k < ssts.len(),
        ids.contains(ssts[k].sst_id),
        first_of_its_id(ssts, k),
    ensures
        removed_objects(ssts, ids).contains(ssts[k].object_id),
    decreases ssts.len(),
{
    let t = ssts.drop_last();
    let r = removed_objects(ssts, ids);
    if k < t.len() {
        assert forall|j: int| 0 <= j < k implies (#[trigger] t[j]).sst_id != t[k].sst_id by {
            assert(ssts[j].sst_id != ssts[k].sst_id);
        }
        lemma_first_is_removed(t, ids, k);
        let p = removed_objects(t, ids);
        let m = choose|m: int| 0 <= m < p.len() && p[m] == t[k].object_id;
        assert(r[m] == p[m]);
    } else {
        assert(ssts[k] == ssts.last());
        if has_sst(t, ssts[k].sst_id) {
            let j = choose|j: int| 0 <= j < t.len() && (#[trigger] t[j]).sst_id == ssts[k].sst_id;
            assert(ssts[j].sst_id == ssts[k].sst_id);
        }
        assert(r[r.len() - 1] == ssts[k].object_id);
    }
}

proof fn lemma_removed_was_held(ssts: Seq<SstView>, ids: Set<u64>, object_id: u64)
    requires
        removed_objects(ssts, ids).contains(object_id),
    ensures
        exists|k: int|
            0 <= k < ssts.len() && (#[trigger] ssts[k]).object_id == object_id && ids.contains(
                ssts[k].sst_id,
            ),
    decreases ssts.len(),
{
    let r = removed_objects(ssts, ids);
    let m = choose|m: int| 0 <= m < r.len() && r[m] == object_id;
    let t = ssts.drop_last();
    let p = removed_objects(t, ids);
    if m < p.len() {
        assert(p[m] == object_id);
        lemma_removed_was_held(t, ids, object_id);
        let k = choose|k: int|
            0 <= k < t.len() && (#[trigger] t[k]).object_id == object_id && ids.contains(
                t[k].sst_id,
            );
        assert(ssts[k].object_id == object_id);
    } else {
        assert(ssts[ssts.len() - 1].object_id == object_id);
    }
}

proof fn lemma_level_is_removed(
    levels: Seq<LevelView>,
    deltas: Seq<GroupDeltaView>,
    n: int,
    i: int,
    object_id: u64,
)
    requires
        0 <= i < n <= levels.len(),
        first_of_its_number(levels, i),
        removed_objects(
            levels[i].table_infos,
            removed_from(deltas, levels[i].level_idx),
        ).contains(object_id),
    ensures
        removed_from_levels(levels, deltas, n).contains(object_id),
    decreases n,
{
    let r = removed_from_levels(levels, deltas, n);
    let before = removed_from_levels(levels, deltas, n - 1);
    if i < n - 1 {
        lemma_level_is_removed(levels, deltas, n - 1, i, object_id);
        let m = choose|m: int| 0 <= m < before.len() && before[m] == object_id;
        assert(r[m] == object_id);
    } else {
        assert(!number_seen(levels, i));
        let own = removed_objects(
            levels[i].table_infos,
            removed_from(deltas, levels[i].level_idx),
        );
        let m = choose|m: int| 0 <= m < own.len() && own[m] == object_id;
        assert(r[before.len() + m] == object_id);
    }
}

proof fn lemma_level_had_removed(
    levels: Seq<LevelView>,
    deltas: Seq<GroupDeltaView>,
    n: int,
    object_id: u64,
)
    requires
        0 <= n <= levels.len(),
        removed_from_levels(levels, deltas, n).contains(object_id),
    ensures
        exists|i: int|
            0 <= i < n && removed_objects(
                (#[trigger] levels[i]).table_infos,
                removed_from(deltas, levels[i].level_idx),
            ).contains(object_id),
    decreases n,
{
    let r = removed_from_levels(levels, deltas, n);
    let m = choose|m: int| 0 <= m < r.len() && r[m] == object_id;
    let before = removed_from_levels(levels, deltas, n - 1);
    if m < before.len() {
        assert(before[m] == object_id);
        lemma_level_had_removed(levels, deltas, n - 1, object_id);
    } else {
        let own = removed_objects(
            levels[n - 1].table_infos,
            removed_from(deltas, levels[n - 1].level_idx),
        );
        assert(own[m - before.len()] == object_id);
    }
}

/// Every SST that level 0 or a level above it holds, and that one of the changes removes from that
/// level, leaves its object. Of SSTs of a level with the same id this is the first, and of levels
/// with the same number the first.
pub proof fn removed_ssts_leave_their_objects(levels: LevelsView, deltas: Seq<GroupDeltaView>)
    ensures
        forall|k: int|
            0 <= k < laid_out(levels.l0.sub_levels).len() && first_of_its_id(
                laid_out(levels.l0.sub_levels),
                k,
            ) && removed(deltas, 0, (#[trigger] laid_out(levels.l0.sub_levels)[k]).sst_id)
                ==> sst_delta(levels, deltas).delete_sst_object_ids.contains(
                laid_out(levels.l0.sub_levels)[k].object_id,
            ),
        forall|i: int, k: int|
            0 <= i < levels.levels.len() && first_of_its_number(levels.levels, i) && 0 <= k
                < levels.levels[i].table_infos.len() && first_of_its_id(
                levels.levels[i].table_infos,
                k,
            ) && removed(
                deltas,
                levels.levels[i].level_idx,
                (#[trigger] levels.levels[i].table_infos[k]).sst_id,
            ) ==> sst_delta(levels, deltas).delete_sst_object_ids.contains(
                levels.levels[i].table_infos[k].object_id,
            ),
{
    let held = laid_out(levels.l0.sub_levels);
    let upper = levels.levels;
    lemma_laid_out(levels.l0.sub_levels);
    let a = removed_objects(held, removed_from(deltas, 0));
    let b = removed_from_levels(upper, deltas, upper.len() as int);
    let all = sst_delta(levels, deltas).delete_sst_object_ids;
    assert(all == a + b);
    assert forall|k: int|
        0 <= k < held.len() && first_of_its_id(held, k) && removed(
            deltas,
            0,
            (#[trigger] held[k]).sst_id,
        ) implies all.contains(held[k].object_id) by {
        lemma_removed_from(deltas, 0, held[k].sst_id);
        lemma_first_is_removed(held, removed_from(deltas, 0), k);
        let m = choose|m: int| 0 <= m < a.len() && a[m] == held[k].object_id;
        assert(all[m] == a[m]);
    }
    assert forall|i: int, k: int|
        0 <= i < upper.len() && first_of_its_number(upper, i) && 0 <= k
            < upper[i].table_infos.len() && first_of_its_id(upper[i].table_infos, k) && removed(
            deltas,
            upper[i].level_idx,
            (#[trigger] upper[i].table_infos[k]).sst_id,
        ) implies all.contains(upper[i].table_infos[k].object_id) by {
        let s = upper[i].table_infos[k];
        lemma_removed_from(deltas, upper[i].level_idx, s.sst_id);
        lemma_first_is_removed(
            upper[i].table_infos,
            removed_from(deltas, upper[i].level_idx),
            k,
        );
        lemma_level_is_removed(upper, deltas, upper.len() as int, i, s.object_id);
        let m = choose|m: int| 0 <= m < b.len() && b[m] == s.object_id;
        assert(all[a.len() + m] == b[m]);
    }
}

/// Only objects of SSTs that are held by a level, and that one of the changes removes from that
/// level, leave.
pub proof fn only_removed_ssts_leave_their_objects(
    levels: LevelsView,
    deltas: Seq<GroupDeltaView>,
    object_id: u64,
)
    requires
        sst_delta(levels, deltas).delete_sst_object_ids.contains(object_id),
    ensures
        (exists|k: int|
            0 <= k < laid_out(levels.l0.sub_levels).len() && (#[trigger] laid_out(
                levels.l0.sub_levels,
            )[k]).object_id == object_id && removed(
                deltas,
                0,
                laid_out(levels.l0.sub_levels)[k].sst_id,
            )) || (exists|i: int, k: int|
            0 <= i < levels.levels.len() && 0 <= k < levels.levels[i].table_infos.len() && (
            #[trigger] levels.levels[i].table_infos[k]).object_id == object_id && removed(
                deltas,
                levels.levels[i].level_idx,
                levels.levels[i].table_infos[k].sst_id,
            )),
{
    let held = laid_out(levels.l0.sub_levels);
    let upper = levels.levels;
    lemma_laid_out(levels.l0.sub_levels);
    let a = removed_objects(held, removed_from(deltas, 0));
    let b = removed_from_levels(upper, deltas, upper.len() as int);
    let all = sst_delta(levels, deltas).delete_sst_object_ids;
    let m = choose|m: int| 0 <= m < all.len() && all[m] == object_id;
    if m < a.len() {
        assert(a[m] == object_id);
        lemma_removed_was_held(held, removed_from(deltas, 0), object_id);
        let k = choose|k: int|
            0 <= k < held.len() && (#[trigger] held[k]).object_id == object_id && removed_from(
                deltas,
                0,
            ).contains(held[k].sst_id);
        lemma_removed_from(deltas, 0, held[k].sst_id);
    } else {
        assert(b[m - a.len()] == object_id);
        lemma_level_had_removed(upper, deltas, upper.len() as int, object_id);
        let i = choose|i: int|
            0 <= i < upper.len() && removed_objects(
                (#[trigger] upper[i]).table_infos,
                removed_from(deltas, upper[i].level_idx),
            ).contains(object_id);
        let ids = removed_from(deltas, upper[i].level_idx);
        lemma_removed_was_held(upper[i].table_infos, ids, object_id);
        let k = choose|k: int|
            0 <= k < upper[i].table_infos.len() && (
            #[trigger] upper[i].table_infos[k]).object_id == object_id && ids.contains(
                upper[i].table_infos[k].sst_id,
            );
        lemma_removed_from(deltas, upper[i].level_idx, upper[i].table_infos[k].sst_id);
    }
}

proof fn lemma_removed_in_order(ssts: Seq<SstView>, deltas: Seq<GroupDeltaView>, level_idx: u32)
    requires
        ids_once(ssts),
    ensures
        removed_objects(ssts, removed_from(deltas, level_idx)) == objects_removed(
            ssts,
            deltas,
            level_idx,
        ),
    decreases ssts.len(),
{
    reveal(Seq::filter);
    let p = |s: SstView| removed(deltas, level_idx, s.sst_id);
    if ssts.len() > 0 {
        let t = ssts.drop_last();
        let last = ssts.last();
        assert(ids_once(t)) by {
            assert forall|i: int, j: int| 0 <= i < j < t.len() implies (
            #[trigger] t[i]).sst_id != (#[trigger] t[j]).sst_id by {
                assert(ssts[i].sst_id != ssts[j].sst_id);
            }
        }
        lemma_removed_in_order(t, deltas, level_idx);
        lemma_removed_from(deltas, level_idx, last.sst_id);
        if has_sst(t, last.sst_id) {
            let k = choose|k: int| 0 <= k < t.len() && (#[trigger] t[k]).sst_id == last.sst_id;
            assert(ssts[k].sst_id != ssts[ssts.len() - 1].sst_id);
        }
        assert(p(last) == removed(deltas, level_idx, last.sst_id));
        assert(removed_objects(ssts, removed_from(deltas, level_idx)) =~= objects_removed(
            ssts,
            deltas,
            level_idx,
        ));
    } else {
        assert(ssts.filter(p) =~= Seq::empty());
        assert(objects_removed(ssts, deltas, level_idx) =~= Seq::empty());
    }
}

proof fn lemma_removed_above_push(
    levels: Seq<LevelView>,
    level: LevelView,
    deltas: Seq<GroupDeltaView>,
)
    ensures
        objects_removed_above(levels.push(level), deltas) == objects_removed_above(levels, deltas)
            + objects_removed(level.table_infos, deltas, level.level_idx),
    decreases levels.len(),
{
    let all = levels.push(level);
    let own = objects_removed(level.table_infos, deltas, level.level_idx);
    if levels.len() == 0 {
        assert(all.skip(1) =~= Seq::empty());
        assert(objects_removed_above(all.skip(1), deltas) =~= Seq::empty());
        assert(objects_removed_above(all, deltas) =~= objects_removed_above(levels, deltas) + own);
    } else {
        lemma_removed_above_push(levels.skip(1), level, deltas);
        assert(all.skip(1) =~= levels.skip(1).push(level));
        assert(all[0] == levels[0]);
        assert(objects_removed_above(all, deltas) =~= objects_removed_above(levels, deltas) + own);
    }
}

proof fn lemma_removed_levels_in_order(
    levels: Seq<LevelView>,
    deltas: Seq<GroupDeltaView>,
    n: int,
)
    requires
        0 <= n <= levels.len(),
        forall|i: int|
            0 <= i < levels.len() ==> first_of_its_number(levels, i) && ids_once(
                (#[trigger] levels[i]).table_infos,
            ),
    ensures
        removed_from_levels(levels, deltas, n) == objects_removed_above(levels.take(n), deltas),
    decreases n,
{
    if n > 0 {
        lemma_removed_levels_in_order(levels, deltas, n - 1);
        assert(levels.take(n) =~= levels.take(n - 1).push(levels[n - 1]));
        lemma_removed_above_push(levels.take(n - 1), levels[n - 1], deltas);
        lemma_removed_in_order(levels[n - 1].table_infos, deltas, levels[n - 1].level_idx);
        assert(first_of_its_number(levels, n - 1));
        assert(!number_seen(levels, n - 1));
    } else {
        assert(levels.take(n) =~= Seq::empty());
    }
}

/// Where each level has a number of its own and holds each id once, the objects that leave are
/// those of the removed SSTs, each once, first those of level 0 and then those of the levels above
/// it, in the order in which the SSTs are held.
pub proof fn objects_leave_in_order(levels: LevelsView, deltas: Seq<GroupDeltaView>)
    requires
        ids_once(laid_out(levels.l0.sub_levels)),
        forall|i: int|
            0 <= i < levels.levels.len() ==> first_of_its_number(levels.levels, i) && ids_once(
                (#[trigger] levels.levels[i]).table_infos,
            ),
    ensures
        sst_delta(levels, deltas).delete_sst_object_ids == objects_removed(
            laid_out(levels.l0.sub_levels),
            deltas,
            0,
        ) + objects_removed_above(levels.levels, deltas),
{
    lemma_laid_out(levels.l0.sub_levels);
    lemma_removed_in_order(laid_out(levels.l0.sub_levels), deltas, 0);
    lemma_removed_levels_in_order(levels.levels, deltas, levels.levels.len() as int);
    assert(levels.levels.take(levels.levels.len() as int) =~= levels.levels);
}

/// The objects that leave a level, from the first SST on, where the ids in the set are done with: that
/// of an SST that a change removes, the first with its id.
pub open spec fn objects_leaving(
    ssts: Seq<SstView>,
    deltas: Seq<GroupDeltaView>,
    level_idx: u32,
    done: Set<u64>,
) -> Seq<u64>
    decreases ssts.len(),
{
    if ssts.len() == 0 {
        Seq::empty()
    } else {
        let id = ssts[0].sst_id;
        let rest = objects_leaving(ssts.skip(1), deltas, level_idx, done.insert(id));
        if removed(deltas, level_idx, id) && !done.contains(id) {
            seq![ssts[0].object_id] + rest
        } else {
            rest
        }
    }
}

/// The objects that leave levels above 0, from the first level on, where the numbers in the set are
/// done with.
pub open spec fn objects_leaving_above(
    levels: Seq<LevelView>,
    deltas: Seq<GroupDeltaView>,
    done: Set<u32>,
) -> Seq<u64>
    decreases levels.len(),
{
    if levels.len() == 0 {
        Seq::empty()
    } else {
        let number = levels[0].level_idx;
        let rest = objects_leaving_above(levels.skip(1), deltas, done.insert(number));
        if number > 0 && !done.contains(number) {
            objects_leaving(levels[0].table_infos, deltas, number, Set::empty()) + rest
        } else {
            rest
        }
    }
}

proof fn lemma_leaving_push(
    ssts: Seq<SstView>,
    x: SstView,
    deltas: Seq<GroupDeltaView>,
    level_idx: u32,
    done: Set<u64>,
)
    ensures
        objects_leaving(ssts.push(x), deltas, level_idx, done) == objects_leaving(
            ssts,
            deltas,
            level_idx,
            done,
        ) + (if removed(deltas, level_idx, x.sst_id) && !done.contains(x.sst_id) && !has_sst(
            ssts,
            x.sst_id,
        ) {
            seq![x.object_id]
        } else {
            Seq::empty()
        }),
    decreases ssts.len(),
{
    let all = ssts.push(x);
    if ssts.len() == 0 {
        assert(all.skip(1) =~= Seq::empty());
        assert(objects_leaving(all.skip(1), deltas, level_idx, done.insert(x.sst_id))
            =~= Seq::empty());
        assert(objects_leaving(ssts, deltas, level_idx, done) =~= Seq::empty());
        assert(objects_leaving(all, deltas, level_idx, done) =~= objects_leaving(
            ssts,
            deltas,
            level_idx,
            done,
        ) + (if removed(deltas, level_idx, x.sst_id) && !done.contains(x.sst_id) {
            seq![x.object_id]
        } else {
            Seq::empty()
        }));
    } else {
        let t = ssts.skip(1);
        let id = ssts[0].sst_id;
        assert(all.skip(1) =~= t.push(x));
        assert(all[0] == ssts[0]);
        lemma_leaving_push(t, x, deltas, level_idx, done.insert(id));
        assert(has_sst(ssts, x.sst_id) <==> has_sst(t, x.sst_id) || id == x.sst_id) by {
            if has_sst(ssts, x.sst_id) {
                let k = choose|k: int|
                    0 <= k < ssts.len() && (#[trigger] ssts[k]).sst_id == x.sst_id;
                if k > 0 {
                    assert(t[k - 1] == ssts[k]);
                }
            }
            if has_sst(t, x.sst_id) {
                let k = choose|k: int| 0 <= k < t.len() && (#[trigger] t[k]).sst_id == x.sst_id;
                assert(ssts[k + 1] == t[k]);
            }
        }
        let last = if removed(deltas, level_idx, x.sst_id) && !done.contains(x.sst_id) && !has_sst(
            ssts,
            x.sst_id,
        ) {
            seq![x.object_id]
        } else {
            Seq::empty()
        };
        assert(objects_leaving(all, deltas, level_idx, done) =~= objects_leaving(
            ssts,
            deltas,
            level_idx,
            done,
        ) + last);
    }
}

proof fn lemma_leaving(ssts: Seq<SstView>, deltas: Seq<GroupDeltaView>, level_idx: u32)
    ensures
        removed_objects(ssts, removed_from(deltas, level_idx)) == objects_leaving(
            ssts,
            deltas,
            level_idx,
            Set::empty(),
        ),
    decreases ssts.len(),
{
    if ssts.len() > 0 {
        let t = ssts.drop_last();
        lemma_leaving(t, deltas, level_idx);
        lemma_leaving_push(t, ssts.last(), deltas, level_idx, Set::empty());
        assert(t.push(ssts.last()) =~= ssts);
        lemma_removed_from(deltas, level_idx, ssts.last().sst_id);
        assert(removed_objects(ssts, removed_from(deltas, level_idx)) =~= objects_leaving(
            ssts,
            deltas,
            level_idx,
            Set::empty(),
        ));
    }
}

proof fn lemma_leaving_above_push(
    levels: Seq<LevelView>,
    x: LevelView,
    deltas: Seq<GroupDeltaView>,
    done: Set<u32>,
)
    ensures
        objects_leaving_above(levels.push(x), deltas, done) == objects_leaving_above(
            levels,
            deltas,
            done,
        ) + (if x.level_idx > 0 && !done.contains(x.level_idx) && !numbered(
            levels,
            x.level_idx,
        ) {
            objects_leaving(x.table_infos, deltas, x.level_idx, Set::empty())
        } else {
            Seq::empty()
        }),
    decreases levels.len(),
{
    let all = levels.push(x);
    let own = objects_leaving(x.table_infos, deltas, x.level_idx, Set::empty());
    if levels.len() == 0 {
        assert(all.skip(1) =~= Seq::empty());
        assert(objects_leaving_above(all.skip(1), deltas, done.insert(x.level_idx))
            =~= Seq::empty());
        assert(objects_leaving_above(levels, deltas, done) =~= Seq::empty());
        assert(objects_leaving_above(all, deltas, done) =~= (if x.level_idx > 0 && !done.contains(
            x.level_idx,
        ) {
            own
        } else {
            Seq::empty()
        }));
        assert(objects_leaving_above(all, deltas, done) =~= objects_leaving_above(
            levels,
            deltas,
            done,
        ) + objects_leaving_above(all, deltas, done));
    } else {
        let t = levels.skip(1);
        let number = levels[0].level_idx;
        assert(all.skip(1) =~= t.push(x));
        assert(all[0] == levels[0]);
        lemma_leaving_above_push(t, x, deltas, done.insert(number));
        assert(numbered(levels, x.level_idx) <==> numbered(t, x.level_idx) || number
            == x.level_idx) by {
            if numbered(levels, x.level_idx) {
                let k = choose|k: int|
                    0 <= k < levels.len() && (#[trigger] levels[k]).level_idx == x.level_idx;
                if k > 0 {
                    assert(t[k - 1] == levels[k]);
                }
            }
            if numbered(t, x.level_idx) {
                let k = choose|k: int|
                    0 <= k < t.len() && (#[trigger] t[k]).level_idx == x.level_idx;
                assert(levels[k + 1] == t[k]);
            }
        }
        let last = if x.level_idx > 0 && !done.contains(x.level_idx) && !numbered(
            levels,
            x.level_idx,
        ) {
            own
        } else {
            Seq::empty()
        };
        assert(objects_leaving_above(all, deltas, done) =~= objects_leaving_above(
            levels,
            deltas,
            done,
        ) + last);
    }
}

spec fn numbered(levels: Seq<LevelView>, level_idx: u32) -> bool {
    exists|k: int| 0 <= k < levels.len() && (#[trigger] levels[k]).level_idx == level_idx
}

proof fn lemma_leaving_above(levels: Seq<LevelView>, deltas: Seq<GroupDeltaView>, n: int)
    requires
        0 <= n <= levels.len(),
    ensures
        removed_from_levels(levels, deltas, n) == objects_leaving_above(
            levels.take(n),
            deltas,
            Set::empty(),
        ),
    decreases n,
{
    if n > 0 {
        let t = levels.take(n - 1);
        let x = levels[n - 1];
        lemma_leaving_above(levels, deltas, n - 1);
        lemma_leaving_above_push(t, x, deltas, Set::empty());
        assert(t.push(x) =~= levels.take(n));
        lemma_leaving(x.table_infos, deltas, x.level_idx);
        assert(numbered(t, x.level_idx) <==> number_seen(levels, n - 1)) by {
            if numbered(t, x.level_idx) {
                let k = choose|k: int|
                    0 <= k < t.len() && (#[trigger] t[k]).level_idx == x.level_idx;
                assert(levels[k].level_idx == levels[n - 1].level_idx);
            }
            if number_seen(levels, n - 1) {
                let k = choose|k: int|
                    0 <= k < n - 1 && (#[trigger] levels[k]).level_idx == levels[n - 1].level_idx;
                assert(t[k].level_idx == x.level_idx);
            }
        }
        assert(removed_from_levels(levels, deltas, n) =~= objects_leaving_above(
            levels.take(n),
            deltas,
            Set::empty(),
        ));
    } else {
        assert(levels.take(n) =~= Seq::empty());
    }
}

/// The objects that leave are those of the removed SSTs in the order in which the SSTs are held, level
/// 0 first. Of SSTs of a level with the same id only the first leaves its object, and of levels with
/// the same number only the first is looked at.
pub proof fn first_ssts_leave_in_order(levels: LevelsView, deltas: Seq<GroupDeltaView>)
    ensures
        sst_delta(levels, deltas).delete_sst_object_ids == objects_leaving(
            laid_out(levels.l0.sub_levels),
            deltas,
            0,
            Set::empty(),
        ) + objects_leaving_above(levels.levels, deltas, Set::empty()),
{
    lemma_laid_out(levels.l0.sub_levels);
    lemma_leaving(laid_out(levels.l0.sub_levels), deltas, 0);
    lemma_leaving_above(levels.levels, deltas, levels.levels.len() as int);
    assert(levels.levels.take(levels.levels.len() as int) =~= levels.levels);
}

proof fn lemma_inserted_front(deltas: Seq<GroupDeltaView>)
    ensures
        gather(deltas, inserted_by()) == inserted_in_turn(deltas),
    decreases deltas.len(),
{
    if deltas.len() > 0 {
        lemma_gather_front(deltas, inserted_by());
        lemma_inserted_front(deltas.skip(1));
        assert(Seq::<SstView>::empty() + inserted_in_turn(deltas.skip(1)) =~= inserted_in_turn(
            deltas.skip(1),
        ));
    }
}

/// The SSTs that come are those that the changes insert, in turn, at the level of the last insertion;
/// at level 0 where nothing is inserted.
pub proof fn inserted_ssts_come(levels: LevelsView, deltas: Seq<GroupDeltaView>)
    ensures
        sst_delta(levels, deltas).insert_sst_infos == inserted_in_turn(deltas),
        forall|i: int| #[trigger]
            last_insertion(deltas, i) ==> sst_delta(levels, deltas).insert_sst_level == (
            deltas[i]->IntraLevel_0).level_idx,
        (forall|i: int| 0 <= i < deltas.len() ==> !inserts(#[trigger] deltas[i])) ==> sst_delta(
            levels,
            deltas,
        ).insert_sst_level == 0,
{
    lemma_inserted_front(deltas);
    lemma_inserted_level(deltas);
}

proof fn lemma_inserted_level(deltas: Seq<GroupDeltaView>)
    ensures
        forall|i: int| #[trigger]
            last_insertion(deltas, i) ==> inserted_level(deltas) == (
            deltas[i]->IntraLevel_0).level_idx,
        (forall|i: int| 0 <= i < deltas.len() ==> !inserts(#[trigger] deltas[i]))
            ==> inserted_level(deltas) == 0,
    decreases deltas.len(),
{
    if deltas.len() > 0 {
        let t = deltas.drop_last();
        let n = deltas.len() - 1;
        lemma_inserted_level(t);
        assert(deltas[n] == deltas.last());
        assert forall|i: int| #[trigger] last_insertion(deltas, i) implies inserted_level(deltas)
            == (deltas[i]->IntraLevel_0).level_idx by {
            if i < n {
                assert(!inserts(deltas[n]));
                assert(t[i] == deltas[i]);
                assert forall|j: int| i < j < t.len() implies !inserts(#[trigger] t[j]) by {
                    assert(deltas[j] == t[j]);
                }
                assert(last_insertion(t, i));
            }
        }
        if forall|i: int| 0 <= i < deltas.len() ==> !inserts(#[trigger] deltas[i]) {
            assert forall|i: int| 0 <= i < t.len() implies !inserts(#[trigger] t[i]) by {
                assert(deltas[i] == t[i]);
            }
            assert(!inserts(deltas[n]));
        }
    }
}

/// A delta says something, once, of each group of which nothing but SSTs changes, in the order of
/// the groups, and nothing of other groups.
pub proof fn groups_have_their_sst_deltas(
    version: VersionView,
    delta: VersionDeltaView,
    order: Seq<CompactionGroupId>,
)
    ensures
        gather(order, version.sst_deltas_of(delta)) == order.filter(
            |g: CompactionGroupId|
                forall|i: int|
                    0 <= i < delta.group_deltas[g].len() ==> #[trigger] delta.group_deltas[g][i]
                        is IntraLevel,
        ).map_values(|g: CompactionGroupId| sst_delta(version.levels[g], delta.group_deltas[g])),
    decreases order.len(),
{
    reveal(Seq::filter);
    let p = |g: CompactionGroupId|
        forall|i: int|
            0 <= i < delta.group_deltas[g].len() ==> #[trigger] delta.group_deltas[g][i]
                is IntraLevel;
    let f = |g: CompactionGroupId| sst_delta(version.levels[g], delta.group_deltas[g]);
    if order.len() > 0 {
        let t = order.drop_last();
        let last = order.last();
        groups_have_their_sst_deltas(version, delta, t);
        assert(p(last) == all_intra_level(delta.group_deltas[last]));
        assert(gather(order, version.sst_deltas_of(delta)) =~= order.filter(p).map_values(f));
    } else {
        assert(order.filter(p) =~= Seq::empty());
        assert(order.filter(p).map_values(f) =~= Seq::empty());
    }
}

} // verus!
