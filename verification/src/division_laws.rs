//! What holds of every split of a compaction group: no object is lost, ids are those set aside, and
//! the sizes and the order of the new group are kept.
use crate::level::LevelType;
use crate::seqs::Sortable;
use crate::sstable_info::SstableInfo;
use vstd::prelude::*;

#[allow(unused_imports)]
use crate::compact::{first_at_least, id_at_least};
#[allow(unused_imports)]
use crate::level::{L0View, LevelView, LevelsView};
#[allow(unused_imports)]
use crate::maps::gather;
#[allow(unused_imports)]
use crate::merge::{lemma_object_sorted, levels_have_object};
#[allow(unused_imports)]
use crate::parent_group::{has_tables, split_level, Division};
#[allow(unused_imports)]
use crate::queries::ssts_in;
#[allow(unused_imports)]
use crate::seqs::{
    keep, lemma_first_index, lemma_keep_contains, lemma_sort_contains, lemma_total_add,
    lemma_total_sorted, lemma_total_take, total,
};
#[allow(unused_imports)]
use crate::split::{
    branched_ssts, has_object, lemma_branched_lengths, remaining_ssts, split_level_keeps_objects,
    split_pos, split_side, starts_at_or_after, touches,
};
#[allow(unused_imports)]
use crate::split_count::{ids_for_level, ids_for_upper_level, touched_count, touching};
#[allow(unused_imports)]
use crate::sstable_info::{raw_size, size, SstView};
#[allow(unused_imports)]
use crate::sub_level::{
    adding_ssts_keeps_counts, by_key_range, lemma_sizes_not_negative, new_sub_level_keeps_counts,
};

verus! {

/// Whether every SST of a level holds a table.
pub open spec fn level_has_tables(level: LevelView) -> bool {
    forall|i: int|
        0 <= i < level.table_infos.len() ==> (#[trigger] level.table_infos[i]).table_ids.len() > 0
}

/// Whether every SST of a group holds a table, and no sub-level has the id that stands for none.
pub open spec fn well_filled(levels: LevelsView) -> bool {
    &&& forall|i: int|
        0 <= i < levels.l0.sub_levels.len() ==> level_has_tables(
            #[trigger] levels.l0.sub_levels[i],
        )
    &&& forall|i: int|
        0 <= i < levels.l0.sub_levels.len() ==> (
        #[trigger] levels.l0.sub_levels[i]).sub_level_id != u64::MAX
    &&& forall|i: int|
        0 <= i < levels.levels.len() ==> level_has_tables(#[trigger] levels.levels[i])
}

proof fn lemma_kept_object(s: Seq<SstView>, object_id: u64)
    ensures
        has_object(keep(s, has_tables()), object_id) <==> exists|i: int|
            0 <= i < s.len() && (#[trigger] s[i]).object_id == object_id && s[i].table_ids.len()
                > 0,
{
    let k = keep(s, has_tables());
    lemma_keep_contains(s, has_tables());
    if has_object(k, object_id) {
        let i = choose|i: int| 0 <= i < k.len() && (#[trigger] k[i]).object_id == object_id;
        assert(k.contains(k[i]));
        let j = choose|j: int| 0 <= j < s.len() && s[j] == k[i];
        assert(s[j].object_id == object_id);
    }
    if exists|i: int|
        0 <= i < s.len() && (#[trigger] s[i]).object_id == object_id && s[i].table_ids.len() > 0 {
        let i = choose|i: int|
            0 <= i < s.len() && (#[trigger] s[i]).object_id == object_id && s[i].table_ids.len()
                > 0;
        assert(s.contains(s[i]));
        assert(k.contains(s[i]));
        let j = choose|j: int| 0 <= j < k.len() && k[j] == s[i];
        assert(k[j].object_id == object_id);
    }
}

proof fn lemma_remaining_same(ssts: Seq<SstView>, members: Set<u32>, new_sst_id: u64, i: int)
    requires
        0 <= i < ssts.len(),
    ensures
        remaining_ssts(ssts, members, new_sst_id).len() == ssts.len(),
        remaining_ssts(ssts, members, new_sst_id)[i] == (SstView {
            sst_id: remaining_ssts(ssts, members, new_sst_id)[i].sst_id,
            ..ssts[i]
        }),
    decreases ssts.len(),
{
    lemma_branched_lengths(ssts, members, new_sst_id, ssts.len() as int);
    assert(ssts.take(ssts.len() as int) =~= ssts);
    let t = ssts.drop_last();
    lemma_branched_lengths(t, members, new_sst_id, t.len() as int);
    assert(t.take(t.len() as int) =~= t);
    if i < t.len() {
        lemma_remaining_same(t, members, new_sst_id, i);
        assert(t[i] == ssts[i]);
    }
}

proof fn lemma_branched_object(
    ssts: Seq<SstView>,
    members: Set<u32>,
    new_sst_id: u64,
    object_id: u64,
)
    ensures
        has_object(branched_ssts(ssts, members, new_sst_id), object_id) ==> has_object(
            ssts,
            object_id,
        ),
    decreases ssts.len(),
{
    if ssts.len() > 0 {
        let t = ssts.drop_last();
        lemma_branched_object(t, members, new_sst_id, object_id);
        let b = branched_ssts(ssts, members, new_sst_id);
        let p = branched_ssts(t, members, new_sst_id);
        if has_object(b, object_id) {
            let i = choose|i: int| 0 <= i < b.len() && (#[trigger] b[i]).object_id == object_id;
            if i < p.len() {
                assert(p[i].object_id == object_id);
                let k = choose|k: int| 0 <= k < t.len() && (#[trigger] t[k]).object_id == object_id;
                assert(ssts[k].object_id == object_id);
            } else {
                assert(ssts[ssts.len() - 1].object_id == object_id);
            }
        }
    }
}

/// Splitting a level whose SSTs all hold a table loses no object, though SSTs that hold no table
/// after it are dropped, and it brings none in.
pub proof fn split_level_keeps_objects_with_tables(
    level: LevelView,
    new_sst_id: u64,
    members: Set<u32>,
    split_key: Option<Seq<u8>>,
    object_id: u64,
)
    requires
        level_has_tables(level),
        split_level(level, new_sst_id, members, split_key) is Some,
    ensures
        ({
            let r = split_level(level, new_sst_id, members, split_key)->0;
            has_object(level.table_infos, object_id) <==> has_object(
                keep(r.level.table_infos, has_tables()),
                object_id,
            ) || has_object(r.branched, object_id)
        }),
{
    let r = split_level(level, new_sst_id, members, split_key)->0;
    let ssts = level.table_infos;
    let stay = r.level.table_infos;
    lemma_kept_object(stay, object_id);
    match split_key {
        None => {
            if has_object(ssts, object_id) {
                let i = choose|i: int|
                    0 <= i < ssts.len() && (#[trigger] ssts[i]).object_id == object_id;
                lemma_remaining_same(ssts, members, new_sst_id, i);
                assert(stay[i].object_id == object_id);
            }
            if has_object(keep(stay, has_tables()), object_id) {
                let i = choose|i: int|
                    0 <= i < stay.len() && (#[trigger] stay[i]).object_id == object_id
                        && stay[i].table_ids.len() > 0;
                lemma_branched_lengths(ssts, members, new_sst_id, ssts.len() as int);
                assert(ssts.take(ssts.len() as int) =~= ssts);
                lemma_remaining_same(ssts, members, new_sst_id, i);
                assert(ssts[i].object_id == object_id);
            }
            lemma_branched_object(ssts, members, new_sst_id, object_id);
        },
        Some(key) => {
            split_level_keeps_objects(level, new_sst_id, key, object_id);
            let pos = split_pos(ssts, key);
            lemma_first_index(ssts, starts_at_or_after(key));
            let side = split_side(ssts[pos].key_range, key);
            let cut = if side is Left {
                pos + 1
            } else {
                pos
            };
            if has_object(ssts, object_id) {
                let i = choose|i: int|
                    0 <= i < ssts.len() && (#[trigger] ssts[i]).object_id == object_id;
                if level.level_type == LevelType::Overlapping || i < cut {
                    assert(stay[i].object_id == object_id);
                    assert(stay[i].table_ids == ssts[i].table_ids);
                } else {
                    assert(r.branched[i - cut].object_id == object_id);
                }
            }
            if has_object(keep(stay, has_tables()), object_id) {
                let i = choose|i: int|
                    0 <= i < stay.len() && (#[trigger] stay[i]).object_id == object_id
                        && stay[i].table_ids.len() > 0;
                assert(has_object(stay, object_id));
            }
        },
    }
}

proof fn lemma_update_objects(levels: Seq<LevelView>, i: int, after: LevelView, object_id: u64)
    requires
        0 <= i < levels.len(),
    ensures
        levels_have_object(levels.update(i, after), object_id) ==> levels_have_object(
            levels,
            object_id,
        ) || has_object(after.table_infos, object_id),
        levels_have_object(levels, object_id) ==> levels_have_object(
            levels.update(i, after),
            object_id,
        ) || has_object(levels[i].table_infos, object_id),
        has_object(after.table_infos, object_id) ==> levels_have_object(
            levels.update(i, after),
            object_id,
        ),
        has_object(levels[i].table_infos, object_id) ==> levels_have_object(levels, object_id),
{
    let r = levels.update(i, after);
    if levels_have_object(r, object_id) {
        let k = choose|k: int|
            0 <= k < r.len() && has_object((#[trigger] r[k]).table_infos, object_id);
        if k != i {
            assert(r[k] == levels[k]);
        }
    }
    if levels_have_object(levels, object_id) {
        let k = choose|k: int|
            0 <= k < levels.len() && has_object((#[trigger] levels[k]).table_infos, object_id);
        if k != i {
            assert(r[k] == levels[k]);
        }
    }
    assert(r[i] == after);
}

proof fn lemma_placed_objects(l0: L0View, from: LevelView, ssts: Seq<SstView>, object_id: u64)
    requires
        l0.with_branched(from, ssts) is Some,
        from.sub_level_id != u64::MAX,
    ensures
        levels_have_object(l0.with_branched(from, ssts)->0.sub_levels, object_id)
            <==> levels_have_object(l0.sub_levels, object_id) || has_object(ssts, object_id),
{
    let at = first_at_least(l0.sub_levels, from.sub_level_id);
    lemma_first_index(l0.sub_levels, id_at_least(from.sub_level_id));
    let before = l0.sub_levels;
    let after = l0.with_branched(from, ssts)->0.sub_levels;
    if ssts.len() > 0 {
        if at < before.len() && before[at].sub_level_id == from.sub_level_id {
            lemma_object_sorted(before[at].table_infos, ssts, object_id);
            lemma_update_objects(before, at, before[at].with_ssts(ssts), object_id);
        } else {
            if levels_have_object(after, object_id) {
                let i = choose|i: int|
                    0 <= i < after.len() && has_object(
                        (#[trigger] after[i]).table_infos,
                        object_id,
                    );
                if i < at {
                    assert(after[i] == before[i]);
                } else if i > at {
                    assert(after[i] == before[i - 1]);
                }
            }
            if levels_have_object(before, object_id) {
                let i = choose|i: int|
                    0 <= i < before.len() && has_object(
                        (#[trigger] before[i]).table_infos,
                        object_id,
                    );
                if i < at {
                    assert(after[i] == before[i]);
                } else {
                    assert(after[i + 1] == before[i]);
                }
            }
            assert(after[at].table_infos == ssts);
        }
    }
}

impl Division {
    /// Whether one of the groups holds an SST of the object.
    pub open spec fn has_object(self, object_id: u64) -> bool {
        self.parent.has_object(object_id) || self.target.has_object(object_id)
    }
}

proof fn lemma_sub_level_objects(
    d: Division,
    i: int,
    members: Set<u32>,
    split_key: Option<Seq<u8>>,
    object_id: u64,
)
    requires
        0 <= i < d.parent.l0.sub_levels.len(),
        d.with_sub_level(i, members, split_key) is Some,
        level_has_tables(d.parent.l0.sub_levels[i]),
        d.parent.l0.sub_levels[i].sub_level_id != u64::MAX,
    ensures
        d.with_sub_level(i, members, split_key)->0.has_object(object_id) <==> d.has_object(
            object_id,
        ),
{
    let level = d.parent.l0.sub_levels[i];
    let split = split_level(level, d.next_sst_id, members, split_key)->0;
    split_level_keeps_objects_with_tables(level, d.next_sst_id, members, split_key, object_id);
    lemma_placed_objects(d.target.l0, split.level, split.branched, object_id);
    lemma_update_objects(d.parent.l0.sub_levels, i, split.level.purged(), object_id);
}

proof fn lemma_level_objects(
    d: Division,
    i: int,
    members: Set<u32>,
    split_key: Option<Seq<u8>>,
    object_id: u64,
)
    requires
        0 <= i < d.parent.levels.len(),
        d.with_level(i, members, split_key) is Some,
        level_has_tables(d.parent.levels[i]),
    ensures
        d.with_level(i, members, split_key)->0.has_object(object_id) <==> d.has_object(object_id),
{
    let level = d.parent.levels[i];
    let split = split_level(level, d.next_sst_id, members, split_key)->0;
    split_level_keeps_objects_with_tables(level, d.next_sst_id, members, split_key, object_id);
    lemma_object_sorted(d.target.levels[i].table_infos, split.branched, object_id);
    lemma_update_objects(
        d.target.levels,
        i,
        d.target.levels[i].with_branched(split.branched),
        object_id,
    );
    lemma_update_objects(d.parent.levels, i, split.level.purged_and_counted(), object_id);
}

/// The sub-levels of the parent that were not divided yet are as they were.
pub proof fn lemma_sub_levels_left(
    d: Division,
    n: nat,
    members: Set<u32>,
    split_key: Option<Seq<u8>>,
    k: int,
)
    requires
        n <= k < d.parent.l0.sub_levels.len(),
        d.with_sub_levels(n, members, split_key) is Some,
    ensures
        d.with_sub_levels(n, members, split_key)->0.parent.l0.sub_levels[k]
            == d.parent.l0.sub_levels[k],
    decreases n,
{
    if n > 0 {
        lemma_sub_levels_left(d, (n - 1) as nat, members, split_key, k);
        crate::parent_group::lemma_sub_levels_shape(d, (n - 1) as nat, members, split_key);
    }
}

/// The levels above 0 of the parent that were not divided yet are as they were.
pub proof fn lemma_levels_left(
    d: Division,
    n: nat,
    members: Set<u32>,
    split_key: Option<Seq<u8>>,
    k: int,
)
    requires
        n <= k < d.parent.levels.len(),
        d.with_levels(n, members, split_key) is Some,
    ensures
        d.with_levels(n, members, split_key)->0.parent.levels[k] == d.parent.levels[k],
    decreases n,
{
    if n > 0 {
        lemma_levels_left(d, (n - 1) as nat, members, split_key, k);
        crate::parent_group::lemma_levels_shape(d, (n - 1) as nat, members, split_key);
    }
}

proof fn lemma_sub_levels_objects(
    d: Division,
    n: nat,
    members: Set<u32>,
    split_key: Option<Seq<u8>>,
    object_id: u64,
)
    requires
        n <= d.parent.l0.sub_levels.len(),
        d.with_sub_levels(n, members, split_key) is Some,
        well_filled(d.parent),
    ensures
        d.with_sub_levels(n, members, split_key)->0.has_object(object_id) <==> d.has_object(
            object_id,
        ),
    decreases n,
{
    if n > 0 {
        let m = (n - 1) as nat;
        lemma_sub_levels_objects(d, m, members, split_key, object_id);
        lemma_sub_levels_left(d, m, members, split_key, n - 1);
        crate::parent_group::lemma_sub_levels_shape(d, m, members, split_key);
        assert(level_has_tables(d.parent.l0.sub_levels[n - 1]));
        assert(d.parent.l0.sub_levels[n - 1].sub_level_id != u64::MAX);
        lemma_sub_level_objects(
            d.with_sub_levels(m, members, split_key)->0,
            n - 1,
            members,
            split_key,
            object_id,
        );
    }
}

proof fn lemma_levels_objects(
    d: Division,
    n: nat,
    members: Set<u32>,
    split_key: Option<Seq<u8>>,
    object_id: u64,
)
    requires
        n <= d.parent.levels.len(),
        d.with_levels(n, members, split_key) is Some,
        forall|i: int|
            0 <= i < d.parent.levels.len() ==> level_has_tables(#[trigger] d.parent.levels[i]),
    ensures
        d.with_levels(n, members, split_key)->0.has_object(object_id) <==> d.has_object(object_id),
    decreases n,
{
    if n > 0 {
        let m = (n - 1) as nat;
        lemma_levels_objects(d, m, members, split_key, object_id);
        lemma_levels_left(d, m, members, split_key, n - 1);
        crate::parent_group::lemma_levels_shape(d, m, members, split_key);
        assert(level_has_tables(d.parent.levels[n - 1]));
        lemma_level_objects(
            d.with_levels(m, members, split_key)->0,
            n - 1,
            members,
            split_key,
            object_id,
        );
    }
}

/// A split of a group loses no object and brings none in, where every SST of the parent holds a
/// table and no sub-level has the id that stands for none.
pub proof fn division_keeps_objects(
    d: Division,
    members: Set<u32>,
    split_key: Option<Seq<u8>>,
    object_id: u64,
)
    requires
        d.divided(members, split_key) is Some,
        well_filled(d.parent),
    ensures
        d.divided(members, split_key)->0.has_object(object_id) <==> d.has_object(object_id),
{
    let subs = d.parent.l0.sub_levels.len();
    let middle = d.with_sub_levels(subs, members, split_key)->0;
    lemma_sub_levels_objects(d, subs, members, split_key, object_id);
    crate::parent_group::lemma_sub_levels_shape(d, subs, members, split_key);
    lemma_levels_objects(middle, d.parent.levels.len(), members, split_key, object_id);
}

proof fn lemma_placed_counts(l0: L0View, from: LevelView, ssts: Seq<SstView>)
    requires
        l0.counted(),
        l0.with_branched(from, ssts) is Some,
    ensures
        l0.with_branched(from, ssts)->0.counted(),
{
    let at = first_at_least(l0.sub_levels, from.sub_level_id);
    if ssts.len() > 0 {
        if at < l0.sub_levels.len() && l0.sub_levels[at].sub_level_id == from.sub_level_id {
            adding_ssts_keeps_counts(l0, at, ssts);
        } else {
            new_sub_level_keeps_counts(l0, from.sub_level_id, from.level_type, ssts, Some(at));
        }
    }
}

proof fn lemma_placed_order(l0: L0View, from: LevelView, ssts: Seq<SstView>)
    requires
        l0.ids_increase(),
        l0.with_branched(from, ssts) is Some,
    ensures
        l0.with_branched(from, ssts)->0.ids_increase(),
{
    let at = first_at_least(l0.sub_levels, from.sub_level_id);
    lemma_first_index(l0.sub_levels, id_at_least(from.sub_level_id));
    let before = l0.sub_levels;
    let after = l0.with_branched(from, ssts)->0.sub_levels;
    let found = at < before.len() && before[at].sub_level_id == from.sub_level_id;
    if ssts.len() > 0 && (found || from.sub_level_id != u64::MAX) {
        assert forall|i: int, j: int| 0 <= i < j < after.len() implies (
        #[trigger] after[i]).sub_level_id < (#[trigger] after[j]).sub_level_id by {
            if found {
                assert(before[i].sub_level_id < before[j].sub_level_id);
            } else {
                let a = if i < at {
                    i
                } else {
                    i - 1
                };
                let b = if j < at {
                    j
                } else {
                    j - 1
                };
                if i != at {
                    assert(after[i] == before[a]);
                }
                if j != at {
                    assert(after[j] == before[b]);
                }
                if i == at {
                    assert(before[at].sub_level_id >= from.sub_level_id);
                    if b != at {
                        assert(before[at].sub_level_id < before[b].sub_level_id);
                    }
                }
                if j == at {
                    assert(!id_at_least(from.sub_level_id)(before[i]));
                }
                if i != at && j != at {
                    assert(before[a].sub_level_id < before[b].sub_level_id);
                }
            }
        }
    }
}

proof fn lemma_sub_levels_target(
    d: Division,
    n: nat,
    members: Set<u32>,
    split_key: Option<Seq<u8>>,
)
    requires
        n <= d.parent.l0.sub_levels.len(),
        d.with_sub_levels(n, members, split_key) is Some,
    ensures
        d.target.l0.counted() ==> d.with_sub_levels(
            n,
            members,
            split_key,
        )->0.target.l0.counted(),
        d.target.l0.ids_increase() ==> d.with_sub_levels(
            n,
            members,
            split_key,
        )->0.target.l0.ids_increase(),
    decreases n,
{
    if n > 0 {
        let m = (n - 1) as nat;
        lemma_sub_levels_target(d, m, members, split_key);
        let before = d.with_sub_levels(m, members, split_key)->0;
        let split = split_level(
            before.parent.l0.sub_levels[n - 1],
            before.next_sst_id,
            members,
            split_key,
        )->0;
        if d.target.l0.counted() {
            lemma_placed_counts(before.target.l0, split.level, split.branched);
        }
        if d.target.l0.ids_increase() {
            lemma_placed_order(before.target.l0, split.level, split.branched);
        }
    }
}

proof fn lemma_with_branched_counted(level: LevelView, ssts: Seq<SstView>)
    requires
        level.counted(),
        level.has_room_for(ssts),
    ensures
        level.with_branched(ssts).counted(),
{
    lemma_sizes_not_negative(ssts);
    lemma_total_add(level.table_infos, ssts, size());
    lemma_total_add(level.table_infos, ssts, raw_size());
    lemma_total_sorted(level.table_infos + ssts, SstableInfo::before(), size());
    lemma_total_sorted(level.table_infos + ssts, SstableInfo::before(), raw_size());
}

proof fn lemma_levels_counts(
    d: Division,
    n: nat,
    members: Set<u32>,
    split_key: Option<Seq<u8>>,
)
    requires
        n <= d.parent.levels.len(),
        d.with_levels(n, members, split_key) is Some,
        d.target.counted(),
    ensures
        d.with_levels(n, members, split_key)->0.target.counted(),
        forall|i: int|
            0 <= i < n ==> (#[trigger] d.with_levels(
                n,
                members,
                split_key,
            )->0.parent.levels[i]).counted(),
    decreases n,
{
    crate::parent_group::lemma_levels_shape(d, n, members, split_key);
    if n > 0 {
        let m = (n - 1) as nat;
        lemma_levels_counts(d, m, members, split_key);
        crate::parent_group::lemma_levels_shape(d, m, members, split_key);
        let before = d.with_levels(m, members, split_key)->0;
        let after = d.with_levels(n, members, split_key)->0;
        let split = split_level(
            before.parent.levels[n - 1],
            before.next_sst_id,
            members,
            split_key,
        )->0;
        assert(before.target.levels[n - 1].counted());
        lemma_with_branched_counted(before.target.levels[n - 1], split.branched);
        assert forall|i: int| 0 <= i < after.target.levels.len() implies (
        #[trigger] after.target.levels[i]).counted() by {
            if i != n - 1 {
                assert(after.target.levels[i] == before.target.levels[i]);
            }
        }
        lemma_sizes_not_negative(keep(split.level.table_infos, has_tables()));
        assert forall|i: int| 0 <= i < n implies (#[trigger] after.parent.levels[i]).counted() by {
            if i != n - 1 {
                assert(after.parent.levels[i] == before.parent.levels[i]);
            }
        }
    }
}

/// After a split of a group, the sizes of the new group's levels are those of their SSTs if they
/// were so before, and so are those of the parent's levels above 0 in any case.
pub proof fn division_keeps_target_counts(
    d: Division,
    members: Set<u32>,
    split_key: Option<Seq<u8>>,
)
    requires
        d.divided(members, split_key) is Some,
        d.target.counted(),
    ensures
        d.divided(members, split_key)->0.target.counted(),
        forall|i: int|
            0 <= i < d.parent.levels.len() ==> (#[trigger] d.divided(
                members,
                split_key,
            )->0.parent.levels[i]).counted(),
{
    let subs = d.parent.l0.sub_levels.len();
    let middle = d.with_sub_levels(subs, members, split_key)->0;
    crate::parent_group::lemma_sub_levels_shape(d, subs, members, split_key);
    lemma_sub_levels_target(d, subs, members, split_key);
    assert(middle.target.counted());
    lemma_levels_counts(middle, d.parent.levels.len(), members, split_key);
}

/// A split of a group keeps the ids of the new group's sub-levels in order.
pub proof fn division_keeps_target_order(
    d: Division,
    members: Set<u32>,
    split_key: Option<Seq<u8>>,
)
    requires
        d.divided(members, split_key) is Some,
        d.target.l0.ids_increase(),
    ensures
        d.divided(members, split_key)->0.target.l0.ids_increase(),
{
    let subs = d.parent.l0.sub_levels.len();
    let middle = d.with_sub_levels(subs, members, split_key)->0;
    crate::parent_group::lemma_sub_levels_shape(d, subs, members, split_key);
    lemma_sub_levels_target(d, subs, members, split_key);
    crate::parent_group::lemma_levels_shape(middle, d.parent.levels.len(), members, split_key);
}

proof fn lemma_sub_levels_ids(d: Division, n: nat, members: Set<u32>, key: Seq<u8>)
    requires
        n <= d.parent.l0.sub_levels.len(),
        d.with_sub_levels(n, members, Some(key)) is Some,
    ensures
        2 * (d.with_sub_levels(n, members, Some(key))->0.next_sst_id - d.next_sst_id) == total(
            d.parent.l0.sub_levels.take(n as int),
            ids_for_level(key),
        ),
    decreases n,
{
    if n > 0 {
        let m = (n - 1) as nat;
        lemma_sub_levels_ids(d, m, members, key);
        lemma_sub_levels_left(d, m, members, Some(key), n - 1);
        lemma_total_take(d.parent.l0.sub_levels, n - 1, ids_for_level(key));
    } else {
        assert(d.parent.l0.sub_levels.take(0).len() == 0);
    }
}

proof fn lemma_levels_ids(d: Division, n: nat, members: Set<u32>, key: Seq<u8>)
    requires
        n <= d.parent.levels.len(),
        d.with_levels(n, members, Some(key)) is Some,
        forall|i: int|
            0 <= i < d.parent.levels.len() ==> (#[trigger] d.parent.levels[i]).level_type
                != LevelType::Overlapping,
    ensures
        2 * (d.with_levels(n, members, Some(key))->0.next_sst_id - d.next_sst_id) == total(
            d.parent.levels.take(n as int),
            ids_for_upper_level(key),
        ),
    decreases n,
{
    if n > 0 {
        let m = (n - 1) as nat;
        lemma_levels_ids(d, m, members, key);
        lemma_levels_left(d, m, members, Some(key), n - 1);
        lemma_total_take(d.parent.levels, n - 1, ids_for_upper_level(key));
        assert(d.parent.levels[n - 1].level_type != LevelType::Overlapping);
    } else {
        assert(d.parent.levels.take(0).len() == 0);
    }
}

/// A split of a group at a key moves the next free SST id on by half of the ids that are set aside
/// for it, where no level above 0 lets SSTs overlap.
pub proof fn split_uses_half_the_ids(d: Division, members: Set<u32>, key: Seq<u8>)
    requires
        d.divided(members, Some(key)) is Some,
        forall|i: int|
            0 <= i < d.parent.levels.len() ==> (#[trigger] d.parent.levels[i]).level_type
                != LevelType::Overlapping,
    ensures
        2 * (d.divided(members, Some(key))->0.next_sst_id - d.next_sst_id)
            == d.parent.ids_for_split(key),
{
    let subs = d.parent.l0.sub_levels.len();
    let middle = d.with_sub_levels(subs, members, Some(key))->0;
    crate::parent_group::lemma_sub_levels_shape(d, subs, members, Some(key));
    lemma_sub_levels_ids(d, subs, members, key);
    lemma_levels_ids(middle, d.parent.levels.len(), members, key);
    assert(d.parent.l0.sub_levels.take(subs as int) =~= d.parent.l0.sub_levels);
    assert(d.parent.levels.take(d.parent.levels.len() as int) =~= d.parent.levels);
}

/// Whether the ids of all SSTs are fine.
pub open spec fn ids_fine(ssts: Seq<SstView>, fine: spec_fn(u64) -> bool) -> bool {
    forall|i: int| 0 <= i < ssts.len() ==> fine((#[trigger] ssts[i]).sst_id)
}

/// Whether the ids of all SSTs of all levels are fine.
pub open spec fn level_ids_fine(levels: Seq<LevelView>, fine: spec_fn(u64) -> bool) -> bool {
    forall|i: int| 0 <= i < levels.len() ==> ids_fine((#[trigger] levels[i]).table_infos, fine)
}

impl Division {
    /// Whether the ids of all SSTs of both groups are fine.
    pub open spec fn ids_fine(self, fine: spec_fn(u64) -> bool) -> bool {
        &&& level_ids_fine(self.parent.l0.sub_levels, fine)
        &&& level_ids_fine(self.parent.levels, fine)
        &&& level_ids_fine(self.target.l0.sub_levels, fine)
        &&& level_ids_fine(self.target.levels, fine)
    }
}

proof fn lemma_by_tables_ids_fine(
    ssts: Seq<SstView>,
    members: Set<u32>,
    new_sst_id: u64,
    n: int,
    fine: spec_fn(u64) -> bool,
)
    requires
        ids_fine(ssts, fine),
        branched_ssts(ssts, members, new_sst_id).len() <= n,
        new_sst_id + n <= u64::MAX,
        forall|id: u64| new_sst_id <= id <= new_sst_id + n ==> #[trigger] fine(id),
    ensures
        ids_fine(remaining_ssts(ssts, members, new_sst_id), fine),
        ids_fine(branched_ssts(ssts, members, new_sst_id), fine),
    decreases ssts.len(),
{
    if ssts.len() > 0 {
        let t = ssts.drop_last();
        let (b, p) = (
            branched_ssts(ssts, members, new_sst_id),
            branched_ssts(t, members, new_sst_id),
        );
        let (r, q) = (
            remaining_ssts(ssts, members, new_sst_id),
            remaining_ssts(t, members, new_sst_id),
        );
        assert forall|i: int| 0 <= i < t.len() implies fine((#[trigger] t[i]).sst_id) by {
            assert(ssts[i] == t[i]);
        }
        lemma_by_tables_ids_fine(t, members, new_sst_id, n, fine);
        assert(fine(ssts[ssts.len() - 1].sst_id));
        if touches(ssts.last(), members) {
            assert(p.len() + 1 <= n);
            assert(fine((new_sst_id + p.len()) as u64));
            assert(fine((new_sst_id + p.len() + 1) as u64));
        }
        assert forall|i: int| 0 <= i < b.len() implies fine((#[trigger] b[i]).sst_id) by {
            if i < p.len() {
                assert(b[i] == p[i]);
            }
        }
        assert forall|i: int| 0 <= i < r.len() implies fine((#[trigger] r[i]).sst_id) by {
            if i < q.len() {
                assert(r[i] == q[i]);
            }
        }
    }
}

proof fn lemma_split_ids_fine(
    level: LevelView,
    new_sst_id: u64,
    members: Set<u32>,
    split_key: Option<Seq<u8>>,
    fine: spec_fn(u64) -> bool,
)
    requires
        split_level(level, new_sst_id, members, split_key) is Some,
        ids_fine(level.table_infos, fine),
        forall|id: u64|
            new_sst_id <= id <= split_level(level, new_sst_id, members, split_key)->0.next_sst_id
                ==> #[trigger] fine(id),
    ensures
        new_sst_id <= split_level(level, new_sst_id, members, split_key)->0.next_sst_id,
        ids_fine(
            keep(
                split_level(level, new_sst_id, members, split_key)->0.level.table_infos,
                has_tables(),
            ),
            fine,
        ),
        ids_fine(split_level(level, new_sst_id, members, split_key)->0.branched, fine),
{
    let r = split_level(level, new_sst_id, members, split_key)->0;
    let ssts = level.table_infos;
    let stay = r.level.table_infos;
    match split_key {
        None => {
            let n = branched_ssts(ssts, members, new_sst_id).len() as int;
            lemma_by_tables_ids_fine(ssts, members, new_sst_id, n, fine);
        },
        Some(key) => {
            let pos = split_pos(ssts, key);
            lemma_first_index(ssts, starts_at_or_after(key));
            let side = split_side(ssts[pos].key_range, key);
            let cut = if side is Left {
                pos + 1
            } else {
                pos
            };
            let overlapping = level.level_type == LevelType::Overlapping;
            assert forall|i: int| 0 <= i < stay.len() implies fine((#[trigger] stay[i]).sst_id) by {
                if overlapping {
                    assert(fine((new_sst_id + i + 1) as u64));
                } else if side is Both && i == pos {
                    assert(fine((new_sst_id + 1) as u64));
                } else {
                    assert(stay[i] == ssts[i]);
                }
            }
            assert forall|i: int| 0 <= i < r.branched.len() implies fine(
                (#[trigger] r.branched[i]).sst_id,
            ) by {
                if overlapping {
                    assert(fine((new_sst_id + i) as u64));
                } else if side is Both && i == 0 {
                    assert(fine(new_sst_id));
                } else {
                    assert(r.branched[i] == ssts[cut + i]);
                }
            }
        },
    }
    let kept = keep(stay, has_tables());
    lemma_keep_contains(stay, has_tables());
    assert forall|i: int| 0 <= i < kept.len() implies fine((#[trigger] kept[i]).sst_id) by {
        assert(kept.contains(kept[i]));
        let k = choose|k: int| 0 <= k < stay.len() && stay[k] == kept[i];
        assert(fine(stay[k].sst_id));
    }
}

proof fn lemma_joined_ids_fine(a: Seq<SstView>, b: Seq<SstView>, fine: spec_fn(u64) -> bool)
    requires
        ids_fine(a, fine),
        ids_fine(b, fine),
    ensures
        ids_fine(a + b, fine),
        ids_fine(by_key_range(a + b), fine),
{
    let all = a + b;
    let sorted = by_key_range(all);
    assert forall|i: int| 0 <= i < all.len() implies fine((#[trigger] all[i]).sst_id) by {
        if i < a.len() {
            assert(all[i] == a[i]);
        } else {
            assert(all[i] == b[i - a.len()]);
        }
    }
    assert forall|i: int| 0 <= i < sorted.len() implies fine((#[trigger] sorted[i]).sst_id) by {
        lemma_sort_contains(all, SstableInfo::before(), sorted[i]);
        assert(sorted.contains(sorted[i]));
        let k = choose|k: int| 0 <= k < all.len() && all[k] == sorted[i];
        assert(fine(all[k].sst_id));
    }
}

proof fn lemma_placed_ids_fine(
    l0: L0View,
    from: LevelView,
    ssts: Seq<SstView>,
    fine: spec_fn(u64) -> bool,
)
    requires
        l0.with_branched(from, ssts) is Some,
        level_ids_fine(l0.sub_levels, fine),
        ids_fine(ssts, fine),
    ensures
        level_ids_fine(l0.with_branched(from, ssts)->0.sub_levels, fine),
{
    let at = first_at_least(l0.sub_levels, from.sub_level_id);
    lemma_first_index(l0.sub_levels, id_at_least(from.sub_level_id));
    let before = l0.sub_levels;
    let after = l0.with_branched(from, ssts)->0.sub_levels;
    let found = at < before.len() && before[at].sub_level_id == from.sub_level_id;
    assert forall|i: int| 0 <= i < after.len() implies ids_fine(
        (#[trigger] after[i]).table_infos,
        fine,
    ) by {
        if ssts.len() == 0 || (!found && from.sub_level_id == u64::MAX) {
            assert(after[i] == before[i]);
        } else if found {
            if i == at {
                assert(ids_fine(before[at].table_infos, fine));
                lemma_joined_ids_fine(before[at].table_infos, ssts, fine);
            } else {
                assert(after[i] == before[i]);
            }
        } else if i < at {
            assert(after[i] == before[i]);
        } else if i > at {
            assert(after[i] == before[i - 1]);
        }
    }
}

proof fn lemma_sub_levels_ids_fine(
    d: Division,
    n: nat,
    members: Set<u32>,
    split_key: Option<Seq<u8>>,
    fine: spec_fn(u64) -> bool,
)
    requires
        n <= d.parent.l0.sub_levels.len(),
        d.with_sub_levels(n, members, split_key) is Some,
        d.ids_fine(fine),
        forall|id: u64|
            d.next_sst_id <= id <= d.with_sub_levels(n, members, split_key)->0.next_sst_id
                ==> #[trigger] fine(id),
    ensures
        d.next_sst_id <= d.with_sub_levels(n, members, split_key)->0.next_sst_id,
        d.with_sub_levels(n, members, split_key)->0.ids_fine(fine),
    decreases n,
{
    if n > 0 {
        let m = (n - 1) as nat;
        let before = d.with_sub_levels(m, members, split_key)->0;
        let after = d.with_sub_levels(n, members, split_key)->0;
        crate::parent_group::lemma_sub_levels_shape(d, m, members, split_key);
        let level = before.parent.l0.sub_levels[n - 1];
        lemma_split_moves_on(level, before.next_sst_id, members, split_key);
        lemma_sub_levels_ids_fine(d, m, members, split_key, fine);
        let split = split_level(level, before.next_sst_id, members, split_key)->0;
        assert(ids_fine(level.table_infos, fine));
        lemma_split_ids_fine(level, before.next_sst_id, members, split_key, fine);
        lemma_placed_ids_fine(before.target.l0, split.level, split.branched, fine);
        assert forall|i: int| 0 <= i < after.parent.l0.sub_levels.len() implies ids_fine(
            (#[trigger] after.parent.l0.sub_levels[i]).table_infos,
            fine,
        ) by {
            if i != n - 1 {
                assert(after.parent.l0.sub_levels[i] == before.parent.l0.sub_levels[i]);
            }
        }
    }
}

proof fn lemma_split_moves_on(
    level: LevelView,
    new_sst_id: u64,
    members: Set<u32>,
    split_key: Option<Seq<u8>>,
)
    requires
        split_level(level, new_sst_id, members, split_key) is Some,
    ensures
        new_sst_id <= split_level(level, new_sst_id, members, split_key)->0.next_sst_id,
{
}

proof fn lemma_levels_ids_fine(
    d: Division,
    n: nat,
    members: Set<u32>,
    split_key: Option<Seq<u8>>,
    fine: spec_fn(u64) -> bool,
)
    requires
        n <= d.parent.levels.len(),
        d.with_levels(n, members, split_key) is Some,
        d.ids_fine(fine),
        forall|id: u64|
            d.next_sst_id <= id <= d.with_levels(n, members, split_key)->0.next_sst_id
                ==> #[trigger] fine(id),
    ensures
        d.next_sst_id <= d.with_levels(n, members, split_key)->0.next_sst_id,
        d.with_levels(n, members, split_key)->0.ids_fine(fine),
    decreases n,
{
    if n > 0 {
        let m = (n - 1) as nat;
        let before = d.with_levels(m, members, split_key)->0;
        let after = d.with_levels(n, members, split_key)->0;
        crate::parent_group::lemma_levels_shape(d, m, members, split_key);
        let level = before.parent.levels[n - 1];
        lemma_split_moves_on(level, before.next_sst_id, members, split_key);
        lemma_levels_ids_fine(d, m, members, split_key, fine);
        let split = split_level(level, before.next_sst_id, members, split_key)->0;
        assert(ids_fine(level.table_infos, fine));
        lemma_split_ids_fine(level, before.next_sst_id, members, split_key, fine);
        assert(ids_fine(before.target.levels[n - 1].table_infos, fine));
        lemma_joined_ids_fine(before.target.levels[n - 1].table_infos, split.branched, fine);
        assert forall|i: int| 0 <= i < after.parent.levels.len() implies ids_fine(
            (#[trigger] after.parent.levels[i]).table_infos,
            fine,
        ) by {
            if i != n - 1 {
                assert(after.parent.levels[i] == before.parent.levels[i]);
            }
        }
        assert forall|i: int| 0 <= i < after.target.levels.len() implies ids_fine(
            (#[trigger] after.target.levels[i]).table_infos,
            fine,
        ) by {
            if i != n - 1 {
                assert(after.target.levels[i] == before.target.levels[i]);
            }
        }
    }
}

/// The id of an SST after a split of a group is one that an SST had before, or one from the start
/// of the new ids up to the next free one. `fine` stands for these ids.
pub proof fn split_gives_ids_set_aside(
    d: Division,
    members: Set<u32>,
    split_key: Option<Seq<u8>>,
    fine: spec_fn(u64) -> bool,
)
    requires
        d.divided(members, split_key) is Some,
        d.ids_fine(fine),
        forall|id: u64|
            d.next_sst_id <= id <= d.divided(members, split_key)->0.next_sst_id
                ==> #[trigger] fine(id),
    ensures
        d.divided(members, split_key)->0.ids_fine(fine),
        d.next_sst_id <= d.divided(members, split_key)->0.next_sst_id,
{
    let subs = d.parent.l0.sub_levels.len();
    let middle = d.with_sub_levels(subs, members, split_key)->0;
    crate::parent_group::lemma_sub_levels_shape(d, subs, members, split_key);
    lemma_levels_move_on(middle, d.parent.levels.len(), members, split_key);
    lemma_sub_levels_ids_fine(d, subs, members, split_key, fine);
    lemma_levels_ids_fine(middle, d.parent.levels.len(), members, split_key, fine);
}

proof fn lemma_levels_move_on(
    d: Division,
    n: nat,
    members: Set<u32>,
    split_key: Option<Seq<u8>>,
)
    requires
        n <= d.parent.levels.len(),
        d.with_levels(n, members, split_key) is Some,
    ensures
        d.next_sst_id <= d.with_levels(n, members, split_key)->0.next_sst_id,
    decreases n,
{
    if n > 0 {
        lemma_levels_move_on(d, (n - 1) as nat, members, split_key);
    }
}

/// The number of SSTs of a level that hold a table of the members.
pub open spec fn touched_in(members: Set<u32>) -> spec_fn(LevelView) -> int {
    |l: LevelView| keep(l.table_infos, touching(members)).len() as int
}

proof fn lemma_keep_concat<A>(a: Seq<A>, b: Seq<A>, keep_it: spec_fn(A) -> bool)
    ensures
        keep(a + b, keep_it).len() == keep(a, keep_it).len() + keep(b, keep_it).len(),
    decreases b.len(),
{
    if b.len() == 0 {
        assert(a + b =~= a);
    } else {
        lemma_keep_concat(a, b.drop_last(), keep_it);
        assert((a + b).drop_last() =~= a + b.drop_last());
    }
}

proof fn lemma_touched_total(levels: Seq<LevelView>, members: Set<u32>)
    ensures
        keep(gather(levels, ssts_in()), touching(members)).len() == total(
            levels,
            touched_in(members),
        ),
    decreases levels.len(),
{
    if levels.len() > 0 {
        lemma_touched_total(levels.drop_last(), members);
        lemma_keep_concat(
            gather(levels.drop_last(), ssts_in()),
            levels.last().table_infos,
            touching(members),
        );
    }
}

proof fn lemma_branched_count(ssts: Seq<SstView>, members: Set<u32>, new_sst_id: u64)
    ensures
        branched_ssts(ssts, members, new_sst_id).len() == keep(ssts, touching(members)).len(),
    decreases ssts.len(),
{
    if ssts.len() > 0 {
        lemma_branched_count(ssts.drop_last(), members, new_sst_id);
    }
}

proof fn lemma_sub_levels_touched(d: Division, n: nat, members: Set<u32>)
    requires
        n <= d.parent.l0.sub_levels.len(),
        d.with_sub_levels(n, members, None) is Some,
    ensures
        d.with_sub_levels(n, members, None)->0.next_sst_id - d.next_sst_id == total(
            d.parent.l0.sub_levels.take(n as int),
            touched_in(members),
        ),
    decreases n,
{
    if n > 0 {
        let m = (n - 1) as nat;
        let before = d.with_sub_levels(m, members, None)->0;
        lemma_sub_levels_touched(d, m, members);
        lemma_sub_levels_left(d, m, members, None, n - 1);
        lemma_total_take(d.parent.l0.sub_levels, n - 1, touched_in(members));
        lemma_branched_count(
            d.parent.l0.sub_levels[n - 1].table_infos,
            members,
            before.next_sst_id,
        );
    } else {
        assert(d.parent.l0.sub_levels.take(0).len() == 0);
    }
}

proof fn lemma_levels_touched(d: Division, n: nat, members: Set<u32>)
    requires
        n <= d.parent.levels.len(),
        d.with_levels(n, members, None) is Some,
    ensures
        d.with_levels(n, members, None)->0.next_sst_id - d.next_sst_id == total(
            d.parent.levels.take(n as int),
            touched_in(members),
        ),
    decreases n,
{
    if n > 0 {
        let m = (n - 1) as nat;
        let before = d.with_levels(m, members, None)->0;
        lemma_levels_touched(d, m, members);
        lemma_levels_left(d, m, members, None, n - 1);
        lemma_total_take(d.parent.levels, n - 1, touched_in(members));
        lemma_branched_count(d.parent.levels[n - 1].table_infos, members, before.next_sst_id);
    } else {
        assert(d.parent.levels.take(0).len() == 0);
    }
}

/// Moving tables to another group moves the next free SST id on by one for each SST that holds one
/// of them, which is half of the ids that are set aside for it.
pub proof fn move_uses_half_the_ids(d: Division, members: Set<u32>)
    requires
        d.divided(members, None) is Some,
    ensures
        d.divided(members, None)->0.next_sst_id - d.next_sst_id == touched_count(
            d.parent,
            members,
        ),
{
    let subs = d.parent.l0.sub_levels;
    let upper = d.parent.levels;
    let middle = d.with_sub_levels(subs.len(), members, None)->0;
    crate::parent_group::lemma_sub_levels_shape(d, subs.len(), members, None);
    lemma_sub_levels_touched(d, subs.len(), members);
    lemma_levels_touched(middle, upper.len(), members);
    assert(subs.take(subs.len() as int) =~= subs);
    assert(upper.take(upper.len() as int) =~= upper);
    lemma_touched_total(subs + upper, members);
    lemma_total_add(subs, upper, touched_in(members));
}

} // verus!
