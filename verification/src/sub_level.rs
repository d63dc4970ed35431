//! The sub-levels of level 0: making them and adding SSTs to them.
use crate::level::{Level, LevelType, OverlappingLevel};
use crate::seqs::{sort, Sortable};
use crate::sstable_info::{total_raw_size, total_size, SstableInfo};
use vstd::prelude::*;

#[allow(unused_imports)]
use crate::level::{level_raw_size, level_size, L0View, LevelView};
#[allow(unused_imports)]
use crate::seqs::{
    lemma_total_add, lemma_total_insert, lemma_total_monotone, lemma_total_sorted,
    lemma_total_update, lemma_views_update, sort_seq, total, views,
};
#[allow(unused_imports)]
use crate::sstable_info::{concatable, raw_size, size, SstView};

verus! {

/// Whether the sizes of the SSTs add up within 64 bits.
pub open spec fn sizes_fit(ssts: Seq<SstView>) -> bool {
    total(ssts, size()) <= u64::MAX && total(ssts, raw_size()) <= u64::MAX
}

/// The SSTs in the order of their key ranges.
pub open spec fn by_key_range(ssts: Seq<SstView>) -> Seq<SstView> {
    sort_seq(ssts, SstableInfo::before())
}

impl LevelView {
    /// A sub-level of level 0 that holds the SSTs.
    pub open spec fn sub_level(
        sub_level_id: u64,
        level_type: LevelType,
        ssts: Seq<SstView>,
    ) -> LevelView {
        LevelView {
            level_idx: 0,
            level_type,
            table_infos: ssts,
            total_file_size: total(ssts, size()) as u64,
            sub_level_id,
            uncompressed_file_size: total(ssts, raw_size()) as u64,
            vnode_partition_count: 0,
        }
    }

    /// Whether the level still counts its sizes within 64 bits with the SSTs added.
    pub open spec fn has_room_for(self, ssts: Seq<SstView>) -> bool {
        &&& self.total_file_size + total(ssts, size()) <= u64::MAX
        &&& self.uncompressed_file_size + total(ssts, raw_size()) <= u64::MAX
    }

    /// The level with the SSTs counted in and in place of those it held.
    pub open spec fn grown(self, ssts: Seq<SstView>, table_infos: Seq<SstView>) -> LevelView {
        LevelView {
            table_infos,
            total_file_size: (self.total_file_size + total(ssts, size())) as u64,
            uncompressed_file_size: (self.uncompressed_file_size + total(ssts, raw_size())) as u64,
            ..self
        }
    }

    /// The level with the SSTs added behind those it holds, in the order of their key ranges
    /// where the level does not let SSTs overlap.
    pub open spec fn with_ssts(self, ssts: Seq<SstView>) -> LevelView {
        self.grown(
            ssts,
            if self.level_type == LevelType::Nonoverlapping {
                by_key_range(self.table_infos + ssts)
            } else {
                self.table_infos + ssts
            },
        )
    }

    /// Whether the sizes of the level are those of its SSTs.
    pub open spec fn counted(self) -> bool {
        &&& self.total_file_size == total(self.table_infos, size())
        &&& self.uncompressed_file_size == total(self.table_infos, raw_size())
    }
}

impl L0View {
    /// Whether level 0 still counts its sizes within 64 bits with the SSTs added.
    pub open spec fn has_room_for(self, ssts: Seq<SstView>) -> bool {
        &&& self.total_file_size + total(ssts, size()) <= u64::MAX
        &&& self.uncompressed_file_size + total(ssts, raw_size()) <= u64::MAX
    }

    /// Level 0 with the SSTs added to the sub-level at `idx`. There is none where `idx` is not a
    /// sub-level's, where a size does not fit, or where SSTs of a sub-level that lets none overlap
    /// do.
    pub open spec fn with_ssts(self, idx: int, ssts: Seq<SstView>) -> Option<L0View> {
        if !(0 <= idx < self.sub_levels.len()) || !self.has_room_for(ssts)
            || !self.sub_levels[idx].has_room_for(ssts) {
            None
        } else {
            let level = self.sub_levels[idx].with_ssts(ssts);
            if level.level_type == LevelType::Nonoverlapping && !concatable(level.table_infos) {
                None
            } else {
                Some(
                    L0View {
                        sub_levels: self.sub_levels.update(idx, level),
                        total_file_size: (self.total_file_size + total(ssts, size())) as u64,
                        uncompressed_file_size: (self.uncompressed_file_size + total(
                            ssts,
                            raw_size(),
                        )) as u64,
                    },
                )
            }
        }
    }

    /// Where a new sub-level goes. Without a place it goes behind all others, and there is none
    /// where its id is not larger than the last one's.
    pub open spec fn insert_pos(self, sub_level_id: u64, place: Option<int>) -> Option<int> {
        match place {
            Some(pos) => if 0 <= pos <= self.sub_levels.len() {
                Some(pos)
            } else {
                None
            },
            None => if self.sub_levels.len() > 0 && self.sub_levels.last().sub_level_id
                >= sub_level_id {
                None
            } else {
                Some(self.sub_levels.len() as int)
            },
        }
    }

    /// Level 0 with a new sub-level. The id `u64::MAX` stands for no sub-level.
    pub open spec fn with_sub_level(
        self,
        sub_level_id: u64,
        level_type: LevelType,
        ssts: Seq<SstView>,
        place: Option<int>,
    ) -> Option<L0View> {
        if sub_level_id == u64::MAX {
            Some(self)
        } else if self.insert_pos(sub_level_id, place) is None || !self.has_room_for(ssts) {
            None
        } else {
            Some(
                L0View {
                    sub_levels: self.sub_levels.insert(
                        self.insert_pos(sub_level_id, place)->0,
                        LevelView::sub_level(sub_level_id, level_type, ssts),
                    ),
                    total_file_size: (self.total_file_size + total(ssts, size())) as u64,
                    uncompressed_file_size: (self.uncompressed_file_size + total(
                        ssts,
                        raw_size(),
                    )) as u64,
                },
            )
        }
    }

    /// Whether the sizes of level 0 are those of its sub-levels, and theirs those of their SSTs.
    pub open spec fn counted(self) -> bool {
        &&& forall|i: int|
            0 <= i < self.sub_levels.len() ==> (#[trigger] self.sub_levels[i]).counted()
        &&& self.total_file_size == total(self.sub_levels, level_size())
        &&& self.uncompressed_file_size == total(self.sub_levels, level_raw_size())
    }

    /// Whether the sub-levels stand in the order of their ids, each id once.
    pub open spec fn ids_increase(self) -> bool {
        forall|i: int, j: int|
            0 <= i < j < self.sub_levels.len() ==> (#[trigger] self.sub_levels[i]).sub_level_id < (
            #[trigger] self.sub_levels[j]).sub_level_id
    }
}

/// Sums of sizes are not negative.
pub proof fn lemma_sizes_not_negative(ssts: Seq<SstView>)
    ensures
        0 <= total(ssts, size()),
        0 <= total(ssts, raw_size()),
{
    lemma_total_monotone(ssts, ssts.len() as int, size());
    lemma_total_monotone(ssts, ssts.len() as int, raw_size());
    assert(ssts.take(ssts.len() as int) =~= ssts);
}

/// Makes a sub-level of level 0.
pub fn new_sub_level(sub_level_id: u64, level_type: LevelType, table_infos: Vec<SstableInfo>) -> (r:
    Level)
    requires
        sizes_fit(views(table_infos@)),
    ensures
        r@ == LevelView::sub_level(sub_level_id, level_type, views(table_infos@)),
{
    let total_file_size: u64 = total_size(&table_infos);
    let uncompressed_file_size: u64 = total_raw_size(&table_infos);
    Level {
        level_idx: 0,
        level_type,
        table_infos,
        total_file_size,
        sub_level_id,
        uncompressed_file_size,
        vnode_partition_count: 0,
    }
}

/// Adds SSTs to a sub-level and counts them in.
pub fn add_ssts_to_sub_level(
    l0: &mut OverlappingLevel,
    sub_level_idx: usize,
    insert_table_infos: Vec<SstableInfo>,
)
    requires
        old(l0)@.with_ssts(sub_level_idx as int, views(insert_table_infos@)) is Some,
    ensures
        final(l0)@ == old(l0)@.with_ssts(sub_level_idx as int, views(insert_table_infos@))->0,
{
    let ghost ssts = views(insert_table_infos@);
    let ghost prior = l0@;
    let ghost prior_levels = l0.sub_levels@;
    proof {
        lemma_sizes_not_negative(ssts);
    }
    let added: u64 = total_size(&insert_table_infos);
    let added_raw: u64 = total_raw_size(&insert_table_infos);
    let mut insert_table_infos = insert_table_infos;
    l0.total_file_size = l0.total_file_size + added;
    l0.uncompressed_file_size = l0.uncompressed_file_size + added_raw;
    let level = &mut l0.sub_levels[sub_level_idx];
    let ghost before = level@;
    level.total_file_size = level.total_file_size + added;
    level.uncompressed_file_size = level.uncompressed_file_size + added_raw;
    level.table_infos.append(&mut insert_table_infos);
    assert(views(level.table_infos@) =~= before.table_infos + ssts);
    if level.level_type == LevelType::Nonoverlapping {
        sort(&mut level.table_infos);
    }
    assert(level@ == before.with_ssts(ssts));
    proof {
        lemma_views_update(prior_levels, sub_level_idx as int, *level);
    }
}

/// The place that a hint gives.
pub open spec fn place_in(hint: Option<usize>) -> Option<int> {
    match hint {
        Some(pos) => Some(pos as int),
        None => None,
    }
}

/// Puts a new sub-level into level 0 and counts it in. Without a place it goes behind all others.
pub fn insert_new_sub_level(
    l0: &mut OverlappingLevel,
    insert_sub_level_id: u64,
    level_type: LevelType,
    insert_table_infos: Vec<SstableInfo>,
    sub_level_insert_hint: Option<usize>,
)
    requires
        old(l0)@.with_sub_level(
            insert_sub_level_id,
            level_type,
            views(insert_table_infos@),
            place_in(sub_level_insert_hint),
        ) is Some,
    ensures
        final(l0)@ == old(l0)@.with_sub_level(
            insert_sub_level_id,
            level_type,
            views(insert_table_infos@),
            place_in(sub_level_insert_hint),
        )->0,
{
    if insert_sub_level_id == u64::MAX {
        return ;
    }
    let insert_pos: usize = match sub_level_insert_hint {
        Some(pos) => pos,
        None => l0.sub_levels.len(),
    };
    let ghost ssts = views(insert_table_infos@);
    let ghost prior = l0.sub_levels@;
    proof {
        lemma_sizes_not_negative(ssts);
    }
    let level = new_sub_level(insert_sub_level_id, level_type, insert_table_infos);
    l0.total_file_size = l0.total_file_size + level.total_file_size;
    l0.uncompressed_file_size = l0.uncompressed_file_size + level.uncompressed_file_size;
    let ghost shown = level@;
    l0.sub_levels.insert(insert_pos, level);
    assert(views(l0.sub_levels@) =~= views(prior).insert(insert_pos as int, shown));
}

/// Adding SSTs to a sub-level keeps the sizes of level 0 those of its SSTs.
pub proof fn adding_ssts_keeps_counts(l0: L0View, idx: int, ssts: Seq<SstView>)
    requires
        l0.counted(),
        l0.with_ssts(idx, ssts) is Some,
    ensures
        l0.with_ssts(idx, ssts)->0.counted(),
{
    let level = l0.sub_levels[idx];
    let after = level.with_ssts(ssts);
    let r = l0.with_ssts(idx, ssts)->0;
    lemma_sizes_not_negative(ssts);
    lemma_total_add(level.table_infos, ssts, size());
    lemma_total_add(level.table_infos, ssts, raw_size());
    lemma_total_sorted(level.table_infos + ssts, SstableInfo::before(), size());
    lemma_total_sorted(level.table_infos + ssts, SstableInfo::before(), raw_size());
    assert(after.counted());
    lemma_total_update(l0.sub_levels, idx, after, level_size());
    lemma_total_update(l0.sub_levels, idx, after, level_raw_size());
    assert forall|i: int| 0 <= i < r.sub_levels.len() implies (
    #[trigger] r.sub_levels[i]).counted() by {
        if i != idx {
            assert(r.sub_levels[i] == l0.sub_levels[i]);
        }
    }
}

/// Putting a new sub-level into level 0 keeps the sizes of level 0 those of its SSTs.
pub proof fn new_sub_level_keeps_counts(
    l0: L0View,
    sub_level_id: u64,
    level_type: LevelType,
    ssts: Seq<SstView>,
    place: Option<int>,
)
    requires
        l0.counted(),
        l0.with_sub_level(sub_level_id, level_type, ssts, place) is Some,
    ensures
        l0.with_sub_level(sub_level_id, level_type, ssts, place)->0.counted(),
{
    if sub_level_id != u64::MAX {
        let pos = l0.insert_pos(sub_level_id, place)->0;
        let level = LevelView::sub_level(sub_level_id, level_type, ssts);
        let r = l0.with_sub_level(sub_level_id, level_type, ssts, place)->0;
        lemma_sizes_not_negative(ssts);
        lemma_total_insert(l0.sub_levels, pos, level, level_size());
        lemma_total_insert(l0.sub_levels, pos, level, level_raw_size());
        assert forall|i: int| 0 <= i < r.sub_levels.len() implies (
        #[trigger] r.sub_levels[i]).counted() by {
            if i < pos {
                assert(r.sub_levels[i] == l0.sub_levels[i]);
            } else if i > pos {
                assert(r.sub_levels[i] == l0.sub_levels[i - 1]);
            }
        }
    }
}

/// A sub-level that goes behind all others keeps the ids in order.
pub proof fn appended_sub_level_keeps_order(
    l0: L0View,
    sub_level_id: u64,
    level_type: LevelType,
    ssts: Seq<SstView>,
)
    requires
        l0.ids_increase(),
        l0.with_sub_level(sub_level_id, level_type, ssts, None) is Some,
    ensures
        l0.with_sub_level(sub_level_id, level_type, ssts, None)->0.ids_increase(),
{
    if sub_level_id != u64::MAX {
        let n = l0.sub_levels.len() as int;
        let r = l0.with_sub_level(sub_level_id, level_type, ssts, None)->0;
        assert forall|i: int, j: int| 0 <= i < j < r.sub_levels.len() implies (
        #[trigger] r.sub_levels[i]).sub_level_id < (#[trigger] r.sub_levels[j]).sub_level_id by {
            assert(r.sub_levels[i] == l0.sub_levels[i]);
            if j < n {
                assert(r.sub_levels[j] == l0.sub_levels[j]);
            } else {
                assert(l0.sub_levels.last() == l0.sub_levels[n - 1]);
                assert(l0.sub_levels[i].sub_level_id <= l0.sub_levels[n - 1].sub_level_id);
            }
        }
    }
}

} // verus!
