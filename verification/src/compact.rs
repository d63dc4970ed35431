//! What a compaction does to the levels of a group.
use crate::group_deltas::GroupDeltasSummary;
use crate::level::{Level, LevelType, Levels};
use crate::maps::elements_of;
use crate::seqs::{retain, sort, Sortable};
use crate::sstable_info::{total_raw_size, total_size, HummockSstableId, SstableInfo};
use std::collections::{BTreeSet, HashSet};
use vstd::prelude::*;

#[allow(unused_imports)]
use crate::group_deltas::SummaryView;
#[allow(unused_imports)]
use crate::level::{level_raw_size, level_size, L0View, LevelView, LevelsView};
#[allow(unused_imports)]
use crate::seqs::{
    first_index, keep, lemma_first_index, lemma_is_first_index, lemma_keep_contains,
    lemma_total_add, lemma_total_monotone, lemma_total_sorted, lemma_total_take, lemma_views_update,
    total, views,
};
#[allow(unused_imports)]
use crate::sstable_info::{concatable, raw_size, size, SstView};
#[allow(unused_imports)]
use crate::sub_level::{by_key_range, lemma_sizes_not_negative, sizes_fit};

verus! {

/// Whether an SST's id is not among the ids.
pub open spec fn not_among(ids: Set<u64>) -> spec_fn(SstView) -> bool {
    |s: SstView| !ids.contains(s.sst_id)
}

/// Whether a level holds an SST.
pub open spec fn holds_ssts() -> spec_fn(LevelView) -> bool {
    |l: LevelView| l.table_infos.len() > 0
}

/// Whether one of the SSTs has the id.
pub open spec fn has_sst(ssts: Seq<SstView>, sst_id: u64) -> bool {
    exists|i: int| 0 <= i < ssts.len() && (#[trigger] ssts[i]).sst_id == sst_id
}

/// Whether a list of level numbers holds that of `levels[i]`.
pub open spec fn marks(level_ids: Set<u32>, i: int) -> bool {
    i < u32::MAX && level_ids.contains((i + 1) as u32)
}

impl LevelView {
    /// The level with the SSTs gone whose ids are among `ids`, and its sizes counted anew.
    pub open spec fn without(self, ids: Set<u64>) -> LevelView {
        let left = keep(self.table_infos, not_among(ids));
        LevelView {
            table_infos: left,
            total_file_size: total(left, size()) as u64,
            uncompressed_file_size: total(left, raw_size()) as u64,
            ..self
        }
    }

    /// Whether the sizes of what is left without `ids` add up within 64 bits.
    pub open spec fn can_lose(self, ids: Set<u64>) -> bool {
        sizes_fit(keep(self.table_infos, not_among(ids)))
    }

    /// The level with the result of a compaction added. Its SSTs do not overlap any more.
    pub open spec fn with_compacted(self, ssts: Seq<SstView>) -> LevelView {
        LevelView {
            level_type: if self.level_type == LevelType::Overlapping {
                LevelType::Nonoverlapping
            } else {
                self.level_type
            },
            ..self.grown(ssts, by_key_range(self.table_infos + ssts))
        }
    }

    /// Whether the result of a compaction can be added: its sizes fit, and no SSTs overlap.
    pub open spec fn takes_compacted(self, ssts: Seq<SstView>) -> bool {
        self.has_room_for(ssts) && concatable(by_key_range(self.table_infos + ssts))
    }
}

/// Whether a sub-level's id is not smaller than `sub_level_id`.
pub open spec fn id_at_least(sub_level_id: u64) -> spec_fn(LevelView) -> bool {
    |l: LevelView| l.sub_level_id >= sub_level_id
}

/// The place of the first sub-level whose id is not smaller than `sub_level_id`; behind all where
/// there is none.
pub open spec fn first_at_least(sub_levels: Seq<LevelView>, sub_level_id: u64) -> int {
    first_index(sub_levels, id_at_least(sub_level_id))
}

/// The place of the first sub-level whose id is not smaller than `sub_level_id`.
pub fn sub_level_position(sub_levels: &Vec<Level>, sub_level_id: u64) -> (r: usize)
    ensures
        r == first_at_least(views(sub_levels@), sub_level_id),
{
    let ghost all = views(sub_levels@);
    let mut i: usize = 0;
    while i < sub_levels.len() && sub_levels[i].sub_level_id < sub_level_id
        invariant
            i <= sub_levels.len(),
            all == views(sub_levels@),
            forall|k: int| 0 <= k < i ==> (#[trigger] all[k]).sub_level_id < sub_level_id,
        decreases sub_levels.len() - i,
    {
        i = i + 1;
    }
    proof {
        lemma_is_first_index(all, id_at_least(sub_level_id), i as int);
    }
    i
}

impl LevelsView {
    /// Whether the level with the given number holds an SST with the id.
    pub open spec fn level_has(self, level_idx: u32, sst_id: u64) -> bool {
        if level_idx == 0 {
            exists|i: int|
                0 <= i < self.l0.sub_levels.len() && has_sst(
                    (#[trigger] self.l0.sub_levels[i]).table_infos,
                    sst_id,
                )
        } else {
            has_sst(self.levels[level_idx - 1].table_infos, sst_id)
        }
    }

    /// Whether every number is that of a level of the group.
    pub open spec fn has_levels(self, level_ids: Set<u32>) -> bool {
        forall|l: u32| #[trigger] level_ids.contains(l) ==> l <= self.levels.len()
    }

    /// Whether every id is that of an SST in one of the levels.
    pub open spec fn has_all(self, level_ids: Set<u32>, ids: Set<u64>) -> bool {
        forall|id: u64| #[trigger]
            ids.contains(id) ==> exists|l: u32| #[trigger]
                level_ids.contains(l) && self.level_has(l, id)
    }

    /// The levels of the group with the SSTs gone from the levels given.
    pub open spec fn without(self, level_ids: Set<u32>, ids: Set<u64>) -> LevelsView {
        LevelsView {
            l0: L0View {
                sub_levels: if level_ids.contains(0) {
                    Seq::new(
                        self.l0.sub_levels.len(),
                        |i: int| self.l0.sub_levels[i].without(ids),
                    )
                } else {
                    self.l0.sub_levels
                },
                ..self.l0
            },
            levels: Seq::new(
                self.levels.len(),
                |i: int|
                    if marks(level_ids, i) {
                        self.levels[i].without(ids)
                    } else {
                        self.levels[i]
                    },
            ),
            ..self
        }
    }

    /// Whether the sizes of what is left add up within 64 bits in each level given.
    pub open spec fn can_lose(self, level_ids: Set<u32>, ids: Set<u64>) -> bool {
        &&& level_ids.contains(0) ==> forall|i: int|
            0 <= i < self.l0.sub_levels.len() ==> (#[trigger] self.l0.sub_levels[i]).can_lose(ids)
        &&& forall|i: int|
            0 <= i < self.levels.len() && marks(level_ids, i) ==> (
            #[trigger] self.levels[i]).can_lose(ids)
    }

    /// The level with the compacted SSTs added to one of its sub-levels. The sub-level takes over
    /// the partition count where it is empty, the group has one table, and the SSTs hold no other.
    pub open spec fn with_compacted_sub_level(
        self,
        sub_level_id: u64,
        ssts: Seq<SstView>,
        partition_count: u32,
        members: Set<u32>,
    ) -> Option<LevelsView> {
        let i = first_at_least(self.l0.sub_levels, sub_level_id);
        if i >= self.l0.sub_levels.len() || self.l0.sub_levels[i].sub_level_id != sub_level_id {
            None
        } else {
            let level = self.l0.sub_levels[i];
            let single = level.table_infos.len() == 0 && members.len() == 1 && forall|k: int|
                0 <= k < ssts.len() ==> of_one_table(#[trigger] ssts[k]) && members.contains(
                    ssts[k].table_ids[0],
                );
            let level = if single {
                LevelView { vnode_partition_count: partition_count, ..level }
            } else {
                level
            };
            if level.takes_compacted(ssts) {
                Some(
                    LevelsView {
                        l0: L0View {
                            sub_levels: self.l0.sub_levels.update(i, level.with_compacted(ssts)),
                            ..self.l0
                        },
                        ..self
                    },
                )
            } else {
                None
            }
        }
    }

    /// The levels with the compacted SSTs added to a level above 0. The level takes over the
    /// partition count where it is empty and each SST is of one table, and loses its own where
    /// the SSTs have none and the group has several tables.
    pub open spec fn with_compacted_level(
        self,
        level_idx: u32,
        ssts: Seq<SstView>,
        partition_count: u32,
        members: Set<u32>,
    ) -> Option<LevelsView> {
        let i = level_idx - 1;
        if !(0 <= i < self.levels.len()) {
            None
        } else {
            let level = self.levels[i];
            let single = level.table_infos.len() == 0 && forall|k: int|
                0 <= k < ssts.len() ==> of_one_table(#[trigger] ssts[k]);
            let level = if single {
                LevelView { vnode_partition_count: partition_count, ..level }
            } else if level.vnode_partition_count != 0 && partition_count == 0 && members.len()
                > 1 {
                LevelView { vnode_partition_count: 0, ..level }
            } else {
                level
            };
            if level.takes_compacted(ssts) {
                Some(
                    LevelsView {
                        levels: self.levels.update(i, level.with_compacted(ssts)),
                        ..self
                    },
                )
            } else {
                None
            }
        }
    }

    /// The levels with the insertions of a compaction made.
    pub open spec fn with_insertions(self, summary: SummaryView, members: Set<u32>) -> Option<
        LevelsView,
    > {
        if summary.insert_table_infos.len() == 0 {
            Some(self)
        } else if summary.insert_sst_level_id == 0 {
            self.with_compacted_sub_level(
                summary.insert_sub_level_id,
                summary.insert_table_infos,
                summary.new_vnode_partition_count,
                members,
            )
        } else {
            self.with_compacted_level(
                summary.insert_sst_level_id,
                summary.insert_table_infos,
                summary.new_vnode_partition_count,
                members,
            )
        }
    }

    /// The levels with the empty sub-levels gone and the sizes of level 0 counted anew.
    pub open spec fn tidied(self) -> Option<LevelsView> {
        let left = keep(self.l0.sub_levels, holds_ssts());
        if total(left, level_size()) > u64::MAX || total(left, level_raw_size()) > u64::MAX {
            None
        } else {
            Some(
                LevelsView {
                    l0: L0View {
                        sub_levels: left,
                        total_file_size: total(left, level_size()) as u64,
                        uncompressed_file_size: total(left, level_raw_size()) as u64,
                    },
                    ..self
                },
            )
        }
    }

    /// The levels after a compaction. A compaction that deletes what is not there has expired and
    /// changes nothing.
    pub open spec fn compacted(self, summary: SummaryView, members: Set<u32>) -> Option<
        LevelsView,
    > {
        let from = summary.delete_sst_levels;
        let ids = summary.delete_sst_ids;
        if !self.has_levels(from) {
            None
        } else if !self.has_all(from, ids) {
            Some(self)
        } else if !self.can_lose(from, ids) {
            None
        } else {
            match self.without(from, ids).with_insertions(summary, members) {
                None => None,
                Some(grown) => if from.contains(0) {
                    grown.tidied()
                } else {
                    Some(grown)
                },
            }
        }
    }
}

/// Whether an SST holds keys of a single table.
pub open spec fn of_one_table(sst: SstView) -> bool {
    sst.table_ids.len() == 1
}

/// Deletes the SSTs whose ids are in the set and counts the sizes anew. Says whether an SST was
/// deleted.
pub fn level_delete_ssts(
    operand: &mut Level,
    delete_sst_ids_superset: &HashSet<HummockSstableId>,
) -> (r: bool)
    requires
        old(operand)@.can_lose(delete_sst_ids_superset@),
    ensures
        final(operand)@ == old(operand)@.without(delete_sst_ids_superset@),
        r == (final(operand)@.table_infos.len() != old(operand)@.table_infos.len()),
{
    let original_len: usize = operand.table_infos.len();
    let ghost keep_it = not_among(delete_sst_ids_superset@);
    let stays = |s: &SstableInfo| -> (b: bool)
        ensures
            b == keep_it(s@),
        { !delete_sst_ids_superset.contains(&s.sst_id) };
    retain(&mut operand.table_infos, stays, Ghost(keep_it));
    proof {
        lemma_sizes_not_negative(operand@.table_infos);
    }
    operand.total_file_size = total_size(&operand.table_infos);
    operand.uncompressed_file_size = total_raw_size(&operand.table_infos);
    original_len != operand.table_infos.len()
}

/// Adds the result of a compaction to a level.
pub fn level_insert_ssts(operand: &mut Level, insert_table_infos: Vec<SstableInfo>)
    requires
        old(operand)@.takes_compacted(views(insert_table_infos@)),
    ensures
        final(operand)@ == old(operand)@.with_compacted(views(insert_table_infos@)),
{
    let ghost ssts = views(insert_table_infos@);
    let ghost before = operand@;
    proof {
        lemma_sizes_not_negative(ssts);
    }
    let mut insert_table_infos = insert_table_infos;
    operand.total_file_size = operand.total_file_size + total_size(&insert_table_infos);
    operand.uncompressed_file_size = operand.uncompressed_file_size + total_raw_size(
        &insert_table_infos,
    );
    operand.table_infos.append(&mut insert_table_infos);
    assert(views(operand.table_infos@) =~= before.table_infos + ssts);
    sort(&mut operand.table_infos);
    if operand.level_type == LevelType::Overlapping {
        operand.level_type = LevelType::Nonoverlapping;
    }
}

/// Takes the ids of the SSTs out of a set.
fn remove_ids(set: &mut HashSet<u64>, ssts: &Vec<SstableInfo>)
    ensures
        forall|id: u64| #[trigger]
            final(set)@.contains(id) <==> old(set)@.contains(id) && !has_sst(views(ssts@), id),
{
    let ghost start = set@;
    let ghost all = views(ssts@);
    let mut i: usize = 0;
    while i < ssts.len()
        invariant
            i <= ssts.len(),
            all == views(ssts@),
            forall|id: u64| #[trigger]
                set@.contains(id) <==> start.contains(id) && !has_sst(all.take(i as int), id),
        decreases ssts.len() - i,
    {
        set.remove(&ssts[i].sst_id);
        proof {
            assert forall|id: u64| has_sst(all.take(i + 1), id) <==> (has_sst(
                all.take(i as int),
                id,
            ) || all[i as int].sst_id == id) by {
                lemma_has_sst_take(all, i as int, id);
            }
        }
        i = i + 1;
    }
    assert(all.take(i as int) =~= all);
}

proof fn lemma_has_sst_take(s: Seq<SstView>, i: int, id: u64)
    requires
        0 <= i < s.len(),
    ensures
        has_sst(s.take(i + 1), id) <==> (has_sst(s.take(i), id) || s[i].sst_id == id),
{
    let a = s.take(i + 1);
    let b = s.take(i);
    if has_sst(a, id) {
        let k = choose|k: int| 0 <= k < a.len() && (#[trigger] a[k]).sst_id == id;
        if k < i {
            assert(b[k].sst_id == id);
        }
    }
    if has_sst(b, id) {
        let k = choose|k: int| 0 <= k < b.len() && (#[trigger] b[k]).sst_id == id;
        assert(a[k].sst_id == id);
    }
    if s[i].sst_id == id {
        assert(a[i].sst_id == id);
    }
}

impl Levels {
    /// Whether every SST that is to be deleted is in one of the levels it is to be deleted from.
    pub fn check_deleted_sst_exist(
        &self,
        delete_sst_levels: &[u32],
        delete_sst_ids_set: HashSet<u64>,
    ) -> (r: bool)
        requires
            self@.has_levels(delete_sst_levels@.to_set()),
        ensures
            r == self@.has_all(delete_sst_levels@.to_set(), delete_sst_ids_set@),
    {
        let ghost ids = delete_sst_ids_set@;
        let ghost from = delete_sst_levels@;
        let mut left = delete_sst_ids_set;
        let mut i: usize = 0;
        while i < delete_sst_levels.len()
            invariant
                i <= delete_sst_levels.len(),
                from == delete_sst_levels@,
                self@.has_levels(from.to_set()),
                forall|id: u64| #[trigger]
                    left@.contains(id) <==> ids.contains(id) && forall|k: int|
                        0 <= k < i ==> !self@.level_has(#[trigger] from[k], id),
            decreases delete_sst_levels.len() - i,
        {
            let ghost prior = left@;
            assert(from.to_set().contains(from[i as int]));
            if delete_sst_levels[i] == 0 {
                let mut j: usize = 0;
                while j < self.l0.sub_levels.len()
                    invariant
                        j <= self.l0.sub_levels.len(),
                        forall|id: u64| #[trigger]
                            left@.contains(id) <==> prior.contains(id) && forall|k: int|
                                0 <= k < j ==> !has_sst(
                                    (#[trigger] self@.l0.sub_levels[k]).table_infos,
                                    id,
                                ),
                    decreases self.l0.sub_levels.len() - j,
                {
                    let ghost earlier = left@;
                    assert(self@.l0.sub_levels[j as int] == self.l0.sub_levels@[j as int]@);
                    remove_ids(&mut left, &self.l0.sub_levels[j].table_infos);
                    assert forall|id: u64| #[trigger]
                        left@.contains(id) <==> prior.contains(id) && forall|k: int|
                            0 <= k < j + 1 ==> !has_sst(
                                (#[trigger] self@.l0.sub_levels[k]).table_infos,
                                id,
                            ) by {
                        assert(left@.contains(id) <==> earlier.contains(id) && !has_sst(
                            self@.l0.sub_levels[j as int].table_infos,
                            id,
                        ));
                    }
                    j = j + 1;
                }
            } else {
                let idx: usize = delete_sst_levels[i] as usize - 1;
                assert(self@.levels[idx as int] == self.levels@[idx as int]@);
                remove_ids(&mut left, &self.levels[idx].table_infos);
            }
            assert forall|id: u64| #[trigger]
                left@.contains(id) <==> ids.contains(id) && forall|k: int|
                    0 <= k < i + 1 ==> !self@.level_has(#[trigger] from[k], id) by {
                assert(left@.contains(id) <==> prior.contains(id) && !self@.level_has(
                    from[i as int],
                    id,
                ));
            }
            i = i + 1;
        }
        proof {
            assert(left@.is_empty() <==> self@.has_all(from.to_set(), ids)) by {
                if left@.is_empty() {
                    assert forall|id: u64| #[trigger] ids.contains(id) implies exists|l: u32| #[trigger]
                        from.to_set().contains(l) && self@.level_has(l, id) by {
                        assert(!left@.contains(id));
                        let k = choose|k: int|
                            0 <= k < from.len() && self@.level_has(#[trigger] from[k], id);
                        assert(from.to_set().contains(from[k]));
                    }
                }
                if self@.has_all(from.to_set(), ids) {
                    assert forall|id: u64| !left@.contains(id) by {
                        if ids.contains(id) {
                            let l = choose|l: u32| #[trigger]
                                from.to_set().contains(l) && self@.level_has(l, id);
                            let k = choose|k: int| 0 <= k < from.len() && from[k] == l;
                            assert(self@.level_has(from[k], id));
                        }
                    }
                    assert(left@ =~= Set::empty());
                }
            }
        }
        left.is_empty()
    }
}

/// Whether a list of level numbers holds a number.
fn lists(level_ids: &Vec<u32>, level_idx: u64) -> (r: bool)
    ensures
        r == (level_idx <= u32::MAX && level_ids@.to_set().contains(level_idx as u32)),
{
    let mut i: usize = 0;
    while i < level_ids.len()
        invariant
            i <= level_ids.len(),
            forall|k: int| 0 <= k < i ==> level_ids@[k] != level_idx,
        decreases level_ids.len() - i,
    {
        if level_ids[i] as u64 == level_idx {
            assert(level_ids@.contains(level_idx as u32));
            return true;
        }
        i = i + 1;
    }
    false
}

/// The sum of the sizes of the levels.
pub fn total_level_size(levels: &Vec<Level>) -> (r: u64)
    requires
        total(views(levels@), level_size()) <= u64::MAX,
    ensures
        r == total(views(levels@), level_size()),
{
    let ghost all = views(levels@);
    let mut r: u64 = 0;
    let mut i: usize = 0;
    while i < levels.len()
        invariant
            i <= levels.len(),
            all == views(levels@),
            total(all, level_size()) <= u64::MAX,
            r == total(all.take(i as int), level_size()),
        decreases levels.len() - i,
    {
        proof {
            lemma_total_take(all, i as int, level_size());
            lemma_total_monotone(all, i + 1, level_size());
        }
        r = r + levels[i].total_file_size;
        i = i + 1;
    }
    assert(all.take(i as int) =~= all);
    r
}

/// The sum of the sizes of the levels before compression.
pub fn total_level_raw_size(levels: &Vec<Level>) -> (r: u64)
    requires
        total(views(levels@), level_raw_size()) <= u64::MAX,
    ensures
        r == total(views(levels@), level_raw_size()),
{
    let ghost all = views(levels@);
    let mut r: u64 = 0;
    let mut i: usize = 0;
    while i < levels.len()
        invariant
            i <= levels.len(),
            all == views(levels@),
            total(all, level_raw_size()) <= u64::MAX,
            r == total(all.take(i as int), level_raw_size()),
        decreases levels.len() - i,
    {
        proof {
            lemma_total_take(all, i as int, level_raw_size());
            lemma_total_monotone(all, i + 1, level_raw_size());
        }
        r = r + levels[i].uncompressed_file_size;
        i = i + 1;
    }
    assert(all.take(i as int) =~= all);
    r
}

/// A copy of a set of ids.
fn copy_ids(ids: &HashSet<u64>) -> (r: HashSet<u64>)
    ensures
        r@ == ids@,
{
    let list = elements_of(ids);
    let mut r: HashSet<u64> = HashSet::new();
    let mut i: usize = 0;
    assert(list@.take(0).to_set() =~= Set::empty());
    while i < list.len()
        invariant
            i <= list.len(),
            r@ == list@.take(i as int).to_set(),
        decreases list.len() - i,
    {
        r.insert(list[i]);
        proof {
            crate::group_deltas::lemma_take_to_set(list@, i as int);
        }
        i = i + 1;
    }
    assert(list@.take(i as int) =~= list@);
    r
}

/// Whether each SST is of one table.
fn all_of_one_table(ssts: &Vec<SstableInfo>) -> (r: bool)
    ensures
        r == forall|k: int|
            0 <= k < ssts@.len() ==> of_one_table(#[trigger] views(ssts@)[k]),
{
    let mut i: usize = 0;
    while i < ssts.len()
        invariant
            i <= ssts.len(),
            forall|k: int| 0 <= k < i ==> of_one_table(#[trigger] views(ssts@)[k]),
        decreases ssts.len() - i,
    {
        if ssts[i].table_ids.len() != 1 {
            assert(!of_one_table(views(ssts@)[i as int]));
            return false;
        }
        i = i + 1;
    }
    true
}

/// Whether each SST is of one table, and that table is a member.
fn all_of_one_member(ssts: &Vec<SstableInfo>, members: &BTreeSet<u32>) -> (r: bool)
    ensures
        r == forall|k: int|
            0 <= k < ssts@.len() ==> of_one_table(#[trigger] views(ssts@)[k]) && members@.contains(
                views(ssts@)[k].table_ids[0],
            ),
{
    let mut i: usize = 0;
    while i < ssts.len()
        invariant
            i <= ssts.len(),
            forall|k: int|
                0 <= k < i ==> of_one_table(#[trigger] views(ssts@)[k]) && members@.contains(
                    views(ssts@)[k].table_ids[0],
                ),
        decreases ssts.len() - i,
    {
        if ssts[i].table_ids.len() != 1 || !members.contains(&ssts[i].table_ids[0]) {
            assert(!of_one_table(views(ssts@)[i as int]) || !members@.contains(
                views(ssts@)[i as int].table_ids[0],
            ));
            return false;
        }
        i = i + 1;
    }
    true
}

/// Deletes the SSTs from every level of a list.
fn levels_delete_ssts(levels: &mut Vec<Level>, ids: &HashSet<u64>)
    requires
        forall|i: int|
            0 <= i < old(levels)@.len() ==> (#[trigger] views(old(levels)@)[i]).can_lose(ids@),
    ensures
        views(final(levels)@) == Seq::new(
            old(levels)@.len(),
            |i: int| views(old(levels)@)[i].without(ids@),
        ),
{
    let ghost start = views(levels@);
    let mut i: usize = 0;
    while i < levels.len()
        invariant
            i <= levels.len(),
            levels@.len() == start.len(),
            forall|k: int| 0 <= k < start.len() ==> (#[trigger] start[k]).can_lose(ids@),
            forall|k: int| i <= k < start.len() ==> #[trigger] levels@[k]@ == start[k],
            forall|k: int| 0 <= k < i ==> #[trigger] levels@[k]@ == start[k].without(ids@),
        decreases levels.len() - i,
    {
        assert(levels@[i as int]@ == start[i as int]);
        let ghost prior = levels@;
        level_delete_ssts(&mut levels[i], ids);
        assert forall|k: int| 0 <= k < start.len() && k != i implies #[trigger] levels@[k]
            == prior[k] by {}
        i = i + 1;
    }
    assert(views(levels@) =~= Seq::new(start.len(), |k: int| start[k].without(ids@)));
}

impl Levels {
    /// Deletes the SSTs from the levels given.
    fn delete_ssts(&mut self, level_ids: &Vec<u32>, ids: &HashSet<u64>)
        requires
            old(self)@.can_lose(level_ids@.to_set(), ids@),
        ensures
            final(self)@ == old(self)@.without(level_ids@.to_set(), ids@),
    {
        let ghost start = self@;
        let ghost from = level_ids@.to_set();
        if lists(level_ids, 0) {
            assert forall|i: int| 0 <= i < self.l0.sub_levels@.len() implies (#[trigger] views(
                self.l0.sub_levels@,
            )[i]).can_lose(ids@) by {
                assert(start.l0.sub_levels[i].can_lose(ids@));
            }
            levels_delete_ssts(&mut self.l0.sub_levels, ids);
        }
        let ghost after = self@.l0;
        let mut i: usize = 0;
        while i < self.levels.len()
            invariant
                i <= self.levels.len(),
                self.levels@.len() == start.levels.len(),
                from == level_ids@.to_set(),
                start.can_lose(from, ids@),
                self@.l0 == after,
                self@.group_id == start.group_id,
                self@.parent_group_id == start.parent_group_id,
                self@.member_table_ids == start.member_table_ids,
                forall|k: int|
                    i <= k < start.levels.len() ==> #[trigger] self.levels@[k]@ == start.levels[k],
                forall|k: int|
                    0 <= k < i ==> #[trigger] self.levels@[k]@ == (if marks(from, k) {
                        start.levels[k].without(ids@)
                    } else {
                        start.levels[k]
                    }),
            decreases self.levels.len() - i,
        {
            assert(self.levels@[i as int]@ == start.levels[i as int]);
            let ghost prior = self.levels@;
            if lists(level_ids, i as u64 + 1) {
                level_delete_ssts(&mut self.levels[i], ids);
            }
            assert forall|k: int| 0 <= k < start.levels.len() && k != i implies #[trigger]
                self.levels@[k] == prior[k] by {}
            i = i + 1;
        }
        assert(self@.levels =~= start.without(from, ids@).levels);
        assert(after.sub_levels =~= start.without(from, ids@).l0.sub_levels);
    }

    /// Adds the compacted SSTs to a sub-level of level 0.
    fn insert_into_sub_level(
        &mut self,
        sub_level_id: u64,
        ssts: Vec<SstableInfo>,
        partition_count: u32,
        members: &BTreeSet<u32>,
    )
        requires
            old(self)@.with_compacted_sub_level(
                sub_level_id,
                views(ssts@),
                partition_count,
                members@,
            ) is Some,
        ensures
            final(self)@ == old(self)@.with_compacted_sub_level(
                sub_level_id,
                views(ssts@),
                partition_count,
                members@,
            )->0,
    {
        let ghost start = self.l0.sub_levels@;
        let index: usize = sub_level_position(&self.l0.sub_levels, sub_level_id);
        let single = self.l0.sub_levels[index].table_infos.len() == 0 && members.len() == 1
            && all_of_one_member(&ssts, members);
        let level = &mut self.l0.sub_levels[index];
        if single {
            level.vnode_partition_count = partition_count;
        }
        level_insert_ssts(level, ssts);
        proof {
            lemma_views_update(start, index as int, *level);
        }
    }

    /// Adds the compacted SSTs to a level above 0.
    fn insert_into_level(
        &mut self,
        level_idx: u32,
        ssts: Vec<SstableInfo>,
        partition_count: u32,
        members: &BTreeSet<u32>,
    )
        requires
            old(self)@.with_compacted_level(
                level_idx,
                views(ssts@),
                partition_count,
                members@,
            ) is Some,
        ensures
            final(self)@ == old(self)@.with_compacted_level(
                level_idx,
                views(ssts@),
                partition_count,
                members@,
            )->0,
    {
        let ghost start = self.levels@;
        let idx: usize = level_idx as usize - 1;
        let level = &mut self.levels[idx];
        if level.table_infos.len() == 0 && all_of_one_table(&ssts) {
            level.vnode_partition_count = partition_count;
        } else if level.vnode_partition_count != 0 && partition_count == 0 && members.len() > 1 {
            level.vnode_partition_count = 0;
        }
        level_insert_ssts(level, ssts);
        proof {
            lemma_views_update(start, idx as int, *level);
        }
    }

    /// Drops the empty sub-levels and counts the sizes of level 0 anew.
    fn tidy(&mut self)
        requires
            old(self)@.tidied() is Some,
        ensures
            final(self)@ == old(self)@.tidied()->0,
    {
        let ghost keep_it = holds_ssts();
        let stays = |l: &Level| -> (b: bool)
            ensures
                b == keep_it(l@),
            { l.table_infos.len() > 0 };
        retain(&mut self.l0.sub_levels, stays, Ghost(keep_it));
        self.l0.total_file_size = total_level_size(&self.l0.sub_levels);
        self.l0.uncompressed_file_size = total_level_raw_size(&self.l0.sub_levels);
    }

    /// Makes the deletions and insertions of a compaction. One that deletes an SST that is not
    /// there has expired and changes nothing.
    pub fn apply_compact_ssts(
        &mut self,
        summary: GroupDeltasSummary,
        member_table_ids: &BTreeSet<u32>,
    )
        requires
            old(self)@.compacted(summary@, member_table_ids@) is Some,
        ensures
            final(self)@ == old(self)@.compacted(summary@, member_table_ids@)->0,
    {
        let ghost shown = summary@;
        let GroupDeltasSummary {
            delete_sst_levels,
            delete_sst_ids_set,
            insert_sst_level_id,
            insert_sub_level_id,
            insert_table_infos,
            new_vnode_partition_count,
            ..
        } = summary;
        let ids = copy_ids(&delete_sst_ids_set);
        if !self.check_deleted_sst_exist(delete_sst_levels.as_slice(), ids) {
            return ;
        }
        self.delete_ssts(&delete_sst_levels, &delete_sst_ids_set);
        if insert_table_infos.len() > 0 {
            if insert_sst_level_id == 0 {
                self.insert_into_sub_level(
                    insert_sub_level_id,
                    insert_table_infos,
                    new_vnode_partition_count,
                    member_table_ids,
                );
            } else {
                self.insert_into_level(
                    insert_sst_level_id,
                    insert_table_infos,
                    new_vnode_partition_count,
                    member_table_ids,
                );
            }
        }
        if lists(&delete_sst_levels, 0) {
            self.tidy();
        }
    }
}

impl LevelsView {
    /// Whether the sizes of every level are those of its SSTs.
    pub open spec fn counted(self) -> bool {
        &&& self.l0.counted()
        &&& forall|i: int| 0 <= i < self.levels.len() ==> (#[trigger] self.levels[i]).counted()
    }
}

proof fn lemma_compacted_counted(level: LevelView, ssts: Seq<SstView>)
    requires
        level.counted(),
        level.takes_compacted(ssts),
    ensures
        level.with_compacted(ssts).counted(),
{
    lemma_sizes_not_negative(ssts);
    lemma_total_add(level.table_infos, ssts, size());
    lemma_total_add(level.table_infos, ssts, raw_size());
    lemma_total_sorted(level.table_infos + ssts, SstableInfo::before(), size());
    lemma_total_sorted(level.table_infos + ssts, SstableInfo::before(), raw_size());
}

proof fn lemma_without_counted(levels: LevelsView, level_ids: Set<u32>, ids: Set<u64>)
    requires
        levels.can_lose(level_ids, ids),
        levels.counted(),
    ensures
        forall|i: int|
            0 <= i < levels.levels.len() ==> (#[trigger] levels.without(
                level_ids,
                ids,
            ).levels[i]).counted(),
        forall|i: int|
            0 <= i < levels.l0.sub_levels.len() ==> (#[trigger] levels.without(
                level_ids,
                ids,
            ).l0.sub_levels[i]).counted(),
{
    let w = levels.without(level_ids, ids);
    assert forall|i: int| 0 <= i < levels.levels.len() implies (
    #[trigger] w.levels[i]).counted() by {
        assert(levels.levels[i].counted());
        lemma_sizes_not_negative(keep(levels.levels[i].table_infos, not_among(ids)));
    }
    assert forall|i: int| 0 <= i < levels.l0.sub_levels.len() implies (
    #[trigger] w.l0.sub_levels[i]).counted() by {
        assert(levels.l0.sub_levels[i].counted());
        lemma_sizes_not_negative(keep(levels.l0.sub_levels[i].table_infos, not_among(ids)));
    }
}

/// A compaction keeps the sizes of every level those of its SSTs, if it does not add SSTs to
/// level 0 without deleting any there.
pub proof fn compaction_keeps_counts(levels: LevelsView, summary: SummaryView, members: Set<u32>)
    requires
        levels.counted(),
        levels.compacted(summary, members) is Some,
        summary.insert_table_infos.len() > 0 && summary.insert_sst_level_id == 0
            ==> summary.delete_sst_levels.contains(0),
    ensures
        levels.compacted(summary, members)->0.counted(),
{
    let from = summary.delete_sst_levels;
    let ids = summary.delete_sst_ids;
    let ssts = summary.insert_table_infos;
    if levels.has_all(from, ids) {
        let w = levels.without(from, ids);
        lemma_without_counted(levels, from, ids);
        let g = w.with_insertions(summary, members)->0;
        assert(forall|i: int| 0 <= i < g.levels.len() ==> (#[trigger] g.levels[i]).counted()) by {
            if ssts.len() > 0 && summary.insert_sst_level_id != 0 {
                let at = summary.insert_sst_level_id - 1;
                lemma_level_compacted_counted(
                    w,
                    summary.insert_sst_level_id,
                    ssts,
                    summary.new_vnode_partition_count,
                    members,
                );
                assert forall|i: int| 0 <= i < g.levels.len() implies (
                #[trigger] g.levels[i]).counted() by {
                    if i != at {
                        assert(g.levels[i] == w.levels[i]);
                    }
                }
            }
        }
        assert(forall|i: int|
            0 <= i < g.l0.sub_levels.len() ==> (#[trigger] g.l0.sub_levels[i]).counted()) by {
            if ssts.len() > 0 && summary.insert_sst_level_id == 0 {
                let at = first_at_least(w.l0.sub_levels, summary.insert_sub_level_id);
                lemma_first_index(w.l0.sub_levels, id_at_least(summary.insert_sub_level_id));
                lemma_sub_level_compacted_counted(
                    w,
                    summary.insert_sub_level_id,
                    ssts,
                    summary.new_vnode_partition_count,
                    members,
                );
                assert forall|i: int| 0 <= i < g.l0.sub_levels.len() implies (
                #[trigger] g.l0.sub_levels[i]).counted() by {
                    if i != at {
                        assert(g.l0.sub_levels[i] == w.l0.sub_levels[i]);
                    }
                }
            }
        }
        if from.contains(0) {
            let left = keep(g.l0.sub_levels, holds_ssts());
            let r = g.tidied()->0;
            lemma_keep_contains(g.l0.sub_levels, holds_ssts());
            assert forall|i: int| 0 <= i < left.len() implies (#[trigger] left[i]).counted() by {
                assert(left.contains(left[i]));
                let k = choose|k: int|
                    0 <= k < g.l0.sub_levels.len() && g.l0.sub_levels[k] == left[i];
                assert(g.l0.sub_levels[k].counted());
            }
            lemma_total_monotone(left, left.len() as int, level_size());
            lemma_total_monotone(left, left.len() as int, level_raw_size());
            assert(left.take(left.len() as int) =~= left);
            assert(r.l0.counted());
        } else {
            assert(g.l0 =~= levels.l0);
        }
    }
}

proof fn lemma_level_compacted_counted(
    w: LevelsView,
    level_idx: u32,
    ssts: Seq<SstView>,
    partition_count: u32,
    members: Set<u32>,
)
    requires
        w.with_compacted_level(level_idx, ssts, partition_count, members) is Some,
        w.levels[level_idx - 1].counted(),
    ensures
        w.with_compacted_level(level_idx, ssts, partition_count, members)->0.levels[level_idx
            - 1].counted(),
{
    let old_level = w.levels[level_idx - 1];
    lemma_compacted_counted(LevelView { vnode_partition_count: partition_count, ..old_level }, ssts);
    lemma_compacted_counted(LevelView { vnode_partition_count: 0, ..old_level }, ssts);
    lemma_compacted_counted(old_level, ssts);
}

proof fn lemma_sub_level_compacted_counted(
    w: LevelsView,
    sub_level_id: u64,
    ssts: Seq<SstView>,
    partition_count: u32,
    members: Set<u32>,
)
    requires
        w.with_compacted_sub_level(sub_level_id, ssts, partition_count, members) is Some,
        w.l0.sub_levels[first_at_least(w.l0.sub_levels, sub_level_id)].counted(),
    ensures
        w.with_compacted_sub_level(
            sub_level_id,
            ssts,
            partition_count,
            members,
        )->0.l0.sub_levels[first_at_least(w.l0.sub_levels, sub_level_id)].counted(),
{
    let at = first_at_least(w.l0.sub_levels, sub_level_id);
    lemma_first_index(w.l0.sub_levels, id_at_least(sub_level_id));
    let old_level = w.l0.sub_levels[at];
    lemma_compacted_counted(LevelView { vnode_partition_count: partition_count, ..old_level }, ssts);
    lemma_compacted_counted(old_level, ssts);
}

/// A compaction that deletes an SST that none of its levels holds changes nothing.
pub proof fn expired_compaction_changes_nothing(
    levels: LevelsView,
    summary: SummaryView,
    members: Set<u32>,
    sst_id: u64,
)
    requires
        levels.has_levels(summary.delete_sst_levels),
        summary.delete_sst_ids.contains(sst_id),
        forall|l: u32| #[trigger]
            summary.delete_sst_levels.contains(l) ==> !levels.level_has(l, sst_id),
    ensures
        levels.compacted(summary, members) == Some(levels),
{
}

proof fn lemma_without_lacks(level: LevelView, ids: Set<u64>, sst_id: u64)
    requires
        ids.contains(sst_id),
    ensures
        !has_sst(level.without(ids).table_infos, sst_id),
{
    lemma_keep_contains(level.table_infos, not_among(ids));
    let left = level.without(ids).table_infos;
    if has_sst(left, sst_id) {
        let i = choose|i: int| 0 <= i < left.len() && (#[trigger] left[i]).sst_id == sst_id;
        assert(left.contains(left[i]));
    }
}

proof fn lemma_compacted_lacks(level: LevelView, ssts: Seq<SstView>, sst_id: u64)
    requires
        !has_sst(level.table_infos, sst_id),
        !has_sst(ssts, sst_id),
    ensures
        !has_sst(level.with_compacted(ssts).table_infos, sst_id),
{
    let all = level.table_infos + ssts;
    let sorted = by_key_range(all);
    if has_sst(sorted, sst_id) {
        let i = choose|i: int| 0 <= i < sorted.len() && (#[trigger] sorted[i]).sst_id == sst_id;
        assert(sorted.contains(sorted[i]));
        crate::seqs::lemma_sort_contains(all, SstableInfo::before(), sorted[i]);
        let k = choose|k: int| 0 <= k < all.len() && all[k] == sorted[i];
        if k < level.table_infos.len() {
            assert(level.table_infos[k].sst_id == sst_id);
        } else {
            assert(ssts[k - level.table_infos.len()].sst_id == sst_id);
        }
    }
}

/// After a compaction that has not expired, the SSTs that it deletes are gone from the levels that
/// it deletes from, unless it adds them again.
pub proof fn compacted_ssts_are_gone(
    levels: LevelsView,
    summary: SummaryView,
    members: Set<u32>,
    level_idx: u32,
    sst_id: u64,
)
    requires
        levels.compacted(summary, members) is Some,
        levels.has_all(summary.delete_sst_levels, summary.delete_sst_ids),
        summary.delete_sst_levels.contains(level_idx),
        summary.delete_sst_ids.contains(sst_id),
        !has_sst(summary.insert_table_infos, sst_id),
    ensures
        !levels.compacted(summary, members)->0.level_has(level_idx, sst_id),
{
    let from = summary.delete_sst_levels;
    let ids = summary.delete_sst_ids;
    let ssts = summary.insert_table_infos;
    let count = summary.new_vnode_partition_count;
    let w = levels.without(from, ids);
    let g = w.with_insertions(summary, members)->0;
    let r = levels.compacted(summary, members)->0;
    if level_idx == 0 {
        assert forall|i: int| 0 <= i < w.l0.sub_levels.len() implies !has_sst(
            (#[trigger] w.l0.sub_levels[i]).table_infos,
            sst_id,
        ) by {
            lemma_without_lacks(levels.l0.sub_levels[i], ids, sst_id);
        }
        assert forall|i: int| 0 <= i < g.l0.sub_levels.len() implies !has_sst(
            (#[trigger] g.l0.sub_levels[i]).table_infos,
            sst_id,
        ) by {
            if ssts.len() > 0 && summary.insert_sst_level_id == 0 {
                let at = first_at_least(w.l0.sub_levels, summary.insert_sub_level_id);
                lemma_first_index(w.l0.sub_levels, id_at_least(summary.insert_sub_level_id));
                let l = w.l0.sub_levels[at];
                lemma_compacted_lacks(l, ssts, sst_id);
                lemma_compacted_lacks(
                    LevelView { vnode_partition_count: count, ..l },
                    ssts,
                    sst_id,
                );
                if i != at {
                    assert(g.l0.sub_levels[i] == w.l0.sub_levels[i]);
                }
            } else {
                assert(g.l0.sub_levels[i] == w.l0.sub_levels[i]);
            }
        }
        lemma_keep_contains(g.l0.sub_levels, holds_ssts());
        assert forall|i: int| 0 <= i < r.l0.sub_levels.len() implies !has_sst(
            (#[trigger] r.l0.sub_levels[i]).table_infos,
            sst_id,
        ) by {
            assert(r.l0.sub_levels.contains(r.l0.sub_levels[i]));
            let k = choose|k: int|
                0 <= k < g.l0.sub_levels.len() && g.l0.sub_levels[k] == r.l0.sub_levels[i];
            assert(!has_sst(g.l0.sub_levels[k].table_infos, sst_id));
        }
    } else {
        let i = level_idx - 1;
        assert(marks(from, i));
        lemma_without_lacks(levels.levels[i], ids, sst_id);
        let l = w.levels[i];
        lemma_compacted_lacks(l, ssts, sst_id);
        lemma_compacted_lacks(LevelView { vnode_partition_count: count, ..l }, ssts, sst_id);
        lemma_compacted_lacks(LevelView { vnode_partition_count: 0, ..l }, ssts, sst_id);
        assert(r.levels == g.levels);
    }
}

/// A compaction that deletes from level 0, and has not expired, leaves no empty sub-level there.
pub proof fn compaction_purges_empty_sub_levels(
    levels: LevelsView,
    summary: SummaryView,
    members: Set<u32>,
    i: int,
)
    requires
        levels.compacted(summary, members) is Some,
        levels.has_all(summary.delete_sst_levels, summary.delete_sst_ids),
        summary.delete_sst_levels.contains(0),
        0 <= i < levels.compacted(summary, members)->0.l0.sub_levels.len(),
    ensures
        levels.compacted(summary, members)->0.l0.sub_levels[i].table_infos.len() > 0,
{
    let w = levels.without(summary.delete_sst_levels, summary.delete_sst_ids);
    let g = w.with_insertions(summary, members)->0;
    let left = keep(g.l0.sub_levels, holds_ssts());
    lemma_keep_contains(g.l0.sub_levels, holds_ssts());
    assert(left.contains(left[i]));
}

/// A compaction keeps the ids of the sub-levels in order.
pub proof fn compaction_keeps_sub_level_order(
    levels: LevelsView,
    summary: SummaryView,
    members: Set<u32>,
)
    requires
        levels.l0.ids_increase(),
        levels.compacted(summary, members) is Some,
    ensures
        levels.compacted(summary, members)->0.l0.ids_increase(),
{
    let from = summary.delete_sst_levels;
    let ids = summary.delete_sst_ids;
    if levels.has_all(from, ids) {
        let w = levels.without(from, ids);
        let g = w.with_insertions(summary, members)->0;
        lemma_first_index(w.l0.sub_levels, id_at_least(summary.insert_sub_level_id));
        assert forall|i: int| 0 <= i < g.l0.sub_levels.len() implies (
        #[trigger] g.l0.sub_levels[i]).sub_level_id == levels.l0.sub_levels[i].sub_level_id by {
            assert(w.l0.sub_levels[i].sub_level_id == levels.l0.sub_levels[i].sub_level_id);
        }
        let related = |a: LevelView, b: LevelView| a.sub_level_id < b.sub_level_id;
        assert forall|i: int, j: int| 0 <= i < j < g.l0.sub_levels.len() implies related(
            #[trigger] g.l0.sub_levels[i],
            #[trigger] g.l0.sub_levels[j],
        ) by {
            assert(levels.l0.sub_levels[i].sub_level_id < levels.l0.sub_levels[j].sub_level_id);
        }
        if from.contains(0) {
            crate::seqs::lemma_keep_pairs(g.l0.sub_levels, holds_ssts(), related);
            let r = levels.compacted(summary, members)->0;
            assert forall|i: int, j: int| 0 <= i < j < r.l0.sub_levels.len() implies (
            #[trigger] r.l0.sub_levels[i]).sub_level_id < (
            #[trigger] r.l0.sub_levels[j]).sub_level_id by {
                assert(related(r.l0.sub_levels[i], r.l0.sub_levels[j]));
            }
        }
    }
}

} // verus!
