//! How many SST ids a split of a compaction group needs.
use crate::buf::bytes_clone;
use crate::level::{CompactionGroupId, Level, LevelType};
use crate::groups::list_in_place;
use crate::split::{holds_member, SstSplitType};
use crate::version::{HummockVersion, StateTableId};
use bytes::Bytes;
use std::collections::HashSet;
use vstd::prelude::*;

#[allow(unused_imports)]
use crate::buf::contents;
#[allow(unused_imports)]
use crate::level::{LevelView, LevelsView};
#[allow(unused_imports)]
use crate::seqs::{
    keep, lemma_first_index, lemma_keep_take, lemma_total_monotone, lemma_total_take, total, views,
};
#[allow(unused_imports)]
use crate::split::{split_level_at, split_pos, split_side, starts_at_or_after, touches};
#[allow(unused_imports)]
use crate::sstable_info::SstView;

verus! {

/// Whether an SST holds a table of the members.
pub open spec fn touching(members: Set<u32>) -> spec_fn(SstView) -> bool {
    |s: SstView| touches(s, members)
}

/// The number of SSTs of a group that a move of the member tables splits.
pub open spec fn touched_count(levels: LevelsView, members: Set<u32>) -> int {
    keep(levels.ssts_in_place(), touching(members)).len() as int
}

/// The number of ids that are set aside for a split of a level at a key: two for each SST of an
/// overlapping level, and two for the SST of another level that holds the key.
pub open spec fn ids_for_level(split_key: Seq<u8>) -> spec_fn(LevelView) -> int {
    |l: LevelView|
        if l.table_infos.len() == 0 {
            0int
        } else if l.level_type == LevelType::Overlapping {
            l.table_infos.len() as int * 2
        } else if split_side(
            l.table_infos[split_pos(l.table_infos, split_key)].key_range,
            split_key,
        ) is Both {
            2int
        } else {
            0int
        }
}

/// The number of ids that are set aside for a split of a level above 0 at a key: two where an SST
/// of it holds the key.
pub open spec fn ids_for_upper_level(split_key: Seq<u8>) -> spec_fn(LevelView) -> int {
    |l: LevelView|
        if l.table_infos.len() > 0 && split_side(
            l.table_infos[split_pos(l.table_infos, split_key)].key_range,
            split_key,
        ) is Both {
            2int
        } else {
            0int
        }
}

impl LevelsView {
    /// The number of ids that are set aside for a split of the group at a key.
    pub open spec fn ids_for_split(self, split_key: Seq<u8>) -> int {
        total(self.l0.sub_levels, ids_for_level(split_key)) + total(
            self.levels,
            ids_for_upper_level(split_key),
        )
    }

    /// Whether each sub-level that lets no SSTs overlap holds one.
    pub open spec fn sub_levels_filled(self) -> bool {
        forall|i: int|
            0 <= i < self.l0.sub_levels.len() ==> {
                let l = #[trigger] self.l0.sub_levels[i];
                l.level_type == LevelType::Overlapping || l.table_infos.len() > 0
            }
    }
}

/// Whether the SST of a level at the place of the split key holds the key.
fn key_inside(level: &Level, split_key: &Bytes) -> (r: bool)
    requires
        level@.table_infos.len() > 0,
    ensures
        r == (split_side(
            level@.table_infos[split_pos(level@.table_infos, contents(*split_key))].key_range,
            contents(*split_key),
        ) is Both),
{
    let pos: usize = HummockVersion::get_split_pos(&level.table_infos, bytes_clone(split_key));
    proof {
        lemma_first_index(level@.table_infos, starts_at_or_after(contents(*split_key)));
        assert(level@.table_infos[pos as int] == level.table_infos@[pos as int]@);
    }
    match HummockVersion::need_to_split(&level.table_infos[pos], bytes_clone(split_key)) {
        SstSplitType::Both => true,
        _ => false,
    }
}

impl HummockVersion {
    /// The number of ids that a move of the member tables out of a group needs: two for each SST
    /// that holds one of them.
    pub fn count_new_ssts_in_group_split(
        &self,
        parent_group_id: CompactionGroupId,
        member_table_ids: HashSet<StateTableId>,
    ) -> (r: u64)
        requires
            self@.levels.dom().contains(parent_group_id) ==> 2 * touched_count(
                self@.levels[parent_group_id],
                member_table_ids@,
            ) <= u64::MAX,
        ensures
            r == (if self@.levels.dom().contains(parent_group_id) {
                2 * touched_count(self@.levels[parent_group_id], member_table_ids@)
            } else {
                0
            }),
    {
        match self.levels.get(&parent_group_id) {
            None => 0,
            Some(levels) => {
                let ssts = list_in_place(levels);
                let ghost all = views(ssts@);
                let ghost hit = touching(member_table_ids@);
                let mut r: u64 = 0;
                let mut i: usize = 0;
                assert(keep(all.take(0), hit).len() == 0);
                while i < ssts.len()
                    invariant
                        i <= ssts.len(),
                        all == views(ssts@),
                        hit == touching(member_table_ids@),
                        2 * keep(all, hit).len() <= u64::MAX,
                        r == 2 * keep(all.take(i as int), hit).len(),
                    decreases ssts.len() - i,
                {
                    proof {
                        lemma_keep_take(all, i as int, hit);
                        lemma_keep_len(all, i + 1, hit);
                    }
                    if holds_member(ssts[i], &member_table_ids) {
                        r = r + 2;
                    }
                    i = i + 1;
                }
                assert(all.take(i as int) =~= all);
                r
            },
        }
    }

    /// The number of ids that are set aside for a split of a group at a key.
    pub fn count_new_ssts_in_group_split_v2(
        &self,
        parent_group_id: CompactionGroupId,
        split_key: Bytes,
    ) -> (r: u64)
        requires
            self@.levels.dom().contains(parent_group_id) ==> {
                &&& self@.levels[parent_group_id].sub_levels_filled()
                &&& self@.levels[parent_group_id].ids_for_split(contents(split_key)) <= usize::MAX
            },
        ensures
            r == (if self@.levels.dom().contains(parent_group_id) {
                self@.levels[parent_group_id].ids_for_split(contents(split_key))
            } else {
                0
            }),
    {
        match self.levels.get(&parent_group_id) {
            None => 0,
            Some(levels) => {
                let ghost key = contents(split_key);
                let ghost subs = levels@.l0.sub_levels;
                let ghost upper = levels@.levels;
                let ghost f = ids_for_level(key);
                let ghost h = ids_for_upper_level(key);
                let mut split_count: usize = 0;
                let mut i: usize = 0;
                proof {
                    lemma_total_monotone(upper, 0, h);
                    assert(total(upper.take(0), h) == 0);
                }
                while i < levels.l0.sub_levels.len()
                    invariant
                        i <= levels.l0.sub_levels.len(),
                        key == contents(split_key),
                        subs == levels@.l0.sub_levels,
                        f == ids_for_level(key),
                        levels@.sub_levels_filled(),
                        total(subs, f) <= usize::MAX,
                        split_count == total(subs.take(i as int), f),
                    decreases levels.l0.sub_levels.len() - i,
                {
                    let sub_level = &levels.l0.sub_levels[i];
                    proof {
                        assert(subs[i as int] == sub_level@);
                        lemma_total_take(subs, i as int, f);
                        lemma_total_monotone(subs, i + 1, f);
                        lemma_total_monotone(subs, i as int, f);
                    }
                    if sub_level.level_type == LevelType::Overlapping {
                        split_count = split_count + sub_level.table_infos.len() * 2;
                    } else if key_inside(sub_level, &split_key) {
                        split_count = split_count + 2;
                    }
                    i = i + 1;
                }
                assert(subs.take(i as int) =~= subs);
                let ghost first = split_count;
                let mut j: usize = 0;
                while j < levels.levels.len()
                    invariant
                        j <= levels.levels.len(),
                        key == contents(split_key),
                        upper == levels@.levels,
                        h == ids_for_upper_level(key),
                        first + total(upper, h) <= usize::MAX,
                        split_count == first + total(upper.take(j as int), h),
                    decreases levels.levels.len() - j,
                {
                    let level = &levels.levels[j];
                    proof {
                        assert(upper[j as int] == level@);
                        lemma_total_take(upper, j as int, h);
                        lemma_total_monotone(upper, j + 1, h);
                    }
                    if level.table_infos.len() > 0 {
                        if key_inside(level, &split_key) {
                            split_count = split_count + 2;
                        }
                    }
                    j = j + 1;
                }
                assert(upper.take(j as int) =~= upper);
                split_count as u64
            },
        }
    }
}

/// Of the first elements no more are kept than of all.
pub proof fn lemma_keep_len<A>(s: Seq<A>, i: int, keep_it: spec_fn(A) -> bool)
    requires
        0 <= i <= s.len(),
    ensures
        keep(s.take(i), keep_it).len() <= keep(s, keep_it).len(),
    decreases s.len() - i,
{
    if i < s.len() {
        lemma_keep_take(s, i, keep_it);
        lemma_keep_len(s, i + 1, keep_it);
    } else {
        assert(s.take(i) =~= s);
    }
}

/// The next free SST id after levels were split at a key, one after the other. There is none where
/// one of them cannot be split.
pub open spec fn id_after_splits(levels: Seq<LevelView>, new_sst_id: u64, split_key: Seq<u8>) -> Option<
    u64,
>
    decreases levels.len(),
{
    if levels.len() == 0 {
        Some(new_sst_id)
    } else {
        match id_after_splits(levels.drop_last(), new_sst_id, split_key) {
            None => None,
            Some(id) => match split_level_at(levels.last(), id, split_key) {
                None => None,
                Some(split) => Some(split.next_sst_id),
            },
        }
    }
}

/// A split of a level moves the next free id on by half of the ids that are set aside for it.
proof fn lemma_level_uses_half(level: LevelView, new_sst_id: u64, split_key: Seq<u8>)
    requires
        split_level_at(level, new_sst_id, split_key) is Some,
    ensures
        2 * (split_level_at(level, new_sst_id, split_key)->0.next_sst_id - new_sst_id)
            == ids_for_level(split_key)(level),
{
}

proof fn lemma_levels_use_half(
    sub_levels: Seq<LevelView>,
    levels: Seq<LevelView>,
    new_sst_id: u64,
    split_key: Seq<u8>,
)
    requires
        forall|i: int|
            0 <= i < levels.len() ==> (#[trigger] levels[i]).level_type != LevelType::Overlapping,
        id_after_splits(sub_levels + levels, new_sst_id, split_key) is Some,
    ensures
        2 * (id_after_splits(sub_levels + levels, new_sst_id, split_key)->0 - new_sst_id) == total(
            sub_levels,
            ids_for_level(split_key),
        ) + total(levels, ids_for_upper_level(split_key)),
    decreases sub_levels.len() + levels.len(),
{
    let all = sub_levels + levels;
    if levels.len() > 0 {
        let t = levels.drop_last();
        assert forall|i: int| 0 <= i < t.len() implies (#[trigger] t[i]).level_type
            != LevelType::Overlapping by {
            assert(levels[i] == t[i]);
        }
        assert(all.drop_last() =~= sub_levels + t);
        lemma_levels_use_half(sub_levels, t, new_sst_id, split_key);
        let id = id_after_splits(all.drop_last(), new_sst_id, split_key)->0;
        lemma_level_uses_half(all.last(), id, split_key);
        assert(levels[levels.len() - 1].level_type != LevelType::Overlapping);
    } else if sub_levels.len() > 0 {
        let t = sub_levels.drop_last();
        assert(all =~= sub_levels);
        assert(all.drop_last() =~= t + levels);
        lemma_levels_use_half(t, levels, new_sst_id, split_key);
        let id = id_after_splits(all.drop_last(), new_sst_id, split_key)->0;
        lemma_level_uses_half(all.last(), id, split_key);
    }
}

/// Splitting each sub-level and then each level above 0 of a group at a key, one after the other,
/// moves the next free SST id on by half of the ids that are set aside for a split of the group,
/// where no level above 0 lets SSTs overlap.
pub proof fn splits_of_levels_use_half_the_ids(
    levels: LevelsView,
    new_sst_id: u64,
    split_key: Seq<u8>,
)
    requires
        forall|i: int|
            0 <= i < levels.levels.len() ==> (#[trigger] levels.levels[i]).level_type
                != LevelType::Overlapping,
        id_after_splits(levels.in_place_order(), new_sst_id, split_key) is Some,
    ensures
        2 * (id_after_splits(levels.in_place_order(), new_sst_id, split_key)->0 - new_sst_id)
            == levels.ids_for_split(split_key),
{
    lemma_levels_use_half(levels.l0.sub_levels, levels.levels, new_sst_id, split_key);
}

} // verus!
