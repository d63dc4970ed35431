//! Merging two compaction groups.
use crate::level::{CompactionGroupId, Level, Levels, OverlappingLevel};
use crate::seqs::{sort, Sortable};
use crate::sstable_info::{clone_ssts, total_raw_size, total_size, SstableInfo};
use crate::sub_level::{add_ssts_to_sub_level, insert_new_sub_level};
use crate::version::HummockVersion;
use vstd::prelude::*;

#[allow(unused_imports)]
use crate::level::{level_raw_size, level_size, L0View, LevelView, LevelsView};
#[allow(unused_imports)]
use crate::seqs::{
    first_index, lemma_first_index, lemma_is_first_index, lemma_total_add, lemma_total_sorted,
    map_views, sort_leaves_ordered, sort_seq, views,
};
#[allow(unused_imports)]
use crate::split::has_object;
#[allow(unused_imports)]
use crate::sstable_info::{concatable, raw_size, size, SstView};
#[allow(unused_imports)]
use crate::sub_level::{
    adding_ssts_keeps_counts, appended_sub_level_keeps_order, by_key_range,
    lemma_sizes_not_negative, new_sub_level_keeps_counts,
};
#[allow(unused_imports)]
use crate::version::VersionView;

verus! {

/// Whether a sub-level has the id.
pub open spec fn id_is(sub_level_id: u64) -> spec_fn(LevelView) -> bool {
    |l: LevelView| l.sub_level_id == sub_level_id
}

impl L0View {
    /// Level 0 with the SSTs of a sub-level of another group: added to the sub-level of the same
    /// id, or in a new sub-level behind all others where there is none.
    pub open spec fn with_merged(self, other: LevelView) -> Option<L0View> {
        let i = first_index(self.sub_levels, id_is(other.sub_level_id));
        if i < self.sub_levels.len() {
            self.with_ssts(i, other.table_infos)
        } else {
            self.with_sub_level(other.sub_level_id, other.level_type, other.table_infos, None)
        }
    }

    /// Level 0 with the SSTs of all sub-levels of another group, one after the other.
    pub open spec fn with_all_merged(self, others: Seq<LevelView>) -> Option<L0View>
        decreases others.len(),
    {
        if others.len() == 0 {
            Some(self)
        } else {
            match self.with_all_merged(others.drop_last()) {
                Some(l0) => l0.with_merged(others.last()),
                None => None,
            }
        }
    }

    /// Level 0 with its sub-levels in the order of their ids.
    pub open spec fn sorted(self) -> L0View {
        L0View { sub_levels: sort_seq(self.sub_levels, Level::before()), ..self }
    }
}

/// Where all sub-levels can be merged in, the first of them can.
pub proof fn lemma_merged_prefix(l0: L0View, others: Seq<LevelView>, i: int)
    requires
        0 <= i <= others.len(),
        l0.with_all_merged(others) is Some,
    ensures
        l0.with_all_merged(others.take(i)) is Some,
    decreases others.len() - i,
{
    if i < others.len() {
        lemma_merged_prefix(l0, others, i + 1);
        assert(others.take(i + 1).drop_last() =~= others.take(i));
    } else {
        assert(others.take(i) =~= others);
    }
}

impl LevelView {
    /// The level with the SSTs of another group's level added, in the order of their key ranges.
    pub open spec fn with_merged(self, ssts: Seq<SstView>) -> LevelView {
        if ssts.len() == 0 {
            self
        } else {
            self.grown(ssts, by_key_range(self.table_infos + ssts))
        }
    }

    /// Whether the SSTs of another group's level can be added: their sizes fit, and no SSTs
    /// overlap.
    pub open spec fn takes_merged(self, ssts: Seq<SstView>) -> bool {
        ssts.len() > 0 ==> self.has_room_for(ssts) && concatable(
            by_key_range(self.table_infos + ssts),
        )
    }

    /// The level with its SSTs gone; its sizes stay as they are.
    pub open spec fn emptied(self) -> LevelView {
        LevelView { table_infos: Seq::empty(), ..self }
    }
}

/// The SSTs that a group has at a place above level 0; none where the group has no such level.
pub open spec fn ssts_at(levels: Seq<LevelView>, i: int) -> Seq<SstView> {
    if 0 <= i < levels.len() {
        levels[i].table_infos
    } else {
        Seq::empty()
    }
}

impl LevelsView {
    /// Whether the levels above 0 of another group can be merged in.
    pub open spec fn takes_levels(self, others: Seq<LevelView>) -> bool {
        forall|i: int|
            0 <= i < others.len() ==> {
                &&& (#[trigger] others[i]).table_infos.len() > 0 ==> i < self.levels.len()
                &&& i < self.levels.len() ==> self.levels[i].takes_merged(others[i].table_infos)
            }
    }

    /// The levels with those of another group merged in.
    pub open spec fn with_merged(self, right: LevelsView) -> Option<LevelsView> {
        match self.l0.with_all_merged(right.l0.sub_levels) {
            None => None,
            Some(l0) => if self.takes_levels(right.levels) {
                Some(
                    LevelsView {
                        l0: l0.sorted(),
                        levels: Seq::new(
                            self.levels.len(),
                            |i: int| self.levels[i].with_merged(ssts_at(right.levels, i)),
                        ),
                        ..self
                    },
                )
            } else {
                None
            },
        }
    }

    /// The levels after they were merged into another group: those above 0 hold no SSTs.
    pub open spec fn merged_away(self) -> LevelsView {
        LevelsView {
            levels: Seq::new(self.levels.len(), |i: int| self.levels[i].emptied()),
            ..self
        }
    }
}

impl VersionView {
    /// The version with one group merged into another. There is none where one of the groups is
    /// not there, or they are the same.
    pub open spec fn with_merged_groups(
        self,
        left_group_id: CompactionGroupId,
        right_group_id: CompactionGroupId,
    ) -> Option<VersionView> {
        if left_group_id == right_group_id || !self.levels.dom().contains(left_group_id)
            || !self.levels.dom().contains(right_group_id) {
            None
        } else {
            let right = self.levels[right_group_id];
            match self.levels[left_group_id].with_merged(right) {
                None => None,
                Some(left) => Some(
                    VersionView {
                        levels: self.levels.insert(left_group_id, left).insert(
                            right_group_id,
                            right.merged_away(),
                        ),
                        ..self
                    },
                ),
            }
        }
    }
}

/// Merges a sub-level of another group in.
fn merge_sub_level(l0: &mut OverlappingLevel, other: &Level)
    requires
        old(l0)@.with_merged(other@) is Some,
    ensures
        final(l0)@ == old(l0)@.with_merged(other@)->0,
{
    let sub_level_id: u64 = other.sub_level_id;
    let mut i: usize = 0;
    while i < l0.sub_levels.len() && l0.sub_levels[i].sub_level_id != sub_level_id
        invariant
            i <= l0.sub_levels.len(),
            forall|k: int|
                0 <= k < i ==> (#[trigger] l0@.sub_levels[k]).sub_level_id != sub_level_id,
        decreases l0.sub_levels.len() - i,
    {
        assert(l0@.sub_levels[i as int] == l0.sub_levels@[i as int]@);
        i = i + 1;
    }
    proof {
        lemma_is_first_index(l0@.sub_levels, id_is(sub_level_id), i as int);
    }
    let ssts = clone_ssts(&other.table_infos);
    if i < l0.sub_levels.len() {
        add_ssts_to_sub_level(l0, i, ssts);
    } else {
        insert_new_sub_level(l0, sub_level_id, other.level_type, ssts, None);
    }
}

/// Merges the SSTs of another group's level in.
fn merge_level(level: &mut Level, ssts: Vec<SstableInfo>)
    requires
        old(level)@.takes_merged(views(ssts@)),
        ssts@.len() > 0,
    ensures
        final(level)@ == old(level)@.with_merged(views(ssts@)),
{
    let ghost before = level@;
    let ghost added = views(ssts@);
    proof {
        lemma_sizes_not_negative(added);
    }
    let mut ssts = ssts;
    level.total_file_size = level.total_file_size + total_size(&ssts);
    level.uncompressed_file_size = level.uncompressed_file_size + total_raw_size(&ssts);
    level.table_infos.append(&mut ssts);
    assert(views(level.table_infos@) =~= before.table_infos + added);
    sort(&mut level.table_infos);
}

impl HummockVersion {
    /// Merges the levels of one group into those of another.
    pub fn merge_levels(left_levels: &mut Levels, right_levels: &mut Levels)
        requires
            old(left_levels)@.with_merged(old(right_levels)@) is Some,
        ensures
            final(left_levels)@ == old(left_levels)@.with_merged(old(right_levels)@)->0,
            final(right_levels)@ == old(right_levels)@.merged_away(),
    {
        let ghost left = left_levels@;
        let ghost right = right_levels@;
        let ghost others = right.l0.sub_levels;
        let mut i: usize = 0;
        assert(others.take(0).len() == 0);
        while i < right_levels.l0.sub_levels.len()
            invariant
                i <= right_levels.l0.sub_levels.len(),
                right_levels@ == right,
                others == right.l0.sub_levels,
                left.l0.with_all_merged(others) is Some,
                left.l0.with_all_merged(others.take(i as int)) == Some(left_levels@.l0),
                left_levels@ == (LevelsView { l0: left_levels@.l0, ..left }),
            decreases right_levels.l0.sub_levels.len() - i,
        {
            proof {
                lemma_merged_prefix(left.l0, others, i + 1);
                assert(others.take(i + 1).drop_last() =~= others.take(i as int));
                assert(others.take(i + 1).last() == others[i as int]);
            }
            merge_sub_level(&mut left_levels.l0, &right_levels.l0.sub_levels[i]);
            i = i + 1;
        }
        assert(others.take(i as int) =~= others);
        let ghost merged = left_levels@.l0;
        sort(&mut left_levels.l0.sub_levels);
        assert(left_levels@.l0 == merged.sorted());
        let mut idx: usize = 0;
        while idx < right_levels.levels.len()
            invariant
                idx <= right_levels.levels.len(),
                right_levels@ == (LevelsView { levels: right_levels@.levels, ..right }),
                right_levels@.levels.len() == right.levels.len(),
                left_levels@.levels.len() == left.levels.len(),
                left_levels@ == (LevelsView {
                    l0: merged.sorted(),
                    levels: left_levels@.levels,
                    ..left
                }),
                left.takes_levels(right.levels),
                forall|k: int|
                    idx <= k < right.levels.len() ==> #[trigger] right_levels.levels@[k]@
                        == right.levels[k],
                forall|k: int|
                    0 <= k < idx ==> #[trigger] right_levels.levels@[k]@
                        == right.levels[k].emptied(),
                forall|k: int|
                    0 <= k < left.levels.len() ==> #[trigger] left_levels.levels@[k]@ == (if k
                        < idx {
                        left.levels[k].with_merged(ssts_at(right.levels, k))
                    } else {
                        left.levels[k]
                    }),
            decreases right_levels.levels.len() - idx,
        {
            let ghost prior_left = left_levels.levels@;
            let ghost prior_right = right_levels.levels@;
            assert(right_levels.levels@[idx as int]@ == right.levels[idx as int]);
            if right_levels.levels[idx].table_infos.len() > 0 {
                let insert_table_infos = clone_ssts(&right_levels.levels[idx].table_infos);
                assert(right.levels[idx as int].table_infos.len() > 0);
                assert(left_levels.levels@[idx as int]@ == left.levels[idx as int]);
                merge_level(&mut left_levels.levels[idx], insert_table_infos);
                right_levels.levels[idx].table_infos.clear();
                assert(right_levels.levels@[idx as int]@.table_infos =~= Seq::empty());
            } else {
                assert(right.levels[idx as int].table_infos =~= Seq::empty());
            }
            assert forall|k: int| 0 <= k < left.levels.len() && k != idx implies #[trigger]
                left_levels.levels@[k] == prior_left[k] by {}
            assert forall|k: int| 0 <= k < right.levels.len() && k != idx implies #[trigger]
                right_levels.levels@[k] == prior_right[k] by {}
            idx = idx + 1;
        }
        proof {
            assert forall|k: int| right.levels.len() <= k implies ssts_at(right.levels, k)
                == Seq::<SstView>::empty() by {}
            assert(left_levels@.levels =~= left.with_merged(right)->0.levels);
            assert(right_levels@.levels =~= right.merged_away().levels);
        }
    }

    /// Merges one compaction group into another.
    pub fn merge_compaction_group(
        &mut self,
        left_group_id: CompactionGroupId,
        right_group_id: CompactionGroupId,
    )
        requires
            old(self)@.with_merged_groups(left_group_id, right_group_id) is Some,
        ensures
            final(self)@ == old(self)@.with_merged_groups(left_group_id, right_group_id)->0,
    {
        let ghost start = self.levels@;
        let left = self.levels.remove(&left_group_id);
        let right = self.levels.remove(&right_group_id);
        if let (Some(mut left_levels), Some(mut right_levels)) = (left, right) {
            Self::merge_levels(&mut left_levels, &mut right_levels);
            let ghost l = left_levels@;
            let ghost r = right_levels@;
            self.levels.insert(left_group_id, left_levels);
            self.levels.insert(right_group_id, right_levels);
            assert(map_views(self.levels@) =~= map_views(start).insert(left_group_id, l).insert(
                right_group_id,
                r,
            ));
        }
    }
}

/// Merging sub-levels in keeps the sizes of level 0 those of its SSTs.
pub proof fn merging_sub_levels_keeps_counts(l0: L0View, others: Seq<LevelView>)
    requires
        l0.counted(),
        l0.with_all_merged(others) is Some,
    ensures
        l0.with_all_merged(others)->0.counted(),
    decreases others.len(),
{
    if others.len() > 0 {
        merging_sub_levels_keeps_counts(l0, others.drop_last());
        let before = l0.with_all_merged(others.drop_last())->0;
        let other = others.last();
        let i = first_index(before.sub_levels, id_is(other.sub_level_id));
        if i < before.sub_levels.len() {
            adding_ssts_keeps_counts(before, i, other.table_infos);
        } else {
            new_sub_level_keeps_counts(
                before,
                other.sub_level_id,
                other.level_type,
                other.table_infos,
                None,
            );
        }
    }
}

/// Merging sub-levels in keeps the ids of the sub-levels in order.
pub proof fn merging_sub_levels_keeps_order(l0: L0View, others: Seq<LevelView>)
    requires
        l0.ids_increase(),
        l0.with_all_merged(others) is Some,
    ensures
        l0.with_all_merged(others)->0.ids_increase(),
    decreases others.len(),
{
    if others.len() > 0 {
        merging_sub_levels_keeps_order(l0, others.drop_last());
        let before = l0.with_all_merged(others.drop_last())->0;
        let other = others.last();
        let i = first_index(before.sub_levels, id_is(other.sub_level_id));
        lemma_first_index(before.sub_levels, id_is(other.sub_level_id));
        let after = before.with_merged(other)->0;
        if i < before.sub_levels.len() {
            assert forall|a: int, b: int| 0 <= a < b < after.sub_levels.len() implies (
            #[trigger] after.sub_levels[a]).sub_level_id < (
            #[trigger] after.sub_levels[b]).sub_level_id by {
                assert(before.sub_levels[a].sub_level_id < before.sub_levels[b].sub_level_id);
            }
        } else {
            appended_sub_level_keeps_order(
                before,
                other.sub_level_id,
                other.level_type,
                other.table_infos,
            );
        }
    }
}

proof fn lemma_sorted_is_same(l0: L0View)
    requires
        l0.ids_increase(),
    ensures
        l0.sorted() == l0,
{
    let before = Level::before();
    assert forall|i: int, j: int| 0 <= i < j < l0.sub_levels.len() implies !before(
        #[trigger] l0.sub_levels[j],
        #[trigger] l0.sub_levels[i],
    ) by {
        assert(l0.sub_levels[i].sub_level_id < l0.sub_levels[j].sub_level_id);
    }
    sort_leaves_ordered(l0.sub_levels, before);
}

/// Merging a group in keeps the sizes of every level those of its SSTs.
pub proof fn merge_keeps_counts(left: LevelsView, right: LevelsView)
    requires
        left.counted(),
        left.with_merged(right) is Some,
    ensures
        left.with_merged(right)->0.counted(),
{
    let r = left.with_merged(right)->0;
    let merged = left.l0.with_all_merged(right.l0.sub_levels)->0;
    merging_sub_levels_keeps_counts(left.l0, right.l0.sub_levels);
    lemma_total_sorted(merged.sub_levels, Level::before(), level_size());
    lemma_total_sorted(merged.sub_levels, Level::before(), level_raw_size());
    assert forall|i: int| 0 <= i < r.l0.sub_levels.len() implies (
    #[trigger] r.l0.sub_levels[i]).counted() by {
        crate::seqs::lemma_sort_contains(merged.sub_levels, Level::before(), r.l0.sub_levels[i]);
        assert(r.l0.sub_levels.contains(r.l0.sub_levels[i]));
        let k = choose|k: int|
            0 <= k < merged.sub_levels.len() && merged.sub_levels[k] == r.l0.sub_levels[i];
        assert(merged.sub_levels[k].counted());
    }
    assert forall|i: int| 0 <= i < r.levels.len() implies (#[trigger] r.levels[i]).counted() by {
        let level = left.levels[i];
        let ssts = ssts_at(right.levels, i);
        assert(level.counted());
        if ssts.len() > 0 {
            assert(level.takes_merged(right.levels[i].table_infos));
            lemma_sizes_not_negative(ssts);
            lemma_total_add(level.table_infos, ssts, size());
            lemma_total_add(level.table_infos, ssts, raw_size());
            lemma_total_sorted(level.table_infos + ssts, SstableInfo::before(), size());
            lemma_total_sorted(level.table_infos + ssts, SstableInfo::before(), raw_size());
        }
    }
}

/// Merging a group in keeps the ids of the sub-levels in order.
pub proof fn merge_keeps_sub_level_order(left: LevelsView, right: LevelsView)
    requires
        left.l0.ids_increase(),
        left.with_merged(right) is Some,
    ensures
        left.with_merged(right)->0.l0.ids_increase(),
{
    merging_sub_levels_keeps_order(left.l0, right.l0.sub_levels);
    lemma_sorted_is_same(left.l0.with_all_merged(right.l0.sub_levels)->0);
}

/// Whether one of the levels holds an SST of the object.
pub open spec fn levels_have_object(levels: Seq<LevelView>, object_id: u64) -> bool {
    exists|i: int|
        0 <= i < levels.len() && has_object((#[trigger] levels[i]).table_infos, object_id)
}

impl LevelsView {
    /// Whether the group holds an SST of the object.
    pub open spec fn has_object(self, object_id: u64) -> bool {
        levels_have_object(self.l0.sub_levels, object_id) || levels_have_object(
            self.levels,
            object_id,
        )
    }
}

/// An object is in a concatenation, sorted or not, if and only if it is in one of the parts.
pub proof fn lemma_object_sorted(a: Seq<SstView>, b: Seq<SstView>, object_id: u64)
    ensures
        has_object(a + b, object_id) <==> has_object(a, object_id) || has_object(b, object_id),
        has_object(by_key_range(a + b), object_id) <==> has_object(a + b, object_id),
{
    let all = a + b;
    let sorted = by_key_range(all);
    if has_object(all, object_id) {
        let i = choose|i: int| 0 <= i < all.len() && (#[trigger] all[i]).object_id == object_id;
        if i < a.len() {
            assert(a[i].object_id == object_id);
        } else {
            assert(b[i - a.len()].object_id == object_id);
        }
        crate::seqs::lemma_sort_contains(all, SstableInfo::before(), all[i]);
        assert(all.contains(all[i]));
        let k = choose|k: int| 0 <= k < sorted.len() && sorted[k] == all[i];
        assert(sorted[k].object_id == object_id);
    }
    if has_object(a, object_id) {
        let i = choose|i: int| 0 <= i < a.len() && (#[trigger] a[i]).object_id == object_id;
        assert(all[i].object_id == object_id);
    }
    if has_object(b, object_id) {
        let i = choose|i: int| 0 <= i < b.len() && (#[trigger] b[i]).object_id == object_id;
        assert(all[a.len() + i].object_id == object_id);
    }
    if has_object(sorted, object_id) {
        let i = choose|i: int|
            0 <= i < sorted.len() && (#[trigger] sorted[i]).object_id == object_id;
        crate::seqs::lemma_sort_contains(all, SstableInfo::before(), sorted[i]);
        assert(sorted.contains(sorted[i]));
        let k = choose|k: int| 0 <= k < all.len() && all[k] == sorted[i];
        assert(all[k].object_id == object_id);
    }
}

proof fn lemma_merged_sub_level_objects(l0: L0View, other: LevelView, object_id: u64)
    requires
        l0.with_merged(other) is Some,
        other.sub_level_id != u64::MAX,
    ensures
        levels_have_object(l0.with_merged(other)->0.sub_levels, object_id) <==> levels_have_object(
            l0.sub_levels,
            object_id,
        ) || has_object(other.table_infos, object_id),
{
    let at = first_index(l0.sub_levels, id_is(other.sub_level_id));
    lemma_first_index(l0.sub_levels, id_is(other.sub_level_id));
    let before = l0.sub_levels;
    let after = l0.with_merged(other)->0.sub_levels;
    if at < before.len() {
        lemma_object_sorted(before[at].table_infos, other.table_infos, object_id);
        if levels_have_object(after, object_id) {
            let i = choose|i: int|
                0 <= i < after.len() && has_object((#[trigger] after[i]).table_infos, object_id);
            if i != at {
                assert(after[i] == before[i]);
            }
            assert(has_object(before[i].table_infos, object_id) || has_object(
                other.table_infos,
                object_id,
            ));
        }
        if levels_have_object(before, object_id) {
            let i = choose|i: int|
                0 <= i < before.len() && has_object((#[trigger] before[i]).table_infos, object_id);
            if i != at {
                assert(after[i] == before[i]);
            }
            assert(has_object(after[i].table_infos, object_id));
        }
        if has_object(other.table_infos, object_id) {
            assert(has_object(after[at].table_infos, object_id));
        }
    } else {
        if levels_have_object(after, object_id) {
            let i = choose|i: int|
                0 <= i < after.len() && has_object((#[trigger] after[i]).table_infos, object_id);
            if i < before.len() {
                assert(after[i] == before[i]);
            }
        }
        if levels_have_object(before, object_id) {
            let i = choose|i: int|
                0 <= i < before.len() && has_object((#[trigger] before[i]).table_infos, object_id);
            assert(after[i] == before[i]);
        }
        assert(after[before.len() as int].table_infos == other.table_infos);
    }
}

proof fn lemma_merged_sub_levels_objects(l0: L0View, others: Seq<LevelView>, object_id: u64)
    requires
        l0.with_all_merged(others) is Some,
        forall|i: int| 0 <= i < others.len() ==> (#[trigger] others[i]).sub_level_id != u64::MAX,
    ensures
        levels_have_object(l0.with_all_merged(others)->0.sub_levels, object_id)
            <==> levels_have_object(l0.sub_levels, object_id) || levels_have_object(
            others,
            object_id,
        ),
    decreases others.len(),
{
    if others.len() > 0 {
        let t = others.drop_last();
        assert forall|i: int| 0 <= i < t.len() implies (#[trigger] t[i]).sub_level_id
            != u64::MAX by {
            assert(others[i] == t[i]);
        }
        assert(others[others.len() - 1] == others.last());
        lemma_merged_sub_levels_objects(l0, t, object_id);
        lemma_merged_sub_level_objects(l0.with_all_merged(t)->0, others.last(), object_id);
        if levels_have_object(others, object_id) {
            let i = choose|i: int|
                0 <= i < others.len() && has_object((#[trigger] others[i]).table_infos, object_id);
            if i < t.len() {
                assert(t[i] == others[i]);
            }
        }
        if levels_have_object(t, object_id) {
            let i = choose|i: int|
                0 <= i < t.len() && has_object((#[trigger] t[i]).table_infos, object_id);
            assert(t[i] == others[i]);
        }
    }
}

/// Merging groups loses no object and brings none in, where no sub-level has the id that stands
/// for none.
pub proof fn merge_keeps_objects(left: LevelsView, right: LevelsView, object_id: u64)
    requires
        left.with_merged(right) is Some,
        forall|i: int|
            0 <= i < right.l0.sub_levels.len() ==> (
            #[trigger] right.l0.sub_levels[i]).sub_level_id != u64::MAX,
    ensures
        left.with_merged(right)->0.has_object(object_id) <==> left.has_object(object_id)
            || right.has_object(object_id),
{
    let r = left.with_merged(right)->0;
    let merged = left.l0.with_all_merged(right.l0.sub_levels)->0;
    lemma_merged_sub_levels_objects(left.l0, right.l0.sub_levels, object_id);
    let (subs, sorted) = (merged.sub_levels, r.l0.sub_levels);
    assert(levels_have_object(sorted, object_id) <==> levels_have_object(subs, object_id)) by {
        if levels_have_object(sorted, object_id) {
            let i = choose|i: int|
                0 <= i < sorted.len() && has_object((#[trigger] sorted[i]).table_infos, object_id);
            crate::seqs::lemma_sort_contains(subs, Level::before(), sorted[i]);
            assert(sorted.contains(sorted[i]));
            let k = choose|k: int| 0 <= k < subs.len() && subs[k] == sorted[i];
            assert(has_object(subs[k].table_infos, object_id));
        }
        if levels_have_object(subs, object_id) {
            let i = choose|i: int|
                0 <= i < subs.len() && has_object((#[trigger] subs[i]).table_infos, object_id);
            crate::seqs::lemma_sort_contains(subs, Level::before(), subs[i]);
            assert(subs.contains(subs[i]));
            let k = choose|k: int| 0 <= k < sorted.len() && sorted[k] == subs[i];
            assert(has_object(sorted[k].table_infos, object_id));
        }
    }
    assert(levels_have_object(r.levels, object_id) <==> levels_have_object(left.levels, object_id)
        || levels_have_object(right.levels, object_id)) by {
        if levels_have_object(r.levels, object_id) {
            let i = choose|i: int|
                0 <= i < r.levels.len() && has_object(
                    (#[trigger] r.levels[i]).table_infos,
                    object_id,
                );
            lemma_object_sorted(left.levels[i].table_infos, ssts_at(right.levels, i), object_id);
            assert(has_object(left.levels[i].table_infos, object_id) || has_object(
                right.levels[i].table_infos,
                object_id,
            ));
        }
        if levels_have_object(left.levels, object_id) {
            let i = choose|i: int|
                0 <= i < left.levels.len() && has_object(
                    (#[trigger] left.levels[i]).table_infos,
                    object_id,
                );
            lemma_object_sorted(left.levels[i].table_infos, ssts_at(right.levels, i), object_id);
            assert(has_object(r.levels[i].table_infos, object_id));
        }
        if levels_have_object(right.levels, object_id) {
            let i = choose|i: int|
                0 <= i < right.levels.len() && has_object(
                    (#[trigger] right.levels[i]).table_infos,
                    object_id,
                );
            assert(right.levels[i].table_infos.len() > 0);
            lemma_object_sorted(left.levels[i].table_infos, ssts_at(right.levels, i), object_id);
            assert(has_object(r.levels[i].table_infos, object_id));
        }
    }
}

} // verus!
