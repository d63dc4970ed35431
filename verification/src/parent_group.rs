//! Splitting a compaction group off its parent.
use crate::buf::bytes_clone;
use crate::compact::sub_level_position;
use crate::level::{CompactionGroupId, Level, Levels, OverlappingLevel};
use crate::seqs::{sort, Sortable};
use crate::split::split_sst_info_for_level;
use crate::sstable_info::{total_raw_size, total_size, SstableInfo};
use crate::sub_level::{add_ssts_to_sub_level, insert_new_sub_level};
use crate::version::{HummockVersion, StateTableId};
use bytes::Bytes;
use std::collections::HashSet;
use vstd::prelude::*;

#[allow(unused_imports)]
use crate::compact::{first_at_least, id_at_least};
#[allow(unused_imports)]
use crate::level::{L0View, LevelView, LevelsView};
#[allow(unused_imports)]
use crate::seqs::{
    keep, lemma_first_index, lemma_keep_take, lemma_views_push, lemma_views_update, map_views,
    total, views,
};
#[allow(unused_imports)]
use crate::split::{key_contents, split_level_at, split_level_by_tables, LevelSplit};
#[allow(unused_imports)]
use crate::sstable_info::{concatable, raw_size, size, SstView};
#[allow(unused_imports)]
use crate::sub_level::{by_key_range, lemma_sizes_not_negative, sizes_fit};
#[allow(unused_imports)]
use crate::version::VersionView;

verus! {

/// The parent of a group that is split off no other.
pub const NEW_COMPACTION_GROUP: CompactionGroupId = 0;

/// Whether an SST holds a table.
pub open spec fn has_tables() -> spec_fn(SstView) -> bool {
    |s: SstView| s.table_ids.len() > 0
}

/// Whether an SST holds no table.
pub open spec fn lacks_tables() -> spec_fn(SstView) -> bool {
    |s: SstView| s.table_ids.len() == 0
}

/// What a split makes of a level: at the key where there is one, and by the member tables
/// otherwise.
pub open spec fn split_level(
    level: LevelView,
    new_sst_id: u64,
    members: Set<u32>,
    split_key: Option<Seq<u8>>,
) -> Option<LevelSplit> {
    match split_key {
        Some(key) => split_level_at(level, new_sst_id, key),
        None => split_level_by_tables(level, new_sst_id, members),
    }
}

impl LevelView {
    /// The SSTs without tables.
    pub open spec fn husks(self) -> Seq<SstView> {
        keep(self.table_infos, lacks_tables())
    }

    /// The level with the SSTs without tables gone and counted out.
    pub open spec fn purged(self) -> LevelView {
        LevelView {
            table_infos: keep(self.table_infos, has_tables()),
            total_file_size: (self.total_file_size - total(self.husks(), size())) as u64,
            uncompressed_file_size: (self.uncompressed_file_size - total(
                self.husks(),
                raw_size(),
            )) as u64,
            ..self
        }
    }

    /// The level with the SSTs without tables gone and the sizes counted anew.
    pub open spec fn purged_and_counted(self) -> LevelView {
        let left = keep(self.table_infos, has_tables());
        LevelView {
            table_infos: left,
            total_file_size: total(left, size()) as u64,
            uncompressed_file_size: total(left, raw_size()) as u64,
            ..self
        }
    }

    /// The level with SSTs added, all in the order of their key ranges.
    pub open spec fn with_branched(self, ssts: Seq<SstView>) -> LevelView {
        self.grown(ssts, by_key_range(self.table_infos + ssts))
    }

    /// Whether SSTs can be added: their sizes fit, and no SSTs overlap.
    pub open spec fn takes_branched(self, ssts: Seq<SstView>) -> bool {
        self.has_room_for(ssts) && concatable(by_key_range(self.table_infos + ssts))
    }
}

impl L0View {
    /// Whether the SSTs without tables of a sub-level can be counted out.
    pub open spec fn can_purge(self, level: LevelView) -> bool {
        &&& total(level.husks(), size()) <= level.total_file_size
        &&& total(level.husks(), raw_size()) <= level.uncompressed_file_size
        &&& total(level.husks(), size()) <= self.total_file_size
        &&& total(level.husks(), raw_size()) <= self.uncompressed_file_size
    }

    /// Level 0 with the sub-level at `i` purged.
    pub open spec fn with_purged(self, i: int, level: LevelView) -> L0View {
        L0View {
            sub_levels: self.sub_levels.update(i, level.purged()),
            total_file_size: (self.total_file_size - total(level.husks(), size())) as u64,
            uncompressed_file_size: (self.uncompressed_file_size - total(
                level.husks(),
                raw_size(),
            )) as u64,
        }
    }

    /// Level 0 with the SSTs that branch off a sub-level of the parent: added to the sub-level of
    /// the same id, or in a new one in front of the first larger one.
    pub open spec fn with_branched(self, from: LevelView, ssts: Seq<SstView>) -> Option<L0View> {
        let i = first_at_least(self.sub_levels, from.sub_level_id);
        if ssts.len() == 0 {
            Some(self)
        } else if i < self.sub_levels.len() && self.sub_levels[i].sub_level_id
            == from.sub_level_id {
            self.with_ssts(i, ssts)
        } else {
            self.with_sub_level(from.sub_level_id, from.level_type, ssts, Some(i))
        }
    }
}

/// Two groups between which SSTs are divided, and the next free SST id.
#[verifier::ext_equal]
pub struct Division {
    pub parent: LevelsView,
    pub target: LevelsView,
    pub next_sst_id: u64,
}

impl Division {
    /// The groups after the parent's sub-level at `i` was divided.
    pub open spec fn with_sub_level(
        self,
        i: int,
        members: Set<u32>,
        split_key: Option<Seq<u8>>,
    ) -> Option<Division> {
        match split_level(self.parent.l0.sub_levels[i], self.next_sst_id, members, split_key) {
            None => None,
            Some(split) => if !self.parent.l0.can_purge(split.level) {
                None
            } else {
                match self.target.l0.with_branched(split.level, split.branched) {
                    None => None,
                    Some(l0) => Some(
                        Division {
                            parent: LevelsView {
                                l0: self.parent.l0.with_purged(i, split.level),
                                ..self.parent
                            },
                            target: LevelsView { l0, ..self.target },
                            next_sst_id: split.next_sst_id,
                        },
                    ),
                }
            },
        }
    }

    /// The groups after the parent's level at `i` above 0 was divided.
    pub open spec fn with_level(
        self,
        i: int,
        members: Set<u32>,
        split_key: Option<Seq<u8>>,
    ) -> Option<Division> {
        match split_level(self.parent.levels[i], self.next_sst_id, members, split_key) {
            None => None,
            Some(split) => if i >= self.target.levels.len()
                || !self.target.levels[i].takes_branched(split.branched) || !sizes_fit(
                keep(split.level.table_infos, has_tables()),
            ) {
                None
            } else {
                Some(
                    Division {
                        parent: LevelsView {
                            levels: self.parent.levels.update(
                                i,
                                split.level.purged_and_counted(),
                            ),
                            ..self.parent
                        },
                        target: LevelsView {
                            levels: self.target.levels.update(
                                i,
                                self.target.levels[i].with_branched(split.branched),
                            ),
                            ..self.target
                        },
                        next_sst_id: split.next_sst_id,
                    },
                )
            },
        }
    }

    /// The groups after the first `n` sub-levels of the parent were divided.
    pub open spec fn with_sub_levels(
        self,
        n: nat,
        members: Set<u32>,
        split_key: Option<Seq<u8>>,
    ) -> Option<Division>
        decreases n,
    {
        if n == 0 {
            Some(self)
        } else {
            match self.with_sub_levels((n - 1) as nat, members, split_key) {
                Some(d) => d.with_sub_level(n - 1, members, split_key),
                None => None,
            }
        }
    }

    /// The groups after the first `n` levels above 0 of the parent were divided.
    pub open spec fn with_levels(
        self,
        n: nat,
        members: Set<u32>,
        split_key: Option<Seq<u8>>,
    ) -> Option<Division>
        decreases n,
    {
        if n == 0 {
            Some(self)
        } else {
            match self.with_levels((n - 1) as nat, members, split_key) {
                Some(d) => d.with_level(n - 1, members, split_key),
                None => None,
            }
        }
    }

    /// The groups after all levels of the parent were divided.
    pub open spec fn divided(self, members: Set<u32>, split_key: Option<Seq<u8>>) -> Option<
        Division,
    > {
        match self.with_sub_levels(self.parent.l0.sub_levels.len(), members, split_key) {
            Some(d) => d.with_levels(self.parent.levels.len(), members, split_key),
            None => None,
        }
    }
}

/// Where more sub-levels can be divided, fewer can.
pub proof fn lemma_sub_levels_prefix(
    d: Division,
    i: nat,
    n: nat,
    members: Set<u32>,
    split_key: Option<Seq<u8>>,
)
    requires
        i <= n,
        d.with_sub_levels(n, members, split_key) is Some,
    ensures
        d.with_sub_levels(i, members, split_key) is Some,
    decreases n,
{
    if i < n {
        lemma_sub_levels_prefix(d, i, (n - 1) as nat, members, split_key);
    }
}

/// Where more levels can be divided, fewer can.
pub proof fn lemma_levels_prefix(
    d: Division,
    i: nat,
    n: nat,
    members: Set<u32>,
    split_key: Option<Seq<u8>>,
)
    requires
        i <= n,
        d.with_levels(n, members, split_key) is Some,
    ensures
        d.with_levels(i, members, split_key) is Some,
    decreases n,
{
    if i < n {
        lemma_levels_prefix(d, i, (n - 1) as nat, members, split_key);
    }
}

impl VersionView {
    /// The version after a group was split off its parent. Nothing changes where there is no such
    /// parent. There is none where the group is not there, or is its own parent.
    pub open spec fn with_split_group(
        self,
        parent_group_id: CompactionGroupId,
        group_id: CompactionGroupId,
        members: Set<u32>,
        new_sst_start_id: u64,
        split_key: Option<Seq<u8>>,
    ) -> Option<VersionView> {
        if parent_group_id == NEW_COMPACTION_GROUP || !self.levels.dom().contains(
            parent_group_id,
        ) {
            Some(self)
        } else if parent_group_id == group_id || !self.levels.dom().contains(group_id) {
            None
        } else {
            let d = Division {
                parent: self.levels[parent_group_id],
                target: self.levels[group_id],
                next_sst_id: new_sst_start_id,
            };
            match d.divided(members, split_key) {
                None => None,
                Some(d) => Some(
                    VersionView {
                        levels: self.levels.insert(parent_group_id, d.parent).insert(
                            group_id,
                            d.target,
                        ),
                        ..self
                    },
                ),
            }
        }
    }
}

/// Takes the SSTs without tables out of a list.
fn extract_husks(v: &mut Vec<SstableInfo>) -> (r: Vec<SstableInfo>)
    ensures
        views(final(v)@) == keep(views(old(v)@), has_tables()),
        views(r@) == keep(views(old(v)@), lacks_tables()),
{
    let ghost start = views(v@);
    let n: usize = v.len();
    let mut r: Vec<SstableInfo> = Vec::new();
    let mut i: usize = 0;
    let mut j: usize = 0;
    assert(keep(start.take(0), has_tables()) =~= Seq::empty());
    assert(keep(start.take(0), lacks_tables()) =~= Seq::empty());
    assert(views(r@) =~= Seq::empty());
    assert(Seq::<SstView>::empty() + start.skip(0) =~= start);
    while j < n
        invariant
            i <= j <= n,
            start.len() == n,
            v.len() == n - j + i,
            i == keep(start.take(j as int), has_tables()).len(),
            views(v@) == keep(start.take(j as int), has_tables()) + start.skip(j as int),
            views(r@) == keep(start.take(j as int), lacks_tables()),
        decreases n - j,
    {
        let ghost kept = keep(start.take(j as int), has_tables());
        let ghost prior = v@;
        proof {
            lemma_keep_take(start, j as int, has_tables());
            lemma_keep_take(start, j as int, lacks_tables());
            assert(views(prior)[i as int] == start[j as int]);
        }
        if v[i].table_ids.len() > 0 {
            proof {
                assert(kept + start.skip(j as int) =~= kept.push(start[j as int]) + start.skip(
                    j + 1,
                ));
            }
            i = i + 1;
        } else {
            let husk = v.remove(i);
            proof {
                lemma_views_push(r@, husk);
                assert(views(v@) =~= views(prior).remove(i as int));
                assert(views(v@) =~= kept + start.skip(j + 1));
            }
            r.push(husk);
        }
        j = j + 1;
    }
    assert(start.take(n as int) =~= start);
    assert(views(v@) =~= keep(start, has_tables()));
    r
}

/// Splits a level and gives back the SSTs that branch off.
fn branch_off(
    level: &mut Level,
    new_sst_id: &mut u64,
    members: &HashSet<StateTableId>,
    split_key: &Option<Bytes>,
) -> (r: Vec<SstableInfo>)
    requires
        split_level(old(level)@, *old(new_sst_id), members@, key_contents(*split_key)) is Some,
    ensures
        split_level(old(level)@, *old(new_sst_id), members@, key_contents(*split_key)) == Some(
            LevelSplit {
                level: final(level)@,
                next_sst_id: *final(new_sst_id),
                branched: views(r@),
            },
        ),
{
    match split_key {
        Some(key) => HummockVersion::split_sst_info_for_level_v2(
            level,
            new_sst_id,
            bytes_clone(key),
        ),
        None => split_sst_info_for_level(members, level, new_sst_id),
    }
}

/// Adds the SSTs that branch off a sub-level of the parent.
fn place_branched(l0: &mut OverlappingLevel, from: &Level, ssts: Vec<SstableInfo>)
    requires
        old(l0)@.with_branched(from@, views(ssts@)) is Some,
    ensures
        final(l0)@ == old(l0)@.with_branched(from@, views(ssts@))->0,
{
    if ssts.len() == 0 {
        return ;
    }
    let idx: usize = sub_level_position(&l0.sub_levels, from.sub_level_id);
    proof {
        lemma_first_index(l0@.sub_levels, id_at_least(from.sub_level_id));
    }
    if idx < l0.sub_levels.len() && l0.sub_levels[idx].sub_level_id == from.sub_level_id {
        add_ssts_to_sub_level(l0, idx, ssts);
    } else {
        insert_new_sub_level(l0, from.sub_level_id, from.level_type, ssts, Some(idx));
    }
}

/// Divides the parent's sub-level at `i`.
fn divide_sub_level(
    parent: &mut Levels,
    target: &mut Levels,
    i: usize,
    new_sst_id: &mut u64,
    members: &HashSet<StateTableId>,
    split_key: &Option<Bytes>,
)
    requires
        i < old(parent)@.l0.sub_levels.len(),
        (Division {
            parent: old(parent)@,
            target: old(target)@,
            next_sst_id: *old(new_sst_id),
        }).with_sub_level(i as int, members@, key_contents(*split_key)) is Some,
    ensures
        (Division {
            parent: old(parent)@,
            target: old(target)@,
            next_sst_id: *old(new_sst_id),
        }).with_sub_level(i as int, members@, key_contents(*split_key)) == Some(
            Division {
                parent: final(parent)@,
                target: final(target)@,
                next_sst_id: *final(new_sst_id),
            },
        ),
{
    let ghost prior = parent.l0.sub_levels@;
    let sub_level = &mut parent.l0.sub_levels[i];
    let branched = branch_off(sub_level, new_sst_id, members, split_key);
    let ghost level = sub_level@;
    place_branched(&mut target.l0, sub_level, branched);
    let husks = extract_husks(&mut sub_level.table_infos);
    proof {
        lemma_sizes_not_negative(views(husks@));
    }
    let gone: u64 = total_size(&husks);
    let gone_raw: u64 = total_raw_size(&husks);
    sub_level.total_file_size = sub_level.total_file_size - gone;
    sub_level.uncompressed_file_size = sub_level.uncompressed_file_size - gone_raw;
    proof {
        assert(sub_level@ == level.purged());
        lemma_views_update(prior, i as int, *sub_level);
    }
    parent.l0.total_file_size = parent.l0.total_file_size - gone;
    parent.l0.uncompressed_file_size = parent.l0.uncompressed_file_size - gone_raw;
}

/// Divides the parent's level at `i` above 0.
fn divide_level(
    parent: &mut Levels,
    target: &mut Levels,
    i: usize,
    new_sst_id: &mut u64,
    members: &HashSet<StateTableId>,
    split_key: &Option<Bytes>,
)
    requires
        i < old(parent)@.levels.len(),
        (Division {
            parent: old(parent)@,
            target: old(target)@,
            next_sst_id: *old(new_sst_id),
        }).with_level(i as int, members@, key_contents(*split_key)) is Some,
    ensures
        (Division {
            parent: old(parent)@,
            target: old(target)@,
            next_sst_id: *old(new_sst_id),
        }).with_level(i as int, members@, key_contents(*split_key)) == Some(
            Division {
                parent: final(parent)@,
                target: final(target)@,
                next_sst_id: *final(new_sst_id),
            },
        ),
{
    let ghost prior = parent.levels@;
    let ghost prior_target = target.levels@;
    let level = &mut parent.levels[i];
    let mut branched = branch_off(level, new_sst_id, members, split_key);
    let ghost added = views(branched@);
    proof {
        lemma_sizes_not_negative(added);
    }
    let ghost split = level@;
    let other = &mut target.levels[i];
    let ghost before = other@;
    other.total_file_size = other.total_file_size + total_size(&branched);
    other.uncompressed_file_size = other.uncompressed_file_size + total_raw_size(&branched);
    other.table_infos.append(&mut branched);
    assert(views(other.table_infos@) =~= before.table_infos + added);
    sort(&mut other.table_infos);
    proof {
        assert(other@ == before.with_branched(added));
        lemma_views_update(prior_target, i as int, *other);
    }
    let _ = extract_husks(&mut level.table_infos);
    level.total_file_size = total_size(&level.table_infos);
    level.uncompressed_file_size = total_raw_size(&level.table_infos);
    proof {
        assert(level@ == split.purged_and_counted());
        lemma_views_update(prior, i as int, *level);
    }
}

/// Dividing sub-levels changes level 0 alone, and not the number of the parent's sub-levels.
pub proof fn lemma_sub_levels_shape(
    d: Division,
    n: nat,
    members: Set<u32>,
    split_key: Option<Seq<u8>>,
)
    requires
        d.with_sub_levels(n, members, split_key) is Some,
        n <= d.parent.l0.sub_levels.len(),
    ensures
        ({
            let r = d.with_sub_levels(n, members, split_key)->0;
            &&& r.parent == (LevelsView { l0: r.parent.l0, ..d.parent })
            &&& r.target == (LevelsView { l0: r.target.l0, ..d.target })
            &&& r.parent.l0.sub_levels.len() == d.parent.l0.sub_levels.len()
        }),
    decreases n,
{
    if n > 0 {
        lemma_sub_levels_shape(d, (n - 1) as nat, members, split_key);
    }
}

/// Dividing levels above 0 changes them alone, and not their numbers.
pub proof fn lemma_levels_shape(
    d: Division,
    n: nat,
    members: Set<u32>,
    split_key: Option<Seq<u8>>,
)
    requires
        d.with_levels(n, members, split_key) is Some,
        n <= d.parent.levels.len(),
    ensures
        ({
            let r = d.with_levels(n, members, split_key)->0;
            &&& r.parent == (LevelsView { levels: r.parent.levels, ..d.parent })
            &&& r.target == (LevelsView { levels: r.target.levels, ..d.target })
            &&& r.parent.levels.len() == d.parent.levels.len()
            &&& r.target.levels.len() == d.target.levels.len()
        }),
    decreases n,
{
    if n > 0 {
        lemma_levels_shape(d, (n - 1) as nat, members, split_key);
    }
}

/// Divides all levels of the parent.
fn divide(
    parent: &mut Levels,
    target: &mut Levels,
    new_sst_start_id: u64,
    members: &HashSet<StateTableId>,
    split_key: &Option<Bytes>,
)
    requires
        (Division {
            parent: old(parent)@,
            target: old(target)@,
            next_sst_id: new_sst_start_id,
        }).divided(members@, key_contents(*split_key)) is Some,
    ensures
        ({
            let r = (Division {
                parent: old(parent)@,
                target: old(target)@,
                next_sst_id: new_sst_start_id,
            }).divided(members@, key_contents(*split_key))->0;
            final(parent)@ == r.parent && final(target)@ == r.target
        }),
{
    let ghost key = key_contents(*split_key);
    let ghost start = Division {
        parent: parent@,
        target: target@,
        next_sst_id: new_sst_start_id,
    };
    let ghost subs = start.parent.l0.sub_levels.len();
    let mut new_sst_id: u64 = new_sst_start_id;
    let mut i: usize = 0;
    while i < parent.l0.sub_levels.len()
        invariant
            i <= parent.l0.sub_levels.len(),
            parent@.l0.sub_levels.len() == subs,
            subs == start.parent.l0.sub_levels.len(),
            key == key_contents(*split_key),
            start.with_sub_levels(subs, members@, key) is Some,
            start.with_sub_levels(i as nat, members@, key) == Some(
                Division { parent: parent@, target: target@, next_sst_id: new_sst_id },
            ),
        decreases parent.l0.sub_levels.len() - i,
    {
        proof {
            lemma_sub_levels_prefix(start, (i + 1) as nat, subs, members@, key);
        }
        divide_sub_level(parent, target, i, &mut new_sst_id, members, split_key);
        proof {
            lemma_sub_levels_shape(start, (i + 1) as nat, members@, key);
        }
        i = i + 1;
    }
    proof {
        lemma_sub_levels_shape(start, subs, members@, key);
    }
    let ghost middle = Division { parent: parent@, target: target@, next_sst_id: new_sst_id };
    let ghost count = start.parent.levels.len();
    let mut j: usize = 0;
    while j < parent.levels.len()
        invariant
            j <= parent.levels.len(),
            parent@.levels.len() == count,
            middle.parent.levels.len() == count,
            key == key_contents(*split_key),
            middle.with_levels(count, members@, key) is Some,
            middle.with_levels(j as nat, members@, key) == Some(
                Division { parent: parent@, target: target@, next_sst_id: new_sst_id },
            ),
        decreases parent.levels.len() - j,
    {
        proof {
            lemma_levels_prefix(middle, (j + 1) as nat, count, members@, key);
        }
        divide_level(parent, target, j, &mut new_sst_id, members, split_key);
        proof {
            lemma_levels_shape(middle, (j + 1) as nat, members@, key);
        }
        j = j + 1;
    }
}

impl HummockVersion {
    /// Fills a new group with what it gets of its parent's SSTs.
    pub fn init_with_parent_group(
        &mut self,
        parent_group_id: CompactionGroupId,
        group_id: CompactionGroupId,
        member_table_ids: HashSet<StateTableId>,
        new_sst_start_id: u64,
        split_key: Option<Bytes>,
    )
        requires
            old(self)@.with_split_group(
                parent_group_id,
                group_id,
                member_table_ids@,
                new_sst_start_id,
                key_contents(split_key),
            ) is Some,
        ensures
            final(self)@ == old(self)@.with_split_group(
                parent_group_id,
                group_id,
                member_table_ids@,
                new_sst_start_id,
                key_contents(split_key),
            )->0,
    {
        if parent_group_id == NEW_COMPACTION_GROUP || !self.levels.contains_key(&parent_group_id) {
            return ;
        }
        let ghost start = self.levels@;
        let parent = self.levels.remove(&parent_group_id);
        let target = self.levels.remove(&group_id);
        if let (Some(mut parent_levels), Some(mut cur_levels)) = (parent, target) {
            divide(
                &mut parent_levels,
                &mut cur_levels,
                new_sst_start_id,
                &member_table_ids,
                &split_key,
            );
            let ghost p = parent_levels@;
            let ghost t = cur_levels@;
            self.levels.insert(parent_group_id, parent_levels);
            self.levels.insert(group_id, cur_levels);
            assert(map_views(self.levels@) =~= map_views(start).insert(parent_group_id, p).insert(
                group_id,
                t,
            ));
        }
    }
}

} // verus!
