//! The levels of a compaction group.
use crate::seqs::Sortable;
use crate::sstable_info::{clone_ids, clone_ssts, SstableInfo};
use vstd::prelude::*;

#[allow(unused_imports)]
use crate::seqs::{lemma_views_push, views};
#[allow(unused_imports)]
use crate::sstable_info::SstView;

verus! {

/// Identifies a compaction group.
pub type CompactionGroupId = u64;

/// Whether the SSTs of a level may overlap.
#[derive(Debug, Clone, Copy, PartialEq, Eq, Structural)]
pub enum LevelType {
    Unspecified,
    Nonoverlapping,
    Overlapping,
}

/// What a level stands for.
#[verifier::ext_equal]
pub struct LevelView {
    pub level_idx: u32,
    pub level_type: LevelType,
    pub table_infos: Seq<SstView>,
    pub total_file_size: u64,
    pub sub_level_id: u64,
    pub uncompressed_file_size: u64,
    pub vnode_partition_count: u32,
}

/// What level 0 stands for.
#[verifier::ext_equal]
pub struct L0View {
    pub sub_levels: Seq<LevelView>,
    pub total_file_size: u64,
    pub uncompressed_file_size: u64,
}

/// What the levels of a group stand for.
#[verifier::ext_equal]
pub struct LevelsView {
    pub levels: Seq<LevelView>,
    pub l0: L0View,
    pub group_id: CompactionGroupId,
    pub parent_group_id: CompactionGroupId,
    pub member_table_ids: Seq<u32>,
}

/// A level, or a sub-level of level 0.
#[derive(Debug, PartialEq, Eq)]
pub struct Level {
    pub level_idx: u32,
    pub level_type: LevelType,
    pub table_infos: Vec<SstableInfo>,
    pub total_file_size: u64,
    pub sub_level_id: u64,
    pub uncompressed_file_size: u64,
    pub vnode_partition_count: u32,
}

/// Level 0, made of sub-levels.
#[derive(Debug, PartialEq, Eq)]
pub struct OverlappingLevel {
    pub sub_levels: Vec<Level>,
    pub total_file_size: u64,
    pub uncompressed_file_size: u64,
}

/// All levels of a compaction group. `levels[i]` is level `i + 1`.
#[derive(Debug, PartialEq, Eq)]
pub struct Levels {
    pub levels: Vec<Level>,
    pub l0: OverlappingLevel,
    pub group_id: CompactionGroupId,
    pub parent_group_id: CompactionGroupId,
    pub member_table_ids: Vec<u32>,
}

impl View for Level {
    type V = LevelView;

    open spec fn view(&self) -> LevelView {
        LevelView {
            level_idx: self.level_idx,
            level_type: self.level_type,
            table_infos: views(self.table_infos@),
            total_file_size: self.total_file_size,
            sub_level_id: self.sub_level_id,
            uncompressed_file_size: self.uncompressed_file_size,
            vnode_partition_count: self.vnode_partition_count,
        }
    }
}

impl View for OverlappingLevel {
    type V = L0View;

    open spec fn view(&self) -> L0View {
        L0View {
            sub_levels: views(self.sub_levels@),
            total_file_size: self.total_file_size,
            uncompressed_file_size: self.uncompressed_file_size,
        }
    }
}

impl View for Levels {
    type V = LevelsView;

    open spec fn view(&self) -> LevelsView {
        LevelsView {
            levels: views(self.levels@),
            l0: self.l0@,
            group_id: self.group_id,
            parent_group_id: self.parent_group_id,
            member_table_ids: self.member_table_ids@,
        }
    }
}

impl LevelView {
    /// The level that holds nothing.
    pub open spec fn blank() -> LevelView {
        LevelView {
            level_idx: 0,
            level_type: LevelType::Unspecified,
            table_infos: Seq::empty(),
            total_file_size: 0,
            sub_level_id: 0,
            uncompressed_file_size: 0,
            vnode_partition_count: 0,
        }
    }
}

impl L0View {
    /// Level 0 without sub-levels.
    pub open spec fn blank() -> L0View {
        L0View { sub_levels: Seq::empty(), total_file_size: 0, uncompressed_file_size: 0 }
    }
}

impl LevelsView {
    /// No levels at all.
    pub open spec fn blank() -> LevelsView {
        LevelsView {
            levels: Seq::empty(),
            l0: L0View::blank(),
            group_id: 0,
            parent_group_id: 0,
            member_table_ids: Seq::empty(),
        }
    }
}

impl Clone for Level {
    fn clone(&self) -> (r: Level)
        ensures
            r@ == self@,
    {
        Level {
            level_idx: self.level_idx,
            level_type: self.level_type,
            table_infos: clone_ssts(&self.table_infos),
            total_file_size: self.total_file_size,
            sub_level_id: self.sub_level_id,
            uncompressed_file_size: self.uncompressed_file_size,
            vnode_partition_count: self.vnode_partition_count,
        }
    }
}

/// A copy of a list of levels.
pub fn clone_levels(levels: &Vec<Level>) -> (r: Vec<Level>)
    ensures
        views(r@) == views(levels@),
{
    let mut r: Vec<Level> = Vec::new();
    let mut i: usize = 0;
    while i < levels.len()
        invariant
            i <= levels.len(),
            views(r@) == views(levels@).take(i as int),
        decreases levels.len() - i,
    {
        let level = levels[i].clone();
        proof {
            lemma_views_push(r@, level);
            assert(views(levels@).take(i + 1) =~= views(levels@).take(i as int).push(
                levels@[i as int]@,
            ));
        }
        r.push(level);
        i = i + 1;
    }
    assert(views(levels@).take(i as int) =~= views(levels@));
    r
}

impl Clone for OverlappingLevel {
    fn clone(&self) -> (r: OverlappingLevel)
        ensures
            r@ == self@,
    {
        OverlappingLevel {
            sub_levels: clone_levels(&self.sub_levels),
            total_file_size: self.total_file_size,
            uncompressed_file_size: self.uncompressed_file_size,
        }
    }
}

impl Clone for Levels {
    fn clone(&self) -> (r: Levels)
        ensures
            r@ == self@,
    {
        Levels {
            levels: clone_levels(&self.levels),
            l0: self.l0.clone(),
            group_id: self.group_id,
            parent_group_id: self.parent_group_id,
            member_table_ids: clone_ids(&self.member_table_ids),
        }
    }
}

impl Default for Level {
    fn default() -> (r: Level)
        ensures
            r@ == LevelView::blank(),
    {
        let r = Level {
            level_idx: 0,
            level_type: LevelType::Unspecified,
            table_infos: Vec::new(),
            total_file_size: 0,
            sub_level_id: 0,
            uncompressed_file_size: 0,
            vnode_partition_count: 0,
        };
        assert(r@.table_infos =~= Seq::empty());
        r
    }
}

impl Default for OverlappingLevel {
    fn default() -> (r: OverlappingLevel)
        ensures
            r@ == L0View::blank(),
    {
        let r = OverlappingLevel {
            sub_levels: Vec::new(),
            total_file_size: 0,
            uncompressed_file_size: 0,
        };
        assert(r@.sub_levels =~= Seq::empty());
        r
    }
}

impl Default for Levels {
    fn default() -> (r: Levels)
        ensures
            r@ == LevelsView::blank(),
    {
        let r = Levels {
            levels: Vec::new(),
            l0: OverlappingLevel::default(),
            group_id: 0,
            parent_group_id: 0,
            member_table_ids: Vec::new(),
        };
        assert(r@.levels =~= Seq::empty());
        assert(r@.member_table_ids =~= Seq::empty());
        r
    }
}

/// Sub-levels are ordered by their ids.
impl Sortable for Level {
    open spec fn before() -> spec_fn(LevelView, LevelView) -> bool {
        |a: LevelView, b: LevelView| a.sub_level_id < b.sub_level_id
    }

    fn is_before(&self, other: &Self) -> (r: bool) {
        self.sub_level_id < other.sub_level_id
    }
}

/// The size of a level.
pub open spec fn level_size() -> spec_fn(LevelView) -> int {
    |l: LevelView| l.total_file_size as int
}

/// The size of a level before compression.
pub open spec fn level_raw_size() -> spec_fn(LevelView) -> int {
    |l: LevelView| l.uncompressed_file_size as int
}

impl Levels {
    /// Level 0.
    pub fn level0(&self) -> (r: &OverlappingLevel)
        ensures
            r@ == self@.l0,
    {
        &self.l0
    }

    /// The level with the given number, from one on.
    pub fn get_level(&self, level_idx: usize) -> (r: &Level)
        requires
            1 <= level_idx <= self@.levels.len(),
        ensures
            r@ == self@.levels[level_idx - 1],
    {
        &self.levels[level_idx - 1]
    }
}

} // verus!
