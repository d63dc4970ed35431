//! The levels of a new compaction group.
use crate::group_deltas::CompactionConfig;
use crate::level::{CompactionGroupId, Level, LevelType, Levels, OverlappingLevel};
use crate::parent_group::NEW_COMPACTION_GROUP;
use vstd::prelude::*;

#[allow(unused_imports)]
use crate::level::{L0View, LevelView, LevelsView};

verus! {

impl LevelView {
    /// The empty level at place `i` above level 0.
    pub open spec fn initial(i: int) -> LevelView {
        LevelView {
            level_idx: (i + 1) as u32,
            level_type: LevelType::Nonoverlapping,
            ..LevelView::blank()
        }
    }
}

impl LevelsView {
    /// The empty levels of a group without a parent.
    pub open spec fn initial(group_id: CompactionGroupId, max_level: u64) -> LevelsView {
        LevelsView {
            levels: Seq::new(max_level as nat, |i: int| LevelView::initial(i)),
            l0: L0View::blank(),
            group_id,
            parent_group_id: NEW_COMPACTION_GROUP,
            member_table_ids: Seq::empty(),
        }
    }
}

/// Makes the empty levels of a group, as many as the configuration says.
pub fn build_initial_compaction_group_levels(
    group_id: CompactionGroupId,
    compaction_config: &CompactionConfig,
) -> (r: Levels)
    ensures
        r@ == LevelsView::initial(group_id, compaction_config.max_level),
{
    let mut levels: Vec<Level> = Vec::new();
    let mut l: u64 = 0;
    while l < compaction_config.max_level
        invariant
            l <= compaction_config.max_level,
            levels@.len() == l,
            forall|i: int| 0 <= i < l ==> #[trigger] levels@[i]@ == LevelView::initial(i),
        decreases compaction_config.max_level - l,
    {
        let level = Level {
            level_idx: (l + 1) as u32,
            level_type: LevelType::Nonoverlapping,
            table_infos: Vec::new(),
            total_file_size: 0,
            sub_level_id: 0,
            uncompressed_file_size: 0,
            vnode_partition_count: 0,
        };
        assert(level@.table_infos =~= Seq::empty());
        levels.push(level);
        l = l + 1;
    }
    let r = Levels {
        levels,
        l0: OverlappingLevel::default(),
        group_id,
        parent_group_id: NEW_COMPACTION_GROUP,
        member_table_ids: Vec::new(),
    };
    assert(r@.levels =~= LevelsView::initial(group_id, compaction_config.max_level).levels);
    assert(r@.member_table_ids =~= Seq::empty());
    r
}

/// The levels of a new group count nothing, and their sub-levels are in order.
pub proof fn initial_levels_are_counted(group_id: CompactionGroupId, max_level: u64)
    ensures
        LevelsView::initial(group_id, max_level).counted(),
        LevelsView::initial(group_id, max_level).l0.ids_increase(),
{
    let r = LevelsView::initial(group_id, max_level);
    assert forall|i: int| 0 <= i < r.levels.len() implies (#[trigger] r.levels[i]).counted() by {}
}

} // verus!
