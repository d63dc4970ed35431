//! Sub-levels, commits, compactions and deltas.
use bytes::Bytes;
use hummock_version::compact::{level_delete_ssts, level_insert_ssts, sub_level_position};
use hummock_version::group_deltas::{
    summarize_group_deltas, CompactionConfig, CompatibilityVersion, GroupConstruct, GroupDelta,
    GroupDeltas, GroupDeltasSummary, GroupDestroy, GroupMerge, GroupMetaChange, GroupTableChange,
    IntraLevelDelta,
};
use hummock_version::initial::build_initial_compaction_group_levels;
use hummock_version::key::{gen_key_from_bytes, FullKey};
use hummock_version::key_range::KeyRange;
use hummock_version::level::{Level, LevelType, Levels, OverlappingLevel};
use hummock_version::sstable_info::SstableInfo;
use hummock_version::sub_level::{add_ssts_to_sub_level, insert_new_sub_level, new_sub_level};
use hummock_version::version::{HummockVersion, HummockVersionDelta, StateTableInfo};
use std::collections::{BTreeSet, HashMap, HashSet};

fn key(table_id: u32, vnode: u16) -> Bytes {
    let table_key = gen_key_from_bytes(vnode, b"");
    Bytes::from(FullKey::new(table_id, &table_key, 0).encode())
}

/// An SST of one table over a range of virtual nodes, of size 10 and 20 before compression.
fn sst(sst_id: u64, table_id: u32, from: u16, to: u16) -> SstableInfo {
    SstableInfo {
        object_id: sst_id,
        sst_id,
        key_range: KeyRange {
            left: key(table_id, from),
            right: key(table_id, to),
            right_exclusive: false,
        },
        table_ids: vec![table_id],
        file_size: 10,
        estimated_sst_size: 10,
        uncompressed_file_size: 20,
        ..Default::default()
    }
}

fn config() -> CompactionConfig {
    CompactionConfig { max_level: 2 }
}

fn ids(ssts: &[SstableInfo]) -> Vec<u64> {
    ssts.iter().map(|s| s.sst_id).collect()
}

fn sub_ids(l0: &OverlappingLevel) -> Vec<u64> {
    l0.sub_levels.iter().map(|l| l.sub_level_id).collect()
}

/// Whether all sizes are those of the SSTs.
fn counted(levels: &Levels) -> bool {
    let fits = |l: &Level| {
        l.total_file_size == l.table_infos.iter().map(|s| s.estimated_sst_size).sum::<u64>()
            && l.uncompressed_file_size
                == l.table_infos
                    .iter()
                    .map(|s| s.uncompressed_file_size)
                    .sum::<u64>()
    };
    levels.levels.iter().all(fits)
        && levels.l0.sub_levels.iter().all(fits)
        && levels.l0.total_file_size
            == levels.l0.sub_levels.iter().map(|l| l.total_file_size).sum::<u64>()
        && levels.l0.uncompressed_file_size
            == levels
                .l0
                .sub_levels
                .iter()
                .map(|l| l.uncompressed_file_size)
                .sum::<u64>()
}

fn levels_with_l0() -> Levels {
    let mut levels = build_initial_compaction_group_levels(1, &config());
    insert_new_sub_level(
        &mut levels.l0,
        7,
        LevelType::Overlapping,
        vec![sst(1, 1, 0, 10), sst(2, 1, 5, 20)],
        None,
    );
    insert_new_sub_level(
        &mut levels.l0,
        9,
        LevelType::Nonoverlapping,
        vec![sst(3, 1, 0, 10)],
        None,
    );
    levels
}

fn summary(deltas: Vec<GroupDelta>) -> GroupDeltasSummary {
    summarize_group_deltas(&GroupDeltas { group_deltas: deltas }, 1)
}

fn intra(
    level_idx: u32,
    sub_level_id: u64,
    removed: Vec<u64>,
    inserted: Vec<SstableInfo>,
    count: u32,
) -> GroupDelta {
    GroupDelta::IntraLevel(IntraLevelDelta::new(
        level_idx,
        sub_level_id,
        removed,
        inserted,
        count,
    ))
}

#[test]
fn initial_levels_are_empty_and_numbered() {
    let levels = build_initial_compaction_group_levels(5, &CompactionConfig { max_level: 3 });
    assert_eq!(levels.group_id, 5);
    assert_eq!(levels.parent_group_id, 0);
    let numbers: Vec<u32> = levels.levels.iter().map(|l| l.level_idx).collect();
    assert_eq!(numbers, vec![1, 2, 3]);
    assert!(levels.levels.iter().all(|l| l.level_type == LevelType::Nonoverlapping));
    assert!(levels.l0.sub_levels.is_empty());
    assert!(counted(&levels));
    assert_eq!(levels.get_level(2).level_idx, 2);
    assert_eq!(levels.level0().total_file_size, 0);
}

#[test]
fn new_sub_level_counts_its_ssts() {
    let level = new_sub_level(3, LevelType::Overlapping, vec![sst(1, 1, 0, 1), sst(2, 1, 2, 3)]);
    assert_eq!(level.level_idx, 0);
    assert_eq!(level.sub_level_id, 3);
    assert_eq!(level.total_file_size, 20);
    assert_eq!(level.uncompressed_file_size, 40);
    assert_eq!(level.vnode_partition_count, 0);
}

#[test]
fn appended_sub_levels_keep_order_and_counts() {
    let levels = levels_with_l0();
    assert_eq!(sub_ids(&levels.l0), vec![7, 9]);
    assert_eq!(levels.l0.total_file_size, 30);
    assert_eq!(levels.l0.uncompressed_file_size, 60);
    assert!(counted(&levels));
}

#[test]
fn sub_level_goes_to_its_place() {
    let mut levels = levels_with_l0();
    insert_new_sub_level(
        &mut levels.l0,
        8,
        LevelType::Overlapping,
        vec![sst(4, 1, 0, 1)],
        Some(1),
    );
    assert_eq!(sub_ids(&levels.l0), vec![7, 8, 9]);
    assert!(counted(&levels));
}

#[test]
fn largest_sub_level_id_stands_for_none() {
    let mut levels = levels_with_l0();
    insert_new_sub_level(
        &mut levels.l0,
        u64::MAX,
        LevelType::Overlapping,
        vec![sst(4, 1, 0, 1)],
        None,
    );
    assert_eq!(levels, levels_with_l0());
}

#[test]
fn adding_sorts_where_ssts_may_not_overlap() {
    let mut levels = levels_with_l0();
    levels.l0.sub_levels[1].table_infos[0] = sst(3, 1, 100, 110);
    add_ssts_to_sub_level(&mut levels.l0, 1, vec![sst(4, 1, 200, 210), sst(5, 1, 0, 10)]);
    assert_eq!(ids(&levels.l0.sub_levels[1].table_infos), vec![5, 3, 4]);
    add_ssts_to_sub_level(&mut levels.l0, 0, vec![sst(6, 1, 0, 1)]);
    assert_eq!(ids(&levels.l0.sub_levels[0].table_infos), vec![1, 2, 6]);
    assert!(counted(&levels));
}

#[test]
fn deletion_says_whether_something_went() {
    let mut level = new_sub_level(3, LevelType::Overlapping, vec![sst(1, 1, 0, 1), sst(2, 1, 2, 3)]);
    assert!(!level_delete_ssts(&mut level, &HashSet::from([9])));
    assert_eq!(level.total_file_size, 20);
    assert!(level_delete_ssts(&mut level, &HashSet::from([1, 9])));
    assert_eq!(ids(&level.table_infos), vec![2]);
    assert_eq!(level.total_file_size, 10);
    assert_eq!(level.uncompressed_file_size, 20);
}

#[test]
fn compacted_level_does_not_overlap() {
    let mut level = new_sub_level(3, LevelType::Overlapping, vec![sst(1, 1, 5, 6)]);
    level_insert_ssts(&mut level, vec![sst(2, 1, 8, 9), sst(3, 1, 1, 2)]);
    assert_eq!(level.level_type, LevelType::Nonoverlapping);
    assert_eq!(ids(&level.table_infos), vec![3, 1, 2]);
    assert_eq!(level.total_file_size, 30);
}

#[test]
fn sub_level_position_is_the_first_not_smaller() {
    let levels = levels_with_l0();
    assert_eq!(sub_level_position(&levels.l0.sub_levels, 0), 0);
    assert_eq!(sub_level_position(&levels.l0.sub_levels, 7), 0);
    assert_eq!(sub_level_position(&levels.l0.sub_levels, 8), 1);
    assert_eq!(sub_level_position(&levels.l0.sub_levels, 10), 2);
}

#[test]
fn summary_adds_up() {
    let s = summary(vec![
        intra(3, 0, vec![5, 6], vec![], 1),
        intra(0, 0, vec![7, 5], vec![], 2),
        intra(1, 11, vec![], vec![sst(8, 1, 0, 1)], 3),
        intra(2, 12, vec![], vec![sst(9, 1, 2, 3)], 4),
        intra(3, 0, vec![4], vec![], 5),
        GroupDelta::GroupMetaChange(GroupMetaChange {
            table_ids_add: vec![1],
            table_ids_remove: vec![2],
        }),
    ]);
    assert_eq!(s.delete_sst_levels, vec![0, 3]);
    assert_eq!(s.delete_sst_ids_set, HashSet::from([4, 5, 6, 7]));
    assert_eq!(s.insert_sst_level_id, 2);
    assert_eq!(s.insert_sub_level_id, 12);
    assert_eq!(ids(&s.insert_table_infos), vec![8, 9]);
    assert_eq!(s.new_vnode_partition_count, 5);
    assert_eq!(s.group_meta_changes.len(), 1);
    assert!(s.group_construct.is_none());
    assert!(s.group_destroy.is_none());
}

#[test]
fn summary_of_nothing_is_blank() {
    let s = summary(vec![]);
    assert_eq!(s.insert_sst_level_id, u32::MAX);
    assert_eq!(s.insert_sub_level_id, u64::MAX);
    assert!(s.delete_sst_levels.is_empty());
    assert_eq!(s.new_vnode_partition_count, 0);
}

#[test]
fn summary_of_reshaping_names_the_groups() {
    let s = summary(vec![GroupDelta::GroupDestroy(GroupDestroy {})]);
    assert_eq!(s.group_destroy, Some(1));
    let s = summary(vec![GroupDelta::GroupMerge(GroupMerge {
        left_group_id: 3,
        right_group_id: 4,
    })]);
    assert_eq!(s.group_destroy, Some(4));
    assert_eq!(s.group_merge.unwrap().left_group_id, 3);
    let s = summary(vec![
        GroupDelta::GroupTableChange(GroupTableChange {
            target_group_id: 8,
            ..Default::default()
        }),
        GroupDelta::GroupTableChange(GroupTableChange {
            target_group_id: 9,
            ..Default::default()
        }),
    ]);
    assert_eq!(s.group_table_change.unwrap().target_group_id, 9);
}

#[test]
fn compaction_moves_ssts_down() {
    let mut levels = levels_with_l0();
    let s = summary(vec![
        intra(0, 0, vec![1, 2], vec![], 4),
        intra(1, 0, vec![], vec![sst(10, 1, 20, 30), sst(11, 1, 0, 10)], 4),
    ]);
    levels.apply_compact_ssts(s, &BTreeSet::from([1]));
    assert_eq!(sub_ids(&levels.l0), vec![9]);
    assert_eq!(ids(&levels.levels[0].table_infos), vec![11, 10]);
    assert_eq!(levels.levels[0].vnode_partition_count, 4);
    assert_eq!(levels.l0.total_file_size, 10);
    assert!(counted(&levels));
}

#[test]
fn expired_compaction_changes_nothing() {
    let mut levels = levels_with_l0();
    let s = summary(vec![
        intra(0, 0, vec![1, 99], vec![], 0),
        intra(1, 0, vec![], vec![sst(10, 1, 20, 30)], 0),
    ]);
    levels.apply_compact_ssts(s, &BTreeSet::new());
    assert_eq!(levels, levels_with_l0());
}

#[test]
fn deleted_ssts_must_be_in_the_named_levels() {
    let mut levels = levels_with_l0();
    levels.levels[1].table_infos.push(sst(5, 1, 0, 1));
    assert!(levels.check_deleted_sst_exist(&[0], HashSet::from([1, 3])));
    assert!(!levels.check_deleted_sst_exist(&[0], HashSet::from([1, 5])));
    assert!(levels.check_deleted_sst_exist(&[0, 2], HashSet::from([1, 5])));
    assert!(levels.check_deleted_sst_exist(&[], HashSet::new()));
    assert!(!levels.check_deleted_sst_exist(&[1], HashSet::from([5])));
}

#[test]
fn compaction_within_level_zero_takes_over_partition_count() {
    let mut levels = levels_with_l0();
    let deltas = || {
        vec![intra(0, 7, vec![1, 2], vec![sst(10, 1, 0, 20)], 6)]
    };
    levels.apply_compact_ssts(summary(deltas()), &BTreeSet::from([1]));
    assert_eq!(levels.l0.sub_levels[0].vnode_partition_count, 6);
    assert_eq!(levels.l0.sub_levels[0].level_type, LevelType::Nonoverlapping);
    assert!(counted(&levels));
    let mut others = levels_with_l0();
    others.apply_compact_ssts(summary(deltas()), &BTreeSet::from([2]));
    assert_eq!(others.l0.sub_levels[0].vnode_partition_count, 0);
    let mut two = levels_with_l0();
    two.apply_compact_ssts(summary(deltas()), &BTreeSet::from([1, 2]));
    assert_eq!(two.l0.sub_levels[0].vnode_partition_count, 0);
}

#[test]
fn upper_level_loses_partition_count_with_several_tables() {
    let mut levels = build_initial_compaction_group_levels(1, &config());
    levels.apply_compact_ssts(
        summary(vec![intra(1, 0, vec![], vec![sst(10, 1, 0, 20)], 6)]),
        &BTreeSet::from([1]),
    );
    assert_eq!(levels.levels[0].vnode_partition_count, 6);
    levels.apply_compact_ssts(
        summary(vec![intra(1, 0, vec![], vec![sst(11, 1, 30, 40)], 0)]),
        &BTreeSet::from([1]),
    );
    assert_eq!(levels.levels[0].vnode_partition_count, 6);
    levels.apply_compact_ssts(
        summary(vec![intra(1, 0, vec![], vec![sst(12, 1, 50, 60)], 0)]),
        &BTreeSet::from([1, 2]),
    );
    assert_eq!(levels.levels[0].vnode_partition_count, 0);
}

fn version_with(groups: Vec<(u64, Levels)>) -> HummockVersion {
    let mut version = HummockVersion::default();
    version.levels = HashMap::from_iter(groups);
    version
}

fn delta_with(groups: Vec<(u64, Vec<GroupDelta>)>) -> HummockVersionDelta {
    let mut delta = HummockVersionDelta::default();
    delta.id = 1;
    delta.group_deltas = groups
        .into_iter()
        .map(|(g, group_deltas)| (g, GroupDeltas { group_deltas }))
        .collect();
    delta
}

#[test]
fn commit_adds_one_sub_level() {
    let mut version = version_with(vec![(1, levels_with_l0())]);
    let mut delta = delta_with(vec![(1, vec![intra(0, 20, vec![], vec![sst(30, 1, 0, 5)], 0)])]);
    delta.max_committed_epoch = 20;
    delta.safe_epoch = 4;
    version.apply_version_delta(&delta);
    let levels = version.get_compaction_group_levels(1);
    assert_eq!(sub_ids(&levels.l0), vec![7, 9, 20]);
    assert_eq!(levels.l0.sub_levels[2].level_type, LevelType::Overlapping);
    assert!(counted(levels));
    assert_eq!(version.max_committed_epoch, 20);
    assert_eq!(version.visible_table_safe_epoch(), 4);
    assert_eq!(version.id, 1);
}

#[test]
fn order_of_local_changes_does_not_matter() {
    let groups = || {
        vec![
            (1, levels_with_l0()),
            (2, build_initial_compaction_group_levels(2, &config())),
        ]
    };
    let delta = delta_with(vec![
        (1, vec![intra(0, 0, vec![1], vec![], 0)]),
        (2, vec![intra(1, 0, vec![], vec![sst(30, 2, 0, 5)], 0)]),
    ]);
    let mut one = version_with(groups());
    one.apply_version_delta_in_order(&delta, &vec![1, 2]);
    let mut other = version_with(groups());
    other.apply_version_delta_in_order(&delta, &vec![2, 1]);
    assert_eq!(one, other);
    assert_eq!(ids(&one.levels[&1].l0.sub_levels[0].table_infos), vec![2]);
    assert_eq!(ids(&one.levels[&2].levels[0].table_infos), vec![30]);
}

#[test]
fn constructed_group_takes_tables_from_its_parent() {
    let mut parent = build_initial_compaction_group_levels(1, &config());
    parent.levels[0].table_infos = vec![sst(1, 1, 0, 10), sst(2, 2, 0, 10)];
    parent.levels[0].total_file_size = 20;
    parent.levels[0].uncompressed_file_size = 40;
    let mut version = version_with(vec![(1, parent)]);
    let mut delta = delta_with(vec![(
        5,
        vec![GroupDelta::GroupConstruct(GroupConstruct {
            group_config: Some(config()),
            parent_group_id: 1,
            group_id: 5,
            new_sst_start_id: 100,
            version: CompatibilityVersion::NoMemberTableIds.code(),
            ..Default::default()
        })],
    )]);
    delta.state_table_info_delta.insert(
        2,
        StateTableInfo {
            committed_epoch: 1,
            safe_epoch: 0,
            compaction_group_id: 5,
        },
    );
    version.apply_version_delta(&delta);
    assert_eq!(ids(&version.levels[&5].levels[0].table_infos), vec![100]);
    assert_eq!(version.levels[&5].levels[0].table_infos[0].object_id, 2);
    assert_eq!(ids(&version.levels[&1].levels[0].table_infos), vec![1, 101]);
    assert_eq!(version.levels[&5].parent_group_id, 1);
    assert!(counted(&version.levels[&5]));
    assert_eq!(
        version
            .state_table_info
            .compaction_group_member_table_ids(5),
        BTreeSet::from([2])
    );
}

#[test]
fn older_construction_names_its_tables() {
    let mut parent = build_initial_compaction_group_levels(1, &config());
    parent.levels[0].table_infos = vec![sst(1, 1, 0, 10), sst(2, 2, 0, 10)];
    parent.levels[0].total_file_size = 20;
    parent.levels[0].uncompressed_file_size = 40;
    let mut version = version_with(vec![(1, parent)]);
    let delta = delta_with(vec![(
        5,
        vec![GroupDelta::GroupConstruct(GroupConstruct {
            group_config: Some(config()),
            parent_group_id: 1,
            group_id: 5,
            new_sst_start_id: 100,
            table_ids: vec![1],
            version: CompatibilityVersion::NoTrivialSplit.code(),
            ..Default::default()
        })],
    )]);
    version.apply_version_delta(&delta);
    assert_eq!(ids(&version.levels[&5].levels[0].table_infos), vec![100]);
    assert_eq!(version.levels[&5].levels[0].table_infos[0].object_id, 1);
    assert_eq!(version.levels[&5].member_table_ids, vec![1]);
}

#[test]
fn moved_tables_change_their_group() {
    let mut origin = build_initial_compaction_group_levels(1, &config());
    origin.member_table_ids = vec![1, 2, 3];
    origin.levels[0].table_infos = vec![sst(1, 1, 0, 10), sst(2, 2, 0, 10)];
    origin.levels[0].total_file_size = 20;
    origin.levels[0].uncompressed_file_size = 40;
    let mut target = build_initial_compaction_group_levels(5, &config());
    target.member_table_ids = vec![9];
    let mut version = version_with(vec![(1, origin), (5, target)]);
    let delta = delta_with(vec![(
        5,
        vec![GroupDelta::GroupTableChange(GroupTableChange {
            table_ids: vec![2, 3],
            target_group_id: 5,
            origin_group_id: 1,
            new_sst_start_id: 50,
            version: 1,
        })],
    )]);
    version.apply_version_delta(&delta);
    assert_eq!(version.levels[&1].member_table_ids, vec![1]);
    assert_eq!(version.levels[&5].member_table_ids, vec![9, 2, 3]);
    assert_eq!(ids(&version.levels[&5].levels[0].table_infos), vec![50]);
}

#[test]
fn merged_group_ends() {
    let mut left = build_initial_compaction_group_levels(1, &config());
    left.levels[0].table_infos = vec![sst(1, 1, 0, 10)];
    left.levels[0].total_file_size = 10;
    left.levels[0].uncompressed_file_size = 20;
    let mut right = build_initial_compaction_group_levels(2, &config());
    right.levels[0].table_infos = vec![sst(2, 2, 0, 10)];
    right.levels[0].total_file_size = 10;
    right.levels[0].uncompressed_file_size = 20;
    let mut version = version_with(vec![(1, left), (2, right)]);
    let delta = delta_with(vec![(
        1,
        vec![GroupDelta::GroupMerge(GroupMerge {
            left_group_id: 1,
            right_group_id: 2,
        })],
    )]);
    version.apply_version_delta(&delta);
    assert!(!version.levels.contains_key(&2));
    assert_eq!(ids(&version.levels[&1].levels[0].table_infos), vec![1, 2]);
    assert!(counted(&version.levels[&1]));
}

#[test]
fn members_are_added_removed_and_sorted() {
    let mut levels = build_initial_compaction_group_levels(1, &config());
    levels.member_table_ids = vec![5, 2];
    let mut version = version_with(vec![(1, levels)]);
    let delta = delta_with(vec![(
        1,
        vec![
            GroupDelta::GroupMetaChange(GroupMetaChange {
                table_ids_add: vec![9, 1],
                table_ids_remove: vec![2],
            }),
            GroupDelta::GroupMetaChange(GroupMetaChange {
                table_ids_add: vec![3],
                table_ids_remove: vec![9, 100],
            }),
        ],
    )]);
    version.apply_version_delta(&delta);
    assert_eq!(version.levels[&1].member_table_ids, vec![1, 3, 5]);
}

#[test]
fn table_infos_follow_the_delta() {
    let info = |committed_epoch: u64, compaction_group_id: u64| StateTableInfo {
        committed_epoch,
        safe_epoch: 0,
        compaction_group_id,
    };
    let mut version = HummockVersion::default();
    version.state_table_info.state_table_info =
        HashMap::from([(1, info(1, 2)), (2, info(1, 2)), (3, info(1, 2))]);
    let delta = HashMap::from([(2, info(5, 3)), (4, info(5, 2)), (1, info(9, 9))]);
    let changed = version
        .state_table_info
        .apply_delta(&delta, &HashSet::from([1, 8]));
    assert_eq!(
        version.state_table_info.state_table_info,
        HashMap::from([(2, info(5, 3)), (3, info(1, 2)), (4, info(5, 2))])
    );
    assert_eq!(
        changed,
        HashMap::from([(1, Some(info(1, 2))), (2, Some(info(1, 2))), (4, None)])
    );
    assert_eq!(
        version.state_table_info.compaction_group_member_table_ids(2),
        BTreeSet::from([3, 4])
    );
    assert!(version
        .state_table_info
        .compaction_group_member_table_ids(77)
        .is_empty());
}
