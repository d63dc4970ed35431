//! What versions hold, and what is wrong with them.
use bytes::Bytes;
use hummock_version::change_log::{EpochNewChangeLog, TableChangeLog};
use hummock_version::group_deltas::{
    CompactionConfig, GroupDelta, GroupDeltas, GroupDestroy, IntraLevelDelta,
};
use hummock_version::groups::{
    get_compaction_group_ids, get_compaction_group_ssts, get_table_compaction_group_id_mapping,
    object_size_map, object_sizes_in_order, TableGroupInfo,
};
use hummock_version::initial::build_initial_compaction_group_levels;
use hummock_version::key::{gen_key_from_bytes, FullKey};
use hummock_version::key_range::KeyRange;
use hummock_version::level::{Level, LevelType, Levels};
use hummock_version::split::{split_sst, split_sst_info_for_level, split_table_ids, SstSplitType};
use hummock_version::sstable_info::{BloomFilterType, SstableInfo};
use hummock_version::sub_level::insert_new_sub_level;
use hummock_version::text::sst_string;
use hummock_version::validate::{validate_version, violations_in_order};
use hummock_version::version::{HummockVersion, HummockVersionDelta, StateTableInfo};
use std::collections::{BTreeMap, HashMap, HashSet};

fn key(table_id: u32, vnode: u16) -> Bytes {
    let table_key = gen_key_from_bytes(vnode, b"");
    Bytes::from(FullKey::new(table_id, &table_key, 0).encode())
}

fn sst(object_id: u64, sst_id: u64, table_id: u32, from: u16, to: u16) -> SstableInfo {
    SstableInfo {
        object_id,
        sst_id,
        key_range: KeyRange {
            left: key(table_id, from),
            right: key(table_id, to),
            right_exclusive: false,
        },
        table_ids: vec![table_id],
        file_size: object_id * 100,
        estimated_sst_size: 10,
        uncompressed_file_size: 20,
        ..Default::default()
    }
}

fn group(group_id: u64) -> Levels {
    build_initial_compaction_group_levels(group_id, &CompactionConfig { max_level: 2 })
}

/// Two groups, the first with two sub-levels, and the change log of a table.
fn version() -> HummockVersion {
    let mut first = group(1);
    insert_new_sub_level(
        &mut first.l0,
        5,
        LevelType::Overlapping,
        vec![sst(1, 1, 1, 0, 9), sst(2, 2, 1, 5, 9)],
        None,
    );
    insert_new_sub_level(
        &mut first.l0,
        6,
        LevelType::Nonoverlapping,
        vec![sst(3, 30, 1, 0, 9)],
        None,
    );
    first.levels[0].table_infos = vec![sst(4, 40, 1, 0, 9), sst(5, 5, 1, 10, 19)];
    let mut second = group(2);
    second.levels[1].table_infos = vec![sst(4, 41, 2, 0, 9), sst(3, 31, 2, 10, 19)];
    let mut version = HummockVersion::default();
    version.levels = HashMap::from([(1, first), (2, second)]);
    version.table_change_log = HashMap::from([(
        1,
        TableChangeLog(vec![EpochNewChangeLog {
            new_value: vec![sst(7, 70, 1, 0, 1)],
            old_value: vec![sst(8, 80, 1, 0, 1)],
            epochs: vec![1],
        }]),
    )]);
    version
}

fn sst_ids(ssts: &[&SstableInfo]) -> Vec<u64> {
    ssts.iter().map(|s| s.sst_id).collect()
}

#[test]
fn levels_come_newest_first() {
    let v = version();
    let levels = v.combined_levels_in_order(&vec![2, 1]);
    let shape: Vec<(u32, u64)> = levels.iter().map(|l| (l.level_idx, l.sub_level_id)).collect();
    assert_eq!(shape, vec![(1, 0), (2, 0), (0, 6), (0, 5), (1, 0), (2, 0)]);
    assert_eq!(v.get_combined_levels().len(), 6);
}

#[test]
fn ssts_come_with_those_of_change_logs() {
    let v = version();
    assert_eq!(
        sst_ids(&v.sst_infos_in_order(&vec![1, 2], &vec![1])),
        vec![30, 1, 2, 40, 5, 41, 31, 80, 70]
    );
    assert_eq!(v.get_sst_infos().len(), 9);
    assert_eq!(v.get_object_ids(), HashSet::from([1, 2, 3, 4, 5, 7, 8]));
    assert_eq!(
        v.get_sst_ids(),
        HashSet::from([1, 2, 30, 40, 5, 41, 31, 70, 80])
    );
}

#[test]
fn selected_groups_come_with_all_change_logs() {
    let v = version();
    assert_eq!(
        sst_ids(&v.selected_sst_infos_in_order(&HashSet::from([2, 9]), &vec![1, 2], &vec![1])),
        vec![41, 31, 80, 70]
    );
    assert_eq!(
        sst_ids(&v.get_sst_infos_from_groups(&HashSet::from([2]))),
        vec![41, 31, 80, 70]
    );
    assert_eq!(
        sst_ids(&v.get_sst_infos_from_groups(&HashSet::new())),
        vec![80, 70]
    );
}

#[test]
fn level_count_has_level_zero() {
    let v = version();
    assert_eq!(v.num_levels(1), 3);
    assert_eq!(v.num_levels(9), 0);
}

#[test]
fn levels_are_visited_until_told_to_stop() {
    let v = version();
    let mut seen = vec![];
    v.level_iter(1, |l: &Level| {
        seen.push(l.sub_level_id);
        true
    });
    assert_eq!(seen, vec![5, 6, 0, 0]);
    let mut seen = vec![];
    v.level_iter(1, |l: &Level| {
        seen.push(l.sub_level_id);
        l.sub_level_id < 6
    });
    assert_eq!(seen, vec![5, 6]);
    let mut seen = 0;
    v.level_iter(1, |l: &Level| {
        seen += 1;
        l.level_idx != 1
    });
    assert_eq!(seen, 3);
    v.level_iter(9, |_: &Level| unreachable!());
}

#[test]
fn groups_are_found() {
    let mut v = version();
    let mut ids = get_compaction_group_ids(&v);
    ids.sort();
    assert_eq!(ids, vec![1, 2]);
    assert_eq!(v.get_compaction_group_levels(2).group_id, 2);
    v.get_compaction_group_levels_mut(2).parent_group_id = 8;
    assert_eq!(v.levels[&2].parent_group_id, 8);
    assert_eq!(v.levels[&1].parent_group_id, 0);
    assert_eq!(
        get_compaction_group_ssts(&v, 1),
        vec![(3, 30), (1, 1), (2, 2), (4, 40), (5, 5)]
    );
}

#[test]
fn tables_are_mapped_to_their_groups() {
    let mut v = version();
    let info = |compaction_group_id: u64| StateTableInfo {
        committed_epoch: 0,
        safe_epoch: 0,
        compaction_group_id,
    };
    v.state_table_info.state_table_info = HashMap::from([(1, info(1)), (2, info(2)), (3, info(1))]);
    assert_eq!(
        get_table_compaction_group_id_mapping(&v),
        HashMap::from([(1, 1), (2, 2), (3, 1)])
    );
    assert_eq!(v.state_table_info.info().len(), 3);
}

#[test]
fn objects_have_their_sizes() {
    let mut v = version();
    assert_eq!(
        object_size_map(&v),
        HashMap::from([(1, 100), (2, 200), (3, 300), (4, 400), (5, 500)])
    );
    v.levels.get_mut(&2).unwrap().levels[1].table_infos[0].file_size = 7;
    assert_eq!(object_sizes_in_order(&v, &vec![1, 2])[&4], 7);
    assert_eq!(object_sizes_in_order(&v, &vec![2, 1])[&4], 400);
}

#[test]
fn copied_group_info_is_the_same() {
    let info = TableGroupInfo {
        group_id: 3,
        group_size: 9,
        table_statistic: HashMap::from([(1, 2)]),
        split_by_table: true,
    };
    let copy = info.clone();
    assert_eq!(copy.group_id, 3);
    assert_eq!(copy.group_size, 9);
    assert_eq!(copy.table_statistic, HashMap::from([(1, 2)]));
    assert!(copy.split_by_table);
}

#[test]
fn branches_are_listed_by_object_and_group() {
    let mut v = version();
    v.levels.get_mut(&1).unwrap().levels[1].table_infos = vec![sst(4, 42, 1, 20, 29)];
    assert_eq!(
        v.build_branched_sst_info(),
        BTreeMap::from([
            (3, HashMap::from([(1, vec![30]), (2, vec![31])])),
            (4, HashMap::from([(1, vec![40, 42]), (2, vec![41])])),
        ])
    );
}

#[test]
fn move_needs_two_ids_for_each_sst_touched() {
    let mut v = version();
    v.levels.get_mut(&1).unwrap().levels[0].table_infos[0].table_ids = vec![1, 3];
    assert_eq!(v.count_new_ssts_in_group_split(1, HashSet::from([3])), 2);
    assert_eq!(v.count_new_ssts_in_group_split(1, HashSet::from([1, 3])), 10);
    assert_eq!(v.count_new_ssts_in_group_split(1, HashSet::new()), 0);
    assert_eq!(v.count_new_ssts_in_group_split(9, HashSet::from([1])), 0);
}

#[test]
fn split_needs_ids_for_overlapping_and_for_cut_ssts() {
    let v = version();
    // Two for each SST of the overlapping sub-level, and two for each SST that the key cuts.
    assert_eq!(v.count_new_ssts_in_group_split_v2(1, key(1, 5)), 8);
    assert_eq!(v.count_new_ssts_in_group_split_v2(1, key(1, 15)), 6);
    assert_eq!(v.count_new_ssts_in_group_split_v2(1, key(3, 0)), 4);
    assert_eq!(v.count_new_ssts_in_group_split_v2(2, key(2, 5)), 2);
    assert_eq!(v.count_new_ssts_in_group_split_v2(9, key(2, 5)), 0);
}

#[test]
fn sst_is_cut_by_keys_inside_it() {
    let mut s = sst(1, 1, 1, 5, 9);
    assert_eq!(HummockVersion::need_to_split(&s, key(1, 4)), SstSplitType::Right);
    assert_eq!(HummockVersion::need_to_split(&s, key(1, 5)), SstSplitType::Right);
    assert_eq!(HummockVersion::need_to_split(&s, key(1, 6)), SstSplitType::Both);
    assert_eq!(HummockVersion::need_to_split(&s, key(1, 9)), SstSplitType::Both);
    assert_eq!(HummockVersion::need_to_split(&s, key(1, 10)), SstSplitType::Left);
    s.key_range.right_exclusive = true;
    assert_eq!(HummockVersion::need_to_split(&s, key(1, 9)), SstSplitType::Left);
}

#[test]
fn split_position_is_the_last_that_starts_earlier() {
    let ssts = vec![sst(1, 1, 1, 0, 4), sst(2, 2, 1, 5, 9), sst(3, 3, 1, 10, 14)];
    assert_eq!(HummockVersion::get_split_pos(&ssts, key(0, 0)), 0);
    assert_eq!(HummockVersion::get_split_pos(&ssts, key(1, 5)), 0);
    assert_eq!(HummockVersion::get_split_pos(&ssts, key(1, 6)), 1);
    assert_eq!(HummockVersion::get_split_pos(&ssts, key(1, 99)), 2);
}

#[test]
fn halves_meet_at_the_key() {
    let mut left = sst(1, 1, 1, 0, 9);
    left.table_ids = vec![1, 2, 3];
    left.estimated_sst_size = 11;
    let mut id = 50;
    let right = HummockVersion::split_sst_v2(&mut left, &mut id, Some(key(2, 0)));
    assert_eq!(id, 51);
    assert_eq!((right.sst_id, left.sst_id), (50, 51));
    assert_eq!((right.object_id, left.object_id), (1, 1));
    assert_eq!(left.key_range.left, key(1, 0));
    assert_eq!(left.key_range.right, key(2, 0));
    assert!(left.key_range.right_exclusive);
    assert_eq!(right.key_range.left, key(2, 0));
    assert_eq!(right.key_range.right, key(1, 9));
    assert!(!right.key_range.right_exclusive);
    assert_eq!(left.table_ids, vec![1]);
    assert_eq!(right.table_ids, vec![2, 3]);
    assert_eq!((left.estimated_sst_size, right.estimated_sst_size), (5, 5));
    assert_eq!((left.file_size, right.file_size), (100, 100));
}

#[test]
fn tables_part_at_the_key() {
    let ids = vec![1, 3, 5];
    assert_eq!(split_table_ids(&ids, key(3, 0)), (vec![1], vec![3, 5]));
    assert_eq!(split_table_ids(&ids, key(3, 1)), (vec![1, 3], vec![3, 5]));
    assert_eq!(split_table_ids(&ids, key(2, 0)), (vec![1], vec![3, 5]));
    assert_eq!(split_table_ids(&ids, key(9, 0)), (vec![1, 3, 5], vec![]));
    assert_eq!(split_table_ids(&ids, key(0, 0)), (vec![], vec![1, 3, 5]));
}

#[test]
fn members_take_branches_of_their_ssts() {
    let mut level = Level {
        table_infos: vec![sst(1, 1, 1, 0, 9), sst(2, 2, 2, 0, 9), sst(3, 3, 3, 0, 9)],
        ..Default::default()
    };
    let mut id = 20;
    let branched = split_sst_info_for_level(&HashSet::from([1, 3]), &mut level, &mut id);
    assert_eq!(sst_ids(&branched.iter().collect::<Vec<_>>()), vec![20, 21]);
    assert_eq!(sst_ids(&level.table_infos.iter().collect::<Vec<_>>()), vec![21, 2, 22]);
    assert_eq!(branched[1].object_id, 3);
    assert_eq!(id, 22);
    let branch = split_sst(&mut level.table_infos[1], &mut id);
    assert_eq!((branch.sst_id, level.table_infos[1].sst_id, id), (22, 23, 23));
}

fn delta(groups: Vec<(u64, Vec<GroupDelta>)>) -> HummockVersionDelta {
    let mut delta = HummockVersionDelta::default();
    delta.group_deltas = groups
        .into_iter()
        .map(|(g, group_deltas)| (g, GroupDeltas { group_deltas }))
        .collect();
    delta
}

fn intra(level_idx: u32, removed: Vec<u64>, inserted: Vec<SstableInfo>) -> GroupDelta {
    GroupDelta::IntraLevel(IntraLevelDelta::new(level_idx, 0, removed, inserted, 0))
}

#[test]
fn changed_ssts_are_told_by_group() {
    let v = version();
    let mut d = delta(vec![
        (
            1,
            vec![
                intra(0, vec![2, 30], vec![]),
                intra(1, vec![5], vec![]),
                intra(1, vec![], vec![sst(9, 9, 1, 0, 1)]),
            ],
        ),
        (2, vec![GroupDelta::GroupDestroy(GroupDestroy {})]),
    ]);
    let infos = v.build_sst_delta_infos(&d);
    assert_eq!(infos.len(), 1);
    assert_eq!(infos[0].insert_sst_level, 1);
    assert_eq!(infos[0].insert_sst_infos, vec![sst(9, 9, 1, 0, 1)]);
    assert_eq!(infos[0].delete_sst_object_ids, vec![2, 3, 5]);
    d.trivial_move = true;
    assert!(v.build_sst_delta_infos(&d).is_empty());
}

#[test]
fn ssts_are_sought_in_the_named_level() {
    let v = version();
    let d = delta(vec![
        (1, vec![intra(1, vec![40], vec![])]),
        (2, vec![intra(2, vec![41], vec![])]),
    ]);
    let infos = v.sst_delta_infos_in_order(&d, &vec![2, 1]);
    let removed: Vec<Vec<u64>> = infos.iter().map(|i| i.delete_sst_object_ids.clone()).collect();
    assert_eq!(removed, vec![vec![4], vec![4]]);
    assert_eq!(infos[0].insert_sst_level, 0);
}

#[test]
fn initial_groups_are_valid() {
    let mut v = HummockVersion::default();
    v.levels = HashMap::from([(1, group(1)), (2, group(2))]);
    assert!(validate_version(&v).is_empty());
    v.levels.get_mut(&1).unwrap().l0.sub_levels = vec![
        Level {
            table_infos: vec![sst(1, 1, 1, 0, 9)],
            sub_level_id: 6,
            level_type: LevelType::Overlapping,
            ..Default::default()
        },
        Level {
            table_infos: vec![sst(2, 2, 1, 0, 9)],
            sub_level_id: 5,
            level_type: LevelType::Overlapping,
            ..Default::default()
        },
    ];
    assert!(validate_version(&v).is_empty());
}

#[test]
fn violations_are_told() {
    let mut v = HummockVersion::default();
    v.safe_epoch = 10;
    v.max_committed_epoch = 9;
    let mut levels = group(1);
    levels.group_id = 3;
    levels.l0.sub_levels = vec![
        Level {
            table_infos: vec![],
            sub_level_id: 5,
            level_type: LevelType::Overlapping,
            ..Default::default()
        },
        Level {
            table_infos: vec![sst(2, 2, 1, 0, 9)],
            sub_level_id: 6,
            level_type: LevelType::Overlapping,
            ..Default::default()
        },
    ];
    levels.l0.sub_levels[1].table_infos[0].table_ids = vec![2, 2];
    levels.levels[0].level_type = LevelType::Overlapping;
    levels.levels[0].level_idx = 7;
    let prev = sst(11, 12, 1, 0, 9);
    let mut cur = sst(13, 14, 1, 9, 19);
    cur.bloom_filter_kind = BloomFilterType::Blocked;
    cur.table_ids = vec![1, 2];
    let overlap = format!(
        "GROUP 1 LEVEL 2 SST 13: key range should not overlap. prev={:?}, cur={:?}",
        prev, cur
    );
    levels.levels[1].table_infos = vec![prev, cur];
    v.levels = HashMap::from([(1, levels)]);
    let expected = vec![
        "VERSION: safe_epoch 10 > max_committed_epoch 9".to_owned(),
        "GROUP 1: inconsistent group id 3 in Levels".to_owned(),
        "GROUP 1 LEVEL 0SUBLEVEL 5: empty level".to_owned(),
        "GROUP 1 LEVEL 0: sub_level_id 0 >= prev_sub_level 5".to_owned(),
        "GROUP 1 LEVEL 0SUBLEVEL 6 SST 2: table_ids not sorted".to_owned(),
        "GROUP 1 LEVEL 7: level type Overlapping is not non-overlapping".to_owned(),
        "GROUP 1 LEVEL 7: mismatched level idx 1".to_owned(),
        overlap,
    ];
    assert_eq!(validate_version(&v), expected);
    assert_eq!(violations_in_order(&v, &vec![1]), expected);
}

#[test]
fn description_of_an_sst_names_its_fields() {
    let mut s = sst(1, 2, 3, 4, 5);
    s.table_ids = vec![1, 22, 333];
    s.key_range.left = Bytes::from_static(b"a\"\\\n\r\t\0\x01\x7f\xff ~'");
    s.key_range.right_exclusive = true;
    s.bloom_filter_kind = BloomFilterType::Sstable;
    s.max_epoch = u64::MAX;
    assert_eq!(sst_string(&s), format!("{:?}", s));
    let mut blank = SstableInfo::default();
    assert_eq!(sst_string(&blank), format!("{:?}", blank));
    blank.key_range.left = Bytes::from((0..=255).collect::<Vec<u8>>());
    assert_eq!(sst_string(&blank), format!("{:?}", blank));
}
