//! What versions keep over commits, compactions, splits and merges.
use bytes::Bytes;
use hummock_version::group_deltas::{
    CompactionConfig, CompatibilityVersion, GroupConstruct, GroupDelta, GroupDeltas, GroupMerge,
    IntraLevelDelta,
};
use hummock_version::initial::build_initial_compaction_group_levels;
use hummock_version::key::{gen_key_from_bytes, FullKey};
use hummock_version::key_range::KeyRange;
use hummock_version::level::{LevelType, Levels};
use hummock_version::sstable_info::{can_concat, SstableInfo};
use hummock_version::sub_level::insert_new_sub_level;
use hummock_version::validate::validate_version;
use hummock_version::version::{HummockVersion, HummockVersionDelta, StateTableInfo};
use std::collections::{BTreeSet, HashMap, HashSet};

fn key(table_id: u32, vnode: u16) -> Bytes {
    let table_key = gen_key_from_bytes(vnode, b"");
    Bytes::from(FullKey::new(table_id, &table_key, 0).encode())
}

/// An SST over the tables from one to another.
fn sst(sst_id: u64, from: u32, to: u32) -> SstableInfo {
    SstableInfo {
        object_id: sst_id,
        sst_id,
        key_range: KeyRange {
            left: key(from, 0),
            right: key(to, 9),
            right_exclusive: false,
        },
        table_ids: (from..=to).collect(),
        file_size: 10,
        estimated_sst_size: 10,
        uncompressed_file_size: 20,
        ..Default::default()
    }
}

fn info(compaction_group_id: u64) -> StateTableInfo {
    StateTableInfo {
        committed_epoch: 1,
        safe_epoch: 0,
        compaction_group_id,
    }
}

fn config() -> CompactionConfig {
    CompactionConfig { max_level: 2 }
}

/// A group with an overlapping sub-level, one without overlaps, and a level above.
fn filled_group() -> Levels {
    let mut levels = build_initial_compaction_group_levels(1, &config());
    insert_new_sub_level(
        &mut levels.l0,
        3,
        LevelType::Nonoverlapping,
        vec![sst(1, 1, 2), sst(2, 3, 4)],
        None,
    );
    insert_new_sub_level(
        &mut levels.l0,
        8,
        LevelType::Overlapping,
        vec![sst(3, 1, 4), sst(4, 2, 3)],
        None,
    );
    levels.levels[1].table_infos = vec![sst(5, 1, 1), sst(6, 2, 3), sst(7, 4, 4)];
    levels.levels[1].total_file_size = 30;
    levels.levels[1].uncompressed_file_size = 60;
    levels
}

fn version() -> HummockVersion {
    let mut version = HummockVersion::default();
    version.levels = HashMap::from([(1, filled_group())]);
    version.state_table_info.state_table_info =
        (1..=4).map(|t| (t, info(1))).collect();
    version
}

fn delta(version: &HummockVersion, groups: Vec<(u64, Vec<GroupDelta>)>) -> HummockVersionDelta {
    let mut delta = HummockVersionDelta::default();
    delta.prev_id = version.id;
    delta.id = version.id + 1;
    delta.max_committed_epoch = version.max_committed_epoch;
    delta.group_deltas = groups
        .into_iter()
        .map(|(g, group_deltas)| (g, GroupDeltas { group_deltas }))
        .collect();
    delta
}

fn intra(level_idx: u32, sub: u64, removed: Vec<u64>, inserted: Vec<SstableInfo>) -> GroupDelta {
    GroupDelta::IntraLevel(IntraLevelDelta::new(level_idx, sub, removed, inserted, 0))
}

fn orderly(version: &HummockVersion) -> bool {
    version.levels.iter().all(|(id, levels)| {
        levels.group_id == *id
            && levels
                .l0
                .sub_levels
                .windows(2)
                .all(|w| w[0].sub_level_id < w[1].sub_level_id)
    })
}

fn apart(version: &HummockVersion) -> bool {
    version
        .get_combined_levels()
        .iter()
        .all(|l| l.level_type != LevelType::Nonoverlapping || can_concat(&l.table_infos))
}

fn counted(version: &HummockVersion) -> bool {
    version.get_combined_levels().iter().all(|l| {
        l.total_file_size == l.table_infos.iter().map(|s| s.estimated_sst_size).sum::<u64>()
    }) && version.levels.values().all(|levels| {
        levels.l0.total_file_size
            == levels.l0.sub_levels.iter().map(|l| l.total_file_size).sum::<u64>()
    })
}

fn split_delta(version: &HummockVersion, split_key: Option<Bytes>) -> HummockVersionDelta {
    let mut d = delta(
        version,
        vec![(
            2,
            vec![GroupDelta::GroupConstruct(GroupConstruct {
                group_config: Some(config()),
                parent_group_id: 1,
                group_id: 2,
                new_sst_start_id: 100,
                version: CompatibilityVersion::NoMemberTableIds.code(),
                split_key: split_key.map(|k| k.to_vec()),
                ..Default::default()
            })],
        )],
    );
    d.state_table_info_delta = HashMap::from([(3, info(2)), (4, info(2))]);
    d
}

#[test]
fn split_at_a_key_keeps_objects_order_and_distance() {
    let mut v = version();
    let before = v.get_object_ids();
    let d = split_delta(&v, Some(key(3, 0)));
    v.apply_version_delta(&d);
    assert_eq!(v.get_object_ids(), before);
    assert!(orderly(&v));
    assert!(apart(&v));
    let ids = |levels: &Levels, i: usize| -> Vec<u64> {
        levels.levels[i].table_infos.iter().map(|s| s.sst_id).collect()
    };
    // The overlapping sub-level takes two ids, and the cut SST the next two.
    assert_eq!(ids(&v.levels[&1], 1), vec![5, 103]);
    assert_eq!(ids(&v.levels[&2], 1), vec![102, 7]);
    assert_eq!(v.levels[&1].levels[1].table_infos[1].table_ids, vec![2]);
    assert_eq!(v.levels[&2].levels[1].table_infos[0].table_ids, vec![3]);
    assert_eq!(v.levels[&2].levels[1].total_file_size, 15);
    assert_eq!(v.levels[&1].levels[1].total_file_size, 15);
    let sub: Vec<u64> = v.levels[&2].l0.sub_levels.iter().map(|l| l.sub_level_id).collect();
    assert_eq!(sub, vec![3, 8]);
    assert_eq!(
        v.state_table_info.compaction_group_member_table_ids(2),
        BTreeSet::from([3, 4])
    );
    assert_eq!(
        v.state_table_info.compaction_group_member_table_ids(1),
        BTreeSet::from([1, 2])
    );
}

#[test]
fn split_takes_half_the_ids_that_are_set_aside() {
    let mut v = version();
    let set_aside = v.count_new_ssts_in_group_split_v2(1, key(3, 0));
    assert_eq!(set_aside, 6);
    v.init_with_parent_group(7, 1, HashSet::new(), 100, None);
    assert_eq!(v, version());
    let d = split_delta(&v, Some(key(3, 0)));
    v.apply_version_delta(&d);
    let new_ids: BTreeSet<u64> = v.get_sst_ids().into_iter().filter(|id| *id >= 100).collect();
    assert_eq!(new_ids, BTreeSet::from([100, 101, 102, 103]));
    assert!(new_ids.iter().all(|id| *id < 100 + set_aside));
}

#[test]
fn move_of_tables_keeps_objects_and_counts() {
    let mut v = version();
    let before = v.get_object_ids();
    let needed = v.count_new_ssts_in_group_split(1, HashSet::from([3, 4]));
    assert_eq!(needed, 10);
    let d = split_delta(&v, None);
    v.apply_version_delta(&d);
    assert_eq!(v.get_object_ids(), before);
    assert!(orderly(&v));
    assert!(apart(&v));
    assert!(counted(&v));
    assert!(v.get_sst_ids().into_iter().all(|id| id < 100 + needed));
}

#[test]
fn merge_keeps_objects_order_counts_and_distance() {
    let mut v = version();
    let mut right = build_initial_compaction_group_levels(2, &config());
    insert_new_sub_level(
        &mut right.l0,
        3,
        LevelType::Nonoverlapping,
        vec![sst(11, 5, 6)],
        None,
    );
    insert_new_sub_level(
        &mut right.l0,
        9,
        LevelType::Overlapping,
        vec![sst(12, 5, 6)],
        None,
    );
    right.levels[1].table_infos = vec![sst(13, 5, 6)];
    right.levels[1].total_file_size = 10;
    v.levels.insert(2, right);
    let before = v.get_object_ids();
    let d = delta(
        &v,
        vec![(
            1,
            vec![GroupDelta::GroupMerge(GroupMerge {
                left_group_id: 1,
                right_group_id: 2,
            })],
        )],
    );
    v.apply_version_delta(&d);
    assert_eq!(v.get_object_ids(), before);
    assert!(orderly(&v));
    assert!(apart(&v));
    assert!(counted(&v));
    assert_eq!(v.levels.len(), 1);
    let sub: Vec<u64> = v.levels[&1].l0.sub_levels.iter().map(|l| l.sub_level_id).collect();
    assert_eq!(sub, vec![3, 8, 9]);
}

#[test]
fn commits_add_and_compactions_replace() {
    let mut v = version();
    let mut d = delta(&v, vec![(1, vec![intra(0, 12, vec![], vec![sst(20, 1, 4)])])]);
    d.max_committed_epoch = 12;
    let before = v.get_sst_ids();
    v.apply_version_delta(&d);
    let mut expected = before.clone();
    expected.insert(20);
    assert_eq!(v.get_sst_ids(), expected);
    assert!(orderly(&v) && counted(&v) && apart(&v));

    let d = delta(
        &v,
        vec![(
            1,
            vec![
                intra(0, 0, vec![1, 3], vec![]),
                intra(2, 0, vec![6], vec![]),
                intra(2, 0, vec![], vec![sst(21, 2, 2), sst(22, 3, 3)]),
            ],
        )],
    );
    v.apply_version_delta(&d);
    for gone in [1, 3, 6] {
        expected.remove(&gone);
    }
    expected.extend([21, 22]);
    assert_eq!(v.get_sst_ids(), expected);
    assert!(orderly(&v) && counted(&v) && apart(&v));
    let ids: Vec<u64> = v.levels[&1].levels[1].table_infos.iter().map(|s| s.sst_id).collect();
    assert_eq!(ids, vec![5, 21, 22, 7]);

    let expired = delta(&v, vec![(1, vec![intra(0, 0, vec![1], vec![sst(30, 9, 9)])])]);
    v.apply_version_delta(&expired);
    assert_eq!(v.get_sst_ids(), expected);
    assert_eq!(v.id, 3);
}

#[test]
fn deletion_keeps_the_rest_apart() {
    let mut v = version();
    let d = delta(&v, vec![(1, vec![intra(2, 0, vec![6], vec![])])]);
    v.apply_version_delta(&d);
    assert!(apart(&v));
    assert!(counted(&v));
    // Sub-levels are valid from the newest to the oldest; nothing else is amiss.
    assert_eq!(
        validate_version(&v),
        vec!["GROUP 1 LEVEL 0: sub_level_id 0 >= prev_sub_level 3".to_owned()]
    );
}

fn sub_ids(levels: &Levels) -> Vec<u64> {
    levels.l0.sub_levels.iter().map(|l| l.sub_level_id).collect()
}

#[test]
fn split_leaves_the_list_of_sub_levels_of_the_parent() {
    let mut v = version();
    // At this key the first sub-level goes over as a whole and stays behind empty.
    let mut target = build_initial_compaction_group_levels(2, &config());
    insert_new_sub_level(
        &mut target.l0,
        5,
        LevelType::Overlapping,
        vec![sst(40, 7, 8)],
        None,
    );
    v.levels.insert(2, target);
    v.init_with_parent_group(1, 2, HashSet::new(), 100, Some(key(1, 0)));
    assert_eq!(sub_ids(&v.levels[&1]), vec![3, 8]);
    assert!(v.levels[&1].l0.sub_levels[0].table_infos.is_empty());
    assert_eq!(sub_ids(&v.levels[&2]), vec![3, 5, 8]);
    assert!(orderly(&v));
}

#[test]
fn merge_joins_ids_and_ssts_of_sub_levels() {
    let mut left = filled_group();
    let mut right = build_initial_compaction_group_levels(2, &config());
    insert_new_sub_level(
        &mut right.l0,
        3,
        LevelType::Nonoverlapping,
        vec![sst(11, 5, 6)],
        None,
    );
    insert_new_sub_level(
        &mut right.l0,
        8,
        LevelType::Overlapping,
        vec![sst(12, 1, 6), sst(13, 1, 6)],
        None,
    );
    insert_new_sub_level(
        &mut right.l0,
        9,
        LevelType::Overlapping,
        vec![sst(14, 5, 6)],
        None,
    );
    let l0 = right.l0.clone();
    HummockVersion::merge_levels(&mut left, &mut right);
    assert_eq!(sub_ids(&left), vec![3, 8, 9]);
    let held: Vec<BTreeSet<u64>> = left
        .l0
        .sub_levels
        .iter()
        .map(|l| l.table_infos.iter().map(|s| s.sst_id).collect())
        .collect();
    assert_eq!(
        held,
        vec![
            BTreeSet::from([1, 2, 11]),
            BTreeSet::from([3, 4, 12, 13]),
            BTreeSet::from([14]),
        ]
    );
    assert_eq!(right.l0, l0);
}

#[test]
fn splits_of_single_levels_take_half_the_ids_set_aside() {
    let v = version();
    for split_key in [key(1, 0), key(2, 5), key(3, 0), key(3, 1), key(4, 5), key(9, 0)] {
        let levels = filled_group();
        let mut id = 100;
        for mut level in levels.l0.sub_levels.into_iter().chain(levels.levels) {
            HummockVersion::split_sst_info_for_level_v2(&mut level, &mut id, split_key.clone());
        }
        assert_eq!(
            v.count_new_ssts_in_group_split_v2(1, split_key),
            2 * (id - 100)
        );
    }
    assert_eq!(v.count_new_ssts_in_group_split_v2(9, key(3, 0)), 0);
}

#[test]
fn selecting_every_group_lists_all_ssts() {
    let mut v = version();
    let mut other = build_initial_compaction_group_levels(2, &config());
    other.levels[0].table_infos = vec![sst(50, 7, 7), sst(51, 8, 8)];
    v.levels.insert(2, other);
    let ids = |ssts: Vec<&SstableInfo>| {
        let mut ids: Vec<u64> = ssts.iter().map(|s| s.sst_id).collect();
        ids.sort();
        ids
    };
    let all = ids(v.get_sst_infos());
    assert_eq!(all, vec![1, 2, 3, 4, 5, 6, 7, 50, 51]);
    assert_eq!(
        ids(v.get_sst_infos_from_groups(&HashSet::from([1, 2, 77]))),
        all
    );
    assert_eq!(
        ids(v.get_sst_infos_from_groups(&HashSet::from([2]))),
        vec![50, 51]
    );
    assert_eq!(
        ids(v.sst_infos_in_order(&vec![2, 1], &vec![])),
        ids(v.sst_infos_in_order(&vec![1, 2], &vec![]))
    );
}
