//! The behaviour of versions under deltas, splits and merges.
use bytes::Bytes;
use hummock_version::group_deltas::{
    CompactionConfig, GroupConstruct, GroupDelta, GroupDeltas, GroupDestroy, IntraLevelDelta,
};
use hummock_version::initial::build_initial_compaction_group_levels;
use hummock_version::key::{gen_key_from_bytes, FullKey};
use hummock_version::key_range::KeyRange;
use hummock_version::level::{Level, LevelType, Levels, OverlappingLevel};
use hummock_version::split::SstSplitType;
use hummock_version::sstable_info::SstableInfo;
use hummock_version::version::{HummockVersion, HummockVersionDelta};
use std::collections::HashMap;

/// The epoch with the given number.
fn test_epoch(n: u64) -> u64 {
    n << 16
}

/// A user key followed by an epoch.
fn key_with_epoch(mut key: Vec<u8>, epoch: u64) -> Vec<u8> {
    key.extend_from_slice(&epoch.to_be_bytes());
    key
}

/// An encoded full key.
fn full_key(table_id: u32, vnode: u16, payload: &str, epoch: u64) -> Vec<u8> {
    let table_key = gen_key_from_bytes(vnode, payload.as_bytes());
    FullKey::new(table_id, &table_key, epoch).encode()
}

#[test]
fn test_get_sst_object_ids() {
    let mut version = HummockVersion::default();
    version.id = 0;
    version.levels = HashMap::from_iter([(
        0,
        Levels {
            levels: vec![],
            l0: OverlappingLevel {
                sub_levels: vec![],
                total_file_size: 0,
                uncompressed_file_size: 0,
            },
            ..Default::default()
        },
    )]);
    assert_eq!(version.get_object_ids().len(), 0);

    // Add to sub level
    version
        .levels
        .get_mut(&0)
        .unwrap()
        .l0
        .sub_levels
        .push(Level {
            table_infos: vec![SstableInfo {
                object_id: 11,
                sst_id: 11,
                ..Default::default()
            }],
            ..Default::default()
        });
    assert_eq!(version.get_object_ids().len(), 1);

    // Add to non sub level
    version.levels.get_mut(&0).unwrap().levels.push(Level {
        table_infos: vec![SstableInfo {
            object_id: 22,
            sst_id: 22,
            ..Default::default()
        }],
        ..Default::default()
    });
    assert_eq!(version.get_object_ids().len(), 2);
}

#[test]
fn test_apply_version_delta() {
    let mut version = HummockVersion::default();
    version.id = 0;
    version.levels = HashMap::from_iter([
        (
            0,
            build_initial_compaction_group_levels(
                0,
                &CompactionConfig {
                    max_level: 6,
                    ..Default::default()
                },
            ),
        ),
        (
            1,
            build_initial_compaction_group_levels(
                1,
                &CompactionConfig {
                    max_level: 6,
                    ..Default::default()
                },
            ),
        ),
    ]);
    let mut version_delta = HummockVersionDelta::default();
    version_delta.id = 1;
    version_delta.group_deltas = HashMap::from_iter([
        (
            2,
            GroupDeltas {
                group_deltas: vec![GroupDelta::GroupConstruct(GroupConstruct {
                    group_config: Some(CompactionConfig {
                        max_level: 6,
                        ..Default::default()
                    }),
                    ..Default::default()
                })],
            },
        ),
        (
            0,
            GroupDeltas {
                group_deltas: vec![GroupDelta::GroupDestroy(GroupDestroy {})],
            },
        ),
        (
            1,
            GroupDeltas {
                group_deltas: vec![GroupDelta::IntraLevel(IntraLevelDelta::new(
                    1,
                    0,
                    vec![],
                    vec![SstableInfo {
                        object_id: 1,
                        sst_id: 1,
                        ..Default::default()
                    }],
                    0,
                ))],
            },
        ),
    ]);
    let version_delta = version_delta;

    version.apply_version_delta(&version_delta);
    let mut cg1 = build_initial_compaction_group_levels(
        1,
        &CompactionConfig {
            max_level: 6,
            ..Default::default()
        },
    );
    cg1.levels[0] = Level {
        level_idx: 1,
        level_type: LevelType::Nonoverlapping,
        table_infos: vec![SstableInfo {
            object_id: 1,
            sst_id: 1,
            ..Default::default()
        }],
        ..Default::default()
    };
    assert_eq!(version, {
        let mut version = HummockVersion::default();
        version.id = 1;
        version.levels = HashMap::from_iter([
            (
                2,
                build_initial_compaction_group_levels(
                    2,
                    &CompactionConfig {
                        max_level: 6,
                        ..Default::default()
                    },
                ),
            ),
            (1, cg1),
        ]);
        version
    });
}

#[test]
fn test_get_split_pos() {
    pub fn generate_test_sstables_with_table_id(
        epoch: u64,
        table_id: u32,
        sst_ids: Vec<u64>,
    ) -> Vec<SstableInfo> {
        let mut sst_info = vec![];
        for (i, sst_id) in sst_ids.into_iter().enumerate() {
            sst_info.push(SstableInfo {
                object_id: sst_id,
                sst_id,
                key_range: KeyRange {
                    left: key_with_epoch(
                        format!("{:03}\0\0_key_test_{:05}", table_id, i + 1)
                            .as_bytes()
                            .to_vec(),
                        epoch,
                    ).into(),
                    right: key_with_epoch(
                        format!("{:03}\0\0_key_test_{:05}", table_id, (i + 1) * 10)
                            .as_bytes()
                            .to_vec(),
                        epoch,
                    ).into(),
                    right_exclusive: false,
                },
                file_size: 2,
                table_ids: vec![table_id],
                uncompressed_file_size: 2,
                max_epoch: epoch,
                ..Default::default()
            });
        }
        sst_info
    }

    let ssts = generate_test_sstables_with_table_id(10, 10, vec![1, 2, 3, 4, 5]);
    let split_key = key_with_epoch(
        format!("{:03}\0\0_key_test_{:05}", 10, 3)
            .as_bytes()
            .to_vec(),
        10,
    );

    let pos = HummockVersion::get_split_pos(&ssts, split_key.clone().into());
    assert_eq!(1, pos);

    let pos = HummockVersion::get_split_pos(&vec![], split_key.into());
    assert_eq!(0, pos);
}

#[test]
fn test_split_sst() {
    {
        let epoch = test_epoch(1);
        let full_key_l = full_key(3, 0, "1", epoch);
        let full_key_r = full_key(5, 255, "1", epoch);

        let sst = SstableInfo {
            object_id: 1,
            sst_id: 1,
            key_range: KeyRange {
                left: full_key_l.into(),
                right: full_key_r.into(),
                right_exclusive: false,
            },
            table_ids: vec![1, 2, 3, 4, 5],
            uncompressed_file_size: 2,
            file_size: 100,
            estimated_sst_size: 100,
            ..Default::default()
        };

        {
            let split_key = {
                full_key(3, 0, "", 0)
            };
            let mut origin_sst = sst.clone();
            let split_type =
                HummockVersion::need_to_split(&origin_sst, split_key.clone().into());
            assert_eq!(SstSplitType::Right, split_type);

            let mut new_sst_id = 10;
            let branched_sst = HummockVersion::split_sst_v2(
                &mut origin_sst,
                &mut new_sst_id,
                Some(split_key.into()),
            );

            assert!(origin_sst.key_range.right_exclusive);
            assert!(origin_sst
                .key_range
                .right
                .cmp(&branched_sst.key_range.left)
                .is_le());
            assert!(origin_sst.table_ids.is_sorted());
            assert!(branched_sst.table_ids.is_sorted());
            assert!(
                origin_sst.table_ids.last().unwrap() < branched_sst.table_ids.first().unwrap()
            );
            assert!(branched_sst.estimated_sst_size < origin_sst.file_size);
            assert_eq!(10, branched_sst.sst_id);
            assert_eq!(11, origin_sst.sst_id);
            assert_eq!(&3, branched_sst.table_ids.first().unwrap()); // split table_id to right
        }

        {
            let split_key = {
                full_key(3, 255, "", 0)
            };
            let mut origin_sst = sst.clone();
            let split_type =
                HummockVersion::need_to_split(&origin_sst, split_key.clone().into());
            assert_eq!(SstSplitType::Both, split_type);

            let mut new_sst_id = 10;
            let branched_sst = HummockVersion::split_sst_v2(
                &mut origin_sst,
                &mut new_sst_id,
                Some(split_key.into()),
            );

            assert!(origin_sst.key_range.right_exclusive);
            assert!(origin_sst
                .key_range
                .right
                .cmp(&branched_sst.key_range.left)
                .is_le());
            assert!(origin_sst.table_ids.is_sorted());
            assert!(branched_sst.table_ids.is_sorted());
            assert!(
                origin_sst.table_ids.last().unwrap() == branched_sst.table_ids.first().unwrap()
            );
            assert!(branched_sst.estimated_sst_size < origin_sst.file_size);
            assert_eq!(10, branched_sst.sst_id);
            assert_eq!(11, origin_sst.sst_id);
            assert_eq!(&3, branched_sst.table_ids.first().unwrap()); // split table_id to right
        }

        let split_key = {
            full_key(6, 0, "", 0)
        };
        let origin_sst = sst.clone();
        let split_type = HummockVersion::need_to_split(&origin_sst, split_key.into());
        assert_eq!(SstSplitType::Left, split_type);

        let split_key = {
            full_key(4, 0, "", 0)
        };
        let origin_sst = sst.clone();
        let split_type = HummockVersion::need_to_split(&origin_sst, split_key.into());
        assert_eq!(SstSplitType::Both, split_type);

        let split_key = {
            full_key(3, 0, "", 0)
        };
        let origin_sst = sst.clone();
        let split_type = HummockVersion::need_to_split(&origin_sst, split_key.into());
        assert_eq!(SstSplitType::Right, split_type);

        let split_key = {
            full_key(5, 255, "", 0)
        };
        let origin_sst = sst.clone();
        let split_type = HummockVersion::need_to_split(&origin_sst, split_key.clone().into());
        assert_eq!(SstSplitType::Both, split_type);

        let split_key = {
            full_key(5, 255, "", u64::MAX)
        };
        let origin_sst = sst.clone();
        let split_type = HummockVersion::need_to_split(&origin_sst, split_key.into());
        assert_eq!(SstSplitType::Left, split_type);
    }
}

fn gen_sst_info(object_id: u64, table_ids: Vec<u32>, left: Bytes, right: Bytes) -> SstableInfo {
    SstableInfo {
        object_id,
        sst_id: object_id,
        key_range: KeyRange {
            left,
            right,
            right_exclusive: false,
        },
        table_ids,
        file_size: 100,
        estimated_sst_size: 100,
        uncompressed_file_size: 100,
        ..Default::default()
    }
}

#[test]
fn test_split_sst_info_for_level() {
    let mut version = HummockVersion::default();

    version.id = 0;
    version.levels = HashMap::from_iter([(
        1,
        build_initial_compaction_group_levels(
            1,
            &CompactionConfig {
                max_level: 6,
                ..Default::default()
            },
        ),
    )]);

    let cg1 = version.levels.get_mut(&1).unwrap();

    cg1.levels[0] = Level {
        level_idx: 1,
        level_type: LevelType::Nonoverlapping,
        table_infos: vec![
            gen_sst_info(
                1,
                vec![3],
                full_key(3, 1, "1", 0).into(),
                full_key(3, 200, "1", 0).into(),
            ),
            gen_sst_info(
                10,
                vec![3, 4],
                full_key(3, 201, "1", 0).into(),
                full_key(4, 10, "1", 0).into(),
            ),
            gen_sst_info(
                11,
                vec![4],
                full_key(4, 11, "1", 0).into(),
                full_key(4, 200, "1", 0).into(),
            ),
        ],
        total_file_size: 300,
        ..Default::default()
    };

    cg1.l0.sub_levels.push(Level {
        level_idx: 0,
        table_infos: vec![
            gen_sst_info(
                2,
                vec![2],
                full_key(2, 1, "1", 0).into(),
                full_key(2, 200, "1", 0).into(),
            ),
            gen_sst_info(
                22,
                vec![2],
                full_key(2, 1, "1", 0).into(),
                full_key(2, 200, "1", 0).into(),
            ),
            gen_sst_info(
                23,
                vec![2],
                full_key(2, 1, "1", 0).into(),
                full_key(2, 200, "1", 0).into(),
            ),
        ],
        sub_level_id: 101,
        level_type: LevelType::Overlapping,
        total_file_size: 300,
        ..Default::default()
    });

    {
        // split Overlapping level
        let split_key = full_key(1, 0, "", 0).into();

        let mut new_sst_id = 100;
        let x = HummockVersion::split_sst_info_for_level_v2(
            &mut cg1.l0.sub_levels[0],
            &mut new_sst_id,
            split_key,
        );
        assert_eq!(3, x.len());
        assert_eq!(100, x[0].sst_id);
        assert_eq!(100, x[0].estimated_sst_size);
        assert_eq!(101, x[1].sst_id);
        assert_eq!(100, x[1].estimated_sst_size);
        assert_eq!(102, x[2].sst_id);
        assert_eq!(100, x[2].estimated_sst_size);
    }

    {
        // test split empty level
        let mut new_sst_id = 100;
        let split_key = full_key(1, 0, "", 0).into();
        let x = HummockVersion::split_sst_info_for_level_v2(
            &mut cg1.levels[2],
            &mut new_sst_id,
            split_key,
        );

        assert!(x.is_empty());
    }

    {
        // test split to right Nonoverlapping level
        let mut cg1 = cg1.clone();
        let split_key = full_key(1, 0, "", 0).into();

        let mut new_sst_id = 100;
        let x = HummockVersion::split_sst_info_for_level_v2(
            &mut cg1.levels[0],
            &mut new_sst_id,
            split_key,
        );

        assert_eq!(3, x.len());
        assert_eq!(1, x[0].sst_id);
        assert_eq!(100, x[0].estimated_sst_size);
        assert_eq!(10, x[1].sst_id);
        assert_eq!(100, x[1].estimated_sst_size);
        assert_eq!(11, x[2].sst_id);
        assert_eq!(100, x[2].estimated_sst_size);

        assert_eq!(0, cg1.levels[0].table_infos.len());
    }

    {
        // test split to left Nonoverlapping level
        let mut cg1 = cg1.clone();
        let split_key = full_key(5, 0, "", 0).into();

        let mut new_sst_id = 100;
        let x = HummockVersion::split_sst_info_for_level_v2(
            &mut cg1.levels[0],
            &mut new_sst_id,
            split_key,
        );

        assert_eq!(0, x.len());
        assert_eq!(3, cg1.levels[0].table_infos.len());
    }

    {
        // test split to both Nonoverlapping level
        let mut cg1 = cg1.clone();
        let split_key = full_key(3, 255, "", 0).into();

        let mut new_sst_id = 100;
        let x = HummockVersion::split_sst_info_for_level_v2(
            &mut cg1.levels[0],
            &mut new_sst_id,
            split_key,
        );

        assert_eq!(2, x.len());
        assert_eq!(100, x[0].sst_id);
        assert_eq!(100 / 2, x[0].estimated_sst_size);
        assert_eq!(11, x[1].sst_id);
        assert_eq!(100, x[1].estimated_sst_size);
        assert_eq!(vec![3, 4], x[0].table_ids);

        assert_eq!(2, cg1.levels[0].table_infos.len());
        assert_eq!(101, cg1.levels[0].table_infos[1].sst_id);
        assert_eq!(100 / 2, cg1.levels[0].table_infos[1].estimated_sst_size);
        assert_eq!(vec![3], cg1.levels[0].table_infos[1].table_ids);
    }

    {
        // test split to both Nonoverlapping level
        let mut cg1 = cg1.clone();
        let split_key = full_key(4, 0, "", 0).into();

        let mut new_sst_id = 100;
        let x = HummockVersion::split_sst_info_for_level_v2(
            &mut cg1.levels[0],
            &mut new_sst_id,
            split_key,
        );

        assert_eq!(2, x.len());
        assert_eq!(100, x[0].sst_id);
        assert_eq!(100 / 2, x[0].estimated_sst_size);
        assert_eq!(11, x[1].sst_id);
        assert_eq!(100, x[1].estimated_sst_size);
        assert_eq!(vec![4], x[1].table_ids);

        assert_eq!(2, cg1.levels[0].table_infos.len());
        assert_eq!(101, cg1.levels[0].table_infos[1].sst_id);
        assert_eq!(100 / 2, cg1.levels[0].table_infos[1].estimated_sst_size);
        assert_eq!(vec![3], cg1.levels[0].table_infos[1].table_ids);
    }
}

#[test]
fn test_merge_levels() {
    let mut left_levels = build_initial_compaction_group_levels(
        1,
        &CompactionConfig {
            max_level: 6,
            ..Default::default()
        },
    );

    let mut right_levels = build_initial_compaction_group_levels(
        2,
        &CompactionConfig {
            max_level: 6,
            ..Default::default()
        },
    );

    left_levels.levels[0] = Level {
        level_idx: 1,
        level_type: LevelType::Nonoverlapping,
        table_infos: vec![
            gen_sst_info(
                1,
                vec![3],
                full_key(3, 1, "1", 0).into(),
                full_key(3, 200, "1", 0).into(),
            ),
            gen_sst_info(
                10,
                vec![3, 4],
                full_key(3, 201, "1", 0).into(),
                full_key(4, 10, "1", 0).into(),
            ),
            gen_sst_info(
                11,
                vec![4],
                full_key(4, 11, "1", 0).into(),
                full_key(4, 200, "1", 0).into(),
            ),
        ],
        total_file_size: 300,
        ..Default::default()
    };

    left_levels.l0.sub_levels.push(Level {
        level_idx: 0,
        table_infos: vec![gen_sst_info(
            3,
            vec![3],
            full_key(3, 1, "1", 0).into(),
            full_key(3, 200, "1", 0).into(),
        )],
        sub_level_id: 101,
        level_type: LevelType::Overlapping,
        total_file_size: 100,
        ..Default::default()
    });

    left_levels.l0.sub_levels.push(Level {
        level_idx: 0,
        table_infos: vec![gen_sst_info(
            3,
            vec![3],
            full_key(3, 1, "1", 0).into(),
            full_key(3, 200, "1", 0).into(),
        )],
        sub_level_id: 102,
        level_type: LevelType::Overlapping,
        total_file_size: 100,
        ..Default::default()
    });

    left_levels.l0.sub_levels.push(Level {
        level_idx: 0,
        table_infos: vec![gen_sst_info(
            3,
            vec![3],
            full_key(3, 1, "1", 0).into(),
            full_key(3, 200, "1", 0).into(),
        )],
        sub_level_id: 103,
        level_type: LevelType::Nonoverlapping,
        total_file_size: 100,
        ..Default::default()
    });

    right_levels.levels[0] = Level {
        level_idx: 1,
        level_type: LevelType::Nonoverlapping,
        table_infos: vec![
            gen_sst_info(
                1,
                vec![5],
                full_key(5, 1, "1", 0).into(),
                full_key(5, 200, "1", 0).into(),
            ),
            gen_sst_info(
                10,
                vec![5, 6],
                full_key(5, 201, "1", 0).into(),
                full_key(6, 10, "1", 0).into(),
            ),
            gen_sst_info(
                11,
                vec![6],
                full_key(6, 11, "1", 0).into(),
                full_key(6, 200, "1", 0).into(),
            ),
        ],
        total_file_size: 300,
        ..Default::default()
    };

    right_levels.l0.sub_levels.push(Level {
        level_idx: 0,
        table_infos: vec![gen_sst_info(
            3,
            vec![5],
            full_key(5, 1, "1", 0).into(),
            full_key(5, 200, "1", 0).into(),
        )],
        sub_level_id: 101,
        level_type: LevelType::Overlapping,
        total_file_size: 100,
        ..Default::default()
    });

    right_levels.l0.sub_levels.push(Level {
        level_idx: 0,
        table_infos: vec![gen_sst_info(
            5,
            vec![5],
            full_key(5, 1, "1", 0).into(),
            full_key(5, 200, "1", 0).into(),
        )],
        sub_level_id: 102,
        level_type: LevelType::Overlapping,
        total_file_size: 100,
        ..Default::default()
    });

    right_levels.l0.sub_levels.push(Level {
        level_idx: 0,
        table_infos: vec![gen_sst_info(
            3,
            vec![5],
            full_key(5, 1, "1", 0).into(),
            full_key(5, 200, "1", 0).into(),
        )],
        sub_level_id: 104,
        level_type: LevelType::Nonoverlapping,
        total_file_size: 100,
        ..Default::default()
    });

    {
        // test empty
        let mut left_levels = Levels::default();
        let mut right_levels = Levels::default();

        HummockVersion::merge_levels(&mut left_levels, &mut right_levels);
    }

    {
        // test empty left
        let mut left_levels = build_initial_compaction_group_levels(
            1,
            &CompactionConfig {
                max_level: 6,
                ..Default::default()
            },
        );
        let mut right_levels = right_levels.clone();

        HummockVersion::merge_levels(&mut left_levels, &mut right_levels);

        assert!(left_levels.l0.sub_levels.len() == 3);
        assert!(left_levels.l0.sub_levels[0].sub_level_id == 101);
        assert_eq!(100, left_levels.l0.sub_levels[0].total_file_size);
        assert!(left_levels.l0.sub_levels[1].sub_level_id == 102);
        assert_eq!(100, left_levels.l0.sub_levels[1].total_file_size);
        assert!(left_levels.l0.sub_levels[2].sub_level_id == 104);
        assert_eq!(100, left_levels.l0.sub_levels[2].total_file_size);

        assert!(left_levels.levels[0].level_idx == 1);
        assert_eq!(300, left_levels.levels[0].total_file_size);
    }

    {
        // test empty right
        let mut left_levels = left_levels.clone();
        let mut right_levels = build_initial_compaction_group_levels(
            2,
            &CompactionConfig {
                max_level: 6,
                ..Default::default()
            },
        );

        HummockVersion::merge_levels(&mut left_levels, &mut right_levels);

        assert!(left_levels.l0.sub_levels.len() == 3);
        assert!(left_levels.l0.sub_levels[0].sub_level_id == 101);
        assert_eq!(100, left_levels.l0.sub_levels[0].total_file_size);
        assert!(left_levels.l0.sub_levels[1].sub_level_id == 102);
        assert_eq!(100, left_levels.l0.sub_levels[1].total_file_size);
        assert!(left_levels.l0.sub_levels[2].sub_level_id == 103);
        assert_eq!(100, left_levels.l0.sub_levels[2].total_file_size);

        assert!(left_levels.levels[0].level_idx == 1);
        assert_eq!(300, left_levels.levels[0].total_file_size);
    }

    {
        let mut left_levels = left_levels.clone();
        let mut right_levels = right_levels.clone();

        HummockVersion::merge_levels(&mut left_levels, &mut right_levels);

        assert!(left_levels.l0.sub_levels.len() == 4);
        assert!(left_levels.l0.sub_levels[0].sub_level_id == 101);
        assert_eq!(200, left_levels.l0.sub_levels[0].total_file_size);
        assert!(left_levels.l0.sub_levels[1].sub_level_id == 102);
        assert_eq!(200, left_levels.l0.sub_levels[1].total_file_size);
        assert!(left_levels.l0.sub_levels[2].sub_level_id == 103);
        assert_eq!(100, left_levels.l0.sub_levels[2].total_file_size);
        assert!(left_levels.l0.sub_levels[3].sub_level_id == 104);
        assert_eq!(100, left_levels.l0.sub_levels[3].total_file_size);

        assert!(left_levels.levels[0].level_idx == 1);
        assert_eq!(600, left_levels.levels[0].total_file_size);
    }
}
