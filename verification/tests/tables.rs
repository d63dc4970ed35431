//! Watermarks and change logs of tables.
use bytes::Bytes;
use hummock_version::change_log::{ChangeLogDelta, EpochNewChangeLog, TableChangeLog};
use hummock_version::safe_epoch::{
    safe_epoch_read_table_watermarks_impl, safe_epoch_table_watermarks_impl,
};
use hummock_version::sstable_info::SstableInfo;
use hummock_version::table_watermark::{
    Bitmap, EpochWatermarks, TableWatermarks, VnodeWatermark, WatermarkDirection,
};
use hummock_version::version::{HummockVersion, HummockVersionDelta, StateTableInfo};
use std::collections::{BTreeMap, HashMap, HashSet};
use std::sync::Arc;

fn vnode_watermark(vnodes: &[usize], watermark: &'static [u8]) -> VnodeWatermark {
    let mut bits = vec![false; 4];
    for v in vnodes {
        bits[*v] = true;
    }
    VnodeWatermark {
        vnode_bitmap: Bitmap { bits },
        watermark: Bytes::from_static(watermark),
    }
}

fn epoch_watermarks(epoch: u64, vnode_watermarks: Vec<VnodeWatermark>) -> EpochWatermarks {
    EpochWatermarks {
        epoch,
        vnode_watermarks,
    }
}

fn ascending(watermarks: Vec<EpochWatermarks>) -> TableWatermarks {
    TableWatermarks {
        watermarks,
        direction: WatermarkDirection::Ascending,
    }
}

fn info(committed_epoch: u64, safe_epoch: u64) -> StateTableInfo {
    StateTableInfo {
        committed_epoch,
        safe_epoch,
        compaction_group_id: 2,
    }
}

fn log(epochs: Vec<u64>, object_id: u64) -> EpochNewChangeLog {
    EpochNewChangeLog {
        new_value: vec![SstableInfo {
            object_id,
            sst_id: object_id,
            ..Default::default()
        }],
        old_value: vec![],
        epochs,
    }
}

#[test]
fn newer_watermarks_follow() {
    let mut w = ascending(vec![epoch_watermarks(1, vec![vnode_watermark(&[0], b"a")])]);
    w.apply_new_table_watermarks(&ascending(vec![
        epoch_watermarks(3, vec![vnode_watermark(&[0], b"b")]),
        epoch_watermarks(4, vec![vnode_watermark(&[1], b"c")]),
    ]));
    let epochs: Vec<u64> = w.watermarks.iter().map(|e| e.epoch).collect();
    assert_eq!(epochs, vec![1, 3, 4]);
    assert_eq!(w.watermarks[2].vnode_watermarks[0].watermark(), b"c");
    assert_eq!(
        w.watermarks[2].vnode_watermarks[0].vnode_bitmap().bits,
        vec![false, true, false, false]
    );
}

#[test]
fn stale_watermarks_are_carried_over() {
    let mut w = ascending(vec![
        epoch_watermarks(1, vec![vnode_watermark(&[0, 1, 2, 3], b"a")]),
        epoch_watermarks(2, vec![vnode_watermark(&[0, 2], b"b")]),
        epoch_watermarks(4, vec![vnode_watermark(&[0], b"c")]),
    ]);
    w.clear_stale_epoch_watermark(3);
    assert_eq!(
        w,
        ascending(vec![
            epoch_watermarks(
                3,
                vec![
                    vnode_watermark(&[2], b"b"),
                    vnode_watermark(&[1, 3], b"a"),
                ]
            ),
            epoch_watermarks(4, vec![vnode_watermark(&[0], b"c")]),
        ])
    );
}

#[test]
fn carried_watermarks_join_those_of_the_safe_epoch() {
    let mut w = ascending(vec![
        epoch_watermarks(1, vec![vnode_watermark(&[0, 1], b"a")]),
        epoch_watermarks(3, vec![vnode_watermark(&[0], b"b")]),
    ]);
    w.clear_stale_epoch_watermark(3);
    assert_eq!(
        w,
        ascending(vec![epoch_watermarks(
            3,
            vec![vnode_watermark(&[0], b"b"), vnode_watermark(&[1], b"a")]
        )])
    );
}

#[test]
fn clearing_leaves_what_is_not_stale() {
    let fresh = || ascending(vec![epoch_watermarks(5, vec![vnode_watermark(&[0], b"a")])]);
    let mut w = fresh();
    w.clear_stale_epoch_watermark(5);
    assert_eq!(w, fresh());
    let mut none = ascending(vec![]);
    none.clear_stale_epoch_watermark(5);
    assert_eq!(none, ascending(vec![]));
}

#[test]
fn covered_watermarks_are_dropped() {
    let mut w = ascending(vec![
        epoch_watermarks(1, vec![vnode_watermark(&[0], b"a")]),
        epoch_watermarks(4, vec![vnode_watermark(&[0, 1], b"c")]),
    ]);
    w.clear_stale_epoch_watermark(3);
    assert_eq!(
        w,
        ascending(vec![epoch_watermarks(4, vec![vnode_watermark(&[0, 1], b"c")])])
    );
}

#[test]
fn safe_epoch_watermarks_are_those_of_the_first_epoch() {
    let mut version = HummockVersion::default();
    version.table_watermarks = HashMap::from([
        (
            1,
            Arc::new(ascending(vec![
                epoch_watermarks(5, vec![vnode_watermark(&[0], b"a")]),
                epoch_watermarks(6, vec![vnode_watermark(&[0], b"b")]),
            ])),
        ),
        (
            2,
            Arc::new(ascending(vec![epoch_watermarks(6, vec![vnode_watermark(&[0], b"c")])])),
        ),
        (3, Arc::new(ascending(vec![]))),
        (
            4,
            Arc::new(ascending(vec![epoch_watermarks(5, vec![vnode_watermark(&[0], b"d")])])),
        ),
    ]);
    version.state_table_info.state_table_info =
        HashMap::from([(1, info(9, 5)), (2, info(9, 5)), (3, info(9, 5))]);
    let safe = version.safe_epoch_table_watermarks(&[1, 2, 3, 77]);
    let expected = BTreeMap::from([(
        1,
        ascending(vec![epoch_watermarks(5, vec![vnode_watermark(&[0], b"a")])]),
    )]);
    assert_eq!(safe, expected);
    assert_eq!(
        safe_epoch_table_watermarks_impl(
            &version.table_watermarks,
            &version.state_table_info,
            &[1, 2, 3, 77],
        ),
        expected
    );
    assert!(version.safe_epoch_table_watermarks(&[]).is_empty());
}

#[test]
fn each_vnode_reads_its_watermark() {
    let safe = BTreeMap::from([(
        7,
        TableWatermarks {
            watermarks: vec![epoch_watermarks(
                5,
                vec![vnode_watermark(&[0, 2], b"a"), vnode_watermark(&[3], b"b")],
            )],
            direction: WatermarkDirection::Descending,
        },
    )]);
    let read = safe_epoch_read_table_watermarks_impl(&safe);
    assert_eq!(read.len(), 1);
    assert_eq!(read[&7].direction, WatermarkDirection::Descending);
    assert_eq!(
        read[&7].vnode_watermarks,
        BTreeMap::from([
            (0, Bytes::from_static(b"a")),
            (2, Bytes::from_static(b"a")),
            (3, Bytes::from_static(b"b")),
        ])
    );
}

#[test]
fn truncation_cuts_entries_and_epochs() {
    let mut change_log = TableChangeLog(vec![
        log(vec![1, 2], 10),
        log(vec![3, 4, 5], 11),
        log(vec![6], 12),
    ]);
    change_log.truncate(4);
    assert_eq!(
        change_log,
        TableChangeLog(vec![log(vec![5], 11), log(vec![6], 12)])
    );
    change_log.truncate(9);
    assert_eq!(change_log, TableChangeLog(vec![]));
}

#[test]
fn delta_changes_watermarks() {
    let mut version = HummockVersion::default();
    version.state_table_info.state_table_info =
        HashMap::from([(1, info(4, 1)), (2, info(4, 1)), (3, info(4, 1)), (6, info(4, 1))]);
    let old = || ascending(vec![epoch_watermarks(1, vec![vnode_watermark(&[0, 1], b"a")])]);
    version.table_watermarks = HashMap::from([
        (1, Arc::new(old())),
        (2, Arc::new(old())),
        (3, Arc::new(old())),
        (6, Arc::new(old())),
    ]);
    let mut delta = HummockVersionDelta::default();
    delta.id = 1;
    delta.new_table_watermarks = HashMap::from([
        (
            1,
            ascending(vec![epoch_watermarks(5, vec![vnode_watermark(&[0], b"b")])]),
        ),
        (
            2,
            ascending(vec![epoch_watermarks(5, vec![vnode_watermark(&[0], b"b")])]),
        ),
        (
            5,
            ascending(vec![epoch_watermarks(5, vec![vnode_watermark(&[0], b"n")])]),
        ),
    ]);
    delta.removed_table_ids = HashSet::from([2, 6]);
    delta.state_table_info_delta = HashMap::from([(1, info(5, 3)), (5, info(5, 0))]);
    version.apply_version_delta(&delta);
    assert_eq!(
        *version.table_watermarks[&1],
        ascending(vec![
            epoch_watermarks(3, vec![vnode_watermark(&[1], b"a")]),
            epoch_watermarks(5, vec![vnode_watermark(&[0], b"b")]),
        ])
    );
    assert!(!version.table_watermarks.contains_key(&2));
    assert_eq!(*version.table_watermarks[&3], old());
    assert_eq!(*version.table_watermarks[&6], old());
    assert_eq!(version.table_watermarks[&5].watermarks.len(), 1);
}

#[test]
fn delta_changes_change_logs() {
    let mut version = HummockVersion::default();
    version.state_table_info.state_table_info = HashMap::from([
        (1, info(4, 0)),
        (2, info(4, 0)),
        (3, info(4, 0)),
        (4, info(4, 0)),
    ]);
    version.table_change_log = HashMap::from([
        (1, TableChangeLog(vec![log(vec![1, 2, 3], 10)])),
        (2, TableChangeLog(vec![log(vec![3], 20)])),
        (3, TableChangeLog(vec![log(vec![3], 30)])),
        (4, TableChangeLog(vec![log(vec![3], 40)])),
    ]);
    let mut delta = HummockVersionDelta::default();
    delta.id = 1;
    delta.change_log_delta = HashMap::from([
        (
            1,
            ChangeLogDelta {
                truncate_epoch: 2,
                new_log: Some(log(vec![5], 11)),
            },
        ),
        (
            9,
            ChangeLogDelta {
                truncate_epoch: 0,
                new_log: Some(log(vec![5], 90)),
            },
        ),
    ]);
    delta.removed_table_ids = HashSet::from([3]);
    delta.state_table_info_delta =
        HashMap::from([(1, info(5, 0)), (2, info(5, 0)), (4, info(4, 0))]);
    version.apply_version_delta(&delta);
    assert_eq!(
        version.table_change_log,
        HashMap::from([
            (1, TableChangeLog(vec![log(vec![3], 10), log(vec![5], 11)])),
            (4, TableChangeLog(vec![log(vec![3], 40)])),
            (9, TableChangeLog(vec![log(vec![5], 90)])),
        ])
    );
}
