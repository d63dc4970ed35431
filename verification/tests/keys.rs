//! Keys, key ranges and their orders.
use bytes::Bytes;
use hummock_version::buf::slice_less;
use hummock_version::key::{encoded_key_less, gen_key_from_bytes, FullKey};
use hummock_version::key_range::KeyRange;
use hummock_version::seqs::{sort, Sortable};
use hummock_version::sstable_info::{can_concat, clone_range, SstableInfo};

fn encoded(table_id: u32, vnode: u16, payload: &[u8], epoch: u64) -> Vec<u8> {
    let table_key = gen_key_from_bytes(vnode, payload);
    FullKey::new(table_id, &table_key, epoch).encode()
}

fn range(left: Vec<u8>, right: Vec<u8>, right_exclusive: bool) -> KeyRange {
    KeyRange {
        left: Bytes::from(left),
        right: Bytes::from(right),
        right_exclusive,
    }
}

fn sst(sst_id: u64, key_range: KeyRange) -> SstableInfo {
    SstableInfo {
        object_id: sst_id,
        sst_id,
        key_range,
        ..Default::default()
    }
}

#[test]
fn full_key_is_written_in_big_endian() {
    let key = encoded(0x01020304, 0x0506, b"ab", 0x0708090a0b0c0d0e);
    assert_eq!(
        key,
        vec![
            1, 2, 3, 4, 5, 6, b'a', b'b', 7, 8, 9, 10, 11, 12, 13, 14
        ]
    );
}

#[test]
fn decoding_reads_what_encoding_wrote() {
    let table_key = gen_key_from_bytes(513, b"payload");
    let bytes = FullKey::new(u32::MAX, &table_key, u64::MAX - 1).encode();
    let key = FullKey::decode(&bytes);
    assert_eq!(key.user_key.table_id, u32::MAX);
    assert_eq!(key.user_key.table_key, &table_key[..]);
    assert_eq!(key.epoch, u64::MAX - 1);
    assert_eq!(key.user_key.get_vnode_id(), 513);
}

#[test]
fn lexicographic_order_puts_prefixes_first() {
    assert!(slice_less(b"", b"a"));
    assert!(slice_less(b"a", b"ab"));
    assert!(slice_less(b"ab", b"b"));
    assert!(!slice_less(b"ab", b"ab"));
    assert!(!slice_less(b"b", b"ab"));
    assert!(!slice_less(b"", b""));
}

#[test]
fn later_epoch_comes_first() {
    let old = encoded(1, 0, b"k", 5);
    let new = encoded(1, 0, b"k", 6);
    let next = encoded(1, 0, b"l", 9);
    assert!(encoded_key_less(&new, &old));
    assert!(!encoded_key_less(&old, &new));
    assert!(encoded_key_less(&old, &next));
    assert!(!encoded_key_less(&old, &old));
    assert!(FullKey::decode(&new).less(&FullKey::decode(&old)));
    assert!(!FullKey::decode(&old).less(&FullKey::decode(&new)));
    assert!(FullKey::decode(&old).user_key.less(&FullKey::decode(&next).user_key));
}

#[test]
fn table_decides_before_table_key() {
    let a = encoded(1, 255, b"zzz", 0);
    let b = encoded(2, 0, b"", 0);
    assert!(encoded_key_less(&a, &b));
    assert!(FullKey::decode(&a).less(&FullKey::decode(&b)));
    assert!(!FullKey::decode(&b).less(&FullKey::decode(&a)));
}

#[test]
fn short_keys_are_ordered_too() {
    assert!(encoded_key_less(b"", b"a"));
    assert!(encoded_key_less(b"abc", b"abd"));
    assert!(!encoded_key_less(b"abd", b"abc"));
}

#[test]
fn ranges_are_ordered_by_left_then_right() {
    let k = |n: u32| encoded(n, 0, b"", 0);
    assert!(range(k(1), k(5), false).less(&range(k(2), k(3), false)));
    assert!(range(k(1), k(2), false).less(&range(k(1), k(3), false)));
    assert!(!range(k(1), k(3), false).less(&range(k(1), k(3), false)));
    assert!(range(k(1), k(3), true).less(&range(k(1), k(3), false)));
    assert!(!range(k(1), k(3), false).less(&range(k(1), k(3), true)));
}

#[test]
fn open_ends_are_outermost() {
    let k = |n: u32| encoded(n, 0, b"", 0);
    assert!(range(vec![], k(1), false).less(&range(k(1), k(1), false)));
    assert!(range(k(1), k(9), false).less(&range(k(1), vec![], false)));
    assert!(!range(k(1), vec![], false).less(&range(k(1), k(9), false)));
    assert!(!range(k(1), vec![], false).less(&range(k(1), vec![], false)));
    assert!(range(k(1), vec![], true).less(&range(k(1), vec![], false)));
}

#[test]
fn right_bound_ends_before_a_later_user_key() {
    let k = |n: u32, epoch: u64| encoded(n, 0, b"", epoch);
    let inclusive = range(k(1, 0), k(3, 7), false);
    let exclusive = range(k(1, 0), k(3, 7), true);
    assert!(inclusive.ends_before(&Bytes::from(k(4, 0))));
    assert!(!inclusive.ends_before(&Bytes::from(k(3, 1))));
    assert!(exclusive.ends_before(&Bytes::from(k(3, 1))));
    assert!(!exclusive.ends_before(&Bytes::from(k(2, 0))));
}

#[test]
fn concatenation_needs_ranges_apart() {
    let k = |n: u32| encoded(n, 0, b"", 0);
    let apart = vec![
        sst(1, range(k(1), k(2), false)),
        sst(2, range(k(3), k(4), true)),
        sst(3, range(k(4), k(5), false)),
    ];
    assert!(can_concat(&apart));
    let touching = vec![
        sst(1, range(k(1), k(2), false)),
        sst(2, range(k(2), k(4), false)),
    ];
    assert!(!can_concat(&touching));
    assert!(can_concat(&vec![]));
    assert!(can_concat(&vec![sst(1, KeyRange::default())]));
}

#[test]
fn sorting_is_stable_and_keeps_all() {
    let k = |n: u32| encoded(n, 0, b"", 0);
    let mut ssts = vec![
        sst(1, range(k(3), k(4), false)),
        sst(2, range(k(1), k(2), false)),
        sst(3, range(k(3), k(4), false)),
        sst(4, range(k(2), k(2), false)),
        sst(5, range(k(3), k(4), false)),
    ];
    sort(&mut ssts);
    let ids: Vec<u64> = ssts.iter().map(|s| s.sst_id).collect();
    assert_eq!(ids, vec![2, 4, 1, 3, 5]);
    sort(&mut ssts);
    let again: Vec<u64> = ssts.iter().map(|s| s.sst_id).collect();
    assert_eq!(again, ids);
    let mut numbers: Vec<u32> = vec![5, 1, 4, 1, 3];
    sort(&mut numbers);
    assert_eq!(numbers, vec![1, 1, 3, 4, 5]);
    assert!(2u32.is_before(&3));
}

#[test]
fn copies_of_parts_hold_the_parts() {
    let ssts: Vec<SstableInfo> = (0..4).map(|i| sst(i, KeyRange::default())).collect();
    let ids: Vec<u64> = clone_range(&ssts, 1, 3).iter().map(|s| s.sst_id).collect();
    assert_eq!(ids, vec![1, 2]);
}
