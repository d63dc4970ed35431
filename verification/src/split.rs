//! Splitting SSTs and levels between two compaction groups.
use crate::buf::{bytes_as_slice, bytes_clone, bytes_less};
use crate::key::FullKey;
use crate::key_range::KeyRange;
use crate::level::{Level, LevelType};
use crate::sstable_info::{clone_range, SstableInfo};
use crate::version::{HummockVersion, StateTableId};
use bytes::Bytes;
use std::collections::HashSet;
use vstd::prelude::*;

#[allow(unused_imports)]
use crate::buf::{contents, lemma_lex_asymmetric, lex_less};
#[allow(unused_imports)]
use crate::key::{full_key, is_full_key};
#[allow(unused_imports)]
use crate::key_range::KeyRangeView;
#[allow(unused_imports)]
use crate::level::LevelView;
#[allow(unused_imports)]
use crate::seqs::{
    first_index, lemma_first_index, lemma_is_first_index, lemma_views_push, lemma_views_update,
    views,
};
#[allow(unused_imports)]
use crate::sstable_info::SstView;

verus! {

/// On which side of a split key an SST lies.
#[derive(Debug, Clone, Copy, PartialEq, Eq, Structural)]
pub enum SstSplitType {
    Left,
    Right,
    Both,
}

/// On which side of the key a range lies.
pub open spec fn split_side(range: KeyRangeView, split_key: Seq<u8>) -> SstSplitType {
    if !lex_less(range.left, split_key) {
        SstSplitType::Right
    } else if lex_less(range.right, split_key) || (range.right_exclusive && range.right
        == split_key) {
        SstSplitType::Left
    } else {
        SstSplitType::Both
    }
}

/// Whether the numbers do not decrease.
pub open spec fn ids_sorted(ids: Seq<u32>) -> bool {
    forall|i: int, j: int| 0 <= i < j < ids.len() ==> ids[i] <= ids[j]
}

/// Whether a number is not smaller than `table_id`.
pub open spec fn at_least(table_id: u32) -> spec_fn(u32) -> bool {
    |id: u32| id >= table_id
}

/// The table ids on each side of a split key. A key of the first virtual node leaves its table to
/// the right side alone; another key puts its table on both sides. There is no split where the
/// ids are not in order, where the key has no virtual node, or where the key's table would be on
/// both sides but is larger than all.
pub open spec fn split_ids(table_ids: Seq<u32>, split_key: Seq<u8>) -> Option<
    (Seq<u32>, Seq<u32>),
> {
    let key = full_key(split_key).user_key;
    let pos = first_index(table_ids, at_least(key.table_id));
    if !ids_sorted(table_ids) || !is_full_key(split_key) || !key.has_vnode() {
        None
    } else if key.vnode() == 0 {
        Some((table_ids.take(pos), table_ids.skip(pos)))
    } else if pos >= table_ids.len() {
        None
    } else {
        Some((table_ids.take(pos + 1), table_ids.skip(pos)))
    }
}

/// An SST with another id.
pub open spec fn with_id(sst: SstView, sst_id: u64) -> SstView {
    SstView { sst_id, ..sst }
}

/// Whether the two ids that a split takes, from `new_sst_id` on, fit in 64 bits.
pub open spec fn id_fits(new_sst_id: u64) -> bool {
    new_sst_id < u64::MAX
}

/// What is left of an SST, and what branches off it, in a split at a key.
pub open spec fn split_at(sst: SstView, new_sst_id: u64, split_key: Seq<u8>) -> Option<
    (SstView, SstView),
> {
    if !id_fits(new_sst_id) {
        None
    } else {
        match split_ids(sst.table_ids, split_key) {
            None => None,
            Some((left_ids, right_ids)) => Some(
                (
                    SstView {
                        sst_id: (new_sst_id + 1) as u64,
                        key_range: KeyRangeView {
                            left: sst.key_range.left,
                            right: split_key,
                            right_exclusive: true,
                        },
                        estimated_sst_size: sst.estimated_sst_size / 2,
                        table_ids: left_ids,
                        ..sst
                    },
                    SstView {
                        sst_id: new_sst_id,
                        key_range: KeyRangeView { left: split_key, ..sst.key_range },
                        estimated_sst_size: sst.estimated_sst_size / 2,
                        table_ids: right_ids,
                        ..sst
                    },
                ),
            ),
        }
    }
}

/// What is left of an SST, and what branches off it, in a split. Without a key both are the whole
/// SST under new ids.
pub open spec fn split_off(sst: SstView, new_sst_id: u64, split_key: Option<Seq<u8>>) -> Option<
    (SstView, SstView),
> {
    match split_key {
        None => if id_fits(new_sst_id) {
            Some((with_id(sst, (new_sst_id + 1) as u64), with_id(sst, new_sst_id)))
        } else {
            None
        },
        Some(key) => split_at(sst, new_sst_id, key),
    }
}

/// Whether a range does not start before the key.
pub open spec fn starts_at_or_after(split_key: Seq<u8>) -> spec_fn(SstView) -> bool {
    |s: SstView| !lex_less(s.key_range.left, split_key)
}

/// The place of the last SST of those at the front that start before the key; the first place
/// where there is none.
pub open spec fn split_pos(ssts: Seq<SstView>, split_key: Seq<u8>) -> int {
    let p = first_index(ssts, starts_at_or_after(split_key));
    if p > 0 {
        p - 1
    } else {
        0
    }
}

/// What a split makes of a level: the level, the next free id, and the SSTs that branch off.
#[verifier::ext_equal]
pub struct LevelSplit {
    pub level: LevelView,
    pub next_sst_id: u64,
    pub branched: Seq<SstView>,
}

/// What a split at a key makes of a level. SSTs of an overlapping level are all kept and all
/// branch off. Of any other level, the SSTs left of the key stay, those right of it branch off,
/// and one that holds the key is split.
pub open spec fn split_level_at(level: LevelView, new_sst_id: u64, split_key: Seq<u8>) -> Option<
    LevelSplit,
> {
    let ssts = level.table_infos;
    let n = ssts.len() as int;
    let pos = split_pos(ssts, split_key);
    if n == 0 {
        Some(LevelSplit { level, next_sst_id: new_sst_id, branched: Seq::empty() })
    } else if level.level_type == LevelType::Overlapping {
        if new_sst_id + n > u64::MAX {
            None
        } else {
            Some(
                LevelSplit {
                    level: LevelView {
                        table_infos: Seq::new(
                            n as nat,
                            |i: int| with_id(ssts[i], (new_sst_id + i + 1) as u64),
                        ),
                        ..level
                    },
                    next_sst_id: (new_sst_id + n) as u64,
                    branched: Seq::new(
                        n as nat,
                        |i: int| with_id(ssts[i], (new_sst_id + i) as u64),
                    ),
                },
            )
        }
    } else {
        match split_side(ssts[pos].key_range, split_key) {
            SstSplitType::Left => Some(
                LevelSplit {
                    level: LevelView { table_infos: ssts.take(pos + 1), ..level },
                    next_sst_id: new_sst_id,
                    branched: ssts.skip(pos + 1),
                },
            ),
            SstSplitType::Right => Some(
                LevelSplit {
                    level: LevelView { table_infos: ssts.take(pos), ..level },
                    next_sst_id: new_sst_id,
                    branched: ssts.skip(pos),
                },
            ),
            SstSplitType::Both => match split_at(ssts[pos], new_sst_id, split_key) {
                None => None,
                Some((left, right)) => Some(
                    LevelSplit {
                        level: LevelView { table_infos: ssts.take(pos).push(left), ..level },
                        next_sst_id: (new_sst_id + 1) as u64,
                        branched: seq![right] + ssts.skip(pos + 1),
                    },
                ),
            },
        }
    }
}

/// Whether an SST holds a table of the members.
pub open spec fn touches(sst: SstView, members: Set<u32>) -> bool {
    exists|i: int| 0 <= i < sst.table_ids.len() && members.contains(#[trigger] sst.table_ids[i])
}

/// The SSTs that branch off when tables move: those that hold one of the tables, under ids from
/// `new_sst_id` on.
pub open spec fn branched_ssts(ssts: Seq<SstView>, members: Set<u32>, new_sst_id: u64) -> Seq<
    SstView,
>
    decreases ssts.len(),
{
    if ssts.len() == 0 {
        Seq::empty()
    } else {
        let before = branched_ssts(ssts.drop_last(), members, new_sst_id);
        if touches(ssts.last(), members) {
            before.push(with_id(ssts.last(), (new_sst_id + before.len()) as u64))
        } else {
            before
        }
    }
}

/// The SSTs that stay when tables move: all of them, and those that branch off under the id that
/// follows that of their branch.
pub open spec fn remaining_ssts(ssts: Seq<SstView>, members: Set<u32>, new_sst_id: u64) -> Seq<
    SstView,
>
    decreases ssts.len(),
{
    if ssts.len() == 0 {
        Seq::empty()
    } else {
        let before = remaining_ssts(ssts.drop_last(), members, new_sst_id);
        let taken = branched_ssts(ssts.drop_last(), members, new_sst_id).len();
        if touches(ssts.last(), members) {
            before.push(with_id(ssts.last(), (new_sst_id + taken + 1) as u64))
        } else {
            before.push(ssts.last())
        }
    }
}

/// What moving the member tables makes of a level.
pub open spec fn split_level_by_tables(
    level: LevelView,
    new_sst_id: u64,
    members: Set<u32>,
) -> Option<LevelSplit> {
    let branched = branched_ssts(level.table_infos, members, new_sst_id);
    if new_sst_id + branched.len() > u64::MAX {
        None
    } else {
        Some(
            LevelSplit {
                level: LevelView {
                    table_infos: remaining_ssts(level.table_infos, members, new_sst_id),
                    ..level
                },
                next_sst_id: (new_sst_id + branched.len()) as u64,
                branched,
            },
        )
    }
}

/// A copy of a part of a list of table ids.
fn copy_ids(ids: &Vec<u32>, from: usize, to: usize) -> (r: Vec<u32>)
    requires
        from <= to <= ids@.len(),
    ensures
        r@ == ids@.subrange(from as int, to as int),
{
    let mut r: Vec<u32> = Vec::new();
    let mut i: usize = from;
    while i < to
        invariant
            from <= i <= to <= ids@.len(),
            r@ == ids@.subrange(from as int, i as int),
        decreases to - i,
    {
        r.push(ids[i]);
        assert(r@ =~= ids@.subrange(from as int, i + 1));
        i = i + 1;
    }
    r
}

/// The table ids on each side of a split key.
pub fn split_table_ids(table_ids: &Vec<u32>, split_key: Bytes) -> (r: (Vec<u32>, Vec<u32>))
    requires
        split_ids(table_ids@, contents(split_key)) is Some,
    ensures
        split_ids(table_ids@, contents(split_key)) == Some((r.0@, r.1@)),
{
    let split_user_key = FullKey::decode(bytes_as_slice(&split_key)).user_key;
    let vnode: usize = split_user_key.get_vnode_id();
    let table_id: u32 = split_user_key.table_id;
    let mut pos: usize = 0;
    while pos < table_ids.len() && table_ids[pos] < table_id
        invariant
            pos <= table_ids.len(),
            forall|k: int| 0 <= k < pos ==> #[trigger] table_ids@[k] < table_id,
        decreases table_ids.len() - pos,
    {
        pos = pos + 1;
    }
    proof {
        lemma_is_first_index(table_ids@, at_least(table_id), pos as int);
    }
    let right = copy_ids(table_ids, pos, table_ids.len());
    assert(right@ =~= table_ids@.skip(pos as int));
    if vnode == 0 {
        let left = copy_ids(table_ids, 0, pos);
        assert(left@ =~= table_ids@.take(pos as int));
        (left, right)
    } else {
        let left = copy_ids(table_ids, 0, pos + 1);
        assert(left@ =~= table_ids@.take(pos + 1));
        (left, right)
    }
}

/// Gives an SST and its branch new ids.
pub fn split_sst(sst_info: &mut SstableInfo, new_sst_id: &mut u64) -> (r: SstableInfo)
    requires
        id_fits(*old(new_sst_id)),
    ensures
        split_off(old(sst_info)@, *old(new_sst_id), None) == Some((final(sst_info)@, r@)),
        *final(new_sst_id) == *old(new_sst_id) + 1,
{
    let mut branch_table_info = sst_info.clone();
    branch_table_info.sst_id = *new_sst_id;
    sst_info.sst_id = *new_sst_id + 1;
    *new_sst_id = *new_sst_id + 1;
    branch_table_info
}

/// Whether an SST holds a table of the members.
pub fn holds_member(sst: &SstableInfo, members: &HashSet<StateTableId>) -> (r: bool)
    ensures
        r == touches(sst@, members@),
{
    let mut i: usize = 0;
    while i < sst.table_ids.len()
        invariant
            i <= sst.table_ids.len(),
            forall|k: int| 0 <= k < i ==> !members@.contains(#[trigger] sst@.table_ids[k]),
        decreases sst.table_ids.len() - i,
    {
        if members.contains(&sst.table_ids[i]) {
            assert(members@.contains(sst@.table_ids[i as int]));
            return true;
        }
        i = i + 1;
    }
    false
}

/// Branches off the SSTs that hold a table of the members.
pub fn split_sst_info_for_level(
    member_table_ids: &HashSet<StateTableId>,
    level: &mut Level,
    new_sst_id: &mut u64,
) -> (r: Vec<SstableInfo>)
    requires
        split_level_by_tables(old(level)@, *old(new_sst_id), member_table_ids@) is Some,
    ensures
        split_level_by_tables(old(level)@, *old(new_sst_id), member_table_ids@) == Some(
            LevelSplit {
                level: final(level)@,
                next_sst_id: *final(new_sst_id),
                branched: views(r@),
            },
        ),
{
    let ghost start = level@;
    let ghost ssts = level@.table_infos;
    let ghost first_id = *new_sst_id;
    let ghost members = member_table_ids@;
    let mut r: Vec<SstableInfo> = Vec::new();
    let mut i: usize = 0;
    assert(views(r@) =~= Seq::empty());
    assert(ssts.take(0).len() == 0);
    while i < level.table_infos.len()
        invariant
            i <= level.table_infos.len(),
            level.table_infos@.len() == ssts.len(),
            level@ == (LevelView { table_infos: level@.table_infos, ..start }),
            start.table_infos == ssts,
            members == member_table_ids@,
            first_id + branched_ssts(ssts, members, first_id).len() <= u64::MAX,
            *new_sst_id == first_id + r@.len(),
            views(r@) == branched_ssts(ssts.take(i as int), members, first_id),
            level@.table_infos == remaining_ssts(ssts.take(i as int), members, first_id)
                + ssts.skip(i as int),
        decreases level.table_infos.len() - i,
    {
        let ghost prior = level.table_infos@;
        let ghost stayed = remaining_ssts(ssts.take(i as int), members, first_id);
        proof {
            assert(ssts.take(i + 1).drop_last() =~= ssts.take(i as int));
            assert(ssts.take(i + 1).last() == ssts[i as int]);
            lemma_branched_lengths(ssts, members, first_id, i + 1);
            lemma_branched_lengths(ssts, members, first_id, i as int);
            assert(views(prior)[i as int] == ssts[i as int]);
        }
        if holds_member(&level.table_infos[i], member_table_ids) {
            let sst = &mut level.table_infos[i];
            let branch_sst = split_sst(sst, new_sst_id);
            proof {
                lemma_views_update(prior, i as int, *sst);
                lemma_views_push(r@, branch_sst);
            }
            let ghost left = sst@;
            r.push(branch_sst);
            proof {
                assert((stayed + ssts.skip(i as int)).update(i as int, left) =~= stayed.push(left)
                    + ssts.skip(i + 1));
            }
        } else {
            proof {
                assert(stayed + ssts.skip(i as int) =~= stayed.push(ssts[i as int]) + ssts.skip(
                    i + 1,
                ));
            }
        }
        i = i + 1;
    }
    proof {
        assert(ssts.take(i as int) =~= ssts);
        assert(remaining_ssts(ssts, members, first_id) + ssts.skip(i as int) =~= remaining_ssts(
            ssts,
            members,
            first_id,
        ));
    }
    r
}

/// As many SSTs stay as there were, and of the first SSTs no more branch off than of all.
pub proof fn lemma_branched_lengths(
    ssts: Seq<SstView>,
    members: Set<u32>,
    new_sst_id: u64,
    i: int,
)
    requires
        0 <= i <= ssts.len(),
    ensures
        remaining_ssts(ssts.take(i), members, new_sst_id).len() == i,
        branched_ssts(ssts.take(i), members, new_sst_id).len() <= branched_ssts(
            ssts,
            members,
            new_sst_id,
        ).len(),
        branched_ssts(ssts.take(i), members, new_sst_id).len() <= i,
    decreases ssts.len() + i,
{
    if i > 0 {
        lemma_branched_lengths(ssts, members, new_sst_id, i - 1);
        assert(ssts.take(i).drop_last() =~= ssts.take(i - 1));
    }
    if i < ssts.len() {
        lemma_branched_lengths(ssts.drop_last(), members, new_sst_id, i);
        assert(ssts.drop_last().take(i) =~= ssts.take(i));
    } else {
        assert(ssts.take(i) =~= ssts);
    }
}

impl HummockVersion {
    /// The place among SSTs that do not overlap of the one that a split key may fall into.
    pub fn get_split_pos(sstables: &Vec<SstableInfo>, split_key: Bytes) -> (r: usize)
        ensures
            r == split_pos(views(sstables@), contents(split_key)),
    {
        let ghost all = views(sstables@);
        let ghost key = contents(split_key);
        let mut pos: usize = 0;
        while pos < sstables.len() && bytes_less(&sstables[pos].key_range.left, &split_key)
            invariant
                pos <= sstables.len(),
                all == views(sstables@),
                key == contents(split_key),
                forall|k: int|
                    0 <= k < pos ==> lex_less((#[trigger] all[k]).key_range.left, key),
            decreases sstables.len() - pos,
        {
            pos = pos + 1;
        }
        proof {
            lemma_is_first_index(all, starts_at_or_after(key), pos as int);
        }
        if pos > 0 {
            pos - 1
        } else {
            0
        }
    }

    /// On which side of a split key an SST lies.
    pub fn need_to_split(sst: &SstableInfo, split_key: Bytes) -> (r: SstSplitType)
        ensures
            r == split_side(sst@.key_range, contents(split_key)),
    {
        let key_range = &sst.key_range;
        if !bytes_less(&key_range.left, &split_key) {
            return SstSplitType::Right;
        }
        proof {
            let right = contents(key_range.right);
            lemma_lex_asymmetric(right, contents(split_key));
            crate::buf::lemma_lex_total(right, contents(split_key));
        }
        if key_range.right_exclusive {
            if !bytes_less(&split_key, &key_range.right) {
                return SstSplitType::Left;
            }
        } else if bytes_less(&key_range.right, &split_key) {
            return SstSplitType::Left;
        }
        SstSplitType::Both
    }

    /// Branches an SST off. The SST keeps what is left of the key and the branch gets the
    /// rest; without a key both stay whole.
    pub fn split_sst_v2(
        origin_sst_info: &mut SstableInfo,
        new_sst_id: &mut u64,
        split_key: Option<Bytes>,
    ) -> (r: SstableInfo)
        requires
            split_off(
                old(origin_sst_info)@,
                *old(new_sst_id),
                key_contents(split_key),
            ) is Some,
        ensures
            split_off(old(origin_sst_info)@, *old(new_sst_id), key_contents(split_key)) == Some(
                (final(origin_sst_info)@, r@),
            ),
            *final(new_sst_id) == *old(new_sst_id) + 1,
    {
        let mut branch_table_info = origin_sst_info.clone();
        branch_table_info.sst_id = *new_sst_id;
        origin_sst_info.sst_id = *new_sst_id + 1;
        *new_sst_id = *new_sst_id + 1;
        let split_key = match split_key {
            None => {
                return branch_table_info;
            },
            Some(split_key) => split_key,
        };
        let key_range_l = KeyRange {
            left: bytes_clone(&origin_sst_info.key_range.left),
            right: bytes_clone(&split_key),
            right_exclusive: true,
        };
        let key_range_r = KeyRange {
            left: bytes_clone(&split_key),
            right: bytes_clone(&origin_sst_info.key_range.right),
            right_exclusive: origin_sst_info.key_range.right_exclusive,
        };
        let (table_ids_l, table_ids_r) = split_table_ids(&origin_sst_info.table_ids, split_key);
        origin_sst_info.key_range = key_range_l;
        origin_sst_info.estimated_sst_size = origin_sst_info.estimated_sst_size / 2;
        origin_sst_info.table_ids = table_ids_l;
        branch_table_info.key_range = key_range_r;
        branch_table_info.estimated_sst_size = branch_table_info.estimated_sst_size / 2;
        branch_table_info.table_ids = table_ids_r;
        branch_table_info
    }

    /// Splits a level at a key and gives back the SSTs that branch off.
    pub fn split_sst_info_for_level_v2(
        level: &mut Level,
        new_sst_id: &mut u64,
        split_key: Bytes,
    ) -> (r: Vec<SstableInfo>)
        requires
            split_level_at(old(level)@, *old(new_sst_id), contents(split_key)) is Some,
        ensures
            split_level_at(old(level)@, *old(new_sst_id), contents(split_key)) == Some(
                LevelSplit {
                    level: final(level)@,
                    next_sst_id: *final(new_sst_id),
                    branched: views(r@),
                },
            ),
    {
        let ghost ssts = level@.table_infos;
        let mut r: Vec<SstableInfo> = Vec::new();
        assert(views(r@) =~= Seq::empty());
        if level.table_infos.len() == 0 {
            return r;
        }
        if level.level_type == LevelType::Overlapping {
            return split_overlapping(level, new_sst_id);
        }
        let pos: usize = Self::get_split_pos(&level.table_infos, bytes_clone(&split_key));
        proof {
            lemma_first_index(ssts, starts_at_or_after(contents(split_key)));
            assert(level.table_infos@[pos as int]@ == ssts[pos as int]);
        }
        let n: usize = level.table_infos.len();
        let sst_split_type = Self::need_to_split(&level.table_infos[pos], bytes_clone(&split_key));
        match sst_split_type {
            SstSplitType::Left => {
                r = clone_range(&level.table_infos, pos + 1, n);
                assert(views(r@) =~= ssts.skip(pos + 1));
                level.table_infos.truncate(pos + 1);
                assert(level@.table_infos =~= ssts.take(pos + 1));
            },
            SstSplitType::Right => {
                r = clone_range(&level.table_infos, pos, n);
                assert(views(r@) =~= ssts.skip(pos as int));
                level.table_infos.truncate(pos);
                assert(level@.table_infos =~= ssts.take(pos as int));
            },
            SstSplitType::Both => {
                let branch_sst = Self::split_sst_v2(
                    &mut level.table_infos[pos],
                    new_sst_id,
                    Some(split_key),
                );
                let ghost left = level.table_infos@[pos as int]@;
                let ghost branch = branch_sst@;
                let mut rest = clone_range(&level.table_infos, pos + 1, n);
                assert(views(rest@) =~= ssts.skip(pos + 1));
                let ghost rest_views = views(rest@);
                r.push(branch_sst);
                r.append(&mut rest);
                assert(views(r@) =~= seq![branch] + rest_views);
                level.table_infos.truncate(pos + 1);
                assert(level@.table_infos =~= ssts.take(pos as int).push(left));
            },
        }
        r
    }
}

/// The bytes of a key that may be there.
pub open spec fn key_contents(split_key: Option<Bytes>) -> Option<Seq<u8>> {
    match split_key {
        Some(key) => Some(contents(key)),
        None => None,
    }
}

/// Branches every SST of a level off.
fn split_overlapping(level: &mut Level, new_sst_id: &mut u64) -> (r: Vec<SstableInfo>)
    requires
        *old(new_sst_id) + old(level)@.table_infos.len() <= u64::MAX,
    ensures
        final(level)@ == (LevelView {
            table_infos: Seq::new(
                old(level)@.table_infos.len(),
                |i: int|
                    with_id(old(level)@.table_infos[i], (*old(new_sst_id) + i + 1) as u64),
            ),
            ..old(level)@
        }),
        views(r@) == Seq::new(
            old(level)@.table_infos.len(),
            |i: int| with_id(old(level)@.table_infos[i], (*old(new_sst_id) + i) as u64),
        ),
        *final(new_sst_id) == *old(new_sst_id) + old(level)@.table_infos.len(),
{
    let ghost start = level@;
    let ghost ssts = level@.table_infos;
    let ghost first_id = *new_sst_id;
    let mut r: Vec<SstableInfo> = Vec::new();
    let mut i: usize = 0;
    while i < level.table_infos.len()
        invariant
            i <= level.table_infos.len(),
            level.table_infos@.len() == ssts.len(),
            first_id + ssts.len() <= u64::MAX,
            *new_sst_id == first_id + i,
            r@.len() == i,
            level@ == (LevelView { table_infos: level@.table_infos, ..start }),
            forall|k: int|
                0 <= k < i ==> #[trigger] r@[k]@ == with_id(ssts[k], (first_id + k) as u64),
            forall|k: int|
                0 <= k < i ==> #[trigger] level.table_infos@[k]@ == with_id(
                    ssts[k],
                    (first_id + k + 1) as u64,
                ),
            forall|k: int|
                i <= k < ssts.len() ==> #[trigger] level.table_infos@[k]@ == ssts[k],
        decreases level.table_infos.len() - i,
    {
        let ghost prior = level.table_infos@;
        assert(prior[i as int]@ == ssts[i as int]);
        let branch_sst = HummockVersion::split_sst_v2(
            &mut level.table_infos[i],
            new_sst_id,
            None,
        );
        assert forall|k: int| 0 <= k < ssts.len() && k != i implies #[trigger] level.table_infos@[k]
            == prior[k] by {}
        r.push(branch_sst);
        i = i + 1;
    }
    assert(level@.table_infos =~= Seq::new(
        ssts.len(),
        |k: int| with_id(ssts[k], (first_id + k + 1) as u64),
    ));
    assert(views(r@) =~= Seq::new(ssts.len(), |k: int| with_id(ssts[k], (first_id + k) as u64)));
    r
}

/// The halves of a split SST meet at the split key: the left one ends before it, the right one
/// starts at it, and together they reach as far as the SST did. Both are of the same object.
pub proof fn split_halves_meet(sst: SstView, new_sst_id: u64, split_key: Seq<u8>)
    requires
        split_at(sst, new_sst_id, split_key) is Some,
        split_side(sst.key_range, split_key) is Both,
    ensures
        ({
            let (left, right) = split_at(sst, new_sst_id, split_key)->0;
            &&& left.key_range.left == sst.key_range.left
            &&& left.key_range.right == right.key_range.left
            &&& left.key_range.right_exclusive
            &&& right.key_range.right == sst.key_range.right
            &&& right.key_range.right_exclusive == sst.key_range.right_exclusive
            &&& split_side(left.key_range, split_key) is Left
            &&& split_side(right.key_range, split_key) is Right
            &&& left.object_id == sst.object_id && right.object_id == sst.object_id
            &&& left.sst_id != right.sst_id
            &&& left.estimated_sst_size + right.estimated_sst_size <= sst.estimated_sst_size
        }),
{
    lemma_lex_asymmetric(split_key, split_key);
}

/// Each table of a split SST is on one side at least, and no other is. The tables in front of the
/// split key's are on the left alone. A key of the first virtual node leaves no table on both sides,
/// and another key leaves one at most there, the last of the left.
pub proof fn split_sides_cover_tables(table_ids: Seq<u32>, split_key: Seq<u8>, table_id: u32)
    requires
        split_ids(table_ids, split_key) is Some,
    ensures
        ({
            let (left, right) = split_ids(table_ids, split_key)->0;
            let key_table = full_key(split_key).user_key.table_id;
            &&& table_ids.contains(table_id) <==> left.contains(table_id) || right.contains(
                table_id,
            )
            &&& right.contains(table_id) ==> table_id >= key_table
            &&& table_ids.contains(table_id) && table_id < key_table ==> left.contains(table_id)
            &&& full_key(split_key).user_key.vnode() == 0 ==> !(left.contains(table_id)
                && right.contains(table_id))
            &&& left.contains(table_id) && right.contains(table_id) ==> table_id == left.last()
        }),
{
    let (left, right) = split_ids(table_ids, split_key)->0;
    let key = full_key(split_key).user_key;
    let pos = first_index(table_ids, at_least(key.table_id));
    lemma_first_index(table_ids, at_least(key.table_id));
    if table_ids.contains(table_id) {
        let i = choose|i: int| 0 <= i < table_ids.len() && table_ids[i] == table_id;
        if i < pos {
            assert(left[i] == table_id);
        } else {
            assert(right[i - pos] == table_id);
            if i > pos {
                assert(table_ids[pos] <= table_ids[i]);
            }
        }
    }
    if left.contains(table_id) {
        let i = choose|i: int| 0 <= i < left.len() && left[i] == table_id;
        assert(table_ids[i] == table_id);
    }
    if right.contains(table_id) {
        let i = choose|i: int| 0 <= i < right.len() && right[i] == table_id;
        assert(table_ids[pos + i] == table_id);
        if i > 0 {
            assert(table_ids[pos] <= table_ids[pos + i]);
        }
    }
}

/// Whether one of the SSTs is of the object.
pub open spec fn has_object(ssts: Seq<SstView>, object_id: u64) -> bool {
    exists|i: int| 0 <= i < ssts.len() && (#[trigger] ssts[i]).object_id == object_id
}

/// Splitting a level at a key loses no object and brings none in.
pub proof fn split_level_keeps_objects(
    level: LevelView,
    new_sst_id: u64,
    split_key: Seq<u8>,
    object_id: u64,
)
    requires
        split_level_at(level, new_sst_id, split_key) is Some,
    ensures
        ({
            let r = split_level_at(level, new_sst_id, split_key)->0;
            has_object(level.table_infos, object_id) <==> has_object(
                r.level.table_infos,
                object_id,
            ) || has_object(r.branched, object_id)
        }),
{
    let r = split_level_at(level, new_sst_id, split_key)->0;
    let ssts = level.table_infos;
    let stay = r.level.table_infos;
    let pos = split_pos(ssts, split_key);
    lemma_first_index(ssts, starts_at_or_after(split_key));
    let overlapping = level.level_type == LevelType::Overlapping;
    let side = split_side(ssts[pos].key_range, split_key);
    let cut = if side is Left {
        pos + 1
    } else {
        pos
    };
    if has_object(ssts, object_id) {
        let i = choose|i: int| 0 <= i < ssts.len() && (#[trigger] ssts[i]).object_id == object_id;
        if overlapping {
            assert(stay[i].object_id == object_id);
        } else if i < cut || (side is Both && i == pos) {
            assert(stay[i].object_id == object_id);
        } else {
            assert(r.branched[i - cut].object_id == object_id);
        }
    }
    if has_object(stay, object_id) {
        let i = choose|i: int| 0 <= i < stay.len() && (#[trigger] stay[i]).object_id == object_id;
        assert(ssts[i].object_id == object_id);
    }
    if has_object(r.branched, object_id) {
        let i = choose|i: int|
            0 <= i < r.branched.len() && (#[trigger] r.branched[i]).object_id == object_id;
        if ssts.len() > 0 {
            if overlapping {
                assert(ssts[i].object_id == object_id);
            } else {
                assert(ssts[cut + i].object_id == object_id);
            }
        }
    }
}

/// Whether the SSTs, byte by byte, start in order and each ends before the next starts.
pub open spec fn ranges_apart(ssts: Seq<SstView>) -> bool {
    forall|i: int, j: int|
        0 <= i < j < ssts.len() ==> {
            &&& lex_less((#[trigger] ssts[i]).key_range.left, (#[trigger] ssts[j]).key_range.left)
            &&& lex_less(ssts[i].key_range.right, ssts[j].key_range.left) || (
            ssts[i].key_range.right_exclusive && ssts[i].key_range.right
                == ssts[j].key_range.left)
        }
}

/// When a level whose SSTs are apart is split at a key, what stays lies left of the key and what
/// branches off lies right of it.
pub proof fn split_level_parts_at_key(level: LevelView, new_sst_id: u64, split_key: Seq<u8>)
    requires
        level.level_type != LevelType::Overlapping,
        ranges_apart(level.table_infos),
        split_level_at(level, new_sst_id, split_key) is Some,
    ensures
        ({
            let r = split_level_at(level, new_sst_id, split_key)->0;
            &&& forall|i: int|
                0 <= i < r.level.table_infos.len() ==> split_side(
                    (#[trigger] r.level.table_infos[i]).key_range,
                    split_key,
                ) is Left
            &&& forall|i: int|
                0 <= i < r.branched.len() ==> split_side(
                    (#[trigger] r.branched[i]).key_range,
                    split_key,
                ) is Right
        }),
{
    let r = split_level_at(level, new_sst_id, split_key)->0;
    let ssts = level.table_infos;
    let stay = r.level.table_infos;
    if ssts.len() > 0 {
        let p = first_index(ssts, starts_at_or_after(split_key));
        let pos = split_pos(ssts, split_key);
        lemma_first_index(ssts, starts_at_or_after(split_key));
        let side = split_side(ssts[pos].key_range, split_key);
        let cut = if side is Left {
            pos + 1
        } else {
            pos
        };
        assert forall|k: int| 0 <= k < ssts.len() && k != pos implies split_side(
            (#[trigger] ssts[k]).key_range,
            split_key,
        ) == (if k < pos {
            SstSplitType::Left
        } else {
            SstSplitType::Right
        }) by {
            if k < pos {
                assert(lex_less(ssts[pos].key_range.left, split_key));
                assert(lex_less(ssts[k].key_range.left, split_key));
                let (end, next) = (ssts[k].key_range.right, ssts[pos].key_range.left);
                if lex_less(end, next) {
                    crate::buf::lemma_lex_transitive(end, next, split_key);
                }
            } else if k >= p {
                if p < k {
                    let (a, b) = (ssts[p].key_range.left, ssts[k].key_range.left);
                    if lex_less(b, split_key) {
                        crate::buf::lemma_lex_transitive(a, b, split_key);
                    }
                }
            }
        }
        if side is Both {
            split_halves_meet(ssts[pos], new_sst_id, split_key);
        }
        assert forall|i: int| 0 <= i < stay.len() implies split_side(
            (#[trigger] stay[i]).key_range,
            split_key,
        ) is Left by {
            if i != pos {
                assert(stay[i] == ssts[i]);
            }
        }
        assert forall|i: int| 0 <= i < r.branched.len() implies split_side(
            (#[trigger] r.branched[i]).key_range,
            split_key,
        ) is Right by {
            if !(side is Both && i == 0) {
                assert(r.branched[i] == ssts[cut + i]);
            }
        }
    }
}

} // verus!
