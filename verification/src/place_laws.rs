//! Where sub-levels and SSTs go, and what sums and counts are made of.
use crate::level::LevelType;
use vstd::prelude::*;

#[allow(unused_imports)]
use crate::buf::lex_less;
#[allow(unused_imports)]
use crate::compact::first_at_least;
#[allow(unused_imports)]
use crate::compact_laws::{lemma_level_sizes, level_raw_sizes, level_sizes};
#[allow(unused_imports)]
use crate::level::{L0View, LevelView, LevelsView};
#[allow(unused_imports)]
use crate::merge_laws::{all_apart, joined, lemma_concatable_apart, lemma_sizes, raw_sizes, sizes};
#[allow(unused_imports)]
use crate::seqs::{
    lemma_is_first_index, lemma_total_add, lemma_total_push, sort_keeps_elements, total, Sortable,
};
#[allow(unused_imports)]
use crate::split::{split_pos, starts_at_or_after};
#[allow(unused_imports)]
use crate::split_count::{ids_for_level, ids_for_upper_level};
#[allow(unused_imports)]
use crate::sstable_info::{
    concatable, ends_before_next, BloomFilterType, SstView, SstableInfo,
};
#[allow(unused_imports)]
use crate::version::VersionView;
#[allow(unused_imports)]
use vstd::seq_lib::lemma_multiset_commutative;

verus! {

/// A sum is that of the first element and the others.
pub proof fn sums_go_from_the_front<A>(s: Seq<A>, f: spec_fn(A) -> int)
    ensures
        s.len() == 0 ==> total(s, f) == 0,
        s.len() > 0 ==> total(s, f) == f(s[0]) + total(s.skip(1), f),
{
    if s.len() > 0 {
        let front = seq![s[0]];
        assert(front + s.skip(1) =~= s);
        assert(front =~= Seq::empty().push(s[0]));
        lemma_total_push(Seq::empty(), s[0], f);
        lemma_total_add(front, s.skip(1), f);
    }
}

/// A level that counts its SSTs has their sizes, and level 0 that counts its sub-levels has theirs.
pub proof fn counted_levels_have_their_sizes(levels: LevelsView)
    ensures
        forall|l: LevelView| #[trigger]
            l.counted() <==> l.total_file_size == sizes(l.table_infos) && l.uncompressed_file_size
                == raw_sizes(l.table_infos),
        levels.l0.counted() ==> levels.l0.total_file_size == level_sizes(levels.l0.sub_levels)
            && levels.l0.uncompressed_file_size == level_raw_sizes(levels.l0.sub_levels),
        levels.l0.counted() ==> forall|i: int|
            0 <= i < levels.l0.sub_levels.len() ==> (#[trigger] levels.l0.sub_levels[i]).counted(),
        levels.counted() ==> levels.l0.counted() && forall|i: int|
            0 <= i < levels.levels.len() ==> (#[trigger] levels.levels[i]).counted(),
{
    assert forall|l: LevelView| #[trigger]
        l.counted() <==> l.total_file_size == sizes(l.table_infos) && l.uncompressed_file_size
            == raw_sizes(l.table_infos) by {
        lemma_sizes(l.table_infos);
    }
    lemma_level_sizes(levels.l0.sub_levels);
}

/// The place of a sub-level id is behind those with smaller ids, and in front of one that has none.
pub proof fn place_is_in_front_of_larger_ids(subs: Seq<LevelView>, sub_level_id: u64, p: int)
    requires
        0 <= p <= subs.len(),
        forall|i: int| 0 <= i < p ==> (#[trigger] subs[i]).sub_level_id < sub_level_id,
        p < subs.len() ==> subs[p].sub_level_id >= sub_level_id,
    ensures
        first_at_least(subs, sub_level_id) == p,
{
    lemma_is_first_index(subs, crate::compact::id_at_least(sub_level_id), p);
}

/// A new sub-level goes to the place given, or behind all others; it holds the SSTs as they are, and
/// level 0 counts them in. The largest id stands for no sub-level.
pub proof fn new_sub_level_takes_its_place(
    l0: L0View,
    sub_level_id: u64,
    level_type: LevelType,
    ssts: Seq<SstView>,
    place: Option<int>,
)
    requires
        l0.with_sub_level(sub_level_id, level_type, ssts, place) is Some,
    ensures
        ({
            let r = l0.with_sub_level(sub_level_id, level_type, ssts, place)->0;
            let at = match place {
                Some(i) => i,
                None => l0.sub_levels.len() as int,
            };
            let x = r.sub_levels[at];
            &&& sub_level_id == u64::MAX ==> r == l0
            &&& sub_level_id != u64::MAX ==> {
                &&& 0 <= at <= l0.sub_levels.len()
                &&& r.sub_levels == l0.sub_levels.insert(at, x)
                &&& x.sub_level_id == sub_level_id
                &&& x.level_type == level_type
                &&& x.table_infos == ssts
                &&& x.level_idx == 0
                &&& x.vnode_partition_count == 0
                &&& x.total_file_size == sizes(ssts)
                &&& x.uncompressed_file_size == raw_sizes(ssts)
                &&& r.total_file_size == l0.total_file_size + sizes(ssts)
                &&& r.uncompressed_file_size == l0.uncompressed_file_size + raw_sizes(ssts)
                &&& place is None && l0.sub_levels.len() > 0 ==> l0.sub_levels.last().sub_level_id
                    < sub_level_id
            }
        }),
{
    lemma_sizes(ssts);
}

/// SSTs added to a sub-level join those that it holds; the other sub-levels stay as they were, and level
/// 0 counts the SSTs in.
pub proof fn added_ssts_join_their_sub_level(l0: L0View, idx: int, ssts: Seq<SstView>)
    requires
        l0.with_ssts(idx, ssts) is Some,
    ensures
        ({
            let r = l0.with_ssts(idx, ssts)->0;
            &&& 0 <= idx < l0.sub_levels.len()
            &&& r.sub_levels.len() == l0.sub_levels.len()
            &&& joined(l0.sub_levels[idx], ssts, r.sub_levels[idx])
            &&& forall|i: int|
                0 <= i < l0.sub_levels.len() && i != idx ==> #[trigger] r.sub_levels[i]
                    == l0.sub_levels[i]
            &&& r.total_file_size == l0.total_file_size + sizes(ssts)
            &&& r.uncompressed_file_size == l0.uncompressed_file_size + raw_sizes(ssts)
        }),
{
    let before = l0.sub_levels[idx];
    lemma_sizes(ssts);
    lemma_multiset_commutative(before.table_infos, ssts);
    sort_keeps_elements(before.table_infos + ssts, SstableInfo::before());
    if before.level_type == LevelType::Nonoverlapping {
        lemma_concatable_apart(before.with_ssts(ssts).table_infos);
    }
}

/// SSTs whose bounds are full keys can stand behind each other if and only if they are apart.
pub proof fn concatable_ssts_are_apart(ssts: Seq<SstView>)
    requires
        forall|i: int|
            0 <= i < ssts.len() ==> (#[trigger] ssts[i]).key_range.left.len() >= 12
                && ssts[i].key_range.right.len() >= 12,
    ensures
        concatable(ssts) <==> all_apart(ssts),
{
    if concatable(ssts) {
        lemma_concatable_apart(ssts);
    }
    if all_apart(ssts) {
        assert forall|j: int| 1 <= j < ssts.len() implies ends_before_next(ssts, j) by {
            assert(crate::merge_laws::apart_at(ssts, j));
            assert(ssts[j - 1].key_range.right.len() >= 12);
            assert(ssts[j].key_range.left.len() >= 12);
        }
    }
}

/// The place at which SSTs are split is that of the last of those at the front that start before the
/// key; the first place where there is none.
pub proof fn split_place_is_the_last_in_front(ssts: Seq<SstView>, key: Seq<u8>, p: int)
    requires
        0 <= p <= ssts.len(),
        forall|i: int| 0 <= i < p ==> lex_less((#[trigger] ssts[i]).key_range.left, key),
        p < ssts.len() ==> !lex_less(ssts[p].key_range.left, key),
    ensures
        split_pos(ssts, key) == (if p > 0 {
            p - 1
        } else {
            0
        }),
{
    lemma_is_first_index(ssts, starts_at_or_after(key), p);
}

/// Two ids are set aside for each SST of an overlapping sub-level, and two for the SST that reaches
/// over the key in another level.
pub proof fn ids_are_set_aside_for_cuts(level: LevelView, key: Seq<u8>, p: int)
    requires
        0 <= p <= level.table_infos.len(),
        forall|i: int|
            0 <= i < p ==> lex_less((#[trigger] level.table_infos[i]).key_range.left, key),
        p < level.table_infos.len() ==> !lex_less(level.table_infos[p].key_range.left, key),
    ensures
        ({
            let range = level.table_infos[p - 1].key_range;
            let cut = p > 0 && !lex_less(range.right, key) && !(range.right == key
                && range.right_exclusive);
            &&& ids_for_upper_level(key)(level) == (if cut {
                2int
            } else {
                0int
            })
            &&& level.level_type != LevelType::Overlapping ==> ids_for_level(key)(level) == (if cut {
                2int
            } else {
                0int
            })
            &&& level.level_type == LevelType::Overlapping ==> ids_for_level(key)(level) == 2
                * level.table_infos.len()
        }),
{
    split_place_is_the_last_in_front(level.table_infos, key, p);
}

/// The ids set aside for a split of a group are those for its sub-levels and those for its levels above
/// 0.
pub proof fn ids_are_set_aside_for_all_levels(levels: LevelsView, key: Seq<u8>)
    ensures
        levels.ids_for_split(key) == total(levels.l0.sub_levels, ids_for_level(key)) + total(
            levels.levels,
            ids_for_upper_level(key),
        ),
{
}

/// A blank version, group, level or SST holds nothing and counts nothing.
pub proof fn blank_values_hold_nothing()
    ensures
        ({
            let (v, g, l, s) = (
                VersionView::blank(),
                LevelsView::blank(),
                LevelView::blank(),
                SstView::blank(),
            );
            &&& v.id == 0 && v.max_committed_epoch == 0 && v.safe_epoch == 0
            &&& forall|id: u64| !#[trigger] v.levels.dom().contains(id)
            &&& forall|t: u32| !#[trigger] v.table_watermarks.dom().contains(t)
            &&& forall|t: u32| !#[trigger] v.table_change_log.dom().contains(t)
            &&& forall|t: u32| !#[trigger] v.state_table_info.dom().contains(t)
            &&& g.levels.len() == 0 && g.l0.sub_levels.len() == 0 && g.member_table_ids.len() == 0
            &&& g.group_id == 0 && g.parent_group_id == 0
            &&& g.l0.total_file_size == 0 && g.l0.uncompressed_file_size == 0
            &&& g.l0 == L0View::blank()
            &&& l.table_infos.len() == 0 && l.total_file_size == 0 && l.uncompressed_file_size == 0
            &&& l.level_idx == 0 && l.sub_level_id == 0 && l.vnode_partition_count == 0
            &&& l.level_type == LevelType::Unspecified
            &&& s.object_id == 0 && s.sst_id == 0 && s.table_ids.len() == 0 && s.file_size == 0
            &&& s.meta_offset == 0 && s.stale_key_count == 0 && s.total_key_count == 0
            &&& s.min_epoch == 0 && s.max_epoch == 0 && s.range_tombstone_count == 0
            &&& s.uncompressed_file_size == 0 && s.estimated_sst_size == 0
            &&& s.bloom_filter_kind == BloomFilterType::Unspecified
            &&& s.key_range.left.len() == 0 && s.key_range.right.len() == 0
                && !s.key_range.right_exclusive
        }),
{
}

} // verus!
