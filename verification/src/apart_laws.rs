//! That SSTs stay apart in levels that let none overlap.
use crate::level::{CompactionGroupId, Level};
use crate::seqs::Sortable;
use vstd::prelude::*;

#[allow(unused_imports)]
use crate::apply::members_after_all;
#[allow(unused_imports)]
use crate::buf::{lemma_lex_total, lemma_lex_transitive};
#[allow(unused_imports)]
use crate::compact::{first_at_least, holds_ssts, id_at_least, not_among};
#[allow(unused_imports)]
use crate::group_deltas::{summary_of, SummaryView};
#[allow(unused_imports)]
use crate::key::{full_key, is_full_key, UserKeyView};
#[allow(unused_imports)]
use crate::key_range::KeyRangeView;
#[allow(unused_imports)]
use crate::level::{L0View, LevelType, LevelView, LevelsView};
#[allow(unused_imports)]
use crate::merge::{id_is, ssts_at};
#[allow(unused_imports)]
use crate::parent_group::{
    has_tables, lemma_levels_shape, lemma_sub_levels_shape, split_level, Division,
};
#[allow(unused_imports)]
use crate::seqs::{first_index, keep, lemma_first_index, lemma_keep_contains, lemma_sort_contains};
#[allow(unused_imports)]
use crate::split::{
    branched_ssts, remaining_ssts, split_at, split_level_at, split_pos, split_side,
    starts_at_or_after, touches,
};
#[allow(unused_imports)]
use crate::sstable_info::{concatable, ends_before_next, SstView};
#[allow(unused_imports)]
use crate::version::{tables_of, VersionDeltaView, VersionView};

verus! {

impl KeyRangeView {
    /// Whether both bounds are full keys, and the right one does not lie before the left one.
    pub open spec fn proper(self) -> bool {
        &&& is_full_key(self.left)
        &&& is_full_key(self.right)
        &&& !full_key(self.right).user_key.less(full_key(self.left).user_key)
    }
}

impl LevelView {
    /// Whether no SSTs overlap where the level lets none.
    pub open spec fn apart(self) -> bool {
        self.level_type == LevelType::Nonoverlapping ==> concatable(self.table_infos)
    }

    /// Whether the key ranges of all SSTs are proper.
    pub open spec fn proper(self) -> bool {
        all_proper(self.table_infos)
    }
}

/// Whether the key ranges of all SSTs are proper.
pub open spec fn all_proper(ssts: Seq<SstView>) -> bool {
    forall|i: int| 0 <= i < ssts.len() ==> (#[trigger] ssts[i]).key_range.proper()
}

/// Whether no SSTs overlap in those of the levels that let none.
pub open spec fn all_apart(levels: Seq<LevelView>) -> bool {
    forall|i: int| 0 <= i < levels.len() ==> (#[trigger] levels[i]).apart()
}

impl LevelsView {
    /// Whether no SSTs overlap in the levels that let none.
    pub open spec fn apart(self) -> bool {
        all_apart(self.l0.sub_levels) && all_apart(self.levels)
    }

    /// Whether the key ranges of all SSTs are proper.
    pub open spec fn proper(self) -> bool {
        &&& forall|i: int|
            0 <= i < self.l0.sub_levels.len() ==> (#[trigger] self.l0.sub_levels[i]).proper()
        &&& forall|i: int| 0 <= i < self.levels.len() ==> (#[trigger] self.levels[i]).proper()
    }
}

proof fn lemma_user_transitive(a: UserKeyView, b: UserKeyView, c: UserKeyView)
    requires
        a == b || a.less(b),
        b == c || b.less(c),
    ensures
        a == c || a.less(c),
        a.less(b) || b.less(c) ==> a.less(c),
{
    if a.less(b) && b.less(c) && a.table_id == b.table_id && b.table_id == c.table_id {
        lemma_lex_transitive(a.table_key, b.table_key, c.table_key);
    }
}

/// What ends before a proper range ends before all that this range ends before.
proof fn lemma_ends_before_transitive(a: KeyRangeView, b: KeyRangeView, key: Seq<u8>)
    requires
        a.right_comparable(b.left),
        a.ends_before(b.left),
        b.proper(),
        b.right_comparable(key),
        b.ends_before(key),
    ensures
        a.right_comparable(key),
        a.ends_before(key),
{
    let (ar, bl) = (full_key(a.right).user_key, full_key(b.left).user_key);
    let (br, k) = (full_key(b.right).user_key, full_key(key).user_key);
    lemma_lex_total(bl.table_key, br.table_key);
    assert(bl == br || bl.less(br));
    lemma_user_transitive(ar, bl, br);
    lemma_user_transitive(ar, br, k);
}

/// Of SSTs that are apart, any that are kept in order are apart, and the last of them ends before
/// all that the last one ends before.
proof fn lemma_keep_apart(ssts: Seq<SstView>, keep_it: spec_fn(SstView) -> bool)
    requires
        concatable(ssts),
        all_proper(ssts),
    ensures
        concatable(keep(ssts, keep_it)),
        forall|key: Seq<u8>|
            keep(ssts, keep_it).len() > 0 && ssts.last().key_range.right_comparable(key)
                && #[trigger] ssts.last().key_range.ends_before(key) ==> keep(
                ssts,
                keep_it,
            ).last().key_range.right_comparable(key) && keep(
                ssts,
                keep_it,
            ).last().key_range.ends_before(key),
    decreases ssts.len(),
{
    if ssts.len() > 0 {
        let t = ssts.drop_last();
        let last = ssts.last();
        lemma_drop_last_apart(ssts);
        assert(all_proper(t)) by {
            assert forall|i: int| 0 <= i < t.len() implies (
            #[trigger] t[i]).key_range.proper() by {
                assert(ssts[i] == t[i]);
            }
        }
        lemma_keep_apart(t, keep_it);
        assert(ssts =~= t.push(last));
        lemma_keep_behind(t, last, keep_it, ssts);
        let k = keep(ssts, keep_it);
        if !keep_it(last) && k.len() > 0 {
            assert(t.len() > 0);
            assert(ssts[ssts.len() - 1].key_range.proper());
            assert forall|key: Seq<u8>|
                last.key_range.right_comparable(key) && #[trigger] last.key_range.ends_before(
                    key,
                ) implies k.last().key_range.right_comparable(key)
                && k.last().key_range.ends_before(key) by {
                assert(ends_before_next(ssts, ssts.len() - 1));
                assert(ssts[ssts.len() - 2] == t.last());
                assert(t.last().key_range.ends_before(last.key_range.left));
                lemma_ends_before_transitive(k.last().key_range, last.key_range, key);
            }
        }
    }
}

proof fn lemma_drop_last_apart(ssts: Seq<SstView>)
    requires
        concatable(ssts),
        ssts.len() > 0,
    ensures
        concatable(ssts.drop_last()),
{
    let t = ssts.drop_last();
    assert forall|j: int| 1 <= j < t.len() implies ends_before_next(t, j) by {
        assert(ends_before_next(ssts, j));
        assert(t[j] == ssts[j] && t[j - 1] == ssts[j - 1]);
    }
}

/// The last SST can follow what is kept of those in front of it.
proof fn lemma_keep_behind(
    t: Seq<SstView>,
    last: SstView,
    keep_it: spec_fn(SstView) -> bool,
    ssts: Seq<SstView>,
)
    requires
        ssts == t.push(last),
        concatable(ssts),
        concatable(keep(t, keep_it)),
        forall|key: Seq<u8>|
            keep(t, keep_it).len() > 0 && t.last().key_range.right_comparable(key)
                && #[trigger] t.last().key_range.ends_before(key) ==> keep(
                t,
                keep_it,
            ).last().key_range.right_comparable(key) && keep(
                t,
                keep_it,
            ).last().key_range.ends_before(key),
    ensures
        concatable(keep(t, keep_it).push(last)),
{
    let k = keep(t, keep_it);
    let r = k.push(last);
    assert forall|j: int| 1 <= j < r.len() implies ends_before_next(r, j) by {
        if j < k.len() {
            assert(ends_before_next(k, j));
            assert(r[j] == k[j] && r[j - 1] == k[j - 1]);
        } else {
            assert(t.len() > 0);
            assert(ends_before_next(ssts, ssts.len() - 1));
            assert(ssts[ssts.len() - 2] == t.last() && ssts[ssts.len() - 1] == last);
            assert(t.last().key_range.ends_before(last.key_range.left));
            assert(r[j] == last && r[j - 1] == k.last());
        }
    }
}

/// Of SSTs that are apart, any that are kept in order are apart, even where the last range is not
/// proper.
proof fn lemma_keep_front_apart(ssts: Seq<SstView>, keep_it: spec_fn(SstView) -> bool)
    requires
        concatable(ssts),
        forall|i: int| 0 <= i < ssts.len() - 1 ==> (#[trigger] ssts[i]).key_range.proper(),
    ensures
        concatable(keep(ssts, keep_it)),
{
    if ssts.len() > 0 {
        let t = ssts.drop_last();
        lemma_drop_last_apart(ssts);
        assert forall|i: int| 0 <= i < t.len() implies (#[trigger] t[i]).key_range.proper() by {
            assert(ssts[i] == t[i]);
        }
        lemma_keep_apart(t, keep_it);
        assert(ssts =~= t.push(ssts.last()));
        lemma_keep_behind(t, ssts.last(), keep_it, ssts);
    }
}

/// Whether two lists of SSTs have the same key ranges.
spec fn same_ranges(a: Seq<SstView>, b: Seq<SstView>) -> bool {
    &&& a.len() == b.len()
    &&& forall|i: int| 0 <= i < a.len() ==> (#[trigger] a[i]).key_range == b[i].key_range
}

proof fn lemma_same_ranges_apart(a: Seq<SstView>, b: Seq<SstView>)
    requires
        same_ranges(a, b),
        concatable(b),
    ensures
        concatable(a),
{
    assert forall|j: int| 1 <= j < a.len() implies ends_before_next(a, j) by {
        assert(ends_before_next(b, j));
        assert(a[j].key_range == b[j].key_range);
        assert(a[j - 1].key_range == b[j - 1].key_range);
    }
}

proof fn lemma_by_tables_ranges(ssts: Seq<SstView>, members: Set<u32>, new_sst_id: u64)
    ensures
        same_ranges(remaining_ssts(ssts, members, new_sst_id), ssts),
        same_ranges(
            branched_ssts(ssts, members, new_sst_id),
            keep(ssts, |s: SstView| touches(s, members)),
        ),
    decreases ssts.len(),
{
    if ssts.len() > 0 {
        let t = ssts.drop_last();
        let hit = |s: SstView| touches(s, members);
        lemma_by_tables_ranges(t, members, new_sst_id);
        let (r, rt) = (
            remaining_ssts(ssts, members, new_sst_id),
            remaining_ssts(t, members, new_sst_id),
        );
        assert forall|i: int| 0 <= i < r.len() implies (#[trigger] r[i]).key_range
            == ssts[i].key_range by {
            if i < rt.len() {
                assert(rt[i].key_range == t[i].key_range);
            }
        }
        let (b, bt) = (
            branched_ssts(ssts, members, new_sst_id),
            branched_ssts(t, members, new_sst_id),
        );
        let (k, kt) = (keep(ssts, hit), keep(t, hit));
        assert forall|i: int| 0 <= i < b.len() implies (#[trigger] b[i]).key_range
            == k[i].key_range by {
            if i < bt.len() {
                assert(bt[i].key_range == kt[i].key_range);
            }
        }
    }
}

proof fn lemma_part_apart(ssts: Seq<SstView>, from: int, to: int)
    requires
        concatable(ssts),
        0 <= from <= to <= ssts.len(),
    ensures
        concatable(ssts.subrange(from, to)),
{
    let part = ssts.subrange(from, to);
    assert forall|j: int| 1 <= j < part.len() implies ends_before_next(part, j) by {
        assert(ends_before_next(ssts, from + j));
        assert(part[j] == ssts[from + j] && part[j - 1] == ssts[from + j - 1]);
    }
}

/// What a split makes of a level is apart on both sides where the level was: what stays, with the
/// SSTs without tables gone, and what branches off.
proof fn lemma_split_level_apart(
    level: LevelView,
    new_sst_id: u64,
    members: Set<u32>,
    split_key: Option<Seq<u8>>,
)
    requires
        level.apart(),
        level.proper(),
        split_level(level, new_sst_id, members, split_key) is Some,
    ensures
        split_level(level, new_sst_id, members, split_key)->0.level.level_type == level.level_type,
        level.level_type == LevelType::Nonoverlapping ==> concatable(
            keep(
                split_level(level, new_sst_id, members, split_key)->0.level.table_infos,
                has_tables(),
            ),
        ),
        level.level_type == LevelType::Nonoverlapping ==> concatable(
            split_level(level, new_sst_id, members, split_key)->0.branched,
        ),
{
    let ssts = level.table_infos;
    let split = split_level(level, new_sst_id, members, split_key)->0;
    if level.level_type == LevelType::Nonoverlapping {
        match split_key {
            None => {
                lemma_by_tables_ranges(ssts, members, new_sst_id);
                let hit = |s: SstView| touches(s, members);
                lemma_keep_apart(ssts, hit);
                lemma_same_ranges_apart(split.branched, keep(ssts, hit));
                lemma_same_ranges_apart(split.level.table_infos, ssts);
                assert forall|i: int| 0 <= i < split.level.table_infos.len() implies (
                #[trigger] split.level.table_infos[i]).key_range.proper() by {
                    assert(ssts[i].key_range.proper());
                }
                lemma_keep_apart(split.level.table_infos, has_tables());
            },
            Some(key) => {
                if ssts.len() == 0 {
                    lemma_keep_apart(ssts, has_tables());
                } else {
                    lemma_cut_apart(level, new_sst_id, key);
                }
            },
        }
    }
}

proof fn lemma_cut_apart(level: LevelView, new_sst_id: u64, key: Seq<u8>)
    requires
        level.apart(),
        level.proper(),
        level.level_type == LevelType::Nonoverlapping,
        level.table_infos.len() > 0,
        split_level_at(level, new_sst_id, key) is Some,
    ensures
        concatable(
            keep(
                split_level_at(level, new_sst_id, key)->0.level.table_infos,
                has_tables(),
            ),
        ),
        concatable(split_level_at(level, new_sst_id, key)->0.branched),
{
    let ssts = level.table_infos;
    let n = ssts.len() as int;
    let split = split_level_at(level, new_sst_id, key)->0;
    let pos = split_pos(ssts, key);
    lemma_first_index(ssts, starts_at_or_after(key));
    let left = split.level.table_infos;
    lemma_part_apart(ssts, 0, pos);
    lemma_part_apart(ssts, 0, pos + 1);
    lemma_part_apart(ssts, pos, n);
    lemma_part_apart(ssts, pos + 1, n);
    assert(ssts.take(pos) =~= ssts.subrange(0, pos));
    assert(ssts.take(pos + 1) =~= ssts.subrange(0, pos + 1));
    assert(ssts.skip(pos) =~= ssts.subrange(pos, n));
    assert(ssts.skip(pos + 1) =~= ssts.subrange(pos + 1, n));
    if split_side(ssts[pos].key_range, key) is Both {
        let (l, r) = split_at(ssts[pos], new_sst_id, key)->0;
        let b = split.branched;
        assert forall|j: int| 1 <= j < left.len() implies ends_before_next(left, j) by {
            assert(ends_before_next(ssts, j));
            assert(left[j].key_range.left == ssts[j].key_range.left);
            assert(left[j - 1] == ssts[j - 1]);
        }
        assert forall|j: int| 1 <= j < b.len() implies ends_before_next(b, j) by {
            assert(ends_before_next(ssts, pos + j));
            assert(b[j] == ssts[pos + j]);
            if j == 1 {
                assert(b[0] == r);
            } else {
                assert(b[j - 1] == ssts[pos + j - 1]);
            }
        }
    }
    assert forall|i: int| 0 <= i < left.len() - 1 implies (
    #[trigger] left[i]).key_range.proper() by {
        assert(ssts[i].key_range.proper());
        assert(left[i] == ssts[i]);
    }
    lemma_keep_front_apart(left, has_tables());
}

proof fn lemma_add_sub_level_apart(
    l0: L0View,
    sub_level_id: u64,
    level_type: LevelType,
    ssts: Seq<SstView>,
    place: Option<int>,
)
    requires
        all_apart(l0.sub_levels),
        level_type == LevelType::Nonoverlapping ==> concatable(ssts),
        l0.with_sub_level(sub_level_id, level_type, ssts, place) is Some,
    ensures
        all_apart(l0.with_sub_level(sub_level_id, level_type, ssts, place)->0.sub_levels),
{
    if sub_level_id != u64::MAX {
        let pos = l0.insert_pos(sub_level_id, place)->0;
        let r = l0.with_sub_level(sub_level_id, level_type, ssts, place)->0.sub_levels;
        assert forall|i: int| 0 <= i < r.len() implies (#[trigger] r[i]).apart() by {
            if i < pos {
                assert(r[i] == l0.sub_levels[i]);
            } else if i > pos {
                assert(r[i] == l0.sub_levels[i - 1]);
            }
        }
    }
}

proof fn lemma_update_apart(levels: Seq<LevelView>, i: int, level: LevelView)
    requires
        all_apart(levels),
        0 <= i < levels.len(),
        level.apart(),
    ensures
        all_apart(levels.update(i, level)),
{
    let r = levels.update(i, level);
    assert forall|k: int| 0 <= k < r.len() implies (#[trigger] r[k]).apart() by {
        if k != i {
            assert(r[k] == levels[k]);
        }
    }
}

/// A commit leaves SSTs apart in the levels that let none overlap.
pub proof fn commit_keeps_ssts_apart(levels: LevelsView, summary: SummaryView)
    requires
        levels.apart(),
        VersionView::committed(levels, summary) is Some,
    ensures
        VersionView::committed(levels, summary)->0.apart(),
{
    if summary.insert_table_infos.len() > 0 {
        lemma_add_sub_level_apart(
            levels.l0,
            summary.insert_sub_level_id,
            LevelType::Overlapping,
            summary.insert_table_infos,
            None,
        );
    }
}

/// A compaction leaves SSTs apart in the levels that let none overlap, where all key ranges were
/// proper.
pub proof fn compaction_keeps_ssts_apart(
    levels: LevelsView,
    summary: SummaryView,
    members: Set<u32>,
)
    requires
        levels.apart(),
        levels.proper(),
        levels.compacted(summary, members) is Some,
    ensures
        levels.compacted(summary, members)->0.apart(),
{
    let from = summary.delete_sst_levels;
    let ids = summary.delete_sst_ids;
    if levels.has_all(from, ids) {
        let w = levels.without(from, ids);
        let g = w.with_insertions(summary, members)->0;
        assert forall|i: int| 0 <= i < w.l0.sub_levels.len() implies (
        #[trigger] w.l0.sub_levels[i]).apart() by {
            let l = levels.l0.sub_levels[i];
            assert(l.apart() && l.proper());
            if l.level_type == LevelType::Nonoverlapping {
                lemma_keep_apart(l.table_infos, not_among(ids));
            }
        }
        assert forall|i: int| 0 <= i < w.levels.len() implies (
        #[trigger] w.levels[i]).apart() by {
            let l = levels.levels[i];
            assert(l.apart() && l.proper());
            if l.level_type == LevelType::Nonoverlapping {
                lemma_keep_apart(l.table_infos, not_among(ids));
            }
        }
        if summary.insert_table_infos.len() > 0 {
            if summary.insert_sst_level_id == 0 {
                let at = first_at_least(w.l0.sub_levels, summary.insert_sub_level_id);
                lemma_first_index(w.l0.sub_levels, id_at_least(summary.insert_sub_level_id));
                lemma_update_apart(w.l0.sub_levels, at, g.l0.sub_levels[at]);
            } else {
                let at = summary.insert_sst_level_id - 1;
                lemma_update_apart(w.levels, at, g.levels[at]);
            }
        }
        assert(g.apart());
        if from.contains(0) {
            let r = levels.compacted(summary, members)->0;
            lemma_keep_contains(g.l0.sub_levels, holds_ssts());
            assert forall|i: int| 0 <= i < r.l0.sub_levels.len() implies (
            #[trigger] r.l0.sub_levels[i]).apart() by {
                assert(r.l0.sub_levels.contains(r.l0.sub_levels[i]));
                let k = choose|k: int|
                    0 <= k < g.l0.sub_levels.len() && g.l0.sub_levels[k] == r.l0.sub_levels[i];
                assert(g.l0.sub_levels[k].apart());
            }
        }
    }
}

proof fn lemma_merging_apart(l0: L0View, others: Seq<LevelView>)
    requires
        all_apart(l0.sub_levels),
        all_apart(others),
        l0.with_all_merged(others) is Some,
    ensures
        all_apart(l0.with_all_merged(others)->0.sub_levels),
    decreases others.len(),
{
    if others.len() > 0 {
        let t = others.drop_last();
        let other = others.last();
        assert forall|i: int| 0 <= i < t.len() implies (#[trigger] t[i]).apart() by {
            assert(t[i] == others[i]);
        }
        lemma_merging_apart(l0, t);
        assert(others[others.len() - 1].apart());
        let before = l0.with_all_merged(t)->0;
        let i = first_index(before.sub_levels, id_is(other.sub_level_id));
        lemma_first_index(before.sub_levels, id_is(other.sub_level_id));
        if i < before.sub_levels.len() {
            lemma_update_apart(
                before.sub_levels,
                i,
                before.sub_levels[i].with_ssts(other.table_infos),
            );
        } else {
            lemma_add_sub_level_apart(
                before,
                other.sub_level_id,
                other.level_type,
                other.table_infos,
                None,
            );
        }
    }
}

/// Merging a group in leaves SSTs apart in the levels that let none overlap.
pub proof fn merge_keeps_ssts_apart(left: LevelsView, right: LevelsView)
    requires
        left.apart(),
        right.apart(),
        left.with_merged(right) is Some,
    ensures
        left.with_merged(right)->0.apart(),
        right.merged_away().apart(),
{
    let r = left.with_merged(right)->0;
    let merged = left.l0.with_all_merged(right.l0.sub_levels)->0;
    lemma_merging_apart(left.l0, right.l0.sub_levels);
    assert forall|i: int| 0 <= i < r.l0.sub_levels.len() implies (
    #[trigger] r.l0.sub_levels[i]).apart() by {
        lemma_sort_contains(merged.sub_levels, Level::before(), r.l0.sub_levels[i]);
        assert(r.l0.sub_levels.contains(r.l0.sub_levels[i]));
        let k = choose|k: int|
            0 <= k < merged.sub_levels.len() && merged.sub_levels[k] == r.l0.sub_levels[i];
        assert(merged.sub_levels[k].apart());
    }
    assert forall|i: int| 0 <= i < r.levels.len() implies (#[trigger] r.levels[i]).apart() by {
        assert(left.levels[i].apart());
        let ssts = ssts_at(right.levels, i);
        if ssts.len() > 0 {
            assert(left.levels[i].takes_merged(right.levels[i].table_infos));
        }
    }
}

proof fn lemma_sub_levels_apart(
    d: Division,
    n: nat,
    members: Set<u32>,
    split_key: Option<Seq<u8>>,
)
    requires
        n <= d.parent.l0.sub_levels.len(),
        d.parent.apart(),
        d.parent.proper(),
        d.target.apart(),
        d.with_sub_levels(n, members, split_key) is Some,
    ensures
        all_apart(d.with_sub_levels(n, members, split_key)->0.parent.l0.sub_levels),
        all_apart(d.with_sub_levels(n, members, split_key)->0.target.l0.sub_levels),
        forall|i: int|
            n <= i < d.parent.l0.sub_levels.len() ==> #[trigger] d.with_sub_levels(
                n,
                members,
                split_key,
            )->0.parent.l0.sub_levels[i] == d.parent.l0.sub_levels[i],
    decreases n,
{
    if n > 0 {
        let m = (n - 1) as nat;
        lemma_sub_levels_apart(d, m, members, split_key);
        lemma_sub_levels_shape(d, m, members, split_key);
        let before = d.with_sub_levels(m, members, split_key)->0;
        let prior = before.parent.l0.sub_levels[m as int];
        assert(prior == d.parent.l0.sub_levels[m as int]);
        assert(prior.apart() && prior.proper());
        lemma_split_level_apart(prior, before.next_sst_id, members, split_key);
        let split = split_level(prior, before.next_sst_id, members, split_key)->0;
        lemma_update_apart(before.parent.l0.sub_levels, m as int, split.level.purged());
        let l0 = before.target.l0;
        let at = first_at_least(l0.sub_levels, split.level.sub_level_id);
        lemma_first_index(l0.sub_levels, id_at_least(split.level.sub_level_id));
        if split.branched.len() > 0 {
            if at < l0.sub_levels.len() && l0.sub_levels[at].sub_level_id
                == split.level.sub_level_id {
                lemma_update_apart(
                    l0.sub_levels,
                    at,
                    l0.sub_levels[at].with_ssts(split.branched),
                );
            } else {
                lemma_add_sub_level_apart(
                    l0,
                    split.level.sub_level_id,
                    split.level.level_type,
                    split.branched,
                    Some(at),
                );
            }
        }
    }
}

proof fn lemma_levels_apart(
    d: Division,
    n: nat,
    members: Set<u32>,
    split_key: Option<Seq<u8>>,
)
    requires
        n <= d.parent.levels.len(),
        all_apart(d.parent.levels),
        forall|i: int|
            0 <= i < d.parent.levels.len() ==> (#[trigger] d.parent.levels[i]).proper(),
        all_apart(d.target.levels),
        d.with_levels(n, members, split_key) is Some,
    ensures
        all_apart(d.with_levels(n, members, split_key)->0.parent.levels),
        all_apart(d.with_levels(n, members, split_key)->0.target.levels),
        forall|i: int|
            n <= i < d.parent.levels.len() ==> #[trigger] d.with_levels(
                n,
                members,
                split_key,
            )->0.parent.levels[i] == d.parent.levels[i],
    decreases n,
{
    if n > 0 {
        let m = (n - 1) as nat;
        lemma_levels_apart(d, m, members, split_key);
        lemma_levels_shape(d, m, members, split_key);
        let before = d.with_levels(m, members, split_key)->0;
        let prior = before.parent.levels[m as int];
        assert(prior == d.parent.levels[m as int]);
        assert(prior.apart() && prior.proper());
        lemma_split_level_apart(prior, before.next_sst_id, members, split_key);
        let split = split_level(prior, before.next_sst_id, members, split_key)->0;
        lemma_update_apart(before.parent.levels, m as int, split.level.purged_and_counted());
        lemma_update_apart(
            before.target.levels,
            m as int,
            before.target.levels[m as int].with_branched(split.branched),
        );
    }
}

/// A split of a group leaves SSTs apart in those levels of both groups that let none overlap, where
/// all key ranges of the parent were proper.
pub proof fn division_keeps_ssts_apart(
    d: Division,
    members: Set<u32>,
    split_key: Option<Seq<u8>>,
)
    requires
        d.parent.apart(),
        d.parent.proper(),
        d.target.apart(),
        d.divided(members, split_key) is Some,
    ensures
        d.divided(members, split_key)->0.parent.apart(),
        d.divided(members, split_key)->0.target.apart(),
{
    let subs = d.parent.l0.sub_levels.len();
    let middle = d.with_sub_levels(subs, members, split_key)->0;
    lemma_sub_levels_shape(d, subs, members, split_key);
    lemma_sub_levels_apart(d, subs, members, split_key);
    lemma_levels_apart(middle, d.parent.levels.len(), members, split_key);
    lemma_levels_shape(middle, d.parent.levels.len(), members, split_key);
}

/// Local changes to a group leave SSTs apart in the levels that let none overlap, where all key
/// ranges were proper.
pub proof fn local_changes_keep_ssts_apart(
    v: VersionView,
    delta: VersionDeltaView,
    group_id: CompactionGroupId,
)
    requires
        v.locally_after(delta, group_id) is Some,
        v.levels[group_id].apart(),
        v.levels[group_id].proper(),
    ensures
        v.locally_after(delta, group_id)->0.apart(),
{
    let s = summary_of(delta.group_deltas[group_id], group_id)->0;
    let levels = LevelsView {
        member_table_ids: members_after_all(
            v.levels[group_id].member_table_ids,
            s.group_meta_changes,
        ),
        ..v.levels[group_id]
    };
    if v.max_committed_epoch < delta.max_committed_epoch {
        commit_keeps_ssts_apart(levels, s);
    } else {
        compaction_keeps_ssts_apart(levels, s, tables_of(v.state_table_info, group_id));
    }
}

} // verus!
