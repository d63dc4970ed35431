//! What two groups hold after SSTs were divided between them, stated level by level.
use crate::level::LevelType;
use vstd::prelude::*;

#[allow(unused_imports)]
use crate::compact::{first_at_least, id_at_least};
#[allow(unused_imports)]
use crate::compact_laws::same_group;
#[allow(unused_imports)]
use crate::level::{L0View, LevelView};
#[allow(unused_imports)]
use crate::merge_laws::{
    all_apart, has_id, ids_differ, joined, lemma_concatable_apart, lemma_sizes, raw_sizes,
    same_place, sizes, taken_over,
};
#[allow(unused_imports)]
use crate::parent_group::{
    has_tables, lacks_tables, lemma_levels_shape, lemma_sub_levels_shape, split_level, Division,
};
#[allow(unused_imports)]
use crate::seqs::{lemma_first_index, lemma_keep_is_filter, sort_keeps_elements, Sortable};
#[allow(unused_imports)]
use crate::split::{split_level_at, split_level_by_tables, LevelSplit};
#[allow(unused_imports)]
use crate::sstable_info::{concatable, SstView, SstableInfo};
#[allow(unused_imports)]
use vstd::seq_lib::lemma_multiset_commutative;

verus! {

/// Whether a level is split as given: at the key where there is one, by the tables otherwise.
pub open spec fn split_as(
    level: LevelView,
    new_sst_id: u64,
    members: Set<u32>,
    split_key: Option<Seq<u8>>,
    split: LevelSplit,
) -> bool {
    match split_key {
        Some(key) => split_level_at(level, new_sst_id, key) == Some(split),
        None => split_level_by_tables(level, new_sst_id, members) == Some(split),
    }
}

/// The SSTs that hold a table.
pub open spec fn not_husks(ssts: Seq<SstView>) -> Seq<SstView> {
    ssts.filter(|s: SstView| s.table_ids.len() > 0)
}

/// The SSTs that hold no table.
pub open spec fn only_husks(ssts: Seq<SstView>) -> Seq<SstView> {
    ssts.filter(|s: SstView| s.table_ids.len() == 0)
}

/// Whether a level above 0 of two groups is divided as given: the parent keeps what stays and holds a
/// table, counted anew, and the other group gets what branches off, in the order of key ranges.
pub open spec fn level_divided(
    parent: LevelView,
    target: LevelView,
    split: LevelSplit,
    parent_after: LevelView,
    target_after: LevelView,
) -> bool {
    &&& same_place(parent_after, parent)
    &&& parent_after.table_infos == not_husks(split.level.table_infos)
    &&& parent_after.total_file_size == sizes(parent_after.table_infos)
    &&& parent_after.uncompressed_file_size == raw_sizes(parent_after.table_infos)
    &&& same_place(target_after, target)
    &&& target_after.table_infos.to_multiset() == target.table_infos.to_multiset().add(
        split.branched.to_multiset(),
    )
    &&& all_apart(target_after.table_infos)
    &&& target_after.total_file_size == target.total_file_size + sizes(split.branched)
    &&& target_after.uncompressed_file_size == target.uncompressed_file_size + raw_sizes(
        split.branched,
    )
}

proof fn lemma_split_place(
    level: LevelView,
    new_sst_id: u64,
    members: Set<u32>,
    split_key: Option<Seq<u8>>,
)
    requires
        split_level(level, new_sst_id, members, split_key) is Some,
    ensures
        ({
            let sp = split_level(level, new_sst_id, members, split_key)->0;
            &&& sp.level == (LevelView { table_infos: sp.level.table_infos, ..level })
            &&& split_as(level, new_sst_id, members, split_key, sp)
        }),
{
}

proof fn lemma_level_divided(
    d: Division,
    i: int,
    members: Set<u32>,
    split_key: Option<Seq<u8>>,
) -> (split: LevelSplit)
    requires
        d.with_level(i, members, split_key) is Some,
        0 <= i < d.parent.levels.len(),
    ensures
        split_as(d.parent.levels[i], d.next_sst_id, members, split_key, split),
        level_divided(
            d.parent.levels[i],
            d.target.levels[i],
            split,
            d.with_level(i, members, split_key)->0.parent.levels[i],
            d.with_level(i, members, split_key)->0.target.levels[i],
        ),
{
    let level = d.parent.levels[i];
    let split = split_level(level, d.next_sst_id, members, split_key)->0;
    lemma_split_place(level, d.next_sst_id, members, split_key);
    let p = |s: SstView| s.table_ids.len() > 0;
    assert(has_tables() =~= p);
    lemma_keep_is_filter(split.level.table_infos, p);
    lemma_sizes(not_husks(split.level.table_infos));
    let target = d.target.levels[i];
    lemma_sizes(split.branched);
    lemma_multiset_commutative(target.table_infos, split.branched);
    sort_keeps_elements(target.table_infos + split.branched, SstableInfo::before());
    lemma_concatable_apart(target.with_branched(split.branched).table_infos);
    split
}

/// The first id that a split may give: the one given at first, and then the one that the split in front
/// left free.
pub open spec fn first_free_id(start: u64, splits: Seq<LevelSplit>, i: int) -> u64 {
    if i <= 0 {
        start
    } else {
        splits[i - 1].next_sst_id
    }
}

/// Whether the level at `i` is divided with a split of the parent's level.
pub open spec fn divided_at(
    d: Division,
    r: Division,
    members: Set<u32>,
    split_key: Option<Seq<u8>>,
    start: u64,
    splits: Seq<LevelSplit>,
    i: int,
) -> bool {
    &&& split_as(
        d.parent.levels[i],
        first_free_id(start, splits, i),
        members,
        split_key,
        splits[i],
    )
    &&& level_divided(
        d.parent.levels[i],
        d.target.levels[i],
        splits[i],
        r.parent.levels[i],
        r.target.levels[i],
    )
}

proof fn lemma_levels_divided(
    d: Division,
    n: nat,
    members: Set<u32>,
    split_key: Option<Seq<u8>>,
) -> (splits: Seq<LevelSplit>)
    requires
        d.with_levels(n, members, split_key) is Some,
        n <= d.parent.levels.len(),
    ensures
        ({
            let r = d.with_levels(n, members, split_key)->0;
            &&& n <= d.target.levels.len()
            &&& splits.len() == n
            &&& r.next_sst_id == first_free_id(d.next_sst_id, splits, n as int)
            &&& r.parent.levels.len() == d.parent.levels.len()
            &&& r.target.levels.len() == d.target.levels.len()
            &&& forall|i: int|
                0 <= i < n ==> #[trigger] divided_at(
                    d,
                    r,
                    members,
                    split_key,
                    d.next_sst_id,
                    splits,
                    i,
                )
            &&& forall|i: int|
                n <= i < d.parent.levels.len() ==> #[trigger] r.parent.levels[i]
                    == d.parent.levels[i]
            &&& forall|i: int|
                n <= i < d.target.levels.len() ==> #[trigger] r.target.levels[i]
                    == d.target.levels[i]
        }),
    decreases n,
{
    if n > 0 {
        let m = (n - 1) as nat;
        let had = lemma_levels_divided(d, m, members, split_key);
        lemma_levels_shape(d, m, members, split_key);
        let w = d.with_levels(m, members, split_key)->0;
        let r = d.with_levels(n, members, split_key)->0;
        let split = lemma_level_divided(w, n - 1, members, split_key);
        let splits = had.push(split);
        assert(w.parent.levels[n - 1] == d.parent.levels[n - 1]);
        assert(w.target.levels[n - 1] == d.target.levels[n - 1]);
        assert forall|i: int| 0 <= i < n implies #[trigger] divided_at(
            d,
            r,
            members,
            split_key,
            d.next_sst_id,
            splits,
            i,
        ) by {
            assert(first_free_id(d.next_sst_id, splits, i) == first_free_id(
                d.next_sst_id,
                had,
                i,
            ));
            if i < n - 1 {
                assert(divided_at(d, w, members, split_key, d.next_sst_id, had, i));
                assert(splits[i] == had[i]);
                assert(r.parent.levels[i] == w.parent.levels[i]);
                assert(r.target.levels[i] == w.target.levels[i]);
            } else {
                assert(splits[i] == split);
            }
        }
        splits
    } else {
        Seq::empty()
    }
}

/// A division of SSTs between two groups divides each level above 0 of the parent with the level at the
/// same place of the other group. Each split goes on with the ids where the one in front ended, from
/// `start` on. Both groups stay the same ones.
pub proof fn division_divides_upper_levels(
    d: Division,
    members: Set<u32>,
    split_key: Option<Seq<u8>>,
) -> (r: (u64, Seq<LevelSplit>))
    requires
        d.divided(members, split_key) is Some,
    ensures
        ({
            let after = d.divided(members, split_key)->0;
            let (start, splits) = r;
            &&& same_group(after.parent, d.parent)
            &&& same_group(after.target, d.target)
            &&& after.parent.levels.len() == d.parent.levels.len()
            &&& after.target.levels.len() == d.target.levels.len()
            &&& d.parent.levels.len() <= d.target.levels.len()
            &&& splits.len() == d.parent.levels.len()
            &&& after.next_sst_id == first_free_id(start, splits, splits.len() as int)
            &&& d.parent.l0.sub_levels.len() == 0 ==> start == d.next_sst_id
            &&& forall|i: int|
                0 <= i < d.parent.levels.len() ==> #[trigger] divided_at(
                    d,
                    after,
                    members,
                    split_key,
                    start,
                    splits,
                    i,
                )
            &&& forall|i: int|
                d.parent.levels.len() <= i < d.target.levels.len()
                    ==> #[trigger] after.target.levels[i] == d.target.levels[i]
        }),
{
    let w = d.with_sub_levels(d.parent.l0.sub_levels.len(), members, split_key)->0;
    let after = d.divided(members, split_key)->0;
    lemma_sub_levels_shape(d, d.parent.l0.sub_levels.len(), members, split_key);
    lemma_levels_shape(w, w.parent.levels.len(), members, split_key);
    let splits = lemma_levels_divided(w, w.parent.levels.len(), members, split_key);
    assert forall|i: int| 0 <= i < d.parent.levels.len() implies #[trigger] divided_at(
        d,
        after,
        members,
        split_key,
        w.next_sst_id,
        splits,
        i,
    ) by {
        assert(divided_at(w, after, members, split_key, w.next_sst_id, splits, i));
    }
    (w.next_sst_id, splits)
}

/// What branches off a sub-level, as a sub-level of its own.
pub open spec fn branch_of(level: LevelView, split: LevelSplit) -> LevelView {
    LevelView { table_infos: split.branched, ..level }
}

/// Whether the parent keeps of a sub-level what stays and holds a table, and counts the rest out.
pub open spec fn sub_level_kept(level: LevelView, split: LevelSplit, after: LevelView) -> bool {
    &&& same_place(after, level)
    &&& after.table_infos == not_husks(split.level.table_infos)
    &&& after.total_file_size == level.total_file_size - sizes(
        only_husks(split.level.table_infos),
    )
    &&& after.uncompressed_file_size == level.uncompressed_file_size - raw_sizes(
        only_husks(split.level.table_infos),
    )
}

/// Whether sub-levels are in the order of their ids, each once.
pub open spec fn ids_ascend(subs: Seq<LevelView>) -> bool {
    forall|i: int, j: int|
        0 <= i < j < subs.len() ==> (#[trigger] subs[i]).sub_level_id < (
        #[trigger] subs[j]).sub_level_id
}

/// Whether one of the first branches has the id and holds an SST.
pub open spec fn branch_comes(branches: Seq<LevelView>, sub_level_id: u64) -> bool {
    exists|i: int|
        0 <= i < branches.len() && (#[trigger] branches[i]).sub_level_id == sub_level_id
            && branches[i].table_infos.len() > 0
}

/// Whether the sub-levels are those that a group had and the branches: a branch that holds an SST is
/// joined to the sub-level of the same id, or is a new sub-level where there is none.
pub open spec fn branches_taken(
    before: Seq<LevelView>,
    branches: Seq<LevelView>,
    after: Seq<LevelView>,
) -> bool {
    &&& ids_ascend(after)
    &&& forall|j: int|
        0 <= j < before.len() && !branch_comes(branches, (#[trigger] before[j]).sub_level_id)
            ==> after.contains(before[j])
    &&& forall|j: int, i: int|
        0 <= j < before.len() && 0 <= i < branches.len() && (
        #[trigger] before[j]).sub_level_id == (#[trigger] branches[i]).sub_level_id
            && branches[i].table_infos.len() > 0 ==> exists|k: int|
            0 <= k < after.len() && joined(
                before[j],
                branches[i].table_infos,
                #[trigger] after[k],
            )
    &&& forall|i: int|
        0 <= i < branches.len() && (#[trigger] branches[i]).table_infos.len() > 0 && !has_id(
            before,
            branches[i].sub_level_id,
        ) && branches[i].sub_level_id != u64::MAX ==> exists|k: int|
            0 <= k < after.len() && taken_over(branches[i], #[trigger] after[k])
    &&& forall|k: int|
        0 <= k < after.len() ==> has_id(before, (#[trigger] after[k]).sub_level_id)
            || branch_comes(branches, after[k].sub_level_id)
}

proof fn lemma_branch_comes_push(branches: Seq<LevelView>, o: LevelView, id: u64)
    ensures
        branch_comes(branches.push(o), id) <==> branch_comes(branches, id) || (o.sub_level_id == id
            && o.table_infos.len() > 0),
{
    let all = branches.push(o);
    assert(all[branches.len() as int] == o);
    if branch_comes(branches, id) {
        let i = choose|i: int|
            0 <= i < branches.len() && (#[trigger] branches[i]).sub_level_id == id
                && branches[i].table_infos.len() > 0;
        assert(all[i] == branches[i]);
    }
    if branch_comes(all, id) {
        let i = choose|i: int|
            0 <= i < all.len() && (#[trigger] all[i]).sub_level_id == id
                && all[i].table_infos.len() > 0;
        if i < branches.len() {
            assert(branches[i] == all[i]);
        }
    }
}

/// One more branch that holds no SST, or that stands for no sub-level, changes nothing.
proof fn lemma_branch_ignored(
    before: Seq<LevelView>,
    branches: Seq<LevelView>,
    o: LevelView,
    after: Seq<LevelView>,
)
    requires
        branches_taken(before, branches, after),
        o.table_infos.len() == 0 || (o.sub_level_id == u64::MAX && !has_id(
            before,
            o.sub_level_id,
        )),
    ensures
        branches_taken(before, branches.push(o), after),
{
    let all = branches.push(o);
    assert forall|j: int|
        0 <= j < before.len() && !branch_comes(all, (#[trigger] before[j]).sub_level_id) implies
        after.contains(before[j]) by {
        lemma_branch_comes_push(branches, o, before[j].sub_level_id);
    }
    assert forall|j: int, i: int|
        0 <= j < before.len() && 0 <= i < all.len() && (#[trigger] before[j]).sub_level_id == (
        #[trigger] all[i]).sub_level_id && all[i].table_infos.len() > 0 implies exists|k: int|
        0 <= k < after.len() && joined(before[j], all[i].table_infos, #[trigger] after[k]) by {
        if i < branches.len() {
            assert(all[i] == branches[i]);
        } else {
            assert(has_id(before, o.sub_level_id));
        }
    }
    assert forall|i: int|
        0 <= i < all.len() && (#[trigger] all[i]).table_infos.len() > 0 && !has_id(
            before,
            all[i].sub_level_id,
        ) && all[i].sub_level_id != u64::MAX implies exists|k: int|
        0 <= k < after.len() && taken_over(all[i], #[trigger] after[k]) by {
        if i < branches.len() {
            assert(all[i] == branches[i]);
        }
    }
    assert forall|k: int| 0 <= k < after.len() implies has_id(
        before,
        (#[trigger] after[k]).sub_level_id,
    ) || branch_comes(all, after[k].sub_level_id) by {
        lemma_branch_comes_push(branches, o, after[k].sub_level_id);
    }
}

/// One more branch is joined to a sub-level, or becomes a new one.
proof fn lemma_branch_arrives(
    before: Seq<LevelView>,
    branches: Seq<LevelView>,
    o: LevelView,
    mid: Seq<LevelView>,
    after: Seq<LevelView>,
    at: int,
)
    requires
        branches_taken(before, branches, mid),
        ids_ascend(before),
        !branch_comes(branches, o.sub_level_id),
        o.table_infos.len() > 0,
        ids_ascend(after),
        0 <= at < after.len(),
        forall|x: LevelView|
            #[trigger] mid.contains(x) && x.sub_level_id != o.sub_level_id ==> after.contains(x),
        forall|k: int| 0 <= k < after.len() && k != at ==> mid.contains(#[trigger] after[k]),
        forall|j: int|
            0 <= j < before.len() && (#[trigger] before[j]).sub_level_id == o.sub_level_id
                ==> joined(before[j], o.table_infos, after[at]),
        !has_id(before, o.sub_level_id) ==> taken_over(o, after[at]),
        after[at].sub_level_id == o.sub_level_id,
    ensures
        branches_taken(before, branches.push(o), after),
{
    let all = branches.push(o);
    assert(all[branches.len() as int] == o);
    assert forall|j: int|
        0 <= j < before.len() && !branch_comes(all, (#[trigger] before[j]).sub_level_id) implies
        after.contains(before[j]) by {
        lemma_branch_comes_push(branches, o, before[j].sub_level_id);
        assert(mid.contains(before[j]));
    }
    assert forall|j: int, i: int|
        0 <= j < before.len() && 0 <= i < all.len() && (#[trigger] before[j]).sub_level_id == (
        #[trigger] all[i]).sub_level_id && all[i].table_infos.len() > 0 implies exists|k: int|
        0 <= k < after.len() && joined(before[j], all[i].table_infos, #[trigger] after[k]) by {
        if i < branches.len() {
            assert(all[i] == branches[i]);
            assert(branch_comes(branches, branches[i].sub_level_id));
            let m = choose|m: int|
                0 <= m < mid.len() && joined(before[j], branches[i].table_infos, #[trigger] mid[m]);
            assert(mid.contains(mid[m]));
            assert(after.contains(mid[m]));
            let k = choose|k: int| 0 <= k < after.len() && after[k] == mid[m];
            assert(joined(before[j], all[i].table_infos, after[k]));
        } else {
            assert(joined(before[j], o.table_infos, after[at]));
        }
    }
    assert forall|i: int|
        0 <= i < all.len() && (#[trigger] all[i]).table_infos.len() > 0 && !has_id(
            before,
            all[i].sub_level_id,
        ) && all[i].sub_level_id != u64::MAX implies exists|k: int|
        0 <= k < after.len() && taken_over(all[i], #[trigger] after[k]) by {
        if i < branches.len() {
            assert(all[i] == branches[i]);
            assert(branch_comes(branches, branches[i].sub_level_id));
            let m = choose|m: int| 0 <= m < mid.len() && taken_over(branches[i], #[trigger] mid[m]);
            assert(mid.contains(mid[m]));
            assert(after.contains(mid[m]));
            let k = choose|k: int| 0 <= k < after.len() && after[k] == mid[m];
            assert(taken_over(all[i], after[k]));
        } else {
            assert(taken_over(o, after[at]));
        }
    }
    assert forall|k: int| 0 <= k < after.len() implies has_id(
        before,
        (#[trigger] after[k]).sub_level_id,
    ) || branch_comes(all, after[k].sub_level_id) by {
        lemma_branch_comes_push(branches, o, after[k].sub_level_id);
        if k != at {
            assert(mid.contains(after[k]));
            let m = choose|m: int| 0 <= m < mid.len() && mid[m] == after[k];
            assert(has_id(before, mid[m].sub_level_id) || branch_comes(
                branches,
                mid[m].sub_level_id,
            ));
        }
    }
}

/// A branch is joined to the sub-level with its id.
proof fn lemma_branch_joins(
    before: Seq<LevelView>,
    branches: Seq<LevelView>,
    o: LevelView,
    mid: Seq<LevelView>,
    at: int,
    level: LevelView,
)
    requires
        branches_taken(before, branches, mid),
        ids_ascend(before),
        !branch_comes(branches, o.sub_level_id),
        o.table_infos.len() > 0,
        0 <= at < mid.len(),
        mid[at].sub_level_id == o.sub_level_id,
        joined(mid[at], o.table_infos, level),
    ensures
        branches_taken(before, branches.push(o), mid.update(at, level)),
{
    let id = o.sub_level_id;
    let after = mid.update(at, level);
    assert(has_id(before, mid[at].sub_level_id) || branch_comes(branches, mid[at].sub_level_id));
    let j = choose|j: int| 0 <= j < before.len() && (#[trigger] before[j]).sub_level_id == id;
    assert(mid.contains(before[j]));
    let m = choose|m: int| 0 <= m < mid.len() && mid[m] == before[j];
    if m < at {
        assert(mid[m].sub_level_id < mid[at].sub_level_id);
    }
    if at < m {
        assert(mid[at].sub_level_id < mid[m].sub_level_id);
    }
    assert(mid[at] == before[j]);
    assert forall|x: LevelView| #[trigger] mid.contains(x) && x.sub_level_id != id implies
        after.contains(x) by {
        let k = choose|k: int| 0 <= k < mid.len() && mid[k] == x;
        assert(after[k] == x);
    }
    assert forall|k: int| 0 <= k < after.len() && k != at implies mid.contains(
        #[trigger] after[k],
    ) by {
        assert(mid[k] == after[k]);
    }
    assert forall|i: int|
        0 <= i < before.len() && (#[trigger] before[i]).sub_level_id == id implies joined(
        before[i],
        o.table_infos,
        after[at],
    ) by {
        if i < j {
            assert(before[i].sub_level_id < before[j].sub_level_id);
        }
        if j < i {
            assert(before[j].sub_level_id < before[i].sub_level_id);
        }
    }
    assert(ids_ascend(after)) by {
        assert forall|a: int, b: int| 0 <= a < b < after.len() implies (
        #[trigger] after[a]).sub_level_id < (#[trigger] after[b]).sub_level_id by {
            assert(mid[a].sub_level_id < mid[b].sub_level_id);
        }
    }
    assert(has_id(before, id));
    lemma_branch_arrives(before, branches, o, mid, after, at);
}

/// The ids of sub-levels stay in order where a new one stands in front of the first larger one.
proof fn lemma_inserted_ascends(mid: Seq<LevelView>, at: int, level: LevelView)
    requires
        ids_ascend(mid),
        0 <= at <= mid.len(),
        forall|k: int|
            0 <= k < at ==> (#[trigger] mid[k]).sub_level_id < level.sub_level_id,
        forall|k: int|
            at <= k < mid.len() ==> (#[trigger] mid[k]).sub_level_id > level.sub_level_id,
    ensures
        ids_ascend(mid.insert(at, level)),
{
    let after = mid.insert(at, level);
    assert forall|a: int, b: int| 0 <= a < b < after.len() implies (
    #[trigger] after[a]).sub_level_id < (#[trigger] after[b]).sub_level_id by {
        let ka = if a < at {
            a
        } else {
            a - 1
        };
        let kb = if b < at {
            b
        } else {
            b - 1
        };
        if a == at {
            assert(after[b] == mid[kb]);
        } else if b == at {
            assert(after[a] == mid[a]);
        } else {
            assert(after[a] == mid[ka] && after[b] == mid[kb]);
            assert(mid[ka].sub_level_id < mid[kb].sub_level_id);
        }
    }
}

/// A branch becomes a new sub-level.
proof fn lemma_branch_is_new(
    before: Seq<LevelView>,
    branches: Seq<LevelView>,
    o: LevelView,
    mid: Seq<LevelView>,
    at: int,
    level: LevelView,
)
    requires
        branches_taken(before, branches, mid),
        ids_ascend(before),
        !branch_comes(branches, o.sub_level_id),
        !has_id(before, o.sub_level_id),
        o.table_infos.len() > 0,
        0 <= at <= mid.len(),
        forall|k: int|
            0 <= k < at ==> (#[trigger] mid[k]).sub_level_id < level.sub_level_id,
        forall|k: int|
            at <= k < mid.len() ==> (#[trigger] mid[k]).sub_level_id > level.sub_level_id,
        taken_over(o, level),
    ensures
        branches_taken(before, branches.push(o), mid.insert(at, level)),
{
    let after = mid.insert(at, level);
    lemma_inserted_ascends(mid, at, level);
    assert(after[at] == level);
    assert forall|x: LevelView|
        #[trigger] mid.contains(x) && x.sub_level_id != o.sub_level_id implies after.contains(
        x,
    ) by {
        let k = choose|k: int| 0 <= k < mid.len() && mid[k] == x;
        if k < at {
            assert(after[k] == x);
        } else {
            assert(after[k + 1] == x);
        }
    }
    assert forall|k: int| 0 <= k < after.len() && k != at implies mid.contains(
        #[trigger] after[k],
    ) by {
        if k < at {
            assert(mid[k] == after[k]);
        } else {
            assert(mid[k - 1] == after[k]);
        }
    }
    assert forall|j: int|
        0 <= j < before.len() && (#[trigger] before[j]).sub_level_id == o.sub_level_id implies
        joined(before[j], o.table_infos, after[at]) by {
        assert(has_id(before, o.sub_level_id));
    }
    lemma_branch_arrives(before, branches, o, mid, after, at);
}

/// A branch goes to level 0 of the other group.
proof fn lemma_branch_step(
    before: Seq<LevelView>,
    branches: Seq<LevelView>,
    from: LevelView,
    ssts: Seq<SstView>,
    l0: L0View,
)
    requires
        branches_taken(before, branches, l0.sub_levels),
        ids_ascend(before),
        !branch_comes(branches, from.sub_level_id),
        l0.with_branched(from, ssts) is Some,
    ensures
        branches_taken(
            before,
            branches.push(LevelView { table_infos: ssts, ..from }),
            l0.with_branched(from, ssts)->0.sub_levels,
        ),
{
    let o = LevelView { table_infos: ssts, ..from };
    let mid = l0.sub_levels;
    let id = from.sub_level_id;
    let at = first_at_least(mid, id);
    lemma_first_index(mid, id_at_least(id));
    if ssts.len() == 0 {
        lemma_branch_ignored(before, branches, o, mid);
    } else if at < mid.len() && mid[at].sub_level_id == id {
        lemma_joined_branch(mid[at], ssts);
        lemma_branch_joins(before, branches, o, mid, at, mid[at].with_ssts(ssts));
    } else {
        assert forall|k: int| 0 <= k < at implies (#[trigger] mid[k]).sub_level_id < id by {
            assert(!id_at_least(id)(mid[k]));
        }
        assert forall|k: int| at <= k < mid.len() implies (#[trigger] mid[k]).sub_level_id
            > id by {
            assert(id_at_least(id)(mid[at]));
            if k > at {
                assert(mid[at].sub_level_id < mid[k].sub_level_id);
            }
        }
        if has_id(before, id) {
            let j = choose|j: int|
                0 <= j < before.len() && (#[trigger] before[j]).sub_level_id == id;
            assert(mid.contains(before[j]));
            let m = choose|m: int| 0 <= m < mid.len() && mid[m] == before[j];
            assert(mid[m].sub_level_id != id);
        }
        if id == u64::MAX {
            lemma_branch_ignored(before, branches, o, mid);
        } else {
            lemma_sizes(ssts);
            let fresh = LevelView::sub_level(id, from.level_type, ssts);
            assert(taken_over(o, fresh));
            lemma_branch_is_new(before, branches, o, mid, at, fresh);
        }
    }
}

proof fn lemma_joined_branch(before: LevelView, ssts: Seq<SstView>)
    requires
        before.has_room_for(ssts),
        before.level_type == LevelType::Nonoverlapping ==> concatable(
            before.with_ssts(ssts).table_infos,
        ),
    ensures
        joined(before, ssts, before.with_ssts(ssts)),
{
    lemma_sizes(ssts);
    lemma_multiset_commutative(before.table_infos, ssts);
    sort_keeps_elements(before.table_infos + ssts, SstableInfo::before());
    if before.level_type == LevelType::Nonoverlapping {
        lemma_concatable_apart(before.with_ssts(ssts).table_infos);
    }
}

/// The branches of sub-levels.
pub open spec fn branches_of(subs: Seq<LevelView>, splits: Seq<LevelSplit>) -> Seq<LevelView> {
    Seq::new(splits.len(), |i: int| branch_of(subs[i], splits[i]))
}

/// Whether a sub-level of the parent is split, and keeps what stays.
pub open spec fn parent_keeps(
    d: Division,
    r: Division,
    members: Set<u32>,
    split_key: Option<Seq<u8>>,
    splits: Seq<LevelSplit>,
    i: int,
) -> bool {
    &&& split_as(
        d.parent.l0.sub_levels[i],
        first_free_id(d.next_sst_id, splits, i),
        members,
        split_key,
        splits[i],
    )
    &&& sub_level_kept(d.parent.l0.sub_levels[i], splits[i], r.parent.l0.sub_levels[i])
}

proof fn lemma_sub_level_kept(l0: L0View, level: LevelView, split: LevelSplit)
    requires
        split.level == (LevelView { table_infos: split.level.table_infos, ..level }),
        l0.can_purge(split.level),
    ensures
        sub_level_kept(level, split, split.level.purged()),
{
    let ssts = split.level.table_infos;
    let (p, q) = (|s: SstView| s.table_ids.len() > 0, |s: SstView| s.table_ids.len() == 0);
    assert(has_tables() =~= p);
    assert(lacks_tables() =~= q);
    lemma_keep_is_filter(ssts, p);
    lemma_keep_is_filter(ssts, q);
    lemma_sizes(only_husks(ssts));
}

proof fn lemma_sub_levels_divided(
    d: Division,
    n: nat,
    members: Set<u32>,
    split_key: Option<Seq<u8>>,
) -> (splits: Seq<LevelSplit>)
    requires
        d.with_sub_levels(n, members, split_key) is Some,
        n <= d.parent.l0.sub_levels.len(),
        ids_differ(d.parent.l0.sub_levels),
        ids_ascend(d.target.l0.sub_levels),
    ensures
        ({
            let r = d.with_sub_levels(n, members, split_key)->0;
            let subs = d.parent.l0.sub_levels;
            &&& splits.len() == n
            &&& r.next_sst_id == first_free_id(d.next_sst_id, splits, n as int)
            &&& r.parent.l0.sub_levels.len() == subs.len()
            &&& forall|i: int|
                0 <= i < n ==> #[trigger] parent_keeps(d, r, members, split_key, splits, i)
            &&& forall|i: int|
                n <= i < subs.len() ==> #[trigger] r.parent.l0.sub_levels[i] == subs[i]
            &&& branches_taken(
                d.target.l0.sub_levels,
                branches_of(subs, splits),
                r.target.l0.sub_levels,
            )
        }),
    decreases n,
{
    let subs = d.parent.l0.sub_levels;
    let before = d.target.l0.sub_levels;
    let r = d.with_sub_levels(n, members, split_key)->0;
    if n == 0 {
        let splits = Seq::<LevelSplit>::empty();
        assert forall|k: int| 0 <= k < before.len() implies has_id(
            before,
            (#[trigger] before[k]).sub_level_id,
        ) by {}
        splits
    } else {
        let m = (n - 1) as nat;
        let had = lemma_sub_levels_divided(d, m, members, split_key);
        let w = d.with_sub_levels(m, members, split_key)->0;
        let level = subs[n - 1];
        assert(w.parent.l0.sub_levels[n - 1] == level);
        let split = split_level(level, w.next_sst_id, members, split_key)->0;
        lemma_split_place(level, w.next_sst_id, members, split_key);
        lemma_sub_level_kept(w.parent.l0, level, split);
        let splits = had.push(split);
        let (bh, bs) = (branches_of(subs, had), branches_of(subs, splits));
        assert(bs =~= bh.push(branch_of(level, split)));
        if branch_comes(bh, level.sub_level_id) {
            let i = choose|i: int|
                0 <= i < bh.len() && (#[trigger] bh[i]).sub_level_id == level.sub_level_id
                    && bh[i].table_infos.len() > 0;
            assert(subs[i].sub_level_id != subs[n - 1].sub_level_id);
        }
        lemma_branch_step(before, bh, split.level, split.branched, w.target.l0);
        assert(branch_of(level, split) == (LevelView {
            table_infos: split.branched,
            ..split.level
        }));
        assert forall|i: int| 0 <= i < n implies #[trigger] parent_keeps(
            d,
            r,
            members,
            split_key,
            splits,
            i,
        ) by {
            assert(first_free_id(d.next_sst_id, splits, i) == first_free_id(
                d.next_sst_id,
                had,
                i,
            ));
            if i < n - 1 {
                assert(parent_keeps(d, w, members, split_key, had, i));
                assert(splits[i] == had[i]);
                assert(r.parent.l0.sub_levels[i] == w.parent.l0.sub_levels[i]);
            } else {
                assert(splits[i] == split);
            }
        }
        splits
    }
}

/// A division of SSTs between two groups splits each sub-level of the parent, which keeps what stays.
/// What branches off is joined to the other group's sub-level with the same id, or is a new one with
/// that id and the level type of the parent's where the group has none. The other sub-levels of that
/// group stay as they were. Each split goes on with the ids where the one in front ended, and the levels
/// above 0 with those behind the last of them.
pub proof fn division_divides_sub_levels(
    d: Division,
    members: Set<u32>,
    split_key: Option<Seq<u8>>,
) -> (splits: Seq<LevelSplit>)
    requires
        d.divided(members, split_key) is Some,
        ids_differ(d.parent.l0.sub_levels),
        ids_ascend(d.target.l0.sub_levels),
    ensures
        ({
            let r = d.divided(members, split_key)->0;
            let subs = d.parent.l0.sub_levels;
            let start = first_free_id(d.next_sst_id, splits, splits.len() as int);
            &&& splits.len() == subs.len()
            &&& exists|above: Seq<LevelSplit>|
                above.len() == d.parent.levels.len() && (forall|i: int|
                    0 <= i < d.parent.levels.len() ==> #[trigger] divided_at(
                        d,
                        r,
                        members,
                        split_key,
                        start,
                        above,
                        i,
                    )) && r.next_sst_id == #[trigger] first_free_id(
                    start,
                    above,
                    above.len() as int,
                )
            &&& r.parent.l0.sub_levels.len() == subs.len()
            &&& forall|i: int|
                0 <= i < subs.len() ==> #[trigger] parent_keeps(
                    d,
                    r,
                    members,
                    split_key,
                    splits,
                    i,
                )
            &&& branches_taken(
                d.target.l0.sub_levels,
                branches_of(subs, splits),
                r.target.l0.sub_levels,
            )
        }),
{
    let n = d.parent.l0.sub_levels.len();
    let splits = lemma_sub_levels_divided(d, n, members, split_key);
    let w = d.with_sub_levels(n, members, split_key)->0;
    let r = d.divided(members, split_key)->0;
    lemma_sub_levels_shape(d, n, members, split_key);
    lemma_levels_shape(w, w.parent.levels.len(), members, split_key);
    let above = lemma_levels_divided(w, w.parent.levels.len(), members, split_key);
    assert forall|i: int| 0 <= i < d.parent.levels.len() implies #[trigger] divided_at(
        d,
        r,
        members,
        split_key,
        w.next_sst_id,
        above,
        i,
    ) by {
        assert(divided_at(w, r, members, split_key, w.next_sst_id, above, i));
    }
    assert(r.next_sst_id == first_free_id(w.next_sst_id, above, above.len() as int));
    assert forall|i: int| 0 <= i < n implies #[trigger] parent_keeps(
        d,
        r,
        members,
        split_key,
        splits,
        i,
    ) by {
        assert(parent_keeps(d, w, members, split_key, splits, i));
    }
    splits
}

} // verus!
