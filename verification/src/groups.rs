//! Compaction groups and their SSTs.
use crate::level::{CompactionGroupId, Level, Levels};
use crate::maps::keys_of;
use crate::sstable_info::{HummockSstableId, HummockSstableObjectId, SstableInfo};
use crate::version::{HummockVersion, StateTableId};
use std::collections::hash_map::Entry;
use std::collections::HashMap;
use vstd::prelude::*;

#[allow(unused_imports)]
use crate::level::LevelsView;
#[allow(unused_imports)]
use crate::maps::{gather, is_walk, lemma_gather_take};
#[allow(unused_imports)]
use crate::queries::ssts_in;
#[allow(unused_imports)]
use crate::seqs::views;
#[allow(unused_imports)]
use crate::sstable_info::SstView;
#[allow(unused_imports)]
use crate::version::{StateTableInfo, VersionView};

verus! {

/// The size of tables in a compaction group.
#[derive(Debug, Default)]
pub struct TableGroupInfo {
    pub group_id: CompactionGroupId,
    pub group_size: u64,
    pub table_statistic: HashMap<StateTableId, u64>,
    pub split_by_table: bool,
}

impl Clone for TableGroupInfo {
    fn clone(&self) -> (r: TableGroupInfo)
        ensures
            r.group_id == self.group_id,
            r.group_size == self.group_size,
            r.table_statistic@ == self.table_statistic@,
            r.split_by_table == self.split_by_table,
    {
        TableGroupInfo {
            group_id: self.group_id,
            group_size: self.group_size,
            table_statistic: self.table_statistic.clone(),
            split_by_table: self.split_by_table,
        }
    }
}

/// Gets all compaction group ids, in the order in which the groups are met.
pub fn get_compaction_group_ids(version: &HummockVersion) -> (r: Vec<CompactionGroupId>)
    ensures
        is_walk(r@, version@.levels.dom()),
{
    assert(version@.levels.dom() =~= version.levels@.dom());
    keys_of(&version.levels)
}

/// The compaction group of each table.
pub open spec fn group_of_tables(info: Map<StateTableId, StateTableInfo>) -> Map<
    StateTableId,
    CompactionGroupId,
> {
    Map::new(
        |t: StateTableId| info.dom().contains(t),
        |t: StateTableId| info[t].compaction_group_id,
    )
}

/// Gets the compaction group of each table.
pub fn get_table_compaction_group_id_mapping(version: &HummockVersion) -> (r: HashMap<
    StateTableId,
    CompactionGroupId,
>)
    ensures
        r@ == group_of_tables(version@.state_table_info),
{
    let info = version.state_table_info.info();
    let keys = keys_of(info);
    let ghost target = group_of_tables(info@);
    let mut r: HashMap<StateTableId, CompactionGroupId> = HashMap::new();
    let mut i: usize = 0;
    assert(r@ =~= target.restrict(keys@.take(0).to_set()));
    while i < keys.len()
        invariant
            i <= keys.len(),
            is_walk(keys@, info@.dom()),
            target == group_of_tables(info@),
            r@ == target.restrict(keys@.take(i as int).to_set()),
        decreases keys.len() - i,
    {
        assert(keys@.to_set().contains(keys@[i as int]));
        if let Some(table) = info.get(&keys[i]) {
            r.insert(keys[i], table.compaction_group_id);
        }
        proof {
            crate::group_deltas::lemma_take_to_set(keys@, i as int);
            assert(r@ =~= target.restrict(keys@.take(i + 1).to_set()));
        }
        i = i + 1;
    }
    assert(keys@.take(i as int) =~= keys@);
    assert(target.restrict(keys@.to_set()) =~= target);
    r
}

/// The object id and the id of each SST.
pub open spec fn id_pairs(ssts: Seq<SstView>) -> Seq<(u64, u64)> {
    Seq::new(ssts.len(), |i: int| (ssts[i].object_id, ssts[i].sst_id))
}

/// Adds the ids of the SSTs of a level.
fn push_id_pairs(r: &mut Vec<(u64, u64)>, ssts: &Vec<SstableInfo>)
    ensures
        final(r)@ == old(r)@ + id_pairs(views(ssts@)),
{
    let ghost start = r@;
    let ghost all = id_pairs(views(ssts@));
    let mut i: usize = 0;
    assert(start + all.take(0) =~= start);
    while i < ssts.len()
        invariant
            i <= ssts.len(),
            all == id_pairs(views(ssts@)),
            r@ == start + all.take(i as int),
        decreases ssts.len() - i,
    {
        r.push((ssts[i].object_id, ssts[i].sst_id));
        assert(all.take(i + 1) =~= all.take(i as int).push(all[i as int]));
        assert(r@ =~= start + all.take(i + 1));
        i = i + 1;
    }
    assert(all.take(i as int) =~= all);
}

/// Gets the ids of all SSTs of a group, from the newest to the oldest.
pub fn get_compaction_group_ssts(version: &HummockVersion, group_id: CompactionGroupId) -> (r: Vec<
    (HummockSstableObjectId, HummockSstableId),
>)
    requires
        version@.levels.dom().contains(group_id),
    ensures
        r@ == id_pairs(version@.levels[group_id].ssts()),
{
    let levels = version.get_compaction_group_levels(group_id);
    let ghost all = levels@.newest_first();
    let ghost subs = levels@.l0.sub_levels;
    let n: usize = levels.l0.sub_levels.len();
    let mut r: Vec<(u64, u64)> = Vec::new();
    let mut i: usize = 0;
    assert(r@ =~= id_pairs(gather(all.take(0), ssts_in())));
    while i < n
        invariant
            i <= n,
            n == levels.l0.sub_levels.len(),
            subs == levels@.l0.sub_levels,
            all == levels@.newest_first(),
            r@ == id_pairs(gather(all.take(i as int), ssts_in())),
        decreases n - i,
    {
        let ghost before = gather(all.take(i as int), ssts_in());
        push_id_pairs(&mut r, &levels.l0.sub_levels[n - 1 - i].table_infos);
        proof {
            lemma_gather_take(all, i as int, ssts_in());
            assert(all[i as int] == subs[n - 1 - i]);
            assert(r@ =~= id_pairs(before + all[i as int].table_infos));
        }
        i = i + 1;
    }
    let mut j: usize = 0;
    while j < levels.levels.len()
        invariant
            j <= levels.levels.len(),
            n == subs.len(),
            subs == levels@.l0.sub_levels,
            all == levels@.newest_first(),
            r@ == id_pairs(gather(all.take(n + j), ssts_in())),
        decreases levels.levels.len() - j,
    {
        let ghost before = gather(all.take(n + j), ssts_in());
        push_id_pairs(&mut r, &levels.levels[j].table_infos);
        proof {
            lemma_gather_take(all, n + j, ssts_in());
            assert(all[n + j] == levels@.levels[j as int]);
            assert(r@ =~= id_pairs(before + all[n + j].table_infos));
        }
        j = j + 1;
    }
    assert(all.take(n + j) =~= all);
    r
}

impl LevelsView {
    /// The SSTs of the sub-levels, then those of the levels above 0.
    pub open spec fn ssts_in_place(self) -> Seq<SstView> {
        gather(self.in_place_order(), ssts_in())
    }
}

impl VersionView {
    /// The SSTs of a group, sub-levels first.
    pub open spec fn ssts_in_place_of(self) -> spec_fn(CompactionGroupId) -> Seq<SstView> {
        |g: CompactionGroupId| self.levels[g].ssts_in_place()
    }
}

/// Lists the SSTs of a group, those of the sub-levels first.
pub fn list_in_place<'a>(levels: &'a Levels) -> (r: Vec<&'a SstableInfo>)
    ensures
        views(r@) == levels@.ssts_in_place(),
{
    let ghost all = levels@.in_place_order();
    let n: usize = levels.l0.sub_levels.len();
    let mut r: Vec<&'a SstableInfo> = Vec::new();
    let mut i: usize = 0;
    assert(views(r@) =~= gather(all.take(0), ssts_in()));
    while i < n
        invariant
            i <= n,
            n == levels.l0.sub_levels.len(),
            all == levels@.in_place_order(),
            views(r@) == gather(all.take(i as int), ssts_in()),
        decreases n - i,
    {
        proof {
            lemma_gather_take(all, i as int, ssts_in());
            assert(all[i as int] == levels@.l0.sub_levels[i as int]);
        }
        crate::queries::push_ssts(&mut r, &levels.l0.sub_levels[i].table_infos);
        i = i + 1;
    }
    let mut j: usize = 0;
    while j < levels.levels.len()
        invariant
            j <= levels.levels.len(),
            n == levels.l0.sub_levels.len(),
            all == levels@.in_place_order(),
            views(r@) == gather(all.take(n + j), ssts_in()),
        decreases levels.levels.len() - j,
    {
        proof {
            lemma_gather_take(all, n + j, ssts_in());
            assert(all[n + j] == levels@.levels[j as int]);
        }
        crate::queries::push_ssts(&mut r, &levels.levels[j].table_infos);
        j = j + 1;
    }
    assert(all.take(n + j) =~= all);
    r
}

/// The size of each object, by the last SST of it.
pub open spec fn sizes_by_object(ssts: Seq<SstView>) -> Map<u64, u64>
    decreases ssts.len(),
{
    if ssts.len() == 0 {
        Map::empty()
    } else {
        sizes_by_object(ssts.drop_last()).insert(ssts.last().object_id, ssts.last().file_size)
    }
}

/// The sizes do not depend on where in a list they are met: an object has a size if and only if
/// an SST is of it, and the size is that of one of them.
pub proof fn sizes_are_those_of_ssts(ssts: Seq<SstView>, object_id: u64)
    ensures
        sizes_by_object(ssts).dom().contains(object_id) <==> crate::split::has_object(
            ssts,
            object_id,
        ),
        sizes_by_object(ssts).dom().contains(object_id) ==> exists|i: int|
            0 <= i < ssts.len() && (#[trigger] ssts[i]).object_id == object_id
                && ssts[i].file_size == sizes_by_object(ssts)[object_id],
    decreases ssts.len(),
{
    if ssts.len() > 0 {
        let t = ssts.drop_last();
        sizes_are_those_of_ssts(t, object_id);
        if ssts.last().object_id == object_id {
            assert(ssts[ssts.len() - 1].object_id == object_id);
        } else if sizes_by_object(t).dom().contains(object_id) {
            let i = choose|i: int|
                0 <= i < t.len() && (#[trigger] t[i]).object_id == object_id && t[i].file_size
                    == sizes_by_object(t)[object_id];
            assert(ssts[i].object_id == object_id);
        }
        if crate::split::has_object(ssts, object_id) && ssts.last().object_id != object_id {
            let i = choose|i: int|
                0 <= i < ssts.len() && (#[trigger] ssts[i]).object_id == object_id;
            assert(t[i].object_id == object_id);
        }
    }
}

/// The file size of each object that a group holds an SST of, with the groups in the given order.
/// Where the SSTs of an object differ in size, that of the last one that is met is taken.
pub fn object_sizes_in_order(version: &HummockVersion, groups: &Vec<CompactionGroupId>) -> (r:
    HashMap<HummockSstableObjectId, u64>)
    requires
        is_walk(groups@, version@.levels.dom()),
    ensures
        r@ == sizes_by_object(gather(groups@, version@.ssts_in_place_of())),
{
    let ghost part = version@.ssts_in_place_of();
    let mut r: HashMap<HummockSstableObjectId, u64> = HashMap::new();
    let mut i: usize = 0;
    assert(gather(groups@.take(0), part) =~= Seq::empty());
    assert(r@ =~= sizes_by_object(Seq::empty()));
    while i < groups.len()
        invariant
            i <= groups.len(),
            is_walk(groups@, version@.levels.dom()),
            part == version@.ssts_in_place_of(),
            r@ == sizes_by_object(gather(groups@.take(i as int), part)),
        decreases groups.len() - i,
    {
        assert(groups@.to_set().contains(groups@[i as int]));
        assert(version@.levels.dom().contains(groups@[i as int]));
        let ghost before = gather(groups@.take(i as int), part);
        if let Some(levels) = version.levels.get(&groups[i]) {
            let ssts = list_in_place(levels);
            let ghost all = views(ssts@);
            let mut j: usize = 0;
            assert(before + all.take(0) =~= before);
            while j < ssts.len()
                invariant
                    j <= ssts.len(),
                    all == views(ssts@),
                    r@ == sizes_by_object(before + all.take(j as int)),
                decreases ssts.len() - j,
            {
                r.insert(ssts[j].object_id, ssts[j].file_size);
                proof {
                    let next = before + all.take(j + 1);
                    assert(next.drop_last() =~= before + all.take(j as int));
                    assert(next.last() == all[j as int]);
                }
                j = j + 1;
            }
            assert(all.take(j as int) =~= all);
        }
        proof {
            lemma_gather_take(groups@, i as int, part);
        }
        i = i + 1;
    }
    assert(groups@.take(i as int) =~= groups@);
    r
}

/// Gets the file size of each object that a group holds an SST of. Where the SSTs of an object
/// differ in size, that of the last one that is met is taken.
pub fn object_size_map(version: &HummockVersion) -> (r: HashMap<HummockSstableObjectId, u64>)
    ensures
        exists|order: Seq<CompactionGroupId>| #[trigger]
            is_walk(order, version@.levels.dom()) && r@ == sizes_by_object(
                gather(order, version@.ssts_in_place_of()),
            ),
{
    let groups = keys_of(&version.levels);
    assert(version@.levels.dom() =~= version.levels@.dom());
    assert(is_walk(groups@, version@.levels.dom()));
    object_sizes_in_order(version, &groups)
}

/// Whether `f` said yes to the first `n` levels.
pub open spec fn said_yes<F: FnMut(&Level) -> bool>(f: F, levels: Seq<Level>, n: int) -> bool {
    forall|k: int| 0 <= k < n ==> f.ensures((&#[trigger] levels[k],), true)
}

/// Whether `f` had its say on the first `n` levels: yes to all in front of the last of them, and to
/// the last no, or yes where no level is left.
pub open spec fn called_on<F: FnMut(&Level) -> bool>(f: F, levels: Seq<Level>, n: int) -> bool {
    &&& 0 <= n <= levels.len()
    &&& said_yes(f, levels, n - 1)
    &&& n > 0 ==> exists|go_on: bool|
        #[trigger] f.ensures((&levels[n - 1],), go_on) && (go_on ==> n == levels.len())
    &&& n == 0 ==> levels.len() == 0
}

/// The levels of a group, sub-levels first; none where the group is not there.
pub open spec fn levels_in_place(
    levels: Map<CompactionGroupId, Levels>,
    group_id: CompactionGroupId,
) -> Seq<Level> {
    if levels.dom().contains(group_id) {
        levels[group_id].l0.sub_levels@ + levels[group_id].levels@
    } else {
        Seq::empty()
    }
}

impl HummockVersion {
    /// The levels of a group that is there, to be changed.
    pub fn get_compaction_group_levels_mut(
        &mut self,
        compaction_group_id: CompactionGroupId,
    ) -> (r: &mut Levels)
        requires
            old(self)@.levels.dom().contains(compaction_group_id),
        ensures
            r@ == old(self)@.levels[compaction_group_id],
            final(self)@ == (VersionView {
                levels: old(self)@.levels.insert(compaction_group_id, final(r)@),
                ..old(self)@
            }),
    {
        match self.levels.entry(compaction_group_id) {
            Entry::Occupied(entry) => entry.into_mut(),
            Entry::Vacant(entry) => entry.insert(Levels::default()),
        }
    }

    /// Calls `f` on the levels of a group, sub-levels first, until it says no. A level is ready to be
    /// visited only once `f` said yes to all levels in front of it. A function has no state in
    /// contracts, so none tells a second call on the same level from the first.
    pub fn level_iter<F: FnMut(&Level) -> bool>(
        &self,
        compaction_group_id: CompactionGroupId,
        f: F,
    )
        requires
            forall|i: int|
                0 <= i < levels_in_place(self.levels@, compaction_group_id).len()
                    && #[trigger] said_yes(
                    f,
                    levels_in_place(self.levels@, compaction_group_id),
                    i,
                ) ==> f.requires((&levels_in_place(self.levels@, compaction_group_id)[i],)),
        ensures
            exists|n: int|
                #[trigger] called_on(f, levels_in_place(self.levels@, compaction_group_id), n),
    {
        let ghost all = levels_in_place(self.levels@, compaction_group_id);
        let ghost first = f;
        let mut g = f;
        if let Some(levels) = self.levels.get(&compaction_group_id) {
            let n: usize = levels.l0.sub_levels.len();
            let mut i: usize = 0;
            while i < n
                invariant
                    i <= n,
                    n == levels.l0.sub_levels.len(),
                    g == first,
                    first == f,
                    all == levels_in_place(self.levels@, compaction_group_id),
                    all == levels.l0.sub_levels@ + levels.levels@,
                    forall|k: int|
                        0 <= k < all.len() && #[trigger] said_yes(first, all, k)
                            ==> first.requires((&all[k],)),
                    said_yes(first, all, i as int),
                decreases n - i,
            {
                let ghost now = g;
                assert(all[i as int] == levels.l0.sub_levels@[i as int]);
                let go_on = g(&levels.l0.sub_levels[i]);
                assert(now.ensures((&all[i as int],), go_on));
                if !go_on {
                    assert(first.ensures((&all[(i + 1) - 1],), go_on));
                    assert(called_on(first, all, i + 1));
                    return ;
                }
                i = i + 1;
            }
            let mut j: usize = 0;
            while j < levels.levels.len()
                invariant
                    j <= levels.levels.len(),
                    n == levels.l0.sub_levels.len(),
                    g == first,
                    first == f,
                    all == levels_in_place(self.levels@, compaction_group_id),
                    all == levels.l0.sub_levels@ + levels.levels@,
                    forall|k: int|
                        0 <= k < all.len() && #[trigger] said_yes(first, all, k)
                            ==> first.requires((&all[k],)),
                    said_yes(first, all, n + j),
                decreases levels.levels.len() - j,
            {
                let ghost now = g;
                assert(all[n + j] == levels.levels@[j as int]);
                let go_on = g(&levels.levels[j]);
                assert(now.ensures((&all[n + j],), go_on));
                if !go_on {
                    assert(first.ensures((&all[(n + j + 1) - 1],), go_on));
                    assert(called_on(first, all, n + j + 1));
                    return ;
                }
                j = j + 1;
            }
            proof {
                if all.len() > 0 {
                    assert(first.ensures((&all[all.len() - 1],), true));
                }
            }
        }
        assert(called_on(first, all, all.len() as int));
    }
}

} // verus!
