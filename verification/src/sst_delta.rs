//! Which SSTs a version delta brings in and which objects it lets go.
use crate::group_deltas::{extend_ssts, GroupDelta, GroupDeltas, IntraLevelDelta};
use crate::level::{CompactionGroupId, Levels};
use crate::maps::keys_of;
use crate::sstable_info::{clone_ssts, HummockSstableObjectId, SstableInfo};
use crate::version::{HummockVersion, HummockVersionDelta};
use std::collections::{BTreeMap, BTreeSet};
use vstd::prelude::*;

#[allow(unused_imports)]
use crate::compact::has_sst;
#[allow(unused_imports)]
use crate::group_deltas::{lemma_take_to_set, summary_of, GroupDeltaView};
#[allow(unused_imports)]
use crate::level::{LevelView, LevelsView};
#[allow(unused_imports)]
use crate::maps::{gather, is_walk, lemma_gather_take};
#[allow(unused_imports)]
use crate::queries::ssts_in;
#[allow(unused_imports)]
use crate::seqs::{lemma_views_push, views};
#[allow(unused_imports)]
use crate::sstable_info::SstView;
#[allow(unused_imports)]
use crate::version::{VersionDeltaView, VersionView};

verus! {

/// The SSTs that come to a group, and the objects of those that leave it.
#[derive(Debug)]
pub struct SstDeltaInfo {
    pub insert_sst_level: u32,
    pub insert_sst_infos: Vec<SstableInfo>,
    pub delete_sst_object_ids: Vec<HummockSstableObjectId>,
}

/// What a change of SSTs stands for.
#[verifier::ext_equal]
pub struct SstDeltaView {
    pub insert_sst_level: u32,
    pub insert_sst_infos: Seq<SstView>,
    pub delete_sst_object_ids: Seq<u64>,
}

impl View for SstDeltaInfo {
    type V = SstDeltaView;

    open spec fn view(&self) -> SstDeltaView {
        SstDeltaView {
            insert_sst_level: self.insert_sst_level,
            insert_sst_infos: views(self.insert_sst_infos@),
            delete_sst_object_ids: self.delete_sst_object_ids@,
        }
    }
}

impl Clone for SstDeltaInfo {
    fn clone(&self) -> (r: SstDeltaInfo)
        ensures
            r@ == self@,
    {
        let delete_sst_object_ids = self.delete_sst_object_ids.clone();
        assert(delete_sst_object_ids@ =~= self.delete_sst_object_ids@);
        SstDeltaInfo {
            insert_sst_level: self.insert_sst_level,
            insert_sst_infos: clone_ssts(&self.insert_sst_infos),
            delete_sst_object_ids,
        }
    }
}

impl Default for SstDeltaInfo {
    fn default() -> (r: SstDeltaInfo)
        ensures
            r@ == (SstDeltaView {
                insert_sst_level: 0,
                insert_sst_infos: Seq::empty(),
                delete_sst_object_ids: Seq::empty(),
            }),
    {
        let r = SstDeltaInfo {
            insert_sst_level: 0,
            insert_sst_infos: Vec::new(),
            delete_sst_object_ids: Vec::new(),
        };
        assert(r@.insert_sst_infos =~= Seq::empty());
        assert(r@.delete_sst_object_ids =~= Seq::empty());
        r
    }
}

/// Whether all changes are within levels.
pub open spec fn all_intra_level(deltas: Seq<GroupDeltaView>) -> bool {
    forall|i: int| 0 <= i < deltas.len() ==> #[trigger] deltas[i] is IntraLevel
}

/// The level of the last insertion; level 0 where there is none.
pub open spec fn inserted_level(deltas: Seq<GroupDeltaView>) -> u32
    decreases deltas.len(),
{
    if deltas.len() == 0 {
        0
    } else if deltas.last() is IntraLevel && (
    deltas.last()->IntraLevel_0).inserted_table_infos.len() > 0 {
        (deltas.last()->IntraLevel_0).level_idx
    } else {
        inserted_level(deltas.drop_last())
    }
}

/// The SSTs that a change inserts.
pub open spec fn inserted_by() -> spec_fn(GroupDeltaView) -> Seq<SstView> {
    |d: GroupDeltaView|
        match d {
            GroupDeltaView::IntraLevel(intra) => intra.inserted_table_infos,
            _ => Seq::empty(),
        }
}

/// The ids of the SSTs that the changes remove from a level.
pub open spec fn removed_from(deltas: Seq<GroupDeltaView>, level_idx: u32) -> Set<u64>
    decreases deltas.len(),
{
    if deltas.len() == 0 {
        Set::empty()
    } else {
        let before = removed_from(deltas.drop_last(), level_idx);
        match deltas.last() {
            GroupDeltaView::IntraLevel(intra) => if intra.level_idx == level_idx {
                before.union(intra.removed_table_ids.to_set())
            } else {
                before
            },
            _ => before,
        }
    }
}

/// The objects of the SSTs whose ids are in the set. An id counts for its first SST.
pub open spec fn removed_objects(ssts: Seq<SstView>, ids: Set<u64>) -> Seq<u64>
    decreases ssts.len(),
{
    if ssts.len() == 0 {
        Seq::empty()
    } else {
        let t = ssts.drop_last();
        let last = ssts.last();
        if ids.contains(last.sst_id) && !has_sst(t, last.sst_id) {
            removed_objects(t, ids).push(last.object_id)
        } else {
            removed_objects(t, ids)
        }
    }
}

/// Whether a level in front of place `i` has the same number.
pub open spec fn number_seen(levels: Seq<LevelView>, i: int) -> bool {
    exists|k: int| 0 <= k < i && (#[trigger] levels[k]).level_idx == levels[i].level_idx
}

/// The objects of the SSTs that the changes remove from the first `n` levels above 0.
pub open spec fn removed_from_levels(
    levels: Seq<LevelView>,
    deltas: Seq<GroupDeltaView>,
    n: int,
) -> Seq<u64>
    decreases n,
{
    if n <= 0 {
        Seq::empty()
    } else {
        let before = removed_from_levels(levels, deltas, n - 1);
        let level = levels[n - 1];
        if level.level_idx == 0 || number_seen(levels, n - 1) {
            before
        } else {
            before + removed_objects(level.table_infos, removed_from(deltas, level.level_idx))
        }
    }
}

/// What changes within levels do to a group: which SSTs come, and the objects of which go.
pub open spec fn sst_delta(levels: LevelsView, deltas: Seq<GroupDeltaView>) -> SstDeltaView {
    SstDeltaView {
        insert_sst_level: inserted_level(deltas),
        insert_sst_infos: gather(deltas, inserted_by()),
        delete_sst_object_ids: removed_objects(
            gather(levels.l0.sub_levels, ssts_in()),
            removed_from(deltas, 0),
        ) + removed_from_levels(levels.levels, deltas, levels.levels.len() as int),
    }
}

impl VersionView {
    /// What a version delta does to a group; nothing is said of a group of which more changes than
    /// its SSTs.
    pub open spec fn sst_deltas_of(self, delta: VersionDeltaView) -> spec_fn(
        CompactionGroupId,
    ) -> Seq<SstDeltaView> {
        |g: CompactionGroupId|
            if all_intra_level(delta.group_deltas[g]) {
                seq![sst_delta(self.levels[g], delta.group_deltas[g])]
            } else {
                Seq::empty()
            }
    }
}

/// Takes the ids of a list into a set.
fn add_ids(set: &mut BTreeSet<u64>, ids: &Vec<u64>)
    ensures
        final(set)@ == old(set)@.union(ids@.to_set()),
{
    let ghost start = set@;
    let mut i: usize = 0;
    assert(start.union(ids@.take(0).to_set()) =~= start);
    while i < ids.len()
        invariant
            i <= ids.len(),
            set@ == start.union(ids@.take(i as int).to_set()),
        decreases ids.len() - i,
    {
        set.insert(ids[i]);
        proof {
            lemma_take_to_set(ids@, i as int);
            assert(set@ =~= start.union(ids@.take(i + 1).to_set()));
        }
        i = i + 1;
    }
    assert(ids@.take(i as int) =~= ids@);
}

/// The ids that a map holds for a level.
spec fn ids_at(m: Map<u32, BTreeSet<u64>>, level_idx: u32) -> Set<u64> {
    if m.dom().contains(level_idx) {
        m[level_idx]@
    } else {
        Set::empty()
    }
}

/// Takes the objects of the SSTs whose ids are in the set, and the ids out of the set.
fn take_removed(
    objects: &mut Vec<u64>,
    ids: &mut BTreeSet<u64>,
    ssts: &Vec<SstableInfo>,
    Ghost(before): Ghost<Seq<SstView>>,
    Ghost(all_ids): Ghost<Set<u64>>,
    Ghost(first): Ghost<Seq<u64>>,
)
    requires
        old(objects)@ == first + removed_objects(before, all_ids),
        forall|id: u64| #[trigger]
            old(ids)@.contains(id) <==> all_ids.contains(id) && !has_sst(before, id),
    ensures
        final(objects)@ == first + removed_objects(before + views(ssts@), all_ids),
        forall|id: u64| #[trigger]
            final(ids)@.contains(id) <==> all_ids.contains(id) && !has_sst(
                before + views(ssts@),
                id,
            ),
{
    let ghost all = views(ssts@);
    let mut i: usize = 0;
    assert(before + all.take(0) =~= before);
    while i < ssts.len()
        invariant
            i <= ssts.len(),
            all == views(ssts@),
            objects@ == first + removed_objects(before + all.take(i as int), all_ids),
            forall|id: u64| #[trigger]
                ids@.contains(id) <==> all_ids.contains(id) && !has_sst(
                    before + all.take(i as int),
                    id,
                ),
        decreases ssts.len() - i,
    {
        let ghost seen = before + all.take(i as int);
        let ghost next = before + all.take(i + 1);
        proof {
            assert(next.drop_last() =~= seen);
            assert(next.last() == all[i as int]);
            assert forall|id: u64| has_sst(next, id) <==> (has_sst(seen, id)
                || all[i as int].sst_id == id) by {
                lemma_has_sst_push(seen, all[i as int], id);
                assert(seen.push(all[i as int]) =~= next);
            }
        }
        let ghost was = ids@;
        if ids.remove(&ssts[i].sst_id) {
            objects.push(ssts[i].object_id);
            assert(objects@ =~= first + removed_objects(next, all_ids));
        }
        i = i + 1;
    }
    assert(all.take(i as int) =~= all);
}

proof fn lemma_has_sst_push(s: Seq<SstView>, x: SstView, id: u64)
    ensures
        has_sst(s.push(x), id) <==> (has_sst(s, id) || x.sst_id == id),
{
    let r = s.push(x);
    if has_sst(r, id) {
        let k = choose|k: int| 0 <= k < r.len() && (#[trigger] r[k]).sst_id == id;
        if k < s.len() {
            assert(s[k].sst_id == id);
        }
    }
    if has_sst(s, id) {
        let k = choose|k: int| 0 <= k < s.len() && (#[trigger] s[k]).sst_id == id;
        assert(r[k].sst_id == id);
    }
    assert(r[s.len() as int] == x);
}

/// What all intra-level changes to a group remove and insert.
struct Removals {
    l0: BTreeSet<u64>,
    levels: BTreeMap<u32, BTreeSet<u64>>,
    insert_sst_level: u32,
    insert_sst_infos: Vec<SstableInfo>,
}

impl Removals {
    spec fn describes(self, deltas: Seq<GroupDeltaView>) -> bool {
        &&& self.l0@ == removed_from(deltas, 0)
        &&& forall|l: u32| l > 0 ==> #[trigger] ids_at(self.levels@, l) == removed_from(deltas, l)
        &&& !self.levels@.dom().contains(0)
        &&& self.insert_sst_level == inserted_level(deltas)
        &&& views(self.insert_sst_infos@) == gather(deltas, inserted_by())
    }
}

/// Takes an intra-level change in.
fn take_in(acc: &mut Removals, intra: &IntraLevelDelta, Ghost(deltas): Ghost<Seq<GroupDeltaView>>)
    requires
        old(acc).describes(deltas),
    ensures
        final(acc).describes(deltas.push(GroupDeltaView::IntraLevel(intra@))),
{
    let ghost next = deltas.push(GroupDeltaView::IntraLevel(intra@));
    let ghost start = *acc;
    proof {
        assert(next.drop_last() =~= deltas);
        assert(next.last() == GroupDeltaView::IntraLevel(intra@));
    }
    if intra.inserted_table_infos.len() > 0 {
        acc.insert_sst_level = intra.level_idx;
        extend_ssts(&mut acc.insert_sst_infos, &intra.inserted_table_infos);
    } else {
        assert(gather(deltas, inserted_by()) + intra@.inserted_table_infos =~= gather(
            deltas,
            inserted_by(),
        ));
    }
    if intra.removed_table_ids.len() > 0 {
        if intra.level_idx == 0 {
            add_ids(&mut acc.l0, &intra.removed_table_ids);
        } else {
            let mut set: BTreeSet<u64> = match acc.levels.remove(&intra.level_idx) {
                Some(set) => set,
                None => BTreeSet::new(),
            };
            assert(set@ =~= ids_at(start.levels@, intra.level_idx));
            add_ids(&mut set, &intra.removed_table_ids);
            let ghost s = set;
            acc.levels.insert(intra.level_idx, set);
            assert(acc.levels@ =~= start.levels@.insert(intra.level_idx, s));
        }
    } else {
        assert(intra@.removed_table_ids.to_set() =~= Set::empty());
        assert forall|l: u32| removed_from(next, l) == removed_from(deltas, l) by {
            assert(removed_from(deltas, l).union(Set::empty()) =~= removed_from(deltas, l));
        }
    }
    assert forall|l: u32| l > 0 implies #[trigger] ids_at(acc.levels@, l) == removed_from(
        next,
        l,
    ) by {
        assert(ids_at(start.levels@, l) == removed_from(deltas, l));
    }
}

/// What changes within levels do to a group; nothing where there are other changes.
fn group_sst_delta(levels: &Levels, group_deltas: &GroupDeltas) -> (r: SstDeltaInfo)
    requires
        all_intra_level(group_deltas@),
    ensures
        r@ == sst_delta(levels@, group_deltas@),
{
    let ghost deltas = group_deltas@;
    let mut acc = Removals {
        l0: BTreeSet::new(),
        levels: BTreeMap::new(),
        insert_sst_level: 0,
        insert_sst_infos: Vec::new(),
    };
    let mut i: usize = 0;
    proof {
        assert(views(acc.insert_sst_infos@) =~= gather(deltas.take(0), inserted_by()));
        assert(acc.l0@ =~= Set::empty());
        assert(acc.describes(deltas.take(0)));
    }
    while i < group_deltas.group_deltas.len()
        invariant
            i <= group_deltas.group_deltas.len(),
            deltas == group_deltas@,
            all_intra_level(deltas),
            acc.describes(deltas.take(i as int)),
        decreases group_deltas.group_deltas.len() - i,
    {
        proof {
            assert(deltas[i as int] is IntraLevel);
            assert(deltas[i as int] == group_deltas.group_deltas@[i as int]@);
            assert(deltas.take(i + 1) =~= deltas.take(i as int).push(deltas[i as int]));
        }
        if let GroupDelta::IntraLevel(intra) = &group_deltas.group_deltas[i] {
            take_in(&mut acc, intra, Ghost(deltas.take(i as int)));
        }
        i = i + 1;
    }
    assert(deltas.take(i as int) =~= deltas);
    let ghost gone = removed_from(deltas, 0);
    let mut objects: Vec<u64> = Vec::new();
    let ghost subs = levels@.l0.sub_levels;
    let mut l0_ids = acc.l0;
    let mut j: usize = 0;
    proof {
        assert(gather(subs.take(0), ssts_in()) =~= Seq::empty());
        assert(objects@ =~= Seq::empty() + removed_objects(Seq::empty(), gone));
    }
    while j < levels.l0.sub_levels.len()
        invariant
            j <= levels.l0.sub_levels.len(),
            subs == levels@.l0.sub_levels,
            objects@ == Seq::empty() + removed_objects(
                gather(subs.take(j as int), ssts_in()),
                gone,
            ),
            forall|id: u64| #[trigger]
                l0_ids@.contains(id) <==> gone.contains(id) && !has_sst(
                    gather(subs.take(j as int), ssts_in()),
                    id,
                ),
        decreases levels.l0.sub_levels.len() - j,
    {
        proof {
            lemma_gather_take(subs, j as int, ssts_in());
            assert(subs[j as int] == levels.l0.sub_levels@[j as int]@);
        }
        take_removed(
            &mut objects,
            &mut l0_ids,
            &levels.l0.sub_levels[j].table_infos,
            Ghost(gather(subs.take(j as int), ssts_in())),
            Ghost(gone),
            Ghost(Seq::empty()),
        );
        j = j + 1;
    }
    assert(subs.take(j as int) =~= subs);
    let ghost first = removed_objects(gather(subs, ssts_in()), gone);
    assert(objects@ =~= first);
    let ghost upper = levels@.levels;
    let mut by_level = acc.levels;
    let mut k: usize = 0;
    assert(objects@ =~= first + removed_from_levels(upper, deltas, 0));
    assert forall|l: u32| l > 0 implies #[trigger] ids_at(by_level@, l) == removed_from(
        deltas,
        l,
    ) by {}
    while k < levels.levels.len()
        invariant
            k <= levels.levels.len(),
            upper == levels@.levels,
            !by_level@.dom().contains(0),
            objects@ == first + removed_from_levels(upper, deltas, k as int),
            forall|l: u32|
                l > 0 ==> #[trigger] ids_at(by_level@, l) == (if level_met(upper, k as int, l) {
                    Set::empty()
                } else {
                    removed_from(deltas, l)
                }),
        decreases levels.levels.len() - k,
    {
        let level_idx: u32 = levels.levels[k].level_idx;
        let ghost level = upper[k as int];
        let ghost was = by_level@;
        let ghost ids = removed_from(deltas, level_idx);
        proof {
            assert(level == levels.levels@[k as int]@);
            assert(number_seen(upper, k as int) <==> level_met(upper, k as int, level_idx));
            if level_idx > 0 {
                assert(ids_at(was, level_idx) == (if level_met(upper, k as int, level_idx) {
                    Set::empty()
                } else {
                    ids
                }));
            }
        }
        let ghost done = removed_from_levels(upper, deltas, k as int);
        if let Some(mut set) = by_level.remove(&level_idx) {
            proof {
                lemma_nothing_held();
                assert(level_idx > 0);
                if level_met(upper, k as int, level_idx) {
                    lemma_no_removed(level.table_infos, Set::empty());
                }
                assert(first + done =~= (first + done) + removed_objects(Seq::empty(), set@));
            }
            let ghost from = set@;
            take_removed(
                &mut objects,
                &mut set,
                &levels.levels[k].table_infos,
                Ghost(Seq::empty()),
                Ghost(from),
                Ghost(first + done),
            );
            proof {
                assert(Seq::<SstView>::empty() + level.table_infos =~= level.table_infos);
                if level_met(upper, k as int, level_idx) {
                    assert(objects@ =~= first + done);
                } else {
                    assert(objects@ =~= first + (done + removed_objects(level.table_infos, ids)));
                }
            }
        } else {
            proof {
                if level_idx > 0 && !level_met(upper, k as int, level_idx) {
                    assert(ids =~= Set::empty());
                    lemma_no_removed(level.table_infos, ids);
                    assert(done + Seq::empty() =~= done);
                }
            }
        }
        proof {
            assert(objects@ =~= first + removed_from_levels(upper, deltas, k + 1));
            assert forall|l: u32| l > 0 implies #[trigger] ids_at(by_level@, l) == (if level_met(
                upper,
                k + 1,
                l,
            ) {
                Set::empty()
            } else {
                removed_from(deltas, l)
            }) by {
                assert(ids_at(was, l) == (if level_met(upper, k as int, l) {
                    Set::empty()
                } else {
                    removed_from(deltas, l)
                }));
                if level_met(upper, k + 1, l) && !level_met(upper, k as int, l) {
                    assert(l == level_idx);
                }
                if level_met(upper, k as int, l) {
                    let m = choose|m: int| 0 <= m < k && (#[trigger] upper[m]).level_idx == l;
                    assert(upper[m].level_idx == l);
                }
                if l == level_idx {
                    assert(upper[k as int].level_idx == l);
                }
            }
        }
        k = k + 1;
    }
    SstDeltaInfo {
        insert_sst_level: acc.insert_sst_level,
        insert_sst_infos: acc.insert_sst_infos,
        delete_sst_object_ids: objects,
    }
}

/// Whether one of the first `n` levels has the number.
spec fn level_met(levels: Seq<LevelView>, n: int, level_idx: u32) -> bool {
    exists|m: int| 0 <= m < n && (#[trigger] levels[m]).level_idx == level_idx
}

proof fn lemma_no_removed(ssts: Seq<SstView>, ids: Set<u64>)
    requires
        ids == Set::<u64>::empty(),
    ensures
        removed_objects(ssts, ids) == Seq::<u64>::empty(),
    decreases ssts.len(),
{
    if ssts.len() > 0 {
        lemma_no_removed(ssts.drop_last(), ids);
    }
}

proof fn lemma_nothing_held()
    ensures
        forall|id: u64| !#[trigger] has_sst(Seq::empty(), id),
{
}

/// Whether all changes are within levels.
fn only_intra_level(group_deltas: &GroupDeltas) -> (r: bool)
    ensures
        r == all_intra_level(group_deltas@),
{
    let mut i: usize = 0;
    while i < group_deltas.group_deltas.len()
        invariant
            i <= group_deltas.group_deltas.len(),
            forall|k: int| 0 <= k < i ==> #[trigger] group_deltas@[k] is IntraLevel,
        decreases group_deltas.group_deltas.len() - i,
    {
        assert(group_deltas@[i as int] == group_deltas.group_deltas@[i as int]@);
        match &group_deltas.group_deltas[i] {
            GroupDelta::IntraLevel(_) => {},
            _ => {
                assert(!(group_deltas@[i as int] is IntraLevel));
                return false;
            },
        }
        i = i + 1;
    }
    true
}

impl HummockVersion {
    /// What a delta does to the SSTs of each group of which nothing else changes, with the groups in
    /// the given order.
    pub fn sst_delta_infos_in_order(
        &self,
        version_delta: &HummockVersionDelta,
        groups: &Vec<CompactionGroupId>,
    ) -> (r: Vec<SstDeltaInfo>)
        requires
            is_walk(groups@, version_delta@.group_deltas.dom()),
            forall|g: CompactionGroupId|
                #[trigger] version_delta@.group_deltas.dom().contains(g) && all_intra_level(
                    version_delta@.group_deltas[g],
                ) ==> self@.levels.dom().contains(g),
        ensures
            views(r@) == gather(groups@, self@.sst_deltas_of(version_delta@)),
    {
        let mut infos: Vec<SstDeltaInfo> = Vec::new();
        let ghost delta = version_delta@;
        let ghost part = self@.sst_deltas_of(delta);
        let mut i: usize = 0;
        assert(views(infos@) =~= gather(groups@.take(0), part));
        while i < groups.len()
            invariant
                i <= groups.len(),
                delta == version_delta@,
                part == self@.sst_deltas_of(delta),
                is_walk(groups@, delta.group_deltas.dom()),
                forall|g: CompactionGroupId|
                    #[trigger] delta.group_deltas.dom().contains(g) && all_intra_level(
                        delta.group_deltas[g],
                    ) ==> self@.levels.dom().contains(g),
                views(infos@) == gather(groups@.take(i as int), part),
            decreases groups.len() - i,
        {
            let group_id: CompactionGroupId = groups[i];
            proof {
                assert(groups@.to_set().contains(groups@[i as int]));
                assert(delta.group_deltas.dom().contains(group_id));
                lemma_gather_take(groups@, i as int, part);
            }
            let ghost before = views(infos@);
            if let Some(group_deltas) = version_delta.group_deltas.get(&group_id) {
                assert(delta.group_deltas[group_id] == group_deltas@);
                if only_intra_level(group_deltas) {
                    assert(self@.levels.dom().contains(group_id));
                    if let Some(levels) = self.levels.get(&group_id) {
                        assert(self@.levels[group_id] == levels@);
                        let info = group_sst_delta(levels, group_deltas);
                        proof {
                            lemma_views_push(infos@, info);
                            assert(before.push(info@) =~= before + seq![info@]);
                        }
                        infos.push(info);
                    }
                } else {
                    assert(before + Seq::empty() =~= before);
                }
            }
            i = i + 1;
        }
        assert(groups@.take(i as int) =~= groups@);
        infos
    }

    /// What a delta does to the SSTs of each group of which nothing else changes, in the order in
    /// which the groups are met. A delta that only moves SSTs within the store says nothing.
    pub fn build_sst_delta_infos(&self, version_delta: &HummockVersionDelta) -> (r: Vec<
        SstDeltaInfo,
    >)
        requires
            forall|g: CompactionGroupId|
                !version_delta@.trivial_move
                    && #[trigger] version_delta@.group_deltas.dom().contains(g)
                    && all_intra_level(version_delta@.group_deltas[g])
                    ==> self@.levels.dom().contains(g),
        ensures
            version_delta@.trivial_move ==> r@.len() == 0,
            !version_delta@.trivial_move ==> exists|order: Seq<CompactionGroupId>| #[trigger]
                is_walk(order, version_delta@.group_deltas.dom()) && views(r@) == gather(
                    order,
                    self@.sst_deltas_of(version_delta@),
                ),
    {
        if version_delta.trivial_move {
            return Vec::new();
        }
        let groups = keys_of(&version_delta.group_deltas);
        assert(version_delta@.group_deltas.dom() =~= version_delta.group_deltas@.dom());
        assert(is_walk(groups@, version_delta@.group_deltas.dom()));
        self.sst_delta_infos_in_order(version_delta, &groups)
    }
}

/// The objects that go are those of SSTs that were there, under ids that were removed.
pub proof fn removed_objects_were_held(ssts: Seq<SstView>, ids: Set<u64>, object_id: u64)
    requires
        removed_objects(ssts, ids).contains(object_id),
    ensures
        exists|i: int|
            0 <= i < ssts.len() && (#[trigger] ssts[i]).object_id == object_id && ids.contains(
                ssts[i].sst_id,
            ),
    decreases ssts.len(),
{
    let r = removed_objects(ssts, ids);
    let k = choose|k: int| 0 <= k < r.len() && r[k] == object_id;
    let t = ssts.drop_last();
    let p = removed_objects(t, ids);
    if k < p.len() {
        assert(p[k] == object_id);
        removed_objects_were_held(t, ids, object_id);
        let i = choose|i: int|
            0 <= i < t.len() && (#[trigger] t[i]).object_id == object_id && ids.contains(
                t[i].sst_id,
            );
        assert(ssts[i].object_id == object_id);
    } else {
        assert(ssts[ssts.len() - 1].object_id == object_id);
    }
}

/// Of changes within levels, the SSTs that come are those that the summary of the changes inserts.
pub proof fn inserted_ssts_are_those_of_summary(
    deltas: Seq<GroupDeltaView>,
    group_id: CompactionGroupId,
)
    requires
        all_intra_level(deltas),
    ensures
        summary_of(deltas, group_id) is Some,
        summary_of(deltas, group_id)->0.insert_table_infos == gather(deltas, inserted_by()),
        summary_of(deltas, group_id)->0.insert_table_infos.len() > 0 ==> summary_of(
            deltas,
            group_id,
        )->0.insert_sst_level_id == inserted_level(deltas),
    decreases deltas.len(),
{
    if deltas.len() > 0 {
        let t = deltas.drop_last();
        assert forall|i: int| 0 <= i < t.len() implies #[trigger] t[i] is IntraLevel by {
            assert(deltas[i] == t[i]);
        }
        assert(deltas[deltas.len() - 1] is IntraLevel);
        inserted_ssts_are_those_of_summary(t, group_id);
    }
}

} // verus!
