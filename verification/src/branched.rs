//! SSTs that share their objects with others.
use crate::groups::list_in_place;
use crate::level::CompactionGroupId;
use crate::maps::keys_of;
use crate::sstable_info::{HummockSstableId, HummockSstableObjectId};
use crate::version::HummockVersion;
use std::collections::{BTreeMap, HashMap};
use vstd::prelude::*;

#[allow(unused_imports)]
use crate::maps::is_walk;
#[allow(unused_imports)]
use crate::seqs::views;
#[allow(unused_imports)]
use crate::sstable_info::SstView;
#[allow(unused_imports)]
use crate::version::VersionView;

verus! {

/// The SSTs that branched off an object, by compaction group.
pub type BranchedSstInfo = HashMap<CompactionGroupId, Vec<HummockSstableId>>;

/// The ids, in order, of the SSTs of an object that have an id of their own.
pub open spec fn branch_ids(ssts: Seq<SstView>, object_id: u64) -> Seq<u64>
    decreases ssts.len(),
{
    if ssts.len() == 0 {
        Seq::empty()
    } else {
        let before = branch_ids(ssts.drop_last(), object_id);
        let last = ssts.last();
        if last.object_id == object_id && last.sst_id != object_id {
            before.push(last.sst_id)
        } else {
            before
        }
    }
}

impl VersionView {
    /// The ids of the SSTs that branched off an object and are in a group.
    pub open spec fn branches(self, object_id: u64, group_id: CompactionGroupId) -> Seq<u64> {
        if self.levels.dom().contains(group_id) {
            branch_ids(self.levels[group_id].ssts_in_place(), object_id)
        } else {
            Seq::empty()
        }
    }
}

/// What is listed for an object and a group.
pub open spec fn list_at(
    m: Map<u64, BranchedSstInfo>,
    object_id: u64,
    group_id: CompactionGroupId,
) -> Seq<u64> {
    if m.dom().contains(object_id) && m[object_id]@.dom().contains(group_id) {
        m[object_id]@[group_id]@
    } else {
        Seq::empty()
    }
}

/// Whether nothing empty is listed.
pub open spec fn no_empty_lists(m: Map<u64, BranchedSstInfo>) -> bool {
    &&& forall|o: u64| #[trigger]
        m.dom().contains(o) ==> exists|g: CompactionGroupId| #[trigger] m[o]@.dom().contains(g)
    &&& forall|o: u64, g: CompactionGroupId|
        m.dom().contains(o) && #[trigger] m[o]@.dom().contains(g) ==> m[o]@[g]@.len() > 0
}

/// Adds an SST to what is listed for its object and its group.
fn add_branch(
    m: &mut BTreeMap<u64, BranchedSstInfo>,
    object_id: u64,
    group_id: CompactionGroupId,
    sst_id: u64,
)
    requires
        no_empty_lists(old(m)@),
    ensures
        no_empty_lists(final(m)@),
        forall|o: u64, g: CompactionGroupId| #[trigger]
            list_at(final(m)@, o, g) == (if o == object_id && g == group_id {
                list_at(old(m)@, o, g).push(sst_id)
            } else {
                list_at(old(m)@, o, g)
            }),
{
    let ghost start = m@;
    let mut entry: BranchedSstInfo = match m.remove(&object_id) {
        Some(entry) => entry,
        None => HashMap::new(),
    };
    let ghost had = entry@;
    let mut list: Vec<u64> = match entry.remove(&group_id) {
        Some(list) => list,
        None => Vec::new(),
    };
    assert(list@ =~= list_at(start, object_id, group_id));
    list.push(sst_id);
    let ghost l = list;
    entry.insert(group_id, list);
    let ghost e = entry;
    m.insert(object_id, entry);
    proof {
        assert(m@ =~= start.insert(object_id, e));
        assert(e@ =~= had.insert(group_id, l));
        assert(e@.dom().contains(group_id));
        assert forall|o: u64| #[trigger] m@.dom().contains(o) implies exists|g: CompactionGroupId| #[trigger]
            m@[o]@.dom().contains(g) by {
            if o == object_id {
                assert(m@[o]@.dom().contains(group_id));
            } else {
                assert(start.dom().contains(o));
            }
        }
        assert forall|o: u64, g: CompactionGroupId|
            m@.dom().contains(o) && #[trigger] m@[o]@.dom().contains(g) implies m@[o]@[g]@.len()
            > 0 by {
            if o == object_id {
                if g != group_id {
                    assert(had.dom().contains(g));
                    assert(start[o]@.dom().contains(g));
                }
            } else {
                assert(start[o]@.dom().contains(g));
            }
        }
    }
}

impl HummockVersion {
    /// Lists, for each object, the SSTs of it in each group that have an id of their own.
    pub fn build_branched_sst_info(&self) -> (r: BTreeMap<HummockSstableObjectId, BranchedSstInfo>)
        ensures
            no_empty_lists(r@),
            forall|o: u64, g: CompactionGroupId| #[trigger]
                list_at(r@, o, g) == self@.branches(o, g),
    {
        let keys = keys_of(&self.levels);
        let ghost version = self@;
        let mut r: BTreeMap<HummockSstableObjectId, BranchedSstInfo> = BTreeMap::new();
        let mut i: usize = 0;
        proof {
            assert(version.levels.dom() =~= self.levels@.dom());
            assert(keys@.take(0).to_set() =~= Set::empty());
        }
        while i < keys.len()
            invariant
                i <= keys.len(),
                version == self@,
                is_walk(keys@, self.levels@.dom()),
                no_empty_lists(r@),
                forall|o: u64, g: CompactionGroupId| #[trigger]
                    list_at(r@, o, g) == (if keys@.take(i as int).to_set().contains(g) {
                        version.branches(o, g)
                    } else {
                        Seq::empty()
                    }),
            decreases keys.len() - i,
        {
            let group_id: CompactionGroupId = keys[i];
            proof {
                crate::table_state::lemma_walk_fresh(keys@, self.levels@.dom(), i as int);
                crate::group_deltas::lemma_take_to_set(keys@, i as int);
            }
            let ghost done = keys@.take(i as int).to_set();
            if let Some(levels) = self.levels.get(&group_id) {
                let ssts = list_in_place(levels);
                let ghost all = views(ssts@);
                let mut j: usize = 0;
                while j < ssts.len()
                    invariant
                        j <= ssts.len(),
                        all == views(ssts@),
                        no_empty_lists(r@),
                        forall|o: u64, g: CompactionGroupId| #[trigger]
                            list_at(r@, o, g) == (if done.contains(g) {
                                version.branches(o, g)
                            } else if g == group_id {
                                branch_ids(all.take(j as int), o)
                            } else {
                                Seq::empty()
                            }),
                        !done.contains(group_id),
                    decreases ssts.len() - j,
                {
                    let ghost prior = r@;
                    proof {
                        assert(all.take(j + 1).drop_last() =~= all.take(j as int));
                        assert(all.take(j + 1).last() == ssts@[j as int]@);
                    }
                    if ssts[j].sst_id != ssts[j].object_id {
                        add_branch(&mut r, ssts[j].object_id, group_id, ssts[j].sst_id);
                    }
                    assert forall|o: u64, g: CompactionGroupId| #[trigger]
                        list_at(r@, o, g) == (if done.contains(g) {
                            version.branches(o, g)
                        } else if g == group_id {
                            branch_ids(all.take(j + 1), o)
                        } else {
                            Seq::empty()
                        }) by {
                        assert(list_at(prior, o, g) == list_at(prior, o, g));
                    }
                    j = j + 1;
                }
                assert(all.take(j as int) =~= all);
                assert(version.levels[group_id] == levels@);
            }
            i = i + 1;
        }
        assert(keys@.take(i as int) =~= keys@);
        r
    }
}

/// What is listed for an object are ids, other than the object's, of SSTs of it.
pub proof fn branches_are_of_object(ssts: Seq<SstView>, object_id: u64, sst_id: u64)
    ensures
        branch_ids(ssts, object_id).contains(sst_id) <==> sst_id != object_id && exists|i: int|
            0 <= i < ssts.len() && (#[trigger] ssts[i]).object_id == object_id && ssts[i].sst_id
                == sst_id,
    decreases ssts.len(),
{
    if ssts.len() > 0 {
        let t = ssts.drop_last();
        branches_are_of_object(t, object_id, sst_id);
        let (r, p) = (branch_ids(ssts, object_id), branch_ids(t, object_id));
        if r.contains(sst_id) {
            let k = choose|k: int| 0 <= k < r.len() && r[k] == sst_id;
            if k < p.len() {
                assert(p[k] == sst_id);
                let i = choose|i: int|
                    0 <= i < t.len() && (#[trigger] t[i]).object_id == object_id && t[i].sst_id
                        == sst_id;
                assert(ssts[i].sst_id == sst_id);
            } else {
                assert(ssts[ssts.len() - 1].sst_id == sst_id);
            }
        }
        if sst_id != object_id && exists|i: int|
            0 <= i < ssts.len() && (#[trigger] ssts[i]).object_id == object_id && ssts[i].sst_id
                == sst_id {
            let i = choose|i: int|
                0 <= i < ssts.len() && (#[trigger] ssts[i]).object_id == object_id
                    && ssts[i].sst_id == sst_id;
            if i < t.len() {
                assert(t[i].sst_id == sst_id);
                let k = choose|k: int| 0 <= k < p.len() && p[k] == sst_id;
                assert(r[k] == sst_id);
            } else {
                assert(r[r.len() - 1] == sst_id);
            }
        }
    }
}

} // verus!
