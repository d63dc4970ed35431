//! Versions of the store, and the deltas that lead from one to the next.
use crate::change_log::{ChangeLogDelta, TableChangeLog};
use crate::group_deltas::GroupDeltas;
use crate::key::TableId;
use crate::level::{CompactionGroupId, Levels};
use crate::maps::{elements_of, keys_of};
use crate::table_watermark::TableWatermarks;
use std::collections::{BTreeSet, HashMap, HashSet};
use std::sync::Arc;
use vstd::prelude::*;

#[allow(unused_imports)]
use crate::change_log::{ChangeLogDeltaView, ChangeLogEntryView};
#[allow(unused_imports)]
use crate::group_deltas::{lemma_take_to_set, GroupDeltaView};
#[allow(unused_imports)]
use crate::level::LevelsView;
#[allow(unused_imports)]
use crate::maps::is_walk;
#[allow(unused_imports)]
use crate::seqs::map_views;
#[allow(unused_imports)]
use crate::table_watermark::TableWatermarksView;

verus! {

/// Identifies a state table.
pub type StateTableId = u32;

/// What a version knows of a state table.
#[derive(Debug, Clone, Copy, Default, PartialEq, Eq, Structural)]
pub struct StateTableInfo {
    pub committed_epoch: u64,
    pub safe_epoch: u64,
    pub compaction_group_id: CompactionGroupId,
}

/// What a version knows of its state tables.
#[derive(Debug, Default, PartialEq, Eq)]
pub struct HummockVersionStateTableInfo {
    pub state_table_info: HashMap<TableId, StateTableInfo>,
}

impl View for HummockVersionStateTableInfo {
    type V = Map<TableId, StateTableInfo>;

    open spec fn view(&self) -> Map<TableId, StateTableInfo> {
        self.state_table_info@
    }
}

/// A version: the SSTs of every compaction group, and what is known of the tables.
#[derive(Debug, PartialEq, Eq)]
pub struct HummockVersion {
    pub id: u64,
    pub levels: HashMap<CompactionGroupId, Levels>,
    pub max_committed_epoch: u64,
    pub safe_epoch: u64,
    pub table_watermarks: HashMap<TableId, Arc<TableWatermarks>>,
    pub table_change_log: HashMap<TableId, TableChangeLog>,
    pub state_table_info: HummockVersionStateTableInfo,
}

/// What a version stands for.
#[verifier::ext_equal]
pub struct VersionView {
    pub id: u64,
    pub levels: Map<CompactionGroupId, LevelsView>,
    pub max_committed_epoch: u64,
    pub safe_epoch: u64,
    pub table_watermarks: Map<TableId, TableWatermarksView>,
    pub table_change_log: Map<TableId, Seq<ChangeLogEntryView>>,
    pub state_table_info: Map<TableId, StateTableInfo>,
}

impl View for HummockVersion {
    type V = VersionView;

    open spec fn view(&self) -> VersionView {
        VersionView {
            id: self.id,
            levels: map_views(self.levels@),
            max_committed_epoch: self.max_committed_epoch,
            safe_epoch: self.safe_epoch,
            table_watermarks: map_views(self.table_watermarks@),
            table_change_log: map_views(self.table_change_log@),
            state_table_info: self.state_table_info@,
        }
    }
}

/// The changes that lead from one version to the next.
#[derive(Debug, Default, PartialEq, Eq)]
pub struct HummockVersionDelta {
    pub id: u64,
    pub prev_id: u64,
    pub group_deltas: HashMap<CompactionGroupId, GroupDeltas>,
    pub max_committed_epoch: u64,
    pub safe_epoch: u64,
    pub trivial_move: bool,
    pub new_table_watermarks: HashMap<TableId, TableWatermarks>,
    pub removed_table_ids: HashSet<TableId>,
    pub change_log_delta: HashMap<TableId, ChangeLogDelta>,
    pub state_table_info_delta: HashMap<TableId, StateTableInfo>,
}

/// What a version delta stands for.
#[verifier::ext_equal]
pub struct VersionDeltaView {
    pub id: u64,
    pub prev_id: u64,
    pub group_deltas: Map<CompactionGroupId, Seq<GroupDeltaView>>,
    pub max_committed_epoch: u64,
    pub safe_epoch: u64,
    pub trivial_move: bool,
    pub new_table_watermarks: Map<TableId, TableWatermarksView>,
    pub removed_table_ids: Set<TableId>,
    pub change_log_delta: Map<TableId, ChangeLogDeltaView>,
    pub state_table_info_delta: Map<TableId, StateTableInfo>,
}

impl View for HummockVersionDelta {
    type V = VersionDeltaView;

    open spec fn view(&self) -> VersionDeltaView {
        VersionDeltaView {
            id: self.id,
            prev_id: self.prev_id,
            group_deltas: map_views(self.group_deltas@),
            max_committed_epoch: self.max_committed_epoch,
            safe_epoch: self.safe_epoch,
            trivial_move: self.trivial_move,
            new_table_watermarks: map_views(self.new_table_watermarks@),
            removed_table_ids: self.removed_table_ids@,
            change_log_delta: map_views(self.change_log_delta@),
            state_table_info_delta: self.state_table_info_delta@,
        }
    }
}

impl VersionView {
    /// The version that holds nothing.
    pub open spec fn blank() -> VersionView {
        VersionView {
            id: 0,
            levels: Map::empty(),
            max_committed_epoch: 0,
            safe_epoch: 0,
            table_watermarks: Map::empty(),
            table_change_log: Map::empty(),
            state_table_info: Map::empty(),
        }
    }
}

impl Default for HummockVersion {
    fn default() -> (r: HummockVersion)
        ensures
            r@ == VersionView::blank(),
    {
        let r = HummockVersion {
            id: 0,
            levels: HashMap::new(),
            max_committed_epoch: 0,
            safe_epoch: 0,
            table_watermarks: HashMap::new(),
            table_change_log: HashMap::new(),
            state_table_info: HummockVersionStateTableInfo { state_table_info: HashMap::new() },
        };
        assert(r@.levels =~= Map::empty());
        assert(r@.table_watermarks =~= Map::empty());
        assert(r@.table_change_log =~= Map::empty());
        r
    }
}

impl HummockVersion {
    /// The epoch up to which a version keeps no more than the latest values.
    pub fn visible_table_safe_epoch(&self) -> (r: u64)
        ensures
            r == self@.safe_epoch,
    {
        self.safe_epoch
    }

    /// Sets the safe epoch.
    pub fn set_safe_epoch(&mut self, safe_epoch: u64)
        ensures
            final(self)@ == (VersionView { safe_epoch, ..old(self)@ }),
    {
        self.safe_epoch = safe_epoch;
    }
}

impl HummockVersionDelta {
    /// The safe epoch of the next version.
    pub fn visible_table_safe_epoch(&self) -> (r: u64)
        ensures
            r == self@.safe_epoch,
    {
        self.safe_epoch
    }
}

/// The tables of a compaction group.
pub open spec fn tables_of(
    info: Map<TableId, StateTableInfo>,
    group_id: CompactionGroupId,
) -> Set<TableId> {
    info.dom().filter(|t: TableId| info[t].compaction_group_id == group_id)
}

/// Whether no epoch of a table goes back.
pub open spec fn epochs_advance(
    info: Map<TableId, StateTableInfo>,
    delta: Map<TableId, StateTableInfo>,
    removed: Set<TableId>,
) -> bool {
    forall|t: TableId|
        #[trigger] delta.dom().contains(t) && info.dom().contains(t) && !removed.contains(t) ==> {
            &&& info[t].safe_epoch <= delta[t].safe_epoch
            &&& info[t].committed_epoch <= delta[t].committed_epoch
        }
}

/// The tables after a delta: those removed are gone, and what the delta says of others holds.
pub open spec fn info_after(
    info: Map<TableId, StateTableInfo>,
    delta: Map<TableId, StateTableInfo>,
    removed: Set<TableId>,
) -> Map<TableId, StateTableInfo> {
    info.union_prefer_right(delta).remove_keys(removed)
}

/// Of each table that a delta removes or speaks of, what was known of it before.
pub open spec fn info_changed(
    info: Map<TableId, StateTableInfo>,
    delta: Map<TableId, StateTableInfo>,
    removed: Set<TableId>,
) -> Map<TableId, Option<StateTableInfo>> {
    Map::new(
        |t: TableId|
            if removed.contains(t) {
                info.dom().contains(t)
            } else {
                delta.dom().contains(t)
            },
        |t: TableId|
            if info.dom().contains(t) {
                Some(info[t])
            } else {
                None
            },
    )
}

impl HummockVersionStateTableInfo {
    /// What is known of each table.
    pub fn info(&self) -> (r: &HashMap<TableId, StateTableInfo>)
        ensures
            r@ == self@,
    {
        &self.state_table_info
    }

    /// The tables of a compaction group.
    pub fn compaction_group_member_table_ids(&self, compaction_group_id: CompactionGroupId) -> (r:
        BTreeSet<TableId>)
        ensures
            r@ == tables_of(self@, compaction_group_id),
    {
        let keys = keys_of(&self.state_table_info);
        let ghost info = self@;
        let mut r: BTreeSet<TableId> = BTreeSet::new();
        let mut i: usize = 0;
        assert(r@ =~= Set::empty());
        while i < keys.len()
            invariant
                i <= keys.len(),
                info == self@,
                is_walk(keys@, info.dom()),
                forall|t: TableId| #[trigger]
                    r@.contains(t) <==> keys@.take(i as int).contains(t)
                        && info[t].compaction_group_id == compaction_group_id,
            decreases keys.len() - i,
        {
            let key: TableId = keys[i];
            assert(keys@.to_set().contains(keys@[i as int]));
            let found = self.state_table_info.get(&key);
            let ghost prior = r@;
            if let Some(table) = found {
                if table.compaction_group_id == compaction_group_id {
                    r.insert(key);
                }
            }
            proof {
                lemma_take_to_set(keys@, i as int);
                assert forall|t: TableId| #[trigger]
                    r@.contains(t) <==> keys@.take(i + 1).contains(t)
                        && info[t].compaction_group_id == compaction_group_id by {
                    assert(keys@.take(i + 1).to_set().contains(t) <==> keys@.take(
                        i as int,
                    ).to_set().contains(t) || t == key);
                    assert(prior.contains(t) <==> keys@.take(i as int).contains(t)
                        && info[t].compaction_group_id == compaction_group_id);
                }
            }
            i = i + 1;
        }
        proof {
            assert(keys@.take(i as int) =~= keys@);
            assert forall|t: TableId| r@.contains(t) <==> tables_of(
                info,
                compaction_group_id,
            ).contains(t) by {
                assert(keys@.to_set().contains(t) <==> keys@.contains(t));
            }
            assert(r@ =~= tables_of(info, compaction_group_id));
        }
        r
    }

    /// Takes the tables removed out, and takes over what the delta says of the others. Gives back
    /// what was known of each of these tables.
    pub fn apply_delta(
        &mut self,
        delta: &HashMap<TableId, StateTableInfo>,
        removed_table_id: &HashSet<TableId>,
    ) -> (r: HashMap<TableId, Option<StateTableInfo>>)
        requires
            epochs_advance(old(self)@, delta@, removed_table_id@),
        ensures
            final(self)@ == info_after(old(self)@, delta@, removed_table_id@),
            r@ == info_changed(old(self)@, delta@, removed_table_id@),
    {
        let ghost start = self@;
        let mut changed: HashMap<TableId, Option<StateTableInfo>> = HashMap::new();
        let removed = elements_of(removed_table_id);
        let mut i: usize = 0;
        assert(removed@.take(0).to_set() =~= Set::empty());
        assert(self@ =~= start.remove_keys(Set::empty()));
        assert(changed@ =~= info_changed(start, Map::empty(), Set::empty()));
        while i < removed.len()
            invariant
                i <= removed.len(),
                is_walk(removed@, removed_table_id@),
                self@ == start.remove_keys(removed@.take(i as int).to_set()),
                changed@ == info_changed(start, Map::empty(), removed@.take(i as int).to_set()),
            decreases removed.len() - i,
        {
            let table_id: TableId = removed[i];
            let prev = self.state_table_info.remove(&table_id);
            proof {
                lemma_take_to_set(removed@, i as int);
                assert(!removed@.take(i as int).to_set().contains(table_id)) by {
                    if removed@.take(i as int).contains(table_id) {
                        let k = choose|k: int|
                            0 <= k < i && removed@.take(i as int)[k] == table_id;
                        assert(removed@[k] == table_id);
                    }
                }
                assert(self@ =~= start.remove_keys(removed@.take(i + 1).to_set()));
            }
            if let Some(info) = prev {
                changed.insert(table_id, Some(info));
            }
            proof {
                assert(changed@ =~= info_changed(
                    start,
                    Map::empty(),
                    removed@.take(i + 1).to_set(),
                ));
            }
            i = i + 1;
        }
        assert(removed@.take(i as int) =~= removed@);
        let keys = keys_of(delta);
        let ghost gone = removed_table_id@;
        let mut j: usize = 0;
        proof {
            assert(delta@.restrict(keys@.take(0).to_set()) =~= Map::empty());
            assert(self@ =~= info_after(start, delta@.restrict(keys@.take(0).to_set()), gone));
        }
        while j < keys.len()
            invariant
                j <= keys.len(),
                is_walk(keys@, delta@.dom()),
                gone == removed_table_id@,
                self@ == info_after(
                    start,
                    delta@.restrict(keys@.take(j as int).to_set()),
                    gone,
                ),
                changed@ == info_changed(
                    start,
                    delta@.restrict(keys@.take(j as int).to_set()),
                    gone,
                ),
            decreases keys.len() - j,
        {
            let table_id: TableId = keys[j];
            let ghost done = keys@.take(j as int).to_set();
            let ghost prior = self@;
            proof {
                lemma_take_to_set(keys@, j as int);
                assert(keys@.to_set().contains(keys@[j as int]));
                assert(!done.contains(table_id)) by {
                    if keys@.take(j as int).contains(table_id) {
                        let k = choose|k: int| 0 <= k < j && keys@.take(j as int)[k] == table_id;
                        assert(keys@[k] == table_id);
                    }
                }
            }
            if !removed_table_id.contains(&table_id) {
                if let Some(info) = delta.get(&table_id) {
                    let prev = self.state_table_info.insert(table_id, *info);
                    changed.insert(table_id, prev);
                }
            }
            proof {
                let now = delta@.restrict(keys@.take(j + 1).to_set());
                assert(self@ =~= info_after(start, now, gone));
                assert(changed@ =~= info_changed(start, now, gone));
            }
            j = j + 1;
        }
        proof {
            assert(keys@.take(j as int) =~= keys@);
            assert(delta@.restrict(keys@.to_set()) =~= delta@);
        }
        changed
    }
}

/// A delta takes the removed tables out, and what it says of another table holds after it.
pub proof fn delta_says_what_holds(
    info: Map<TableId, StateTableInfo>,
    delta: Map<TableId, StateTableInfo>,
    removed: Set<TableId>,
    t: TableId,
)
    ensures
        removed.contains(t) ==> !info_after(info, delta, removed).dom().contains(t),
        !removed.contains(t) && delta.dom().contains(t) ==> info_after(
            info,
            delta,
            removed,
        ).dom().contains(t) && info_after(info, delta, removed)[t] == delta[t],
        !removed.contains(t) && !delta.dom().contains(t) ==> (info_after(
            info,
            delta,
            removed,
        ).dom().contains(t) <==> info.dom().contains(t)),
{
}

/// A table is a member of one compaction group alone.
pub proof fn table_is_in_one_group(
    info: Map<TableId, StateTableInfo>,
    t: TableId,
    one: CompactionGroupId,
    other: CompactionGroupId,
)
    requires
        tables_of(info, one).contains(t),
        tables_of(info, other).contains(t),
    ensures
        one == other,
{
}

} // verus!
