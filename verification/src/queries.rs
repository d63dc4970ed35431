//! What a version holds.
use crate::key::TableId;
use crate::level::{CompactionGroupId, Level, Levels};
use crate::maps::keys_of;
use crate::sstable_info::{HummockSstableObjectId, SstableInfo};
use crate::version::HummockVersion;
use std::collections::HashSet;
use vstd::prelude::*;

#[allow(unused_imports)]
use crate::change_log::ChangeLogEntryView;
#[allow(unused_imports)]
use crate::level::{LevelView, LevelsView};
#[allow(unused_imports)]
use crate::maps::{
    gather, is_walk, lemma_gather_same, lemma_gather_take, lemma_gather_walk, walks_gather_the_same,
};
#[allow(unused_imports)]
use crate::seqs::views;
#[allow(unused_imports)]
use crate::sstable_info::SstView;
#[allow(unused_imports)]
use crate::version::VersionView;
#[allow(unused_imports)]
use vstd::seq_lib::lemma_multiset_commutative;

verus! {

/// The SSTs of a level.
pub open spec fn ssts_in() -> spec_fn(LevelView) -> Seq<SstView> {
    |l: LevelView| l.table_infos
}

/// The SSTs of a change log entry: of the old values, then of the new ones.
pub open spec fn ssts_in_entry() -> spec_fn(ChangeLogEntryView) -> Seq<SstView> {
    |e: ChangeLogEntryView| e.old_value + e.new_value
}

impl LevelsView {
    /// The levels from the newest data to the oldest.
    pub open spec fn newest_first(self) -> Seq<LevelView> {
        self.l0.sub_levels.reverse() + self.levels
    }

    /// The sub-levels, then the levels above 0.
    pub open spec fn in_place_order(self) -> Seq<LevelView> {
        self.l0.sub_levels + self.levels
    }

    /// The SSTs from the newest to the oldest.
    pub open spec fn ssts(self) -> Seq<SstView> {
        gather(self.newest_first(), ssts_in())
    }
}

impl VersionView {
    /// The levels of a group, from the newest data to the oldest.
    pub open spec fn levels_of(self) -> spec_fn(CompactionGroupId) -> Seq<LevelView> {
        |g: CompactionGroupId| self.levels[g].newest_first()
    }

    /// The SSTs of a group, from the newest to the oldest.
    pub open spec fn ssts_of(self) -> spec_fn(CompactionGroupId) -> Seq<SstView> {
        |g: CompactionGroupId| self.levels[g].ssts()
    }

    /// The SSTs of a group, where it is selected.
    pub open spec fn selected_ssts_of(self, selected: Set<CompactionGroupId>) -> spec_fn(
        CompactionGroupId,
    ) -> Seq<SstView> {
        |g: CompactionGroupId|
            if selected.contains(g) {
                self.levels[g].ssts()
            } else {
                Seq::empty()
            }
    }

    /// The SSTs of the change log of a table.
    pub open spec fn log_ssts_of(self) -> spec_fn(TableId) -> Seq<SstView> {
        |t: TableId| gather(self.table_change_log[t], ssts_in_entry())
    }

    /// Whether an SST is in a group or in a change log.
    pub open spec fn holds(self, sst: SstView) -> bool {
        (exists|g: CompactionGroupId| #[trigger]
            self.levels.dom().contains(g) && self.ssts_of()(g).contains(sst)) || (exists|
            t: TableId,
        | #[trigger]
            self.table_change_log.dom().contains(t) && self.log_ssts_of()(t).contains(sst))
    }
}

/// Adds references to the SSTs of a list.
pub fn push_ssts<'a>(r: &mut Vec<&'a SstableInfo>, ssts: &'a Vec<SstableInfo>)
    ensures
        views(final(r)@) == views(old(r)@) + views(ssts@),
{
    let ghost start = views(r@);
    let ghost all = views(ssts@);
    let mut i: usize = 0;
    assert(start + all.take(0) =~= start);
    while i < ssts.len()
        invariant
            i <= ssts.len(),
            all == views(ssts@),
            views(r@) == start + all.take(i as int),
        decreases ssts.len() - i,
    {
        let ghost prior = r@;
        r.push(&ssts[i]);
        assert(views(r@) =~= start + all.take(i + 1)) by {
            assert(views(r@) =~= views(prior).push(all[i as int]));
            assert(all.take(i + 1) =~= all.take(i as int).push(all[i as int]));
        }
        i = i + 1;
    }
    assert(all.take(i as int) =~= all);
}

/// Adds references to the levels of a group, from the newest data to the oldest.
fn push_levels<'a>(r: &mut Vec<&'a Level>, levels: &'a Levels)
    ensures
        views(final(r)@) == views(old(r)@) + levels@.newest_first(),
{
    let ghost start = views(r@);
    let ghost all = levels@.newest_first();
    let ghost subs = levels@.l0.sub_levels;
    let n: usize = levels.l0.sub_levels.len();
    let mut i: usize = 0;
    assert(start + all.take(0) =~= start);
    while i < n
        invariant
            i <= n,
            n == levels.l0.sub_levels.len(),
            subs == levels@.l0.sub_levels,
            all == levels@.newest_first(),
            views(r@) == start + all.take(i as int),
        decreases n - i,
    {
        let ghost prior = r@;
        r.push(&levels.l0.sub_levels[n - 1 - i]);
        assert(views(r@) =~= start + all.take(i + 1)) by {
            assert(all[i as int] == subs[n - 1 - i]);
            assert(views(r@) =~= views(prior).push(all[i as int]));
            assert(all.take(i + 1) =~= all.take(i as int).push(all[i as int]));
        }
        i = i + 1;
    }
    let mut j: usize = 0;
    while j < levels.levels.len()
        invariant
            j <= levels.levels.len(),
            n == subs.len(),
            subs == levels@.l0.sub_levels,
            all == levels@.newest_first(),
            views(r@) == start + all.take(n + j),
        decreases levels.levels.len() - j,
    {
        let ghost prior = r@;
        r.push(&levels.levels[j]);
        assert(views(r@) =~= start + all.take(n + j + 1)) by {
            assert(all[n + j] == levels@.levels[j as int]);
            assert(views(r@) =~= views(prior).push(all[n + j]));
            assert(all.take(n + j + 1) =~= all.take(n + j).push(all[n + j]));
        }
        j = j + 1;
    }
    assert(all.take(n + j) =~= all);
}

/// Adds references to the SSTs of a group, from the newest to the oldest.
fn push_group_ssts<'a>(r: &mut Vec<&'a SstableInfo>, levels: &'a Levels)
    ensures
        views(final(r)@) == views(old(r)@) + levels@.ssts(),
{
    let ghost start = views(r@);
    let mut list: Vec<&'a Level> = Vec::new();
    push_levels(&mut list, levels);
    let ghost all = levels@.newest_first();
    assert(views(list@) =~= all);
    let mut i: usize = 0;
    assert(gather(all.take(0), ssts_in()) =~= Seq::empty());
    assert(start + gather(all.take(0), ssts_in()) =~= start);
    while i < list.len()
        invariant
            i <= list.len(),
            views(list@) == all,
            views(r@) == start + gather(all.take(i as int), ssts_in()),
        decreases list.len() - i,
    {
        let level: &'a Level = list[i];
        assert(level@ == all[i as int]);
        let ghost prior = views(r@);
        push_ssts(r, &level.table_infos);
        proof {
            lemma_gather_take(all, i as int, ssts_in());
            assert(prior + all[i as int].table_infos =~= start + gather(
                all.take(i + 1),
                ssts_in(),
            ));
        }
        i = i + 1;
    }
    assert(all.take(i as int) =~= all);
}

impl HummockVersion {
    /// The levels of a group that is there.
    pub fn get_compaction_group_levels(&self, compaction_group_id: CompactionGroupId) -> (r:
        &Levels)
        requires
            self@.levels.dom().contains(compaction_group_id),
        ensures
            r@ == self@.levels[compaction_group_id],
    {
        self.levels.get(&compaction_group_id).unwrap()
    }

    /// The number of levels of a group, level 0 among them; none where the group is not there.
    pub fn num_levels(&self, compaction_group_id: CompactionGroupId) -> (r: usize)
        requires
            self@.levels.dom().contains(compaction_group_id)
                ==> self@.levels[compaction_group_id].levels.len() < usize::MAX,
        ensures
            r == (if self@.levels.dom().contains(compaction_group_id) {
                self@.levels[compaction_group_id].levels.len() + 1
            } else {
                0
            }),
    {
        match self.levels.get(&compaction_group_id) {
            Some(group) => group.levels.len() + 1,
            None => 0,
        }
    }

    /// All levels, group by group in the given order, and of each group from the newest data to the
    /// oldest.
    pub fn combined_levels_in_order(&self, groups: &Vec<CompactionGroupId>) -> (r: Vec<&Level>)
        requires
            is_walk(groups@, self@.levels.dom()),
        ensures
            views(r@) == gather(groups@, self@.levels_of()),
    {
        let ghost part = self@.levels_of();
        let mut r: Vec<&Level> = Vec::new();
        let mut i: usize = 0;
        assert(views(r@) =~= gather(groups@.take(0), part));
        while i < groups.len()
            invariant
                i <= groups.len(),
                is_walk(groups@, self@.levels.dom()),
                part == self@.levels_of(),
                views(r@) == gather(groups@.take(i as int), part),
            decreases groups.len() - i,
        {
            assert(groups@.to_set().contains(groups@[i as int]));
            assert(self@.levels.dom().contains(groups@[i as int]));
            if let Some(levels) = self.levels.get(&groups[i]) {
                push_levels(&mut r, levels);
            }
            proof {
                lemma_gather_take(groups@, i as int, part);
            }
            i = i + 1;
        }
        assert(groups@.take(i as int) =~= groups@);
        r
    }

    /// All levels, group by group in the order in which the groups are met, and of each group from
    /// the newest data to the oldest.
    pub fn get_combined_levels(&self) -> (r: Vec<&Level>)
        ensures
            exists|order: Seq<CompactionGroupId>| #[trigger]
                is_walk(order, self@.levels.dom()) && views(r@) == gather(
                    order,
                    self@.levels_of(),
                ),
    {
        let groups = keys_of(&self.levels);
        assert(self@.levels.dom() =~= self.levels@.dom());
        assert(is_walk(groups@, self@.levels.dom()));
        self.combined_levels_in_order(&groups)
    }

    /// Adds references to the SSTs of the change logs, table by table in the given order.
    fn push_log_ssts<'a>(&'a self, r: &mut Vec<&'a SstableInfo>, tables: &Vec<TableId>)
        requires
            is_walk(tables@, self@.table_change_log.dom()),
        ensures
            views(final(r)@) == views(old(r)@) + gather(tables@, self@.log_ssts_of()),
    {
        let ghost start = views(r@);
        let ghost part = self@.log_ssts_of();
        let mut i: usize = 0;
        assert(start + gather(tables@.take(0), part) =~= start);
        while i < tables.len()
            invariant
                i <= tables.len(),
                is_walk(tables@, self@.table_change_log.dom()),
                part == self@.log_ssts_of(),
                views(r@) == start + gather(tables@.take(i as int), part),
            decreases tables.len() - i,
        {
            assert(tables@.to_set().contains(tables@[i as int]));
            assert(self@.table_change_log.dom().contains(tables@[i as int]));
            let ghost prior = views(r@);
            if let Some(log) = self.table_change_log.get(&tables[i]) {
                let ghost entries = log@;
                let mut j: usize = 0;
                assert(prior + gather(entries.take(0), ssts_in_entry()) =~= prior);
                while j < log.0.len()
                    invariant
                        j <= log.0.len(),
                        entries == log@,
                        views(r@) == prior + gather(entries.take(j as int), ssts_in_entry()),
                    decreases log.0.len() - j,
                {
                    let ghost earlier = views(r@);
                    push_ssts(r, &log.0[j].old_value);
                    push_ssts(r, &log.0[j].new_value);
                    proof {
                        lemma_gather_take(entries, j as int, ssts_in_entry());
                        let e = entries[j as int];
                        assert(earlier + e.old_value + e.new_value =~= prior + gather(
                            entries.take(j + 1),
                            ssts_in_entry(),
                        ));
                    }
                    j = j + 1;
                }
                assert(entries.take(j as int) =~= entries);
            }
            proof {
                lemma_gather_take(tables@, i as int, part);
                assert(prior + part(tables@[i as int]) =~= start + gather(
                    tables@.take(i + 1),
                    part,
                ));
            }
            i = i + 1;
        }
        assert(tables@.take(i as int) =~= tables@);
    }

    /// The SSTs of the selected groups, then those of the change logs of all tables, with the groups
    /// and the tables in the given orders.
    pub fn selected_sst_infos_in_order<'a>(
        &'a self,
        select_group: &HashSet<CompactionGroupId>,
        groups: &Vec<CompactionGroupId>,
        tables: &Vec<TableId>,
    ) -> (r: Vec<&'a SstableInfo>)
        requires
            is_walk(groups@, self@.levels.dom()),
            is_walk(tables@, self@.table_change_log.dom()),
        ensures
            views(r@) == gather(groups@, self@.selected_ssts_of(select_group@)) + gather(
                tables@,
                self@.log_ssts_of(),
            ),
    {
        let ghost part = self@.selected_ssts_of(select_group@);
        let mut r: Vec<&'a SstableInfo> = Vec::new();
        let mut i: usize = 0;
        assert(views(r@) =~= gather(groups@.take(0), part));
        while i < groups.len()
            invariant
                i <= groups.len(),
                is_walk(groups@, self@.levels.dom()),
                part == self@.selected_ssts_of(select_group@),
                views(r@) == gather(groups@.take(i as int), part),
            decreases groups.len() - i,
        {
            assert(groups@.to_set().contains(groups@[i as int]));
            assert(self@.levels.dom().contains(groups@[i as int]));
            let ghost prior = views(r@);
            if select_group.contains(&groups[i]) {
                if let Some(levels) = self.levels.get(&groups[i]) {
                    push_group_ssts(&mut r, levels);
                }
            } else {
                assert(prior + Seq::empty() =~= prior);
            }
            proof {
                lemma_gather_take(groups@, i as int, part);
            }
            i = i + 1;
        }
        assert(groups@.take(i as int) =~= groups@);
        self.push_log_ssts(&mut r, tables);
        r
    }

    /// All SSTs: those of the groups, then those of the change logs, with the groups and the tables
    /// in the given orders.
    pub fn sst_infos_in_order(
        &self,
        groups: &Vec<CompactionGroupId>,
        tables: &Vec<TableId>,
    ) -> (r: Vec<&SstableInfo>)
        requires
            is_walk(groups@, self@.levels.dom()),
            is_walk(tables@, self@.table_change_log.dom()),
        ensures
            views(r@) == gather(groups@, self@.ssts_of()) + gather(tables@, self@.log_ssts_of()),
    {
        let ghost part = self@.ssts_of();
        let mut r: Vec<&SstableInfo> = Vec::new();
        let mut i: usize = 0;
        assert(views(r@) =~= gather(groups@.take(0), part));
        while i < groups.len()
            invariant
                i <= groups.len(),
                is_walk(groups@, self@.levels.dom()),
                part == self@.ssts_of(),
                views(r@) == gather(groups@.take(i as int), part),
            decreases groups.len() - i,
        {
            assert(groups@.to_set().contains(groups@[i as int]));
            assert(self@.levels.dom().contains(groups@[i as int]));
            if let Some(levels) = self.levels.get(&groups[i]) {
                push_group_ssts(&mut r, levels);
            }
            proof {
                lemma_gather_take(groups@, i as int, part);
            }
            i = i + 1;
        }
        assert(groups@.take(i as int) =~= groups@);
        self.push_log_ssts(&mut r, tables);
        r
    }

    /// All SSTs: those of the groups, then those of the change logs.
    pub fn get_sst_infos(&self) -> (r: Vec<&SstableInfo>)
        ensures
            exists|groups: Seq<CompactionGroupId>, tables: Seq<TableId>|
                #![trigger gather(groups, self@.ssts_of()), gather(tables, self@.log_ssts_of())]
                is_walk(groups, self@.levels.dom()) && is_walk(
                    tables,
                    self@.table_change_log.dom(),
                ) && views(r@) == gather(groups, self@.ssts_of()) + gather(
                    tables,
                    self@.log_ssts_of(),
                ),
    {
        let groups = keys_of(&self.levels);
        let tables = keys_of(&self.table_change_log);
        assert(self@.levels.dom() =~= self.levels@.dom());
        assert(self@.table_change_log.dom() =~= self.table_change_log@.dom());
        self.sst_infos_in_order(&groups, &tables)
    }

    /// The SSTs of the selected groups, then those of the change logs of all tables.
    pub fn get_sst_infos_from_groups<'a>(
        &'a self,
        select_group: &'a HashSet<CompactionGroupId>,
    ) -> (r: Vec<&'a SstableInfo>)
        ensures
            exists|groups: Seq<CompactionGroupId>, tables: Seq<TableId>|
                #![trigger gather(groups, self@.selected_ssts_of(select_group@)), gather(tables, self@.log_ssts_of())]
                is_walk(groups, self@.levels.dom()) && is_walk(
                    tables,
                    self@.table_change_log.dom(),
                ) && views(r@) == gather(groups, self@.selected_ssts_of(select_group@)) + gather(
                    tables,
                    self@.log_ssts_of(),
                ),
    {
        let groups = keys_of(&self.levels);
        let tables = keys_of(&self.table_change_log);
        assert(self@.levels.dom() =~= self.levels@.dom());
        assert(self@.table_change_log.dom() =~= self.table_change_log@.dom());
        self.selected_sst_infos_in_order(select_group, &groups, &tables)
    }
}

/// An SST is in the parts of some walks over the groups and over the tables if and only if the
/// version holds it.
pub proof fn walk_meets_what_version_holds(
    version: VersionView,
    groups: Seq<CompactionGroupId>,
    tables: Seq<TableId>,
    sst: SstView,
)
    requires
        is_walk(groups, version.levels.dom()),
        is_walk(tables, version.table_change_log.dom()),
    ensures
        (gather(groups, version.ssts_of()) + gather(tables, version.log_ssts_of())).contains(sst)
            <==> version.holds(sst),
{
    let a = gather(groups, version.ssts_of());
    let b = gather(tables, version.log_ssts_of());
    lemma_gather_walk(groups, version.levels.dom(), version.ssts_of(), sst);
    lemma_gather_walk(tables, version.table_change_log.dom(), version.log_ssts_of(), sst);
    if (a + b).contains(sst) {
        let i = choose|i: int| 0 <= i < (a + b).len() && (a + b)[i] == sst;
        if i < a.len() {
            assert(a[i] == sst);
        } else {
            assert(b[i - a.len()] == sst);
        }
    }
    if a.contains(sst) {
        let i = choose|i: int| 0 <= i < a.len() && a[i] == sst;
        assert((a + b)[i] == sst);
    }
    if b.contains(sst) {
        let i = choose|i: int| 0 <= i < b.len() && b[i] == sst;
        assert((a + b)[a.len() + i] == sst);
    }
}

/// An SST is met where the groups are selected if and only if a selected group or a change log
/// holds it.
pub proof fn selection_meets_what_selected_groups_hold(
    version: VersionView,
    selected: Set<CompactionGroupId>,
    groups: Seq<CompactionGroupId>,
    tables: Seq<TableId>,
    sst: SstView,
)
    requires
        is_walk(groups, version.levels.dom()),
        is_walk(tables, version.table_change_log.dom()),
    ensures
        (gather(groups, version.selected_ssts_of(selected)) + gather(
            tables,
            version.log_ssts_of(),
        )).contains(sst) <==> (exists|g: CompactionGroupId| #[trigger]
            version.levels.dom().contains(g) && selected.contains(g) && version.ssts_of()(
                g,
            ).contains(sst)) || (exists|t: TableId| #[trigger]
            version.table_change_log.dom().contains(t) && version.log_ssts_of()(t).contains(sst)),
{
    let part = version.selected_ssts_of(selected);
    let a = gather(groups, part);
    let b = gather(tables, version.log_ssts_of());
    lemma_gather_walk(groups, version.levels.dom(), part, sst);
    lemma_gather_walk(tables, version.table_change_log.dom(), version.log_ssts_of(), sst);
    if (a + b).contains(sst) {
        let i = choose|i: int| 0 <= i < (a + b).len() && (a + b)[i] == sst;
        if i < a.len() {
            assert(a[i] == sst);
            let g = choose|g: CompactionGroupId| #[trigger]
                version.levels.dom().contains(g) && part(g).contains(sst);
            assert(selected.contains(g));
        } else {
            assert(b[i - a.len()] == sst);
        }
    }
    if exists|g: CompactionGroupId| #[trigger]
        version.levels.dom().contains(g) && selected.contains(g) && version.ssts_of()(g).contains(
            sst,
        ) {
        let g = choose|g: CompactionGroupId| #[trigger]
            version.levels.dom().contains(g) && selected.contains(g) && version.ssts_of()(
                g,
            ).contains(sst);
        assert(part(g).contains(sst));
        let i = choose|i: int| 0 <= i < a.len() && a[i] == sst;
        assert((a + b)[i] == sst);
    }
    if b.contains(sst) {
        let i = choose|i: int| 0 <= i < b.len() && b[i] == sst;
        assert((a + b)[a.len() + i] == sst);
    }
}

/// Where every group is selected, the SSTs listed are all SSTs, each as often, whatever walks the
/// two lists were made by.
pub proof fn selecting_every_group_lists_all(
    version: VersionView,
    selected: Set<CompactionGroupId>,
    groups: Seq<CompactionGroupId>,
    tables: Seq<TableId>,
    all_groups: Seq<CompactionGroupId>,
    all_tables: Seq<TableId>,
)
    requires
        version.levels.dom().subset_of(selected),
        is_walk(groups, version.levels.dom()),
        is_walk(all_groups, version.levels.dom()),
        is_walk(tables, version.table_change_log.dom()),
        is_walk(all_tables, version.table_change_log.dom()),
    ensures
        (gather(groups, version.selected_ssts_of(selected)) + gather(
            tables,
            version.log_ssts_of(),
        )).to_multiset() == (gather(all_groups, version.ssts_of()) + gather(
            all_tables,
            version.log_ssts_of(),
        )).to_multiset(),
{
    let part = version.selected_ssts_of(selected);
    let (a, b) = (gather(groups, part), gather(tables, version.log_ssts_of()));
    let (c, d) = (
        gather(all_groups, version.ssts_of()),
        gather(all_tables, version.log_ssts_of()),
    );
    assert forall|i: int| 0 <= i < groups.len() implies part(#[trigger] groups[i])
        == version.ssts_of()(groups[i]) by {
        assert(groups.to_set().contains(groups[i]));
    }
    lemma_gather_same(groups, part, version.ssts_of());
    walks_gather_the_same(groups, all_groups, version.levels.dom(), version.ssts_of());
    walks_gather_the_same(
        tables,
        all_tables,
        version.table_change_log.dom(),
        version.log_ssts_of(),
    );
    lemma_multiset_commutative(a, b);
    lemma_multiset_commutative(c, d);
}

impl HummockVersion {
    /// The ids of all objects that the version holds an SST of.
    pub fn get_object_ids(&self) -> (r: HashSet<HummockSstableObjectId>)
        ensures
            forall|id: u64| #[trigger]
                r@.contains(id) <==> exists|sst: SstView| #[trigger]
                    self@.holds(sst) && sst.object_id == id,
    {
        let infos = self.get_sst_infos();
        let ghost all = views(infos@);
        let mut r: HashSet<HummockSstableObjectId> = HashSet::new();
        let mut i: usize = 0;
        while i < infos.len()
            invariant
                i <= infos.len(),
                all == views(infos@),
                forall|id: u64| #[trigger]
                    r@.contains(id) <==> exists|k: int|
                        0 <= k < i && (#[trigger] all[k]).object_id == id,
            decreases infos.len() - i,
        {
            let ghost prior = r@;
            r.insert(infos[i].object_id);
            assert forall|id: u64| #[trigger]
                r@.contains(id) <==> exists|k: int|
                    0 <= k < i + 1 && (#[trigger] all[k]).object_id == id by {
                assert(all[i as int].object_id == infos@[i as int].object_id);
                if prior.contains(id) {
                    let k = choose|k: int| 0 <= k < i && (#[trigger] all[k]).object_id == id;
                    assert(all[k].object_id == id);
                }
            }
            i = i + 1;
        }
        proof {
            lemma_all_held(self@, all);
            assert forall|id: u64| #[trigger]
                r@.contains(id) <==> exists|sst: SstView| #[trigger]
                    self@.holds(sst) && sst.object_id == id by {
                if r@.contains(id) {
                    let k = choose|k: int|
                        0 <= k < all.len() && (#[trigger] all[k]).object_id == id;
                    assert(all.contains(all[k]));
                    assert(self@.holds(all[k]));
                }
                if exists|sst: SstView| #[trigger] self@.holds(sst) && sst.object_id == id {
                    let sst = choose|sst: SstView| #[trigger]
                        self@.holds(sst) && sst.object_id == id;
                    assert(all.contains(sst));
                    let k = choose|k: int| 0 <= k < all.len() && all[k] == sst;
                    assert(all[k].object_id == id);
                }
            }
        }
        r
    }

    /// The ids of all SSTs that the version holds.
    pub fn get_sst_ids(&self) -> (r: HashSet<HummockSstableObjectId>)
        ensures
            forall|id: u64| #[trigger]
                r@.contains(id) <==> exists|sst: SstView| #[trigger]
                    self@.holds(sst) && sst.sst_id == id,
    {
        let infos = self.get_sst_infos();
        let ghost all = views(infos@);
        let mut r: HashSet<HummockSstableObjectId> = HashSet::new();
        let mut i: usize = 0;
        while i < infos.len()
            invariant
                i <= infos.len(),
                all == views(infos@),
                forall|id: u64| #[trigger]
                    r@.contains(id) <==> exists|k: int|
                        0 <= k < i && (#[trigger] all[k]).sst_id == id,
            decreases infos.len() - i,
        {
            let ghost prior = r@;
            r.insert(infos[i].sst_id);
            assert forall|id: u64| #[trigger]
                r@.contains(id) <==> exists|k: int|
                    0 <= k < i + 1 && (#[trigger] all[k]).sst_id == id by {
                assert(all[i as int].sst_id == infos@[i as int].sst_id);
                if prior.contains(id) {
                    let k = choose|k: int| 0 <= k < i && (#[trigger] all[k]).sst_id == id;
                    assert(all[k].sst_id == id);
                }
            }
            i = i + 1;
        }
        proof {
            lemma_all_held(self@, all);
            assert forall|id: u64| #[trigger]
                r@.contains(id) <==> exists|sst: SstView| #[trigger]
                    self@.holds(sst) && sst.sst_id == id by {
                if r@.contains(id) {
                    let k = choose|k: int|
                        0 <= k < all.len() && (#[trigger] all[k]).sst_id == id;
                    assert(all.contains(all[k]));
                    assert(self@.holds(all[k]));
                }
                if exists|sst: SstView| #[trigger] self@.holds(sst) && sst.sst_id == id {
                    let sst = choose|sst: SstView| #[trigger]
                        self@.holds(sst) && sst.sst_id == id;
                    assert(all.contains(sst));
                    let k = choose|k: int| 0 <= k < all.len() && all[k] == sst;
                    assert(all[k].sst_id == id);
                }
            }
        }
        r
    }
}

proof fn lemma_all_held(version: VersionView, all: Seq<SstView>)
    requires
        exists|groups: Seq<CompactionGroupId>, tables: Seq<TableId>|
            #![trigger gather(groups, version.ssts_of()), gather(tables, version.log_ssts_of())]
            is_walk(groups, version.levels.dom()) && is_walk(
                tables,
                version.table_change_log.dom(),
            ) && all == gather(groups, version.ssts_of()) + gather(tables, version.log_ssts_of()),
    ensures
        forall|sst: SstView| #[trigger] all.contains(sst) <==> version.holds(sst),
        forall|sst: SstView| all.contains(sst) <==> #[trigger] version.holds(sst),
{
    let (groups, tables) = choose|groups: Seq<CompactionGroupId>, tables: Seq<TableId>|
        #![trigger gather(groups, version.ssts_of()), gather(tables, version.log_ssts_of())]
        is_walk(groups, version.levels.dom()) && is_walk(tables, version.table_change_log.dom())
            && all == gather(groups, version.ssts_of()) + gather(tables, version.log_ssts_of());
    assert forall|sst: SstView| #[trigger] all.contains(sst) <==> version.holds(sst) by {
        walk_meets_what_version_holds(version, groups, tables, sst);
    }
}

} // verus!
