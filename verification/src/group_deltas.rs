//! The changes that a version delta makes to a compaction group, and their summary.
use crate::level::CompactionGroupId;
use crate::sstable_info::{clone_ids, SstableInfo};
use std::collections::HashSet;
use vstd::prelude::*;

#[allow(unused_imports)]
use crate::seqs::{lemma_views_push, option_view, views};
#[allow(unused_imports)]
use crate::sstable_info::SstView;

verus! {

/// The part of a compaction group's configuration that shapes its levels.
#[derive(Debug, Clone, Copy, Default, PartialEq, Eq, Structural)]
pub struct CompactionConfig {
    pub max_level: u64,
}

/// The versions of the delta format in which a group is constructed.
#[derive(Debug, Clone, Copy, PartialEq, Eq, Structural)]
pub enum CompatibilityVersion {
    VersionUnspecified,
    NoTrivialSplit,
    NoMemberTableIds,
}

impl CompatibilityVersion {
    /// The number that stands for the version in a delta.
    pub open spec fn number(self) -> i32 {
        match self {
            CompatibilityVersion::VersionUnspecified => 0,
            CompatibilityVersion::NoTrivialSplit => 1,
            CompatibilityVersion::NoMemberTableIds => 2,
        }
    }

    /// The number that stands for the version in a delta.
    pub fn code(self) -> (r: i32)
        ensures
            r == self.number(),
    {
        match self {
            CompatibilityVersion::VersionUnspecified => 0,
            CompatibilityVersion::NoTrivialSplit => 1,
            CompatibilityVersion::NoMemberTableIds => 2,
        }
    }
}

/// SSTs that leave a level and SSTs that come to it.
#[derive(Debug, PartialEq, Eq)]
pub struct IntraLevelDelta {
    pub level_idx: u32,
    pub l0_sub_level_id: u64,
    pub removed_table_ids: Vec<u64>,
    pub inserted_table_infos: Vec<SstableInfo>,
    pub vnode_partition_count: u32,
}

/// A new group, split off its parent where it has one.
#[derive(Debug, Default, PartialEq, Eq)]
pub struct GroupConstruct {
    pub group_config: Option<CompactionConfig>,
    pub parent_group_id: CompactionGroupId,
    pub table_ids: Vec<u32>,
    pub group_id: CompactionGroupId,
    pub new_sst_start_id: u64,
    pub version: i32,
    pub split_key: Option<Vec<u8>>,
}

/// A group that ends.
#[derive(Debug, Clone, Copy, Default, PartialEq, Eq, Structural)]
pub struct GroupDestroy {}

/// Tables that join and leave a group.
#[derive(Debug, Default, PartialEq, Eq)]
pub struct GroupMetaChange {
    pub table_ids_add: Vec<u32>,
    pub table_ids_remove: Vec<u32>,
}

/// Tables that move from one group to another.
#[derive(Debug, Default, PartialEq, Eq)]
pub struct GroupTableChange {
    pub table_ids: Vec<u32>,
    pub target_group_id: CompactionGroupId,
    pub origin_group_id: CompactionGroupId,
    pub new_sst_start_id: u64,
    pub version: i32,
}

/// Two groups that become one.
#[derive(Debug, Clone, Copy, Default, PartialEq, Eq, Structural)]
pub struct GroupMerge {
    pub left_group_id: CompactionGroupId,
    pub right_group_id: CompactionGroupId,
}

/// A change to a compaction group.
#[derive(Debug, PartialEq, Eq)]
pub enum GroupDelta {
    IntraLevel(IntraLevelDelta),
    GroupConstruct(GroupConstruct),
    GroupDestroy(GroupDestroy),
    GroupMetaChange(GroupMetaChange),
    GroupTableChange(GroupTableChange),
    GroupMerge(GroupMerge),
}

/// The changes to one compaction group, in order.
#[derive(Debug, Default, PartialEq, Eq)]
pub struct GroupDeltas {
    pub group_deltas: Vec<GroupDelta>,
}

/// What an intra-level delta stands for.
#[verifier::ext_equal]
pub struct IntraLevelView {
    pub level_idx: u32,
    pub l0_sub_level_id: u64,
    pub removed_table_ids: Seq<u64>,
    pub inserted_table_infos: Seq<SstView>,
    pub vnode_partition_count: u32,
}

/// What a group construction stands for.
#[verifier::ext_equal]
pub struct GroupConstructView {
    pub group_config: Option<CompactionConfig>,
    pub parent_group_id: CompactionGroupId,
    pub table_ids: Seq<u32>,
    pub group_id: CompactionGroupId,
    pub new_sst_start_id: u64,
    pub version: i32,
    pub split_key: Option<Seq<u8>>,
}

/// What a change of members stands for.
#[verifier::ext_equal]
pub struct GroupMetaChangeView {
    pub table_ids_add: Seq<u32>,
    pub table_ids_remove: Seq<u32>,
}

/// What a move of tables stands for.
#[verifier::ext_equal]
pub struct GroupTableChangeView {
    pub table_ids: Seq<u32>,
    pub target_group_id: CompactionGroupId,
    pub origin_group_id: CompactionGroupId,
    pub new_sst_start_id: u64,
    pub version: i32,
}

/// What a change to a group stands for.
#[verifier::ext_equal]
pub enum GroupDeltaView {
    IntraLevel(IntraLevelView),
    GroupConstruct(GroupConstructView),
    GroupDestroy(GroupDestroy),
    GroupMetaChange(GroupMetaChangeView),
    GroupTableChange(GroupTableChangeView),
    GroupMerge(GroupMerge),
}

impl View for IntraLevelDelta {
    type V = IntraLevelView;

    open spec fn view(&self) -> IntraLevelView {
        IntraLevelView {
            level_idx: self.level_idx,
            l0_sub_level_id: self.l0_sub_level_id,
            removed_table_ids: self.removed_table_ids@,
            inserted_table_infos: views(self.inserted_table_infos@),
            vnode_partition_count: self.vnode_partition_count,
        }
    }
}

impl View for GroupConstruct {
    type V = GroupConstructView;

    open spec fn view(&self) -> GroupConstructView {
        GroupConstructView {
            group_config: self.group_config,
            parent_group_id: self.parent_group_id,
            table_ids: self.table_ids@,
            group_id: self.group_id,
            new_sst_start_id: self.new_sst_start_id,
            version: self.version,
            split_key: option_view(self.split_key),
        }
    }
}

impl View for GroupMetaChange {
    type V = GroupMetaChangeView;

    open spec fn view(&self) -> GroupMetaChangeView {
        GroupMetaChangeView {
            table_ids_add: self.table_ids_add@,
            table_ids_remove: self.table_ids_remove@,
        }
    }
}

impl View for GroupTableChange {
    type V = GroupTableChangeView;

    open spec fn view(&self) -> GroupTableChangeView {
        GroupTableChangeView {
            table_ids: self.table_ids@,
            target_group_id: self.target_group_id,
            origin_group_id: self.origin_group_id,
            new_sst_start_id: self.new_sst_start_id,
            version: self.version,
        }
    }
}

impl View for GroupDelta {
    type V = GroupDeltaView;

    open spec fn view(&self) -> GroupDeltaView {
        match *self {
            GroupDelta::IntraLevel(d) => GroupDeltaView::IntraLevel(d@),
            GroupDelta::GroupConstruct(d) => GroupDeltaView::GroupConstruct(d@),
            GroupDelta::GroupDestroy(d) => GroupDeltaView::GroupDestroy(d),
            GroupDelta::GroupMetaChange(d) => GroupDeltaView::GroupMetaChange(d@),
            GroupDelta::GroupTableChange(d) => GroupDeltaView::GroupTableChange(d@),
            GroupDelta::GroupMerge(d) => GroupDeltaView::GroupMerge(d),
        }
    }
}

impl View for GroupDeltas {
    type V = Seq<GroupDeltaView>;

    open spec fn view(&self) -> Seq<GroupDeltaView> {
        views(self.group_deltas@)
    }
}

impl Clone for GroupConstruct {
    fn clone(&self) -> (r: GroupConstruct)
        ensures
            r@ == self@,
    {
        let split_key = match &self.split_key {
            Some(key) => {
                let copy = key.clone();
                assert(copy@ =~= key@);
                Some(copy)
            },
            None => None,
        };
        GroupConstruct {
            group_config: self.group_config,
            parent_group_id: self.parent_group_id,
            table_ids: clone_ids(&self.table_ids),
            group_id: self.group_id,
            new_sst_start_id: self.new_sst_start_id,
            version: self.version,
            split_key,
        }
    }
}

impl Clone for GroupMetaChange {
    fn clone(&self) -> (r: GroupMetaChange)
        ensures
            r@ == self@,
    {
        GroupMetaChange {
            table_ids_add: clone_ids(&self.table_ids_add),
            table_ids_remove: clone_ids(&self.table_ids_remove),
        }
    }
}

impl Clone for GroupTableChange {
    fn clone(&self) -> (r: GroupTableChange)
        ensures
            r@ == self@,
    {
        GroupTableChange {
            table_ids: clone_ids(&self.table_ids),
            target_group_id: self.target_group_id,
            origin_group_id: self.origin_group_id,
            new_sst_start_id: self.new_sst_start_id,
            version: self.version,
        }
    }
}

impl IntraLevelDelta {
    /// The delta made of its parts.
    pub fn new(
        level_idx: u32,
        l0_sub_level_id: u64,
        removed_table_ids: Vec<u64>,
        inserted_table_infos: Vec<SstableInfo>,
        vnode_partition_count: u32,
    ) -> (r: IntraLevelDelta)
        ensures
            r@ == (IntraLevelView {
                level_idx,
                l0_sub_level_id,
                removed_table_ids: removed_table_ids@,
                inserted_table_infos: views(inserted_table_infos@),
                vnode_partition_count,
            }),
    {
        IntraLevelDelta {
            level_idx,
            l0_sub_level_id,
            removed_table_ids,
            inserted_table_infos,
            vnode_partition_count,
        }
    }
}

/// What all the changes to one group come to.
pub struct GroupDeltasSummary {
    pub delete_sst_levels: Vec<u32>,
    pub delete_sst_ids_set: HashSet<u64>,
    pub insert_sst_level_id: u32,
    pub insert_sub_level_id: u64,
    pub insert_table_infos: Vec<SstableInfo>,
    pub group_construct: Option<GroupConstruct>,
    pub group_destroy: Option<CompactionGroupId>,
    pub group_meta_changes: Vec<GroupMetaChange>,
    pub group_table_change: Option<GroupTableChange>,
    pub new_vnode_partition_count: u32,
    pub group_merge: Option<GroupMerge>,
}

/// What a summary stands for.
#[verifier::ext_equal]
pub struct SummaryView {
    pub delete_sst_levels: Set<u32>,
    pub delete_sst_ids: Set<u64>,
    pub insert_sst_level_id: u32,
    pub insert_sub_level_id: u64,
    pub insert_table_infos: Seq<SstView>,
    pub group_construct: Option<GroupConstructView>,
    pub group_destroy: Option<CompactionGroupId>,
    pub group_meta_changes: Seq<GroupMetaChangeView>,
    pub group_table_change: Option<GroupTableChangeView>,
    pub new_vnode_partition_count: u32,
    pub group_merge: Option<GroupMerge>,
}

impl View for GroupDeltasSummary {
    type V = SummaryView;

    open spec fn view(&self) -> SummaryView {
        SummaryView {
            delete_sst_levels: self.delete_sst_levels@.to_set(),
            delete_sst_ids: self.delete_sst_ids_set@,
            insert_sst_level_id: self.insert_sst_level_id,
            insert_sub_level_id: self.insert_sub_level_id,
            insert_table_infos: views(self.insert_table_infos@),
            group_construct: option_view(self.group_construct),
            group_destroy: self.group_destroy,
            group_meta_changes: views(self.group_meta_changes@),
            group_table_change: option_view(self.group_table_change),
            new_vnode_partition_count: self.new_vnode_partition_count,
            group_merge: self.group_merge,
        }
    }
}

impl SummaryView {
    /// The summary of no change.
    pub open spec fn blank() -> SummaryView {
        SummaryView {
            delete_sst_levels: Set::empty(),
            delete_sst_ids: Set::empty(),
            insert_sst_level_id: u32::MAX,
            insert_sub_level_id: u64::MAX,
            insert_table_infos: Seq::empty(),
            group_construct: None,
            group_destroy: None,
            group_meta_changes: Seq::empty(),
            group_table_change: None,
            new_vnode_partition_count: 0,
            group_merge: None,
        }
    }

    /// The summary with an intra-level delta taken in. Deletions add up, and so do insertions; the
    /// place is that of the last insertion.
    pub open spec fn with_intra_level(self, d: IntraLevelView) -> SummaryView {
        let inserts = d.inserted_table_infos.len() > 0;
        SummaryView {
            delete_sst_levels: if d.removed_table_ids.len() > 0 {
                self.delete_sst_levels.insert(d.level_idx)
            } else {
                self.delete_sst_levels
            },
            delete_sst_ids: self.delete_sst_ids.union(d.removed_table_ids.to_set()),
            insert_sst_level_id: if inserts {
                d.level_idx
            } else {
                self.insert_sst_level_id
            },
            insert_sub_level_id: if inserts {
                d.l0_sub_level_id
            } else {
                self.insert_sub_level_id
            },
            insert_table_infos: self.insert_table_infos + d.inserted_table_infos,
            new_vnode_partition_count: d.vnode_partition_count,
            ..self
        }
    }

    /// The summary with one more change taken in, for the group `group_id`. There is none for a
    /// second construction, a second merge, or a destruction of a group that ends already.
    pub open spec fn with(self, delta: GroupDeltaView, group_id: CompactionGroupId) -> Option<
        SummaryView,
    > {
        match delta {
            GroupDeltaView::IntraLevel(d) => Some(self.with_intra_level(d)),
            GroupDeltaView::GroupConstruct(d) => if self.group_construct is Some {
                None
            } else {
                Some(SummaryView { group_construct: Some(d), ..self })
            },
            GroupDeltaView::GroupDestroy(_) => if self.group_destroy is Some {
                None
            } else {
                Some(SummaryView { group_destroy: Some(group_id), ..self })
            },
            GroupDeltaView::GroupMetaChange(d) => Some(
                SummaryView { group_meta_changes: self.group_meta_changes.push(d), ..self },
            ),
            GroupDeltaView::GroupTableChange(d) => Some(
                SummaryView { group_table_change: Some(d), ..self },
            ),
            GroupDeltaView::GroupMerge(d) => if self.group_merge is Some {
                None
            } else {
                Some(
                    SummaryView {
                        group_merge: Some(d),
                        group_destroy: Some(d.right_group_id),
                        ..self
                    },
                )
            },
        }
    }
}

/// The summary of the changes, taken in one after the other.
pub open spec fn summary_of(deltas: Seq<GroupDeltaView>, group_id: CompactionGroupId) -> Option<
    SummaryView,
>
    decreases deltas.len(),
{
    if deltas.len() == 0 {
        Some(SummaryView::blank())
    } else {
        match summary_of(deltas.drop_last(), group_id) {
            Some(s) => s.with(deltas.last(), group_id),
            None => None,
        }
    }
}

/// Where all changes have a summary, the first of them have one.
pub proof fn lemma_summary_prefix(
    deltas: Seq<GroupDeltaView>,
    i: int,
    group_id: CompactionGroupId,
)
    requires
        0 <= i <= deltas.len(),
        summary_of(deltas, group_id) is Some,
    ensures
        summary_of(deltas.take(i), group_id) is Some,
    decreases deltas.len() - i,
{
    if i < deltas.len() {
        lemma_summary_prefix(deltas, i + 1, group_id);
        assert(deltas.take(i + 1).drop_last() =~= deltas.take(i));
    } else {
        assert(deltas.take(i) =~= deltas);
    }
}

/// Whether each number is larger than the one in front of it.
pub open spec fn strictly_increasing(s: Seq<u32>) -> bool {
    forall|i: int, j: int| 0 <= i < j < s.len() ==> s[i] < s[j]
}

/// Puts a number at its place among increasing numbers, unless it is there.
fn insert_unique(v: &mut Vec<u32>, x: u32)
    requires
        strictly_increasing(old(v)@),
    ensures
        strictly_increasing(final(v)@),
        final(v)@.to_set() == old(v)@.to_set().insert(x),
{
    let ghost prior = v@;
    let mut i: usize = 0;
    while i < v.len() && v[i] < x
        invariant
            i <= v.len(),
            v@ == prior,
            forall|k: int| 0 <= k < i ==> prior[k] < x,
        decreases v.len() - i,
    {
        i = i + 1;
    }
    if i < v.len() && v[i] == x {
        assert(prior.contains(x)) by {
            assert(prior[i as int] == x);
        }
        assert(v@.to_set() =~= prior.to_set().insert(x));
        return ;
    }
    v.insert(i, x);
    proof {
        assert forall|k: int| i <= k < prior.len() implies x < prior[k] by {
            assert(prior[i as int] <= prior[k]);
        }
        assert forall|a: int, b: int| 0 <= a < b < v@.len() implies v@[a] < v@[b] by {
            let pa = if a < i { a } else { a - 1 };
            let pb = if b < i { b } else { b - 1 };
            if a != i {
                assert(v@[a] == prior[pa]);
            }
            if b != i {
                assert(v@[b] == prior[pb]);
            }
        }
        assert forall|y: u32| v@.to_set().contains(y) <==> prior.to_set().insert(x).contains(
            y,
        ) by {
            if v@.contains(y) {
                let k = choose|k: int| 0 <= k < v@.len() && v@[k] == y;
                if k < i {
                    assert(prior[k] == y);
                } else if k > i {
                    assert(prior[k - 1] == y);
                }
            }
            if prior.contains(y) {
                let k = choose|k: int| 0 <= k < prior.len() && prior[k] == y;
                if k < i {
                    assert(v@[k] == y);
                } else {
                    assert(v@[k + 1] == y);
                }
            }
            assert(v@[i as int] == x);
        }
        assert(v@.to_set() =~= prior.to_set().insert(x));
    }
}

/// Puts all numbers of a list into a set.
fn extend_set(set: &mut HashSet<u64>, ids: &Vec<u64>)
    ensures
        final(set)@ == old(set)@.union(ids@.to_set()),
{
    let ghost prior = set@;
    let mut i: usize = 0;
    assert(ids@.take(0).to_set() =~= Set::empty());
    assert(prior.union(Set::empty()) =~= prior);
    while i < ids.len()
        invariant
            i <= ids.len(),
            set@ == prior.union(ids@.take(i as int).to_set()),
        decreases ids.len() - i,
    {
        set.insert(ids[i]);
        proof {
            lemma_take_to_set(ids@, i as int);
            assert(set@ =~= prior.union(ids@.take(i + 1).to_set()));
        }
        i = i + 1;
    }
    assert(ids@.take(i as int) =~= ids@);
}

/// The elements of a prefix with one more element.
pub proof fn lemma_take_to_set<A>(s: Seq<A>, i: int)
    requires
        0 <= i < s.len(),
    ensures
        s.take(i + 1).to_set() == s.take(i).to_set().insert(s[i]),
{
    let a = s.take(i + 1);
    let b = s.take(i);
    assert forall|x: A| a.to_set().contains(x) <==> b.to_set().insert(s[i]).contains(x) by {
        if a.contains(x) {
            let k = choose|k: int| 0 <= k < a.len() && a[k] == x;
            if k < i {
                assert(b[k] == x);
            }
        }
        if b.contains(x) {
            let k = choose|k: int| 0 <= k < b.len() && b[k] == x;
            assert(a[k] == x);
        }
        assert(a[i] == s[i]);
    }
    assert(a.to_set() =~= b.to_set().insert(s[i]));
}

/// Adds copies of the SSTs at the end of a list.
pub fn extend_ssts(v: &mut Vec<SstableInfo>, ssts: &Vec<SstableInfo>)
    ensures
        views(final(v)@) == views(old(v)@) + views(ssts@),
{
    let mut copy = crate::sstable_info::clone_ssts(ssts);
    let ghost shown = copy@;
    let ghost prior = v@;
    v.append(&mut copy);
    assert(views(v@) =~= views(prior) + views(shown));
}

/// Sums the changes to the group `default_group_id` up. The levels from which SSTs are deleted are
/// listed in order, each once.
pub fn summarize_group_deltas(
    group_deltas: &GroupDeltas,
    default_group_id: CompactionGroupId,
) -> (r: GroupDeltasSummary)
    requires
        summary_of(group_deltas@, default_group_id) is Some,
    ensures
        r@ == summary_of(group_deltas@, default_group_id)->0,
        strictly_increasing(r.delete_sst_levels@),
{
    let ghost all = group_deltas@;
    let mut r = GroupDeltasSummary {
        delete_sst_levels: Vec::new(),
        delete_sst_ids_set: HashSet::new(),
        insert_sst_level_id: u32::MAX,
        insert_sub_level_id: u64::MAX,
        insert_table_infos: Vec::new(),
        group_construct: None,
        group_destroy: None,
        group_meta_changes: Vec::new(),
        group_table_change: None,
        new_vnode_partition_count: 0,
        group_merge: None,
    };
    proof {
        assert(r@.delete_sst_levels =~= Set::empty());
        assert(r@.insert_table_infos =~= Seq::empty());
        assert(r@.group_meta_changes =~= Seq::empty());
        assert(r@ == SummaryView::blank());
        assert(all.take(0).len() == 0);
    }
    let mut i: usize = 0;
    while i < group_deltas.group_deltas.len()
        invariant
            i <= group_deltas.group_deltas.len(),
            all == group_deltas@,
            summary_of(all, default_group_id) is Some,
            summary_of(all.take(i as int), default_group_id) == Some(r@),
            strictly_increasing(r.delete_sst_levels@),
        decreases group_deltas.group_deltas.len() - i,
    {
        let ghost prior = r@;
        proof {
            lemma_summary_prefix(all, i + 1, default_group_id);
            assert(all.take(i + 1).drop_last() =~= all.take(i as int));
            assert(all.take(i + 1).last() == all[i as int]);
            assert(summary_of(all.take(i + 1), default_group_id) == prior.with(
                all[i as int],
                default_group_id,
            ));
        }
        match &group_deltas.group_deltas[i] {
            GroupDelta::IntraLevel(intra_level) => {
                if intra_level.removed_table_ids.len() > 0 {
                    insert_unique(&mut r.delete_sst_levels, intra_level.level_idx);
                    extend_set(&mut r.delete_sst_ids_set, &intra_level.removed_table_ids);
                } else {
                    assert(prior.delete_sst_ids.union(intra_level@.removed_table_ids.to_set())
                        =~= prior.delete_sst_ids);
                }
                if intra_level.inserted_table_infos.len() > 0 {
                    r.insert_sst_level_id = intra_level.level_idx;
                    r.insert_sub_level_id = intra_level.l0_sub_level_id;
                    extend_ssts(&mut r.insert_table_infos, &intra_level.inserted_table_infos);
                } else {
                    assert(prior.insert_table_infos + intra_level@.inserted_table_infos
                        =~= prior.insert_table_infos);
                }
                r.new_vnode_partition_count = intra_level.vnode_partition_count;
                assert(r@ == prior.with_intra_level(intra_level@));
            },
            GroupDelta::GroupConstruct(construct_delta) => {
                r.group_construct = Some(construct_delta.clone());
            },
            GroupDelta::GroupDestroy(_) => {
                r.group_destroy = Some(default_group_id);
            },
            GroupDelta::GroupMetaChange(meta_delta) => {
                let change = meta_delta.clone();
                proof {
                    lemma_views_push(r.group_meta_changes@, change);
                }
                r.group_meta_changes.push(change);
            },
            GroupDelta::GroupTableChange(meta_delta) => {
                r.group_table_change = Some(meta_delta.clone());
            },
            GroupDelta::GroupMerge(merge_delta) => {
                r.group_merge = Some(*merge_delta);
                r.group_destroy = Some(merge_delta.right_group_id);
            },
        }
        i = i + 1;
    }
    assert(all.take(i as int) =~= all);
    r
}

/// The summary deletes the SSTs that one of the changes removes, and no others.
pub proof fn summary_collects_deletions(
    deltas: Seq<GroupDeltaView>,
    group_id: CompactionGroupId,
    sst_id: u64,
)
    requires
        summary_of(deltas, group_id) is Some,
    ensures
        summary_of(deltas, group_id)->0.delete_sst_ids.contains(sst_id) <==> exists|i: int|
            0 <= i < deltas.len() && #[trigger] removes(deltas[i], sst_id),
    decreases deltas.len(),
{
    if deltas.len() > 0 {
        let t = deltas.drop_last();
        summary_collects_deletions(t, group_id, sst_id);
        let last = deltas[deltas.len() - 1];
        let before = summary_of(t, group_id)->0;
        assert(summary_of(deltas, group_id)->0.delete_sst_ids.contains(sst_id) <==> (
        before.delete_sst_ids.contains(sst_id) || removes(last, sst_id)));
        if exists|i: int| 0 <= i < t.len() && #[trigger] removes(t[i], sst_id) {
            let i = choose|i: int| 0 <= i < t.len() && #[trigger] removes(t[i], sst_id);
            assert(removes(deltas[i], sst_id));
        }
        if exists|i: int| 0 <= i < deltas.len() && #[trigger] removes(deltas[i], sst_id) {
            let i = choose|i: int| 0 <= i < deltas.len() && #[trigger] removes(deltas[i], sst_id);
            if i < t.len() {
                assert(removes(t[i], sst_id));
            }
        }
    }
}

/// Whether a change removes an SST.
pub open spec fn removes(delta: GroupDeltaView, sst_id: u64) -> bool {
    delta is IntraLevel && (delta->IntraLevel_0).removed_table_ids.contains(sst_id)
}

} // verus!
