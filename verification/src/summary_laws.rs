//! What the summary of the changes to a group says, stated on the changes.
use crate::level::CompactionGroupId;
use vstd::prelude::*;

#[allow(unused_imports)]
use crate::group_deltas::{summary_of, GroupDeltaView, GroupMetaChangeView};
#[allow(unused_imports)]
use crate::sstable_info::SstView;

verus! {

/// Whether a change removes an SST from a level.
pub open spec fn names(d: GroupDeltaView, level_idx: u32, sst_id: u64) -> bool {
    d is IntraLevel && (d->IntraLevel_0).level_idx == level_idx && exists|k: int|
        0 <= k < (d->IntraLevel_0).removed_table_ids.len() && #[trigger] (
        d->IntraLevel_0).removed_table_ids[k] == sst_id
}

/// Whether a change removes SSTs from a level.
pub open spec fn empties(d: GroupDeltaView, level_idx: u32) -> bool {
    d is IntraLevel && (d->IntraLevel_0).level_idx == level_idx && (
    d->IntraLevel_0).removed_table_ids.len() > 0
}

/// Whether a change inserts SSTs.
pub open spec fn inserts(d: GroupDeltaView) -> bool {
    d is IntraLevel && (d->IntraLevel_0).inserted_table_infos.len() > 0
}

/// Whether the change at `i` is the last of those that insert SSTs.
pub open spec fn last_insertion(deltas: Seq<GroupDeltaView>, i: int) -> bool {
    &&& 0 <= i < deltas.len()
    &&& inserts(deltas[i])
    &&& forall|j: int| i < j < deltas.len() ==> !inserts(#[trigger] deltas[j])
}

/// The SSTs that the changes insert, in turn.
pub open spec fn inserted_in_turn(deltas: Seq<GroupDeltaView>) -> Seq<SstView>
    decreases deltas.len(),
{
    if deltas.len() == 0 {
        Seq::empty()
    } else if deltas[0] is IntraLevel {
        (deltas[0]->IntraLevel_0).inserted_table_infos + inserted_in_turn(deltas.skip(1))
    } else {
        inserted_in_turn(deltas.skip(1))
    }
}

/// The changes to the members, in turn.
pub open spec fn member_changes_in_turn(deltas: Seq<GroupDeltaView>) -> Seq<GroupMetaChangeView>
    decreases deltas.len(),
{
    if deltas.len() == 0 {
        Seq::empty()
    } else if deltas[0] is GroupMetaChange {
        seq![deltas[0]->GroupMetaChange_0] + member_changes_in_turn(deltas.skip(1))
    } else {
        member_changes_in_turn(deltas.skip(1))
    }
}

proof fn lemma_inserted_push(deltas: Seq<GroupDeltaView>, d: GroupDeltaView)
    ensures
        inserted_in_turn(deltas.push(d)) == inserted_in_turn(deltas) + (if d is IntraLevel {
            (d->IntraLevel_0).inserted_table_infos
        } else {
            Seq::empty()
        }),
    decreases deltas.len(),
{
    let all = deltas.push(d);
    if deltas.len() == 0 {
        assert(all.skip(1) =~= Seq::empty());
        assert(inserted_in_turn(all.skip(1)) =~= Seq::empty());
        assert(inserted_in_turn(all) =~= inserted_in_turn(deltas) + (if d is IntraLevel {
            (d->IntraLevel_0).inserted_table_infos
        } else {
            Seq::empty()
        }));
    } else {
        lemma_inserted_push(deltas.skip(1), d);
        assert(all.skip(1) =~= deltas.skip(1).push(d));
        assert(all[0] == deltas[0]);
        assert(inserted_in_turn(all) =~= inserted_in_turn(deltas) + (if d is IntraLevel {
            (d->IntraLevel_0).inserted_table_infos
        } else {
            Seq::empty()
        }));
    }
}

proof fn lemma_member_changes_push(deltas: Seq<GroupDeltaView>, d: GroupDeltaView)
    ensures
        member_changes_in_turn(deltas.push(d)) == (if d is GroupMetaChange {
            member_changes_in_turn(deltas).push(d->GroupMetaChange_0)
        } else {
            member_changes_in_turn(deltas)
        }),
    decreases deltas.len(),
{
    let all = deltas.push(d);
    if deltas.len() == 0 {
        assert(all.skip(1) =~= Seq::empty());
        assert(member_changes_in_turn(all.skip(1)) =~= Seq::empty());
        assert(member_changes_in_turn(deltas) =~= Seq::empty());
        if d is GroupMetaChange {
            assert(member_changes_in_turn(all) =~= member_changes_in_turn(deltas).push(
                d->GroupMetaChange_0,
            ));
        }
    } else {
        lemma_member_changes_push(deltas.skip(1), d);
        assert(all.skip(1) =~= deltas.skip(1).push(d));
        assert(all[0] == deltas[0]);
        if d is GroupMetaChange {
            assert(member_changes_in_turn(all) =~= member_changes_in_turn(deltas).push(
                d->GroupMetaChange_0,
            ));
        }
    }
}

/// The summary deletes the SSTs that a change removes, from the levels from which a change removes
/// some, and no others.
pub proof fn summary_tells_deletions(deltas: Seq<GroupDeltaView>, group_id: CompactionGroupId)
    requires
        summary_of(deltas, group_id) is Some,
    ensures
        forall|l: u32| #[trigger]
            summary_of(deltas, group_id)->0.delete_sst_levels.contains(l) <==> exists|i: int|
                0 <= i < deltas.len() && #[trigger] empties(deltas[i], l),
        forall|id: u64| #[trigger]
            summary_of(deltas, group_id)->0.delete_sst_ids.contains(id) <==> exists|i: int, l: u32|
                0 <= i < deltas.len() && #[trigger] names(deltas[i], l, id),
    decreases deltas.len(),
{
    if deltas.len() > 0 {
        let t = deltas.drop_last();
        let last = deltas.last();
        let n = deltas.len() - 1;
        summary_tells_deletions(t, group_id);
        let (s, p) = (summary_of(deltas, group_id)->0, summary_of(t, group_id)->0);
        assert(deltas[n] == last);
        assert forall|l: u32| #[trigger] s.delete_sst_levels.contains(l) <==> exists|i: int|
            0 <= i < deltas.len() && #[trigger] empties(deltas[i], l) by {
            assert(s.delete_sst_levels.contains(l) <==> p.delete_sst_levels.contains(l) || empties(
                last,
                l,
            ));
            if p.delete_sst_levels.contains(l) {
                let i = choose|i: int| 0 <= i < t.len() && #[trigger] empties(t[i], l);
                assert(empties(deltas[i], l));
            }
            if empties(last, l) {
                assert(empties(deltas[n], l));
            }
            if exists|i: int| 0 <= i < deltas.len() && #[trigger] empties(deltas[i], l) {
                let i = choose|i: int| 0 <= i < deltas.len() && #[trigger] empties(deltas[i], l);
                if i < n {
                    assert(empties(t[i], l));
                }
            }
        }
        assert forall|id: u64| #[trigger] s.delete_sst_ids.contains(id) <==> exists|
            i: int,
            l: u32,
        |
            0 <= i < deltas.len() && #[trigger] names(deltas[i], l, id) by {
            if s.delete_sst_ids.contains(id) {
                if p.delete_sst_ids.contains(id) {
                    let (i, l): (int, u32) = choose|i: int, l: u32|
                        0 <= i < t.len() && #[trigger] names(t[i], l, id);
                    assert(names(deltas[i], l, id));
                } else {
                    let ids = (last->IntraLevel_0).removed_table_ids;
                    assert(ids.to_set().contains(id));
                    let k = choose|k: int| 0 <= k < ids.len() && ids[k] == id;
                    assert(ids[k] == id);
                    assert(names(deltas[n], (last->IntraLevel_0).level_idx, id));
                }
            }
            if exists|i: int, l: u32|
                0 <= i < deltas.len() && #[trigger] names(deltas[i], l, id) {
                let (i, l): (int, u32) = choose|i: int, l: u32|
                    0 <= i < deltas.len() && #[trigger] names(deltas[i], l, id);
                if i < n {
                    assert(names(t[i], l, id));
                } else {
                    let ids = (last->IntraLevel_0).removed_table_ids;
                    let k = choose|k: int| 0 <= k < ids.len() && #[trigger] ids[k] == id;
                    assert(ids.contains(id));
                    assert(ids.to_set().contains(id));
                }
            }
        }
    }
}

/// The summary inserts what the changes insert, in turn, at the place of the last insertion. Without
/// an insertion the place is none.
pub proof fn summary_tells_insertions(deltas: Seq<GroupDeltaView>, group_id: CompactionGroupId)
    requires
        summary_of(deltas, group_id) is Some,
    ensures
        summary_of(deltas, group_id)->0.insert_table_infos == inserted_in_turn(deltas),
        forall|i: int| #[trigger]
            last_insertion(deltas, i) ==> summary_of(deltas, group_id)->0.insert_sst_level_id == (
            deltas[i]->IntraLevel_0).level_idx && summary_of(
                deltas,
                group_id,
            )->0.insert_sub_level_id == (deltas[i]->IntraLevel_0).l0_sub_level_id,
        (forall|i: int| 0 <= i < deltas.len() ==> !inserts(#[trigger] deltas[i])) ==> summary_of(
            deltas,
            group_id,
        )->0.insert_sst_level_id == u32::MAX && summary_of(
            deltas,
            group_id,
        )->0.insert_sub_level_id == u64::MAX,
    decreases deltas.len(),
{
    if deltas.len() > 0 {
        let t = deltas.drop_last();
        let last = deltas.last();
        let n = deltas.len() - 1;
        summary_tells_insertions(t, group_id);
        lemma_inserted_push(t, last);
        assert(deltas =~= t.push(last));
        let (s, p) = (summary_of(deltas, group_id)->0, summary_of(t, group_id)->0);
        assert(s.insert_table_infos =~= inserted_in_turn(deltas));
        assert(deltas[n] == last);
        assert forall|i: int| #[trigger] last_insertion(deltas, i) implies s.insert_sst_level_id
            == (deltas[i]->IntraLevel_0).level_idx && s.insert_sub_level_id == (
        deltas[i]->IntraLevel_0).l0_sub_level_id by {
            if i < n {
                assert(!inserts(deltas[n]));
                assert(t[i] == deltas[i]);
                assert forall|j: int| i < j < t.len() implies !inserts(#[trigger] t[j]) by {
                    assert(deltas[j] == t[j]);
                }
                assert(last_insertion(t, i));
            }
        }
        if forall|i: int| 0 <= i < deltas.len() ==> !inserts(#[trigger] deltas[i]) {
            assert forall|i: int| 0 <= i < t.len() implies !inserts(#[trigger] t[i]) by {
                assert(deltas[i] == t[i]);
            }
            assert(!inserts(deltas[n]));
        }
    } else {
        assert(inserted_in_turn(deltas) =~= Seq::empty());
    }
}

/// The partition count of the summary is that of the last change within a level; none without one.
pub proof fn summary_tells_partition_count(
    deltas: Seq<GroupDeltaView>,
    group_id: CompactionGroupId,
    i: int,
)
    requires
        summary_of(deltas, group_id) is Some,
        -1 <= i < deltas.len(),
        i >= 0 ==> deltas[i] is IntraLevel,
        forall|j: int| i < j < deltas.len() ==> !(#[trigger] deltas[j] is IntraLevel),
    ensures
        summary_of(deltas, group_id)->0.new_vnode_partition_count == (if i >= 0 {
            (deltas[i]->IntraLevel_0).vnode_partition_count
        } else {
            0
        }),
    decreases deltas.len(),
{
    if deltas.len() > 0 {
        let t = deltas.drop_last();
        let n = deltas.len() - 1;
        assert(deltas[n] == deltas.last());
        if i < n {
            assert(!(deltas[n] is IntraLevel));
            assert forall|j: int| i < j < t.len() implies !(#[trigger] t[j] is IntraLevel) by {
                assert(deltas[j] == t[j]);
            }
            summary_tells_partition_count(t, group_id, i);
        }
    }
}

/// The summary tells of a construction, a merge, a move of tables and changes to members as the
/// changes do: of a construction and a merge if there is one, of the last move, and of all changes
/// to members in turn. The group that ends is the right one of a merge, or else the group itself
/// where one of the changes ends it.
pub proof fn summary_tells_of_groups(deltas: Seq<GroupDeltaView>, group_id: CompactionGroupId)
    requires
        summary_of(deltas, group_id) is Some,
    ensures
        ({
            let s = summary_of(deltas, group_id)->0;
            &&& s.group_meta_changes == member_changes_in_turn(deltas)
            &&& s.group_construct is Some <==> exists|i: int|
                0 <= i < deltas.len() && #[trigger] deltas[i] is GroupConstruct
            &&& forall|i: int|
                0 <= i < deltas.len() && #[trigger] deltas[i] is GroupConstruct
                    ==> s.group_construct == Some(deltas[i]->GroupConstruct_0)
            &&& s.group_merge is Some <==> exists|i: int|
                0 <= i < deltas.len() && #[trigger] deltas[i] is GroupMerge
            &&& forall|i: int|
                0 <= i < deltas.len() && #[trigger] deltas[i] is GroupMerge ==> s.group_merge
                    == Some(deltas[i]->GroupMerge_0) && s.group_destroy == Some(
                    (deltas[i]->GroupMerge_0).right_group_id,
                )
            &&& s.group_merge is None && (exists|i: int|
                0 <= i < deltas.len() && #[trigger] deltas[i] is GroupDestroy)
                ==> s.group_destroy == Some(group_id)
            &&& s.group_destroy is Some ==> exists|i: int|
                0 <= i < deltas.len() && (#[trigger] deltas[i] is GroupDestroy
                    || deltas[i] is GroupMerge)
        }),
    decreases deltas.len(),
{
    if deltas.len() > 0 {
        let t = deltas.drop_last();
        let last = deltas.last();
        let n = deltas.len() - 1;
        summary_tells_of_groups(t, group_id);
        lemma_member_changes_push(t, last);
        assert(deltas =~= t.push(last));
        assert(deltas[n] == last);
        assert forall|i: int| 0 <= i < n implies #[trigger] deltas[i] == t[i] by {}
        let (s, p) = (summary_of(deltas, group_id)->0, summary_of(t, group_id)->0);
        if p.group_construct is Some {
            let i = choose|i: int| 0 <= i < t.len() && #[trigger] t[i] is GroupConstruct;
            assert(deltas[i] is GroupConstruct);
        }
        if p.group_merge is Some {
            let i = choose|i: int| 0 <= i < t.len() && #[trigger] t[i] is GroupMerge;
            assert(deltas[i] is GroupMerge);
        }
        if p.group_destroy is Some {
            let i = choose|i: int|
                0 <= i < t.len() && (#[trigger] t[i] is GroupDestroy || t[i] is GroupMerge);
            assert(deltas[i] is GroupDestroy || deltas[i] is GroupMerge);
        }
        if exists|i: int| 0 <= i < deltas.len() && #[trigger] deltas[i] is GroupConstruct {
            let i = choose|i: int| 0 <= i < deltas.len() && #[trigger] deltas[i] is GroupConstruct;
            if i < n {
                assert(t[i] is GroupConstruct);
            }
        }
        if exists|i: int| 0 <= i < deltas.len() && #[trigger] deltas[i] is GroupMerge {
            let i = choose|i: int| 0 <= i < deltas.len() && #[trigger] deltas[i] is GroupMerge;
            if i < n {
                assert(t[i] is GroupMerge);
            }
        }
        if exists|i: int| 0 <= i < deltas.len() && #[trigger] deltas[i] is GroupDestroy {
            let i = choose|i: int| 0 <= i < deltas.len() && #[trigger] deltas[i] is GroupDestroy;
            if i < n {
                assert(t[i] is GroupDestroy);
            }
        }
        assert forall|i: int| 0 <= i < deltas.len() && #[trigger] deltas[i]
            is GroupConstruct implies s.group_construct == Some(deltas[i]->GroupConstruct_0) by {
            if i < n {
                assert(t[i] is GroupConstruct);
            }
        }
        assert forall|i: int| 0 <= i < deltas.len() && #[trigger] deltas[i]
            is GroupMerge implies s.group_merge == Some(deltas[i]->GroupMerge_0)
            && s.group_destroy == Some((deltas[i]->GroupMerge_0).right_group_id) by {
            if i < n {
                assert(t[i] is GroupMerge);
            }
        }
    } else {
        assert(member_changes_in_turn(deltas) =~= Seq::empty());
    }
}

/// The move of tables that the summary tells of is the last one.
pub proof fn summary_tells_of_last_move(
    deltas: Seq<GroupDeltaView>,
    group_id: CompactionGroupId,
    i: int,
)
    requires
        summary_of(deltas, group_id) is Some,
        -1 <= i < deltas.len(),
        i >= 0 ==> deltas[i] is GroupTableChange,
        forall|j: int| i < j < deltas.len() ==> !(#[trigger] deltas[j] is GroupTableChange),
    ensures
        summary_of(deltas, group_id)->0.group_table_change == (if i >= 0 {
            Some(deltas[i]->GroupTableChange_0)
        } else {
            None
        }),
    decreases deltas.len(),
{
    if deltas.len() > 0 {
        let t = deltas.drop_last();
        let n = deltas.len() - 1;
        assert(deltas[n] == deltas.last());
        if i < n {
            assert(!(deltas[n] is GroupTableChange));
            assert forall|j: int| i < j < t.len() implies !(#[trigger] t[j]
                is GroupTableChange) by {
                assert(deltas[j] == t[j]);
            }
            summary_tells_of_last_move(t, group_id, i);
        }
    }
}

/// Whether two changes to a group, one after the other, go against each other.
pub open spec fn clash(earlier: GroupDeltaView, later: GroupDeltaView) -> bool {
    ||| earlier is GroupConstruct && later is GroupConstruct
    ||| earlier is GroupMerge && later is GroupMerge
    ||| later is GroupDestroy && (earlier is GroupDestroy || earlier is GroupMerge)
}

/// Changes have a summary if and only if no two of them go against each other: two constructions, two
/// merges, or an end of a group that ends already.
pub proof fn changes_without_clash_have_a_summary(
    deltas: Seq<GroupDeltaView>,
    group_id: CompactionGroupId,
)
    ensures
        summary_of(deltas, group_id) is Some <==> forall|i: int, j: int|
            0 <= i < j < deltas.len() ==> !#[trigger] clash(deltas[i], deltas[j]),
    decreases deltas.len(),
{
    if deltas.len() > 0 {
        let t = deltas.drop_last();
        let last = deltas.last();
        let n = deltas.len() - 1;
        changes_without_clash_have_a_summary(t, group_id);
        assert(deltas[n] == last);
        if summary_of(t, group_id) is Some {
            summary_tells_of_groups(t, group_id);
            let p = summary_of(t, group_id)->0;
            if summary_of(deltas, group_id) is Some {
                assert forall|i: int, j: int| 0 <= i < j < deltas.len() implies !#[trigger] clash(
                    deltas[i],
                    deltas[j],
                ) by {
                    assert(t[i] == deltas[i]);
                    if j < n {
                        assert(!clash(t[i], t[j]));
                    } else if last is GroupDestroy && t[i] is GroupDestroy {
                        assert(p.group_destroy is Some);
                    }
                }
            } else {
                if last is GroupConstruct {
                    let i = choose|i: int| 0 <= i < t.len() && #[trigger] t[i] is GroupConstruct;
                    assert(clash(deltas[i], deltas[n]));
                } else if last is GroupMerge {
                    let i = choose|i: int| 0 <= i < t.len() && #[trigger] t[i] is GroupMerge;
                    assert(clash(deltas[i], deltas[n]));
                } else {
                    let i = choose|i: int|
                        0 <= i < t.len() && (#[trigger] t[i] is GroupDestroy
                            || t[i] is GroupMerge);
                    assert(clash(deltas[i], deltas[n]));
                }
            }
        } else {
            let (i, j): (int, int) = choose|i: int, j: int|
                0 <= i < j < t.len() && #[trigger] clash(t[i], t[j]);
            assert(clash(deltas[i], deltas[j]));
        }
    }
}

} // verus!
