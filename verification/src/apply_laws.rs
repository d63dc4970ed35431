//! What holds of every delta that changes the SSTs and the members of groups, and not the groups
//! themselves.
use crate::level::CompactionGroupId;
use vstd::prelude::*;

#[allow(unused_imports)]
use crate::group_deltas::{summary_of, GroupDeltaView};
#[allow(unused_imports)]
use crate::level::LevelsView;
#[allow(unused_imports)]
use crate::maps::is_walk;
#[allow(unused_imports)]
use crate::version::{VersionDeltaView, VersionView};

verus! {

/// Whether the changes are to the SSTs and the members of a group alone.
pub open spec fn local(deltas: Seq<GroupDeltaView>) -> bool {
    forall|i: int|
        0 <= i < deltas.len() ==> (#[trigger] deltas[i] is IntraLevel
            || deltas[i] is GroupMetaChange)
}

/// Whether that holds of all groups of a delta.
pub open spec fn all_local(delta: VersionDeltaView) -> bool {
    forall|g: CompactionGroupId| #[trigger]
        delta.group_deltas.dom().contains(g) ==> local(delta.group_deltas[g])
}

proof fn lemma_local_summary(deltas: Seq<GroupDeltaView>, group_id: CompactionGroupId)
    requires
        local(deltas),
    ensures
        summary_of(deltas, group_id) is Some,
        summary_of(deltas, group_id)->0.group_construct is None,
        summary_of(deltas, group_id)->0.group_table_change is None,
        summary_of(deltas, group_id)->0.group_merge is None,
        summary_of(deltas, group_id)->0.group_destroy is None,
    decreases deltas.len(),
{
    if deltas.len() > 0 {
        let t = deltas.drop_last();
        assert forall|i: int| 0 <= i < t.len() implies (#[trigger] t[i] is IntraLevel
            || t[i] is GroupMetaChange) by {
            assert(deltas[i] == t[i]);
        }
        lemma_local_summary(t, group_id);
        assert(deltas[deltas.len() - 1] is IntraLevel || deltas[deltas.len()
            - 1] is GroupMetaChange);
    }
}

impl VersionView {
    /// The levels of a group after local changes, from those before; none where the group is not
    /// there or the changes cannot be made.
    pub open spec fn locally_after(
        self,
        delta: VersionDeltaView,
        group_id: CompactionGroupId,
    ) -> Option<LevelsView> {
        if self.levels.dom().contains(group_id) {
            self.levels_after(
                group_id,
                summary_of(delta.group_deltas[group_id], group_id)->0,
                delta.max_committed_epoch,
            )
        } else {
            None
        }
    }

    /// The levels of all groups after local changes to those listed.
    pub open spec fn all_locally_after(
        self,
        delta: VersionDeltaView,
        groups: Set<CompactionGroupId>,
    ) -> Map<CompactionGroupId, LevelsView> {
        Map::new(
            |g: CompactionGroupId| self.levels.dom().contains(g),
            |g: CompactionGroupId|
                if groups.contains(g) {
                    self.locally_after(delta, g)->0
                } else {
                    self.levels[g]
                },
        )
    }
}

/// Local changes to groups, made one after the other, change each group from what it was before all
/// of them.
pub proof fn local_changes_are_independent(
    v: VersionView,
    delta: VersionDeltaView,
    order: Seq<CompactionGroupId>,
)
    requires
        all_local(delta),
        order.no_duplicates(),
        forall|i: int|
            0 <= i < order.len() ==> delta.group_deltas.dom().contains(#[trigger] order[i]),
    ensures
        v.with_group_deltas(delta, order) is Some <==> forall|i: int|
            0 <= i < order.len() ==> v.locally_after(delta, #[trigger] order[i]) is Some,
        v.with_group_deltas(delta, order) is Some ==> v.with_group_deltas(delta, order)->0 == (
        VersionView { levels: v.all_locally_after(delta, order.to_set()), ..v }),
    decreases order.len(),
{
    if order.len() == 0 {
        assert(v.all_locally_after(delta, order.to_set()) =~= v.levels);
    } else {
        let t = order.drop_last();
        let g = order.last();
        assert forall|i: int| 0 <= i < t.len() implies delta.group_deltas.dom().contains(
            #[trigger] t[i],
        ) by {
            assert(order[i] == t[i]);
        }
        assert(t.no_duplicates()) by {
            assert forall|i: int, j: int| 0 <= i < t.len() && 0 <= j < t.len() && i
                != j implies t[i] != t[j] by {
                assert(order[i] == t[i] && order[j] == t[j]);
            }
        }
        local_changes_are_independent(v, delta, t);
        assert(order[order.len() - 1] == g);
        assert(delta.group_deltas.dom().contains(g));
        lemma_local_summary(delta.group_deltas[g], g);
        assert(!t.to_set().contains(g)) by {
            if t.contains(g) {
                let k = choose|k: int| 0 <= k < t.len() && t[k] == g;
                assert(order[k] == g);
            }
        }
        assert forall|x: CompactionGroupId| order.to_set().contains(x) <==> (t.to_set().contains(
            x,
        ) || x == g) by {
            if order.contains(x) {
                let k = choose|k: int| 0 <= k < order.len() && order[k] == x;
                if k < t.len() {
                    assert(t[k] == x);
                }
            }
            if t.contains(x) {
                let k = choose|k: int| 0 <= k < t.len() && t[k] == x;
                assert(order[k] == x);
            }
        }
        if v.with_group_deltas(delta, t) is Some {
            let w = v.with_group_deltas(delta, t)->0;
            let s = summary_of(delta.group_deltas[g], g)->0;
            assert(w.with_reshaped(g, s) == Some(w));
            assert(w.levels.dom().contains(g) <==> v.levels.dom().contains(g));
            if v.levels.dom().contains(g) {
                assert(w.levels[g] == v.levels[g]);
                assert(w.levels_after(g, s, delta.max_committed_epoch) == v.levels_after(
                    g,
                    s,
                    delta.max_committed_epoch,
                ));
                if v.locally_after(delta, g) is Some {
                    assert(w.levels.insert(g, v.locally_after(delta, g)->0)
                        =~= v.all_locally_after(delta, order.to_set()));
                }
            }
        }
        if forall|i: int|
            0 <= i < order.len() ==> v.locally_after(delta, #[trigger] order[i]) is Some {
            assert forall|i: int| 0 <= i < t.len() implies v.locally_after(
                delta,
                #[trigger] t[i],
            ) is Some by {
                assert(order[i] == t[i]);
            }
            assert(v.locally_after(delta, order[order.len() - 1]) is Some);
        }
        if v.with_group_deltas(delta, order) is Some {
            assert forall|i: int| 0 <= i < order.len() implies v.locally_after(
                delta,
                #[trigger] order[i],
            ) is Some by {
                if i < t.len() {
                    assert(order[i] == t[i]);
                }
            }
        }
    }
}

/// A delta of local changes leads to the same version in whatever order its groups are met.
pub proof fn order_of_local_changes_does_not_matter(
    v: VersionView,
    delta: VersionDeltaView,
    one: Seq<CompactionGroupId>,
    other: Seq<CompactionGroupId>,
)
    requires
        all_local(delta),
        is_walk(one, delta.group_deltas.dom()),
        is_walk(other, delta.group_deltas.dom()),
    ensures
        v.with_delta(delta, one) == v.with_delta(delta, other),
{
    let info = crate::version::info_after(
        v.state_table_info,
        delta.state_table_info_delta,
        delta.removed_table_ids,
    );
    let told = VersionView { state_table_info: info, ..v };
    let groups = delta.group_deltas.dom();
    assert forall|i: int| 0 <= i < one.len() implies groups.contains(#[trigger] one[i]) by {
        assert(one.to_set().contains(one[i]));
    }
    assert forall|i: int| 0 <= i < other.len() implies groups.contains(#[trigger] other[i]) by {
        assert(other.to_set().contains(other[i]));
    }
    local_changes_are_independent(told, delta, one);
    local_changes_are_independent(told, delta, other);
    let (a, b) = (told.with_group_deltas(delta, one), told.with_group_deltas(delta, other));
    if a is Some {
        assert forall|i: int| 0 <= i < other.len() implies told.locally_after(
            delta,
            #[trigger] other[i],
        ) is Some by {
            assert(one.to_set().contains(other[i]));
            let k = choose|k: int| 0 <= k < one.len() && one[k] == other[i];
            assert(told.locally_after(delta, one[k]) is Some);
        }
    }
    if b is Some {
        assert forall|i: int| 0 <= i < one.len() implies told.locally_after(
            delta,
            #[trigger] one[i],
        ) is Some by {
            assert(other.to_set().contains(one[i]));
            let k = choose|k: int| 0 <= k < other.len() && other[k] == one[i];
            assert(told.locally_after(delta, other[k]) is Some);
        }
    }
    assert(a == b);
}

} // verus!
