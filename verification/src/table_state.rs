//! What a delta does to the watermarks and the change logs of tables.
use crate::change_log::{ChangeLogDelta, TableChangeLog};
use crate::key::TableId;
use crate::maps::keys_of;
use crate::table_watermark::TableWatermarks;
use crate::version::StateTableInfo;
use std::collections::{HashMap, HashSet};
use std::sync::Arc;
use vstd::prelude::*;

#[allow(unused_imports)]
use crate::change_log::{has_epochs, truncated, ChangeLogDeltaView, ChangeLogEntryView};
#[allow(unused_imports)]
use crate::group_deltas::lemma_take_to_set;
#[allow(unused_imports)]
use crate::maps::is_walk;
#[allow(unused_imports)]
use crate::seqs::{lemma_map_views_insert, lemma_map_views_remove, lemma_views_push, map_views};
#[allow(unused_imports)]
use crate::table_watermark::TableWatermarksView;

verus! {

/// What a map holds for a key.
pub open spec fn lookup<K, V>(m: Map<K, V>, k: K) -> Option<V> {
    if m.dom().contains(k) {
        Some(m[k])
    } else {
        None
    }
}

/// Whether new watermarks can follow those that a table has. Those of a removed table are dropped
/// instead.
pub open spec fn watermarks_follow(
    current: Option<TableWatermarksView>,
    new: Option<TableWatermarksView>,
    removed: bool,
) -> bool {
    match (current, new) {
        (Some(c), Some(n)) => removed || c.precedes(n),
        _ => true,
    }
}

/// Whether a table's safe epoch has passed the oldest of its watermarks.
pub open spec fn watermarks_stale(
    current: Option<TableWatermarksView>,
    info: Option<StateTableInfo>,
) -> bool {
    match (current, info) {
        (Some(c), Some(i)) => c.watermarks.len() > 0 && i.safe_epoch > c.watermarks[0].epoch,
        _ => false,
    }
}

/// The watermarks of a table after a delta: with the new ones behind, and with those before the
/// safe epoch cleared. New watermarks of a removed table drop those that it has.
pub open spec fn watermarks_after(
    current: Option<TableWatermarksView>,
    new: Option<TableWatermarksView>,
    removed: bool,
    info: Option<StateTableInfo>,
) -> Option<TableWatermarksView> {
    let joined = match (current, new) {
        (Some(c), Some(n)) => if removed {
            None
        } else {
            Some(c.followed_by(n))
        },
        (None, Some(n)) => Some(n),
        (c, None) => c,
    };
    match joined {
        Some(w) => if watermarks_stale(current, info) {
            Some(w.cleared(info->0.safe_epoch))
        } else {
            Some(w)
        },
        None => None,
    }
}

/// Whether the new watermarks of every table can follow those that it has.
pub open spec fn all_watermarks_follow(
    current: Map<TableId, TableWatermarksView>,
    new: Map<TableId, TableWatermarksView>,
    removed: Set<TableId>,
) -> bool {
    forall|t: TableId|
        #[trigger] new.dom().contains(t) ==> watermarks_follow(
            lookup(current, t),
            Some(new[t]),
            removed.contains(t),
        )
}

/// The watermarks of all tables after a delta.
pub open spec fn all_watermarks_after(
    current: Map<TableId, TableWatermarksView>,
    new: Map<TableId, TableWatermarksView>,
    removed: Set<TableId>,
    info: Map<TableId, StateTableInfo>,
) -> Map<TableId, TableWatermarksView> {
    Map::new(
        |t: TableId|
            watermarks_after(
                lookup(current, t),
                lookup(new, t),
                removed.contains(t),
                lookup(info, t),
            ) is Some,
        |t: TableId|
            watermarks_after(
                lookup(current, t),
                lookup(new, t),
                removed.contains(t),
                lookup(info, t),
            )->0,
    )
}

/// A change log with the entry of a delta behind its entries.
pub open spec fn log_extended(
    current: Option<Seq<ChangeLogEntryView>>,
    delta: Option<ChangeLogDeltaView>,
) -> Option<Seq<ChangeLogEntryView>> {
    match delta {
        None => current,
        Some(d) => match current {
            Some(log) => Some(log.push(d.new_log->0)),
            None => Some(seq![d.new_log->0]),
        },
    }
}

/// Whether the entry of a delta can follow a change log: there is one, it is later than the last,
/// and, unless the table is removed, every entry has an epoch.
pub open spec fn log_follows(
    current: Option<Seq<ChangeLogEntryView>>,
    delta: ChangeLogDeltaView,
    removed: bool,
) -> bool {
    &&& delta.new_log is Some
    &&& current is Some && current->0.len() > 0 ==> {
        &&& current->0.last().epochs.len() > 0
        &&& (delta.new_log->0).epochs.len() > 0
        &&& current->0.last().epochs.last() < (delta.new_log->0).epochs[0]
    }
    &&& !removed ==> has_epochs(log_extended(current, Some(delta))->0)
}

/// The change log of a table after a delta. It is dropped where the table is removed, or where the
/// table's committed epoch advances without a new entry. Where there is a new entry the log is
/// cut.
pub open spec fn log_after(
    current: Option<Seq<ChangeLogEntryView>>,
    delta: Option<ChangeLogDeltaView>,
    removed: bool,
    advances: bool,
) -> Option<Seq<ChangeLogEntryView>> {
    match log_extended(current, delta) {
        None => None,
        Some(log) => if removed || (advances && delta is None) {
            None
        } else {
            match delta {
                Some(d) => Some(truncated(log, d.truncate_epoch)),
                None => Some(log),
            }
        },
    }
}

/// Whether a delta advances the committed epoch of a table that was there.
pub open spec fn commit_advances(
    info: Map<TableId, StateTableInfo>,
    delta: Map<TableId, StateTableInfo>,
    t: TableId,
) -> bool {
    info.dom().contains(t) && delta.dom().contains(t) && delta[t].committed_epoch
        > info[t].committed_epoch
}

/// Whether the new entries can follow the change logs of all tables.
pub open spec fn all_logs_follow(
    current: Map<TableId, Seq<ChangeLogEntryView>>,
    delta: Map<TableId, ChangeLogDeltaView>,
    removed: Set<TableId>,
) -> bool {
    forall|t: TableId|
        #[trigger] delta.dom().contains(t) ==> log_follows(
            lookup(current, t),
            delta[t],
            removed.contains(t),
        )
}

/// The change logs of all tables after a delta.
pub open spec fn all_logs_after(
    current: Map<TableId, Seq<ChangeLogEntryView>>,
    delta: Map<TableId, ChangeLogDeltaView>,
    removed: Set<TableId>,
    info: Map<TableId, StateTableInfo>,
    info_delta: Map<TableId, StateTableInfo>,
) -> Map<TableId, Seq<ChangeLogEntryView>> {
    Map::new(
        |t: TableId|
            log_after(
                lookup(current, t),
                lookup(delta, t),
                removed.contains(t),
                commit_advances(info, info_delta, t),
            ) is Some,
        |t: TableId|
            log_after(
                lookup(current, t),
                lookup(delta, t),
                removed.contains(t),
                commit_advances(info, info_delta, t),
            )->0,
    )
}

/// The keys in front of a place of a walk do not hold the key at that place.
pub proof fn lemma_walk_fresh<K>(order: Seq<K>, keys: Set<K>, i: int)
    requires
        is_walk(order, keys),
        0 <= i < order.len(),
    ensures
        !order.take(i).to_set().contains(order[i]),
        keys.contains(order[i]),
{
    assert(order.to_set().contains(order[i]));
    if order.take(i).contains(order[i]) {
        let k = choose|k: int| 0 <= k < i && order.take(i)[k] == order[i];
        assert(order[k] == order[i]);
    }
}

/// Puts the new watermarks of the tables into the map that have none.
fn add_first_watermarks(
    map: &mut HashMap<TableId, Arc<TableWatermarks>>,
    new: &HashMap<TableId, TableWatermarks>,
)
    ensures
        map_views(final(map)@) == map_views(new@).union_prefer_right(map_views(old(map)@)),
{
    let ghost start = map_views(map@);
    let ghost fresh = map_views(new@);
    let keys = keys_of(new);
    let mut i: usize = 0;
    proof {
        assert(keys@.take(0).to_set() =~= Set::empty());
        assert(fresh.restrict(Set::empty()).union_prefer_right(start) =~= start);
    }
    while i < keys.len()
        invariant
            i <= keys.len(),
            fresh == map_views(new@),
            is_walk(keys@, new@.dom()),
            map_views(map@) == fresh.restrict(keys@.take(i as int).to_set()).union_prefer_right(
                start,
            ),
        decreases keys.len() - i,
    {
        let table_id: TableId = keys[i];
        let ghost prior = map@;
        proof {
            lemma_walk_fresh(keys@, new@.dom(), i as int);
            lemma_take_to_set(keys@, i as int);
            assert(map@.dom().contains(table_id) <==> map_views(map@).dom().contains(table_id));
        }
        if !map.contains_key(&table_id) {
            if let Some(watermarks) = new.get(&table_id) {
                let entry = Arc::new(watermarks.clone());
                proof {
                    lemma_map_views_insert(prior, table_id, entry);
                }
                map.insert(table_id, entry);
            }
        }
        assert(map_views(map@) =~= fresh.restrict(
            keys@.take(i + 1).to_set(),
        ).union_prefer_right(start));
        i = i + 1;
    }
    proof {
        assert(keys@.take(i as int) =~= keys@);
        assert(fresh.restrict(keys@.to_set()) =~= fresh);
    }
}

/// The watermarks of a table that has some, after a delta.
fn next_watermarks(
    current: &TableWatermarks,
    new: Option<&TableWatermarks>,
    removed: bool,
    info: Option<&StateTableInfo>,
) -> (r: Option<TableWatermarks>)
    requires
        watermarks_follow(Some(current@), opt_view(new), removed),
    ensures
        opt_owned_view(r) == watermarks_after(
            Some(current@),
            opt_view(new),
            removed,
            opt_copy(info),
        ),
{
    let mut r = current.clone();
    if let Some(newer) = new {
        if removed {
            return None;
        }
        r.apply_new_table_watermarks(newer);
    }
    if let Some(info) = info {
        if current.watermarks.len() > 0 && info.safe_epoch > current.watermarks[0].epoch {
            r.clear_stale_epoch_watermark(info.safe_epoch);
        }
    }
    Some(r)
}

/// What watermarks that may be there stand for.
pub open spec fn opt_view(o: Option<&TableWatermarks>) -> Option<TableWatermarksView> {
    match o {
        Some(w) => Some(w@),
        None => None,
    }
}

/// What watermarks that may be there stand for.
pub open spec fn opt_owned_view(o: Option<TableWatermarks>) -> Option<TableWatermarksView> {
    match o {
        Some(w) => Some(w@),
        None => None,
    }
}

/// The table info that may be there.
pub open spec fn opt_copy(o: Option<&StateTableInfo>) -> Option<StateTableInfo> {
    match o {
        Some(i) => Some(*i),
        None => None,
    }
}

/// Changes the watermarks of all tables as a delta says.
pub fn apply_watermarks(
    map: &mut HashMap<TableId, Arc<TableWatermarks>>,
    new: &HashMap<TableId, TableWatermarks>,
    removed: &HashSet<TableId>,
    info: &HashMap<TableId, StateTableInfo>,
)
    requires
        all_watermarks_follow(map_views(old(map)@), map_views(new@), removed@),
    ensures
        map_views(final(map)@) == all_watermarks_after(
            map_views(old(map)@),
            map_views(new@),
            removed@,
            info@,
        ),
{
    let ghost start = map_views(map@);
    let ghost fresh = map_views(new@);
    let keys = keys_of(map);
    let ghost target = all_watermarks_after(start, fresh, removed@, info@);
    add_first_watermarks(map, new);
    let mut i: usize = 0;
    proof {
        assert(start.dom() =~= keys@.to_set());
        assert(keys@.take(0).to_set() =~= Set::empty());
    }
    while i < keys.len()
        invariant
            i <= keys.len(),
            is_walk(keys@, start.dom()),
            fresh == map_views(new@),
            target == all_watermarks_after(start, fresh, removed@, info@),
            all_watermarks_follow(start, fresh, removed@),
            forall|t: TableId|
                #![trigger map_views(map@).dom().contains(t)]
                lookup(map_views(map@), t) == (if start.dom().contains(t) && !keys@.take(
                    i as int,
                ).to_set().contains(t) {
                    Some(start[t])
                } else {
                    lookup(target, t)
                }),
        decreases keys.len() - i,
    {
        let table_id: TableId = keys[i];
        let ghost prior = map@;
        let ghost done = keys@.take(i as int).to_set();
        proof {
            lemma_walk_fresh(keys@, start.dom(), i as int);
            lemma_take_to_set(keys@, i as int);
            assert(map_views(prior).dom().contains(table_id));
        }
        let removed_now = removed.contains(&table_id);
        let found_new = new.get(&table_id);
        let found_info = info.get(&table_id);
        let mut next: Option<TableWatermarks> = None;
        if let Some(current) = map.get(&table_id) {
            assert(map_views(prior)[table_id] == start[table_id]);
            assert(opt_view(found_new) == lookup(fresh, table_id));
            next = next_watermarks(current, found_new, removed_now, found_info);
        }
        assert(opt_owned_view(next) == lookup(target, table_id));
        match next {
            Some(watermarks) => {
                let entry = Arc::new(watermarks);
                proof {
                    lemma_map_views_insert(prior, table_id, entry);
                }
                map.insert(table_id, entry);
            },
            None => {
                proof {
                    lemma_map_views_remove(prior, table_id);
                }
                map.remove(&table_id);
            },
        }
        assert forall|t: TableId|
            #![trigger map_views(map@).dom().contains(t)]
            lookup(map_views(map@), t) == (if start.dom().contains(t) && !keys@.take(
                i + 1,
            ).to_set().contains(t) {
                Some(start[t])
            } else {
                lookup(target, t)
            }) by {
            assert(map_views(prior).dom().contains(t) || !map_views(prior).dom().contains(t));
            if t == table_id {
                assert(keys@.take(i + 1).to_set().contains(t));
            } else {
                assert(lookup(map_views(map@), t) == lookup(map_views(prior), t));
            }
        }
        i = i + 1;
    }
    proof {
        assert(keys@.take(i as int) =~= keys@);
        assert forall|t: TableId| map_views(map@).dom().contains(t) == target.dom().contains(
            t,
        ) && (target.dom().contains(t) ==> map_views(map@)[t] == target[t]) by {
            assert(lookup(map_views(map@), t) == lookup(target, t));
        }
        assert(map_views(map@) =~= target);
    }
}

/// The change logs of all tables with the entries of a delta behind theirs.
pub open spec fn all_logs_extended(
    current: Map<TableId, Seq<ChangeLogEntryView>>,
    delta: Map<TableId, ChangeLogDeltaView>,
) -> Map<TableId, Seq<ChangeLogEntryView>> {
    Map::new(
        |t: TableId| log_extended(lookup(current, t), lookup(delta, t)) is Some,
        |t: TableId| log_extended(lookup(current, t), lookup(delta, t))->0,
    )
}

/// Adds the entries of a delta to the change logs.
fn extend_logs(
    map: &mut HashMap<TableId, TableChangeLog>,
    delta: &HashMap<TableId, ChangeLogDelta>,
)
    requires
        forall|t: TableId| #[trigger]
            map_views(delta@).dom().contains(t) ==> map_views(delta@)[t].new_log is Some,
    ensures
        map_views(final(map)@) == all_logs_extended(map_views(old(map)@), map_views(delta@)),
{
    let ghost start = map_views(map@);
    let ghost shown = map_views(delta@);
    let ghost target = all_logs_extended(start, shown);
    let keys = keys_of(delta);
    let mut i: usize = 0;
    proof {
        assert(shown.dom() =~= keys@.to_set());
        assert(keys@.take(0).to_set() =~= Set::empty());
    }
    while i < keys.len()
        invariant
            i <= keys.len(),
            is_walk(keys@, shown.dom()),
            shown == map_views(delta@),
            target == all_logs_extended(start, shown),
            forall|t: TableId| #[trigger] shown.dom().contains(t) ==> shown[t].new_log is Some,
            forall|t: TableId|
                #![trigger map_views(map@).dom().contains(t)]
                lookup(map_views(map@), t) == (if keys@.take(i as int).to_set().contains(t) {
                    lookup(target, t)
                } else {
                    lookup(start, t)
                }),
        decreases keys.len() - i,
    {
        let table_id: TableId = keys[i];
        let ghost prior = map@;
        proof {
            lemma_walk_fresh(keys@, shown.dom(), i as int);
            lemma_take_to_set(keys@, i as int);
            assert(map_views(prior).dom().contains(table_id) || !map_views(prior).dom().contains(
                table_id,
            ));
            assert(lookup(map_views(prior), table_id) == lookup(start, table_id));
        }
        if let Some(log_delta) = delta.get(&table_id) {
            assert(shown[table_id] == log_delta@);
            if let Some(new_log) = &log_delta.new_log {
                let entry = new_log.clone();
                let ghost e = entry@;
                let mut log = match map.remove(&table_id) {
                    Some(log) => log,
                    None => TableChangeLog(Vec::new()),
                };
                let ghost had = log@;
                proof {
                    lemma_views_push(log.0@, entry);
                }
                log.0.push(entry);
                let ghost l = log@;
                proof {
                    if !start.dom().contains(table_id) {
                        assert(had =~= Seq::empty());
                        assert(l =~= seq![e]);
                    }
                    assert(lookup(target, table_id) == Some(l));
                }
                map.insert(table_id, log);
                assert(map_views(map@) =~= map_views(prior).insert(table_id, l));
            }
        }
        assert forall|t: TableId|
            #![trigger map_views(map@).dom().contains(t)]
            lookup(map_views(map@), t) == (if keys@.take(i + 1).to_set().contains(t) {
                lookup(target, t)
            } else {
                lookup(start, t)
            }) by {
            assert(map_views(prior).dom().contains(t) || !map_views(prior).dom().contains(t));
            if t != table_id {
                assert(lookup(map_views(map@), t) == lookup(map_views(prior), t));
            }
        }
        i = i + 1;
    }
    proof {
        assert(keys@.take(i as int) =~= keys@);
        assert forall|t: TableId| map_views(map@).dom().contains(t) == target.dom().contains(
            t,
        ) && (target.dom().contains(t) ==> map_views(map@)[t] == target[t]) by {
            assert(lookup(map_views(map@), t) == lookup(target, t));
        }
        assert(map_views(map@) =~= target);
    }
}

/// Whether a delta advances the committed epoch of a table, by what was known of it before.
fn advances(
    table_id: TableId,
    info_delta: &HashMap<TableId, StateTableInfo>,
    changed: &HashMap<TableId, Option<StateTableInfo>>,
) -> (r: bool)
    ensures
        r == (info_delta@.dom().contains(table_id) && changed@.dom().contains(table_id)
            && changed@[table_id] is Some && info_delta@[table_id].committed_epoch > (
        changed@[table_id]->0).committed_epoch),
{
    if let Some(new_info) = info_delta.get(&table_id) {
        if let Some(prev) = changed.get(&table_id) {
            if let Some(prev_info) = prev {
                return new_info.committed_epoch > prev_info.committed_epoch;
            }
        }
    }
    false
}

/// Changes the change logs of all tables as a delta says. `changed` says what was known of the
/// tables that the delta speaks of.
pub(crate) fn apply_logs(
    map: &mut HashMap<TableId, TableChangeLog>,
    delta: &HashMap<TableId, ChangeLogDelta>,
    removed: &HashSet<TableId>,
    info_delta: &HashMap<TableId, StateTableInfo>,
    changed: &HashMap<TableId, Option<StateTableInfo>>,
    Ghost(info): Ghost<Map<TableId, StateTableInfo>>,
)
    requires
        all_logs_follow(map_views(old(map)@), map_views(delta@), removed@),
        changed@ == crate::version::info_changed(info, info_delta@, removed@),
    ensures
        map_views(final(map)@) == all_logs_after(
            map_views(old(map)@),
            map_views(delta@),
            removed@,
            info,
            info_delta@,
        ),
{
    let ghost start = map_views(map@);
    let ghost shown = map_views(delta@);
    let ghost target = all_logs_after(start, shown, removed@, info, info_delta@);
    let ghost middle = all_logs_extended(start, shown);
    assert forall|t: TableId| #[trigger] shown.dom().contains(t) implies shown[t].new_log is Some by {
        assert(log_follows(lookup(start, t), shown[t], removed@.contains(t)));
    }
    extend_logs(map, delta);
    let keys = keys_of(map);
    let mut i: usize = 0;
    proof {
        assert(middle.dom() =~= keys@.to_set());
        assert(keys@.take(0).to_set() =~= Set::empty());
    }
    while i < keys.len()
        invariant
            i <= keys.len(),
            is_walk(keys@, middle.dom()),
            shown == map_views(delta@),
            all_logs_follow(start, shown, removed@),
            changed@ == crate::version::info_changed(info, info_delta@, removed@),
            target == all_logs_after(start, shown, removed@, info, info_delta@),
            middle == all_logs_extended(start, shown),
            forall|t: TableId|
                #![trigger map_views(map@).dom().contains(t)]
                lookup(map_views(map@), t) == (if keys@.take(i as int).to_set().contains(t) {
                    lookup(target, t)
                } else {
                    lookup(middle, t)
                }),
        decreases keys.len() - i,
    {
        let table_id: TableId = keys[i];
        let ghost prior = map@;
        proof {
            lemma_walk_fresh(keys@, middle.dom(), i as int);
            lemma_take_to_set(keys@, i as int);
            assert(map_views(prior).dom().contains(table_id) || !map_views(prior).dom().contains(
                table_id,
            ));
            assert(lookup(map_views(prior), table_id) == Some(middle[table_id]));
        }
        let found = delta.get(&table_id);
        assert(found is Some <==> shown.dom().contains(table_id));
        if removed.contains(&table_id) {
            map.remove(&table_id);
            assert(map_views(map@) =~= map_views(prior).remove(table_id));
        } else {
            let gone = advances(table_id, info_delta, changed);
            assert(gone == commit_advances(info, info_delta@, table_id));
            match found {
                Some(log_delta) => {
                    assert(shown[table_id] == log_delta@);
                    assert(log_follows(lookup(start, table_id), shown[table_id], false));
                    if let Some(mut log) = map.remove(&table_id) {
                        log.truncate(log_delta.truncate_epoch);
                        let ghost l = log@;
                        map.insert(table_id, log);
                        assert(map_views(map@) =~= map_views(prior).insert(table_id, l));
                    }
                },
                None => {
                    if gone {
                        map.remove(&table_id);
                        assert(map_views(map@) =~= map_views(prior).remove(table_id));
                    }
                },
            }
        }
        assert forall|t: TableId|
            #![trigger map_views(map@).dom().contains(t)]
            lookup(map_views(map@), t) == (if keys@.take(i + 1).to_set().contains(t) {
                lookup(target, t)
            } else {
                lookup(middle, t)
            }) by {
            assert(map_views(prior).dom().contains(t) || !map_views(prior).dom().contains(t));
            if t != table_id {
                assert(lookup(map_views(map@), t) == lookup(map_views(prior), t));
            }
        }
        i = i + 1;
    }
    proof {
        assert(keys@.take(i as int) =~= keys@);
        assert forall|t: TableId| map_views(map@).dom().contains(t) == target.dom().contains(
            t,
        ) && (target.dom().contains(t) ==> map_views(map@)[t] == target[t]) by {
            assert(lookup(map_views(map@), t) == lookup(target, t));
        }
        assert(map_views(map@) =~= target);
    }
}

} // verus!
