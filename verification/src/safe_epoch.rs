//! The watermarks that hold as of the safe epoch.
use crate::buf::{bytes_clone, bytes_copy_from_slice};
use crate::key::TableId;
use crate::maps::keys_of;
use crate::table_watermark::{
    ReadTableWatermark, TableWatermarks, VnodeWatermark,
};
use crate::version::{HummockVersion, HummockVersionStateTableInfo};
use bytes::Bytes;
use std::collections::{BTreeMap, HashMap};
use std::sync::Arc;
use vstd::prelude::*;

#[allow(unused_imports)]
use crate::buf::contents;
#[allow(unused_imports)]
use crate::group_deltas::lemma_take_to_set;
#[allow(unused_imports)]
use crate::maps::is_walk;
#[allow(unused_imports)]
use crate::seqs::{lemma_map_views_insert, map_views, views};
#[allow(unused_imports)]
use crate::table_state::lemma_walk_fresh;
#[allow(unused_imports)]
use crate::table_watermark::{
    map_contents, ReadTableWatermarkView, TableWatermarksView, VnodeWatermarkView,
};
#[allow(unused_imports)]
use crate::version::StateTableInfo;

verus! {

/// Whether no watermark is older than the safe epoch.
pub open spec fn not_before(w: TableWatermarksView, safe_epoch: u64) -> bool {
    w.watermarks.len() > 0 ==> w.watermarks[0].epoch >= safe_epoch
}

/// The watermarks of the safe epoch alone, where there are some.
pub open spec fn at_safe_epoch(w: TableWatermarksView, safe_epoch: u64) -> Option<
    TableWatermarksView,
> {
    if w.watermarks.len() > 0 && w.watermarks[0].epoch == safe_epoch {
        Some(TableWatermarksView { watermarks: w.watermarks.take(1), ..w })
    } else {
        None
    }
}

/// Whether each listed table that has watermarks is known, and none of its watermarks is older
/// than its safe epoch.
pub open spec fn tables_known(
    tables: Map<TableId, TableWatermarksView>,
    info: Map<TableId, StateTableInfo>,
    existing: Seq<u32>,
) -> bool {
    forall|t: TableId|
        #[trigger] tables.dom().contains(t) && existing.contains(t) ==> info.dom().contains(t)
            && not_before(tables[t], info[t].safe_epoch)
}

/// The watermarks of the safe epoch of the listed tables.
pub open spec fn safe_watermarks(
    tables: Map<TableId, TableWatermarksView>,
    info: Map<TableId, StateTableInfo>,
    existing: Seq<u32>,
) -> Map<TableId, TableWatermarksView> {
    Map::new(
        |t: TableId|
            tables.dom().contains(t) && existing.contains(t) && at_safe_epoch(
                tables[t],
                info[t].safe_epoch,
            ) is Some,
        |t: TableId| at_safe_epoch(tables[t], info[t].safe_epoch)->0,
    )
}

/// The watermarks of the safe epoch alone, where there are some.
fn extract_single_table_watermark(table_watermarks: &TableWatermarks, safe_epoch: u64) -> (r: Option<
    TableWatermarks,
>)
    requires
        not_before(table_watermarks@, safe_epoch),
    ensures
        crate::table_state::opt_owned_view(r) == at_safe_epoch(table_watermarks@, safe_epoch),
{
    if table_watermarks.watermarks.len() > 0 {
        if table_watermarks.watermarks[0].epoch == safe_epoch {
            let first = table_watermarks.watermarks[0].clone();
            let ghost shown = first@;
            let mut watermarks = Vec::new();
            watermarks.push(first);
            assert(views(watermarks@) =~= views(table_watermarks.watermarks@).take(1));
            return Some(
                TableWatermarks { watermarks, direction: table_watermarks.direction },
            );
        }
    }
    None
}

/// Whether a list holds an id.
fn slice_lists(ids: &[u32], id: u32) -> (r: bool)
    ensures
        r == ids@.contains(id),
{
    let mut i: usize = 0;
    while i < ids.len()
        invariant
            i <= ids.len(),
            forall|k: int| 0 <= k < i ==> ids@[k] != id,
        decreases ids.len() - i,
    {
        if ids[i] == id {
            return true;
        }
        i = i + 1;
    }
    false
}

/// The watermarks of the safe epoch of the listed tables.
pub fn safe_epoch_table_watermarks_impl(
    table_watermarks: &HashMap<TableId, Arc<TableWatermarks>>,
    state_table_info: &HummockVersionStateTableInfo,
    existing_table_ids: &[u32],
) -> (r: BTreeMap<u32, TableWatermarks>)
    requires
        tables_known(map_views(table_watermarks@), state_table_info@, existing_table_ids@),
    ensures
        map_views(r@) == safe_watermarks(
            map_views(table_watermarks@),
            state_table_info@,
            existing_table_ids@,
        ),
{
    let keys = keys_of(table_watermarks);
    let ghost tables = map_views(table_watermarks@);
    let ghost info = state_table_info@;
    let ghost target = safe_watermarks(tables, info, existing_table_ids@);
    let mut r: BTreeMap<u32, TableWatermarks> = BTreeMap::new();
    let mut i: usize = 0;
    assert(map_views(r@) =~= target.restrict(keys@.take(0).to_set()));
    assert(tables.dom() =~= table_watermarks@.dom());
    while i < keys.len()
        invariant
            i <= keys.len(),
            is_walk(keys@, tables.dom()),
            tables == map_views(table_watermarks@),
            info == state_table_info@,
            tables_known(tables, info, existing_table_ids@),
            target == safe_watermarks(tables, info, existing_table_ids@),
            map_views(r@) == target.restrict(keys@.take(i as int).to_set()),
        decreases keys.len() - i,
    {
        let table_id: TableId = keys[i];
        let ghost prior = r@;
        proof {
            lemma_walk_fresh(keys@, tables.dom(), i as int);
            lemma_take_to_set(keys@, i as int);
        }
        if slice_lists(existing_table_ids, table_id) {
            let safe_epoch: u64 = state_table_info.info().get(&table_id).unwrap().safe_epoch;
            if let Some(watermarks) = table_watermarks.get(&table_id) {
                assert(tables[table_id] == watermarks@);
                let single = extract_single_table_watermark(watermarks, safe_epoch);
                if let Some(w) = single {
                    proof {
                        lemma_map_views_insert(prior, table_id, w);
                    }
                    r.insert(table_id, w);
                }
            }
        }
        assert(map_views(r@) =~= target.restrict(keys@.take(i + 1).to_set()));
        i = i + 1;
    }
    assert(keys@.take(i as int) =~= keys@);
    assert(target.restrict(keys@.to_set()) =~= target);
    r
}

impl HummockVersion {
    /// The watermarks of the safe epoch of the listed tables.
    pub fn safe_epoch_table_watermarks(&self, existing_table_ids: &[u32]) -> (r: BTreeMap<
        u32,
        TableWatermarks,
    >)
        requires
            tables_known(self@.table_watermarks, self@.state_table_info, existing_table_ids@),
        ensures
            map_views(r@) == safe_watermarks(
                self@.table_watermarks,
                self@.state_table_info,
                existing_table_ids@,
            ),
    {
        safe_epoch_table_watermarks_impl(
            &self.table_watermarks,
            &self.state_table_info,
            existing_table_ids,
        )
    }
}

/// Whether a watermark is for the virtual node.
pub open spec fn is_for(w: VnodeWatermarkView, vnode: int) -> bool {
    0 <= vnode < w.vnodes.len() && w.vnodes[vnode]
}

/// Whether every virtual node fits in 16 bits and has one watermark at most.
pub open spec fn vnodes_distinct(w: Seq<VnodeWatermarkView>) -> bool {
    &&& forall|i: int, v: int|
        0 <= i < w.len() && #[trigger] is_for(w[i], v) ==> v <= u16::MAX
    &&& forall|i: int, j: int, v: int|
        0 <= i < j < w.len() && #[trigger] is_for(w[i], v) ==> !#[trigger] is_for(w[j], v)
}

/// The watermark of each virtual node.
pub open spec fn watermark_by_vnode(w: Seq<VnodeWatermarkView>) -> Map<u16, Seq<u8>>
    decreases w.len(),
{
    if w.len() == 0 {
        Map::empty()
    } else {
        watermark_by_vnode(w.drop_last()).union_prefer_right(
            Map::new(|v: u16| is_for(w.last(), v as int), |v: u16| w.last().watermark),
        )
    }
}

/// A virtual node has a watermark for reading if and only if a watermark is for it, and it has
/// that one.
pub proof fn vnode_reads_its_watermark(w: Seq<VnodeWatermarkView>, i: int, vnode: u16)
    requires
        vnodes_distinct(w),
        0 <= i < w.len(),
        is_for(w[i], vnode as int),
    ensures
        watermark_by_vnode(w).dom().contains(vnode),
        watermark_by_vnode(w)[vnode] == w[i].watermark,
    decreases w.len(),
{
    let t = w.drop_last();
    if i < t.len() {
        assert(w[i] == t[i]);
        assert(vnodes_distinct(t)) by {
            assert forall|a: int, v: int| 0 <= a < t.len() && #[trigger] is_for(t[a], v) implies v
                <= u16::MAX by {
                assert(is_for(w[a], v));
            }
            assert forall|a: int, b: int, v: int|
                0 <= a < b < t.len() && #[trigger] is_for(t[a], v) implies !#[trigger] is_for(
                t[b],
                v,
            ) by {
                assert(is_for(w[a], v));
                assert(!is_for(w[b], v));
            }
        }
        vnode_reads_its_watermark(t, i, vnode);
        assert(!is_for(w[w.len() - 1], vnode as int));
    }
}

/// Whether the watermarks of a table can be read: they are of one epoch, and each virtual node
/// has one at most.
pub open spec fn readable(w: TableWatermarksView) -> bool {
    w.watermarks.len() == 1 && vnodes_distinct(w.watermarks[0].vnode_watermarks)
}

/// The watermarks of a table, for reading.
pub open spec fn for_reading(w: TableWatermarksView) -> ReadTableWatermarkView {
    ReadTableWatermarkView {
        direction: w.direction,
        vnode_watermarks: watermark_by_vnode(w.watermarks[0].vnode_watermarks),
    }
}

/// Adds a watermark for its virtual nodes.
fn add_vnode_watermark(m: &mut BTreeMap<u16, Bytes>, w: &VnodeWatermark)
    requires
        forall|v: int| #[trigger] is_for(w@, v) ==> v <= u16::MAX,
    ensures
        map_contents(final(m)@) == map_contents(old(m)@).union_prefer_right(
            Map::new(|v: u16| is_for(w@, v as int), |v: u16| w@.watermark),
        ),
{
    let ghost start = map_contents(m@);
    let watermark = bytes_copy_from_slice(w.watermark());
    let bits = &w.vnode_bitmap().bits;
    let mut i: usize = 0;
    assert(map_contents(m@) =~= start.union_prefer_right(
        Map::new(|v: u16| v < 0 && is_for(w@, v as int), |v: u16| w@.watermark),
    ));
    while i < bits.len()
        invariant
            i <= bits.len(),
            bits@ == w@.vnodes,
            contents(watermark) == w@.watermark,
            forall|v: int| #[trigger] is_for(w@, v) ==> v <= u16::MAX,
            map_contents(m@) == start.union_prefer_right(
                Map::new(|v: u16| v < i && is_for(w@, v as int), |v: u16| w@.watermark),
            ),
        decreases bits.len() - i,
    {
        let ghost prior = m@;
        assert(bits@[i as int] == is_for(w@, i as int));
        if bits[i] {
            assert(i <= u16::MAX);
            m.insert(i as u16, bytes_clone(&watermark));
            assert(map_contents(m@) =~= map_contents(prior).insert(i as u16, w@.watermark));
        }
        assert forall|v: u16| (v < i + 1 && is_for(w@, v as int)) == ((v < i && is_for(
            w@,
            v as int,
        )) || (v == i && bits@[i as int])) by {}
        assert(map_contents(m@) =~= start.union_prefer_right(
            Map::new(|v: u16| v < i + 1 && is_for(w@, v as int), |v: u16| w@.watermark),
        ));
        i = i + 1;
    }
    assert(map_contents(m@) =~= start.union_prefer_right(
        Map::new(|v: u16| is_for(w@, v as int), |v: u16| w@.watermark),
    ));
}

/// The watermarks of a table, for reading.
fn to_read_watermark(watermarks: &TableWatermarks) -> (r: ReadTableWatermark)
    requires
        readable(watermarks@),
    ensures
        r@ == for_reading(watermarks@),
{
    let list = &watermarks.watermarks[0].vnode_watermarks;
    let ghost all = views(list@);
    let mut m: BTreeMap<u16, Bytes> = BTreeMap::new();
    let mut i: usize = 0;
    assert(watermarks@.watermarks[0].vnode_watermarks == all);
    assert(map_contents(m@) =~= watermark_by_vnode(all.take(0)));
    while i < list.len()
        invariant
            i <= list.len(),
            all == views(list@),
            vnodes_distinct(all),
            map_contents(m@) == watermark_by_vnode(all.take(i as int)),
        decreases list.len() - i,
    {
        proof {
            assert(all.take(i + 1).drop_last() =~= all.take(i as int));
            assert(all.take(i + 1).last() == list@[i as int]@);
            assert forall|v: int| #[trigger] is_for(list@[i as int]@, v) implies v
                <= u16::MAX by {
                assert(is_for(all[i as int], v));
            }
        }
        add_vnode_watermark(&mut m, &list[i]);
        i = i + 1;
    }
    assert(all.take(i as int) =~= all);
    ReadTableWatermark { direction: watermarks.direction, vnode_watermarks: m }
}

/// The watermark of each virtual node of each table, for reading.
pub fn safe_epoch_read_table_watermarks_impl(
    safe_epoch_watermarks: &BTreeMap<u32, TableWatermarks>,
) -> (r: BTreeMap<TableId, ReadTableWatermark>)
    requires
        forall|t: u32| #[trigger]
            safe_epoch_watermarks@.dom().contains(t) ==> readable(safe_epoch_watermarks@[t]@),
    ensures
        map_views(r@) == Map::new(
            |t: u32| safe_epoch_watermarks@.dom().contains(t),
            |t: u32| for_reading(safe_epoch_watermarks@[t]@),
        ),
{
    let ghost target = Map::new(
        |t: u32| safe_epoch_watermarks@.dom().contains(t),
        |t: u32| for_reading(safe_epoch_watermarks@[t]@),
    );
    let mut r: BTreeMap<TableId, ReadTableWatermark> = BTreeMap::new();
    let it0 = safe_epoch_watermarks.keys();
    let ghost walk = vstd::std_specs::iter::IteratorSpec::remaining(&it0);
    assert(walk.unref().to_set() == safe_epoch_watermarks@.dom());
    assert(map_views(r@) =~= target.restrict(walk.unref().take(0).to_set()));
    for k in it: it0
        invariant
            it.seq() == walk,
            walk.unref().to_set() == safe_epoch_watermarks@.dom(),
            forall|t: u32| #[trigger]
                safe_epoch_watermarks@.dom().contains(t) ==> readable(
                    safe_epoch_watermarks@[t]@,
                ),
            target == Map::new(
                |t: u32| safe_epoch_watermarks@.dom().contains(t),
                |t: u32| for_reading(safe_epoch_watermarks@[t]@),
            ),
            map_views(r@) == target.restrict(walk.unref().take(it.index() as int).to_set()),
    {
        let ghost prior = r@;
        proof {
            lemma_take_to_set(walk.unref(), it.index() as int);
            assert(walk.unref().to_set().contains(walk.unref()[it.index() as int]));
        }
        if let Some(watermarks) = safe_epoch_watermarks.get(k) {
            let read = to_read_watermark(watermarks);
            proof {
                lemma_map_views_insert(prior, *k, read);
            }
            r.insert(*k, read);
        }
        assert(map_views(r@) =~= target.restrict(
            walk.unref().take(it.index() + 1).to_set(),
        ));
    }
    proof {
        assert(walk.unref().take(walk.len() as int) =~= walk.unref());
        assert(target.restrict(walk.unref().to_set()) =~= target);
    }
    r
}

/// The watermarks taken as of the safe epoch are of that epoch alone.
pub proof fn safe_watermarks_are_of_safe_epoch(
    tables: Map<TableId, TableWatermarksView>,
    info: Map<TableId, StateTableInfo>,
    existing: Seq<u32>,
    t: TableId,
)
    requires
        safe_watermarks(tables, info, existing).dom().contains(t),
    ensures
        safe_watermarks(tables, info, existing)[t].watermarks.len() == 1,
        safe_watermarks(tables, info, existing)[t].watermarks[0].epoch == info[t].safe_epoch,
        safe_watermarks(tables, info, existing)[t].direction == tables[t].direction,
{
}

} // verus!
