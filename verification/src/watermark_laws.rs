//! What a reader finds of the watermarks of a table after a delta, and as of the safe epoch.
use crate::key::TableId;
use crate::level::CompactionGroupId;
use vstd::prelude::*;

#[allow(unused_imports)]
use crate::safe_epoch::{for_reading, safe_watermarks, vnodes_distinct, watermark_by_vnode};
#[allow(unused_imports)]
use crate::seqs::lemma_filter_suffix;
#[allow(unused_imports)]
use crate::table_watermark::{
    carried_over, clearing_drops_stale_epochs, covered, covered_by_all, first_kept,
    following_keeps_epochs_sorted, narrowed, news, vnodes_in, with_carried, EpochWatermarksView,
    TableWatermarksView, VnodeWatermarkView,
};
#[allow(unused_imports)]
use crate::version::{StateTableInfo, VersionDeltaView, VersionView};

verus! {

/// Whether a watermark says something of a virtual node.
pub open spec fn speaks_of(w: VnodeWatermarkView, vnode: usize) -> bool {
    vnode < w.vnodes.len() && w.vnodes[vnode as int]
}

/// What a list of watermarks says of a virtual node: what the first one says that speaks of it.
pub open spec fn said_of(list: Seq<VnodeWatermarkView>, vnode: usize) -> Option<Seq<u8>>
    decreases list.len(),
{
    if list.len() == 0 {
        None
    } else if speaks_of(list[0], vnode) {
        Some(list[0].watermark)
    } else {
        said_of(list.skip(1), vnode)
    }
}

/// The newest watermark of a virtual node: what is said of it at the last epoch that says anything.
pub open spec fn newest(epochs: Seq<EpochWatermarksView>, vnode: usize) -> Option<Seq<u8>>
    decreases epochs.len(),
{
    if epochs.len() == 0 {
        None
    } else {
        match said_of(epochs.last().vnode_watermarks, vnode) {
            Some(watermark) => Some(watermark),
            None => newest(epochs.drop_last(), vnode),
        }
    }
}

/// Whether the epochs do not go back.
pub open spec fn ascending(epochs: Seq<EpochWatermarksView>) -> bool {
    forall|i: int, j: int|
        0 <= i < j < epochs.len() ==> (#[trigger] epochs[i]).epoch <= (#[trigger] epochs[j]).epoch
}

/// Whether an entry is there after clearing: at its epoch, with what it said in front.
pub open spec fn has_entry(epochs: Seq<EpochWatermarksView>, entry: EpochWatermarksView) -> bool {
    exists|k: int|
        0 <= k < epochs.len() && (#[trigger] epochs[k]).epoch == entry.epoch
            && entry.vnode_watermarks.len() <= epochs[k].vnode_watermarks.len()
            && epochs[k].vnode_watermarks.take(entry.vnode_watermarks.len() as int)
            == entry.vnode_watermarks
}

proof fn lemma_said_of_add(
    a: Seq<VnodeWatermarkView>,
    b: Seq<VnodeWatermarkView>,
    vnode: usize,
)
    ensures
        said_of(a + b, vnode) == (match said_of(a, vnode) {
            Some(x) => Some(x),
            None => said_of(b, vnode),
        }),
    decreases a.len(),
{
    if a.len() == 0 {
        assert(a + b =~= b);
    } else {
        assert((a + b)[0] == a[0]);
        assert((a + b).skip(1) =~= a.skip(1) + b);
        lemma_said_of_add(a.skip(1), b, vnode);
    }
}

proof fn lemma_said_of_push(a: Seq<VnodeWatermarkView>, x: VnodeWatermarkView, vnode: usize)
    ensures
        said_of(a.push(x), vnode) == (match said_of(a, vnode) {
            Some(y) => Some(y),
            None => if speaks_of(x, vnode) {
                Some(x.watermark)
            } else {
                None
            },
        }),
{
    lemma_said_of_add(a, seq![x], vnode);
    assert(a.push(x) =~= a + seq![x]);
    assert(said_of(seq![x].skip(1), vnode) is None);
}

proof fn lemma_covered_said(list: Seq<VnodeWatermarkView>, vnode: usize)
    ensures
        covered(list).contains(vnode) <==> said_of(list, vnode) is Some,
    decreases list.len(),
{
    if list.len() > 0 {
        let t = list.drop_last();
        lemma_covered_said(t, vnode);
        lemma_said_of_push(t, list.last(), vnode);
        assert(list =~= t.push(list.last()));
        assert(vnodes_in(list.last().vnodes).contains(vnode) <==> speaks_of(list.last(), vnode));
    }
}

proof fn lemma_news_said(list: Seq<VnodeWatermarkView>, known: Set<usize>, vnode: usize)
    ensures
        said_of(news(list, known), vnode) == (if known.contains(vnode) {
            None
        } else {
            said_of(list, vnode)
        }),
    decreases list.len(),
{
    if list.len() > 0 {
        let t = list.drop_last();
        lemma_news_said(t, known, vnode);
        lemma_covered_said(t, vnode);
        let last = narrowed(list.last(), known.union(covered(t)));
        lemma_said_of_push(t, list.last(), vnode);
        assert(list =~= t.push(list.last()));
        lemma_said_of_push(news(t, known), last, vnode);
        assert(speaks_of(last, vnode) <==> speaks_of(list.last(), vnode) && !known.union(
            covered(t),
        ).contains(vnode));
        if speaks_of(last, vnode) {
            assert(last.vnodes[vnode as int]);
        }
    }
}

proof fn lemma_carried_said(epochs: Seq<EpochWatermarksView>, known: Set<usize>, vnode: usize)
    ensures
        said_of(carried_over(epochs, known), vnode) == (if known.contains(vnode) {
            None
        } else {
            newest(epochs, vnode)
        }),
    decreases epochs.len(),
{
    if epochs.len() > 0 {
        let t = epochs.drop_last();
        let last = epochs.last().vnode_watermarks;
        let seen = known.union(covered(last));
        lemma_carried_said(t, seen, vnode);
        lemma_news_said(last, known, vnode);
        lemma_covered_said(last, vnode);
        lemma_said_of_add(news(last, known), carried_over(t, seen), vnode);
    }
}

proof fn lemma_newest_add(
    a: Seq<EpochWatermarksView>,
    b: Seq<EpochWatermarksView>,
    vnode: usize,
)
    ensures
        newest(a + b, vnode) == (match newest(b, vnode) {
            Some(x) => Some(x),
            None => newest(a, vnode),
        }),
    decreases b.len(),
{
    if b.len() == 0 {
        assert(a + b =~= a);
    } else {
        lemma_newest_add(a, b.drop_last(), vnode);
        assert((a + b).drop_last() =~= a + b.drop_last());
        assert((a + b).last() == b.last());
    }
}

proof fn lemma_covered_newest(epochs: Seq<EpochWatermarksView>, vnode: usize)
    ensures
        covered_by_all(epochs).contains(vnode) <==> newest(epochs, vnode) is Some,
    decreases epochs.len(),
{
    if epochs.len() > 0 {
        lemma_covered_newest(epochs.drop_last(), vnode);
        lemma_covered_said(epochs.last().vnode_watermarks, vnode);
    }
}

proof fn lemma_newest_one(entry: EpochWatermarksView, vnode: usize)
    ensures
        newest(seq![entry], vnode) == said_of(entry.vnode_watermarks, vnode),
{
    assert(seq![entry].last() == entry);
    assert(newest(seq![entry].drop_last(), vnode) is None);
}

proof fn lemma_first_kept_parts(epochs: Seq<EpochWatermarksView>, safe_epoch: u64)
    requires
        ascending(epochs),
    ensures
        0 <= first_kept(epochs, safe_epoch) <= epochs.len(),
        forall|i: int|
            0 <= i < epochs.len() ==> ((#[trigger] epochs[i]).epoch >= safe_epoch <==> i
                >= first_kept(epochs, safe_epoch)),
    decreases epochs.len(),
{
    if epochs.len() > 0 {
        let t = epochs.drop_last();
        assert forall|i: int, j: int| 0 <= i < j < t.len() implies (#[trigger] t[i]).epoch <= (
        #[trigger] t[j]).epoch by {
            assert(epochs[i] == t[i] && epochs[j] == t[j]);
        }
        lemma_first_kept_parts(t, safe_epoch);
        let n = epochs.len() - 1;
        assert forall|i: int| 0 <= i < epochs.len() implies ((#[trigger] epochs[i]).epoch
            >= safe_epoch <==> i >= first_kept(epochs, safe_epoch)) by {
            if i < n {
                assert(t[i] == epochs[i]);
                assert(epochs[i].epoch <= epochs[n].epoch);
            }
        }
    }
}

/// Clearing forgets no newest watermark of a virtual node.
pub proof fn clearing_keeps_newest_watermarks(
    w: TableWatermarksView,
    safe_epoch: u64,
    vnode: usize,
)
    requires
        ascending(w.watermarks),
    ensures
        newest(w.cleared(safe_epoch).watermarks, vnode) == newest(w.watermarks, vnode),
        w.cleared(safe_epoch).direction == w.direction,
{
    let all = w.watermarks;
    if all.len() > 0 && all[0].epoch < safe_epoch {
        let start = first_kept(all, safe_epoch);
        lemma_first_kept_parts(all, safe_epoch);
        let (stale, kept) = (all.take(start), all.skip(start));
        let known = covered_by_all(kept);
        let carried = carried_over(stale, known);
        let r = with_carried(kept, carried, safe_epoch);
        assert(stale + kept =~= all);
        lemma_newest_add(stale, kept, vnode);
        lemma_carried_said(stale, known, vnode);
        lemma_covered_newest(kept, vnode);
        if carried.len() > 0 {
            if kept.len() > 0 && kept[0].epoch == safe_epoch {
                let joined = EpochWatermarksView {
                    vnode_watermarks: kept[0].vnode_watermarks + carried,
                    ..kept[0]
                };
                let rest = kept.skip(1);
                assert(kept =~= seq![kept[0]] + rest);
                assert(r =~= seq![joined] + rest);
                lemma_newest_add(seq![kept[0]], rest, vnode);
                lemma_newest_add(seq![joined], rest, vnode);
                lemma_newest_one(kept[0], vnode);
                lemma_newest_one(joined, vnode);
                lemma_said_of_add(kept[0].vnode_watermarks, carried, vnode);
            } else {
                let first = EpochWatermarksView {
                    epoch: safe_epoch,
                    vnode_watermarks: carried,
                };
                lemma_newest_add(seq![first], kept, vnode);
                lemma_newest_one(first, vnode);
            }
        }
    }
}

/// Clearing leaves what is of the safe epoch or later where it is. Only at the safe epoch more may be
/// said, and only where something older was there.
pub proof fn clearing_keeps_later_entries(w: TableWatermarksView, safe_epoch: u64, i: int)
    requires
        ascending(w.watermarks),
        0 <= i < w.watermarks.len(),
        w.watermarks[i].epoch >= safe_epoch,
    ensures
        has_entry(w.cleared(safe_epoch).watermarks, w.watermarks[i]),
        w.watermarks[i].epoch > safe_epoch ==> w.cleared(safe_epoch).watermarks.contains(
            w.watermarks[i],
        ),
{
    let all = w.watermarks;
    let r = w.cleared(safe_epoch).watermarks;
    let e = all[i].vnode_watermarks;
    assert(e.take(e.len() as int) =~= e);
    if all[0].epoch < safe_epoch {
        let start = first_kept(all, safe_epoch);
        lemma_first_kept_parts(all, safe_epoch);
        let kept = all.skip(start);
        assert(kept[i - start] == all[i]);
        let shift = r.len() - kept.len();
        let k = i - start + shift;
        assert(r[k].epoch == all[i].epoch);
        assert(r[k].vnode_watermarks.take(e.len() as int) =~= e);
    } else {
        assert(r[i] == all[i]);
    }
}

/// What is said at the safe epoch after clearing of a virtual node that no later watermark speaks of
/// is the newest that was said of it.
pub proof fn clearing_carries_to_the_safe_epoch(
    w: TableWatermarksView,
    safe_epoch: u64,
    vnode: usize,
)
    requires
        ascending(w.watermarks),
        newest(w.watermarks, vnode) is Some,
        forall|i: int|
            0 <= i < w.watermarks.len() && (#[trigger] w.watermarks[i]).epoch >= safe_epoch
                ==> said_of(w.watermarks[i].vnode_watermarks, vnode) is None,
    ensures
        w.cleared(safe_epoch).watermarks.len() > 0,
        w.cleared(safe_epoch).watermarks[0].epoch == safe_epoch,
        said_of(w.cleared(safe_epoch).watermarks[0].vnode_watermarks, vnode) == newest(
            w.watermarks,
            vnode,
        ),
{
    let all = w.watermarks;
    lemma_first_kept_parts(all, safe_epoch);
    let start = first_kept(all, safe_epoch);
    let (stale, kept) = (all.take(start), all.skip(start));
    assert(stale + kept =~= all);
    lemma_newest_add(stale, kept, vnode);
    assert forall|k: int| 0 <= k < kept.len() implies said_of(
        (#[trigger] kept[k]).vnode_watermarks,
        vnode,
    ) is None by {
        assert(kept[k] == all[start + k]);
    }
    lemma_newest_none(kept, vnode);
    lemma_covered_newest(kept, vnode);
    if all[0].epoch >= safe_epoch {
        assert(start == 0);
        assert(stale.len() == 0);
    }
    let known = covered_by_all(kept);
    let carried = carried_over(stale, known);
    lemma_carried_said(stale, known, vnode);
    assert(said_of(carried, vnode) is Some);
    assert(carried.len() > 0);
    if kept.len() > 0 && kept[0].epoch == safe_epoch {
        lemma_said_of_add(kept[0].vnode_watermarks, carried, vnode);
    }
}

proof fn lemma_newest_none(epochs: Seq<EpochWatermarksView>, vnode: usize)
    requires
        forall|k: int|
            0 <= k < epochs.len() ==> said_of(
                (#[trigger] epochs[k]).vnode_watermarks,
                vnode,
            ) is None,
    ensures
        newest(epochs, vnode) is None,
    decreases epochs.len(),
{
    if epochs.len() > 0 {
        let t = epochs.drop_last();
        assert forall|k: int| 0 <= k < t.len() implies said_of(
            (#[trigger] t[k]).vnode_watermarks,
            vnode,
        ) is None by {
            assert(epochs[k] == t[k]);
        }
        lemma_newest_none(t, vnode);
        assert(said_of(epochs[epochs.len() - 1].vnode_watermarks, vnode) is None);
    }
}

/// Whether no virtual node is spoken of twice, and each watermark speaks of one.
pub open spec fn each_vnode_once(list: Seq<VnodeWatermarkView>) -> bool {
    &&& forall|a: int, b: int, vnode: usize|
        0 <= a < b < list.len() && #[trigger] speaks_of(list[a], vnode) ==> !#[trigger] speaks_of(
            list[b],
            vnode,
        )
    &&& forall|a: int| 0 <= a < list.len() ==> #[trigger] sets_a_bit(list[a])
}

/// Whether a watermark is for a virtual node.
pub open spec fn sets_a_bit(w: VnodeWatermarkView) -> bool {
    exists|i: int| 0 <= i < w.vnodes.len() && #[trigger] w.vnodes[i]
}

proof fn lemma_said_of_once(list: Seq<VnodeWatermarkView>, a: int, vnode: usize)
    requires
        each_vnode_once(list),
        0 <= a < list.len(),
        speaks_of(list[a], vnode),
    ensures
        said_of(list, vnode) == Some(list[a].watermark),
    decreases list.len(),
{
    if a == 0 {
    } else {
        if speaks_of(list[0], vnode) {
            assert(!speaks_of(list[a], vnode));
        }
        let t = list.skip(1);
        assert(t[a - 1] == list[a]);
        assert(each_vnode_once(t)) by {
            assert forall|x: int, y: int, v: usize|
                0 <= x < y < t.len() && #[trigger] speaks_of(t[x], v) implies !#[trigger] speaks_of(
                t[y],
                v,
            ) by {
                assert(t[x] == list[x + 1] && t[y] == list[y + 1]);
                assert(speaks_of(list[x + 1], v));
            }
            assert forall|x: int| 0 <= x < t.len() implies #[trigger] sets_a_bit(t[x]) by {
                assert(sets_a_bit(list[x + 1]));
            }
        }
        lemma_said_of_once(t, a - 1, vnode);
    }
}

proof fn lemma_once_add(a: Seq<VnodeWatermarkView>, b: Seq<VnodeWatermarkView>)
    requires
        each_vnode_once(a),
        each_vnode_once(b),
        forall|i: int, j: int, vnode: usize|
            0 <= i < a.len() && 0 <= j < b.len() && #[trigger] speaks_of(a[i], vnode)
                ==> !#[trigger] speaks_of(b[j], vnode),
    ensures
        each_vnode_once(a + b),
{
    let c = a + b;
    assert forall|x: int, y: int, v: usize|
        0 <= x < y < c.len() && #[trigger] speaks_of(c[x], v) implies !#[trigger] speaks_of(
        c[y],
        v,
    ) by {
        if y < a.len() {
            assert(c[x] == a[x] && c[y] == a[y]);
        } else if x < a.len() {
            assert(c[x] == a[x] && c[y] == b[y - a.len()]);
        } else {
            assert(c[x] == b[x - a.len()] && c[y] == b[y - a.len()]);
        }
    }
    assert forall|x: int| 0 <= x < c.len() implies #[trigger] sets_a_bit(c[x]) by {
        if x < a.len() {
            assert(c[x] == a[x]);
        } else {
            assert(c[x] == b[x - a.len()]);
        }
    }
}

proof fn lemma_news_once(list: Seq<VnodeWatermarkView>, known: Set<usize>)
    ensures
        each_vnode_once(news(list, known)),
        forall|a: int, vnode: usize|
            0 <= a < news(list, known).len() && #[trigger] speaks_of(news(list, known)[a], vnode)
                ==> !known.contains(vnode) && covered(list).contains(vnode),
    decreases list.len(),
{
    if list.len() > 0 {
        let t = list.drop_last();
        lemma_news_once(t, known);
        let (r, before) = (news(list, known), news(t, known));
        let last = narrowed(list.last(), known.union(covered(t)));
        assert forall|vnode: usize| #[trigger] speaks_of(last, vnode) implies speaks_of(
            list.last(),
            vnode,
        ) && !known.contains(vnode) && !covered(t).contains(vnode) by {}
        if sets_a_bit(last) {
            assert(r =~= before + seq![last]);
            lemma_once_add(before, seq![last]);
            assert forall|a: int, vnode: usize|
                0 <= a < r.len() && #[trigger] speaks_of(r[a], vnode) implies !known.contains(vnode)
                && covered(list).contains(vnode) by {
                if a < before.len() {
                    assert(r[a] == before[a]);
                } else {
                    assert(r[a] == last);
                    assert(vnodes_in(list.last().vnodes).contains(vnode));
                }
            }
        } else {
            assert(r == before);
        }
    }
}

proof fn lemma_carried_once(epochs: Seq<EpochWatermarksView>, known: Set<usize>)
    ensures
        each_vnode_once(carried_over(epochs, known)),
        forall|a: int, vnode: usize|
            0 <= a < carried_over(epochs, known).len() && #[trigger] speaks_of(
                carried_over(epochs, known)[a],
                vnode,
            ) ==> !known.contains(vnode),
    decreases epochs.len(),
{
    if epochs.len() > 0 {
        let t = epochs.drop_last();
        let last = epochs.last().vnode_watermarks;
        let seen = known.union(covered(last));
        lemma_news_once(last, known);
        lemma_carried_once(t, seen);
        let (a, b) = (news(last, known), carried_over(t, seen));
        lemma_once_add(a, b);
        let c = carried_over(epochs, known);
        assert forall|x: int, vnode: usize|
            0 <= x < c.len() && #[trigger] speaks_of(c[x], vnode) implies !known.contains(vnode) by {
            if x < a.len() {
                assert(c[x] == a[x]);
            } else {
                assert(c[x] == b[x - a.len()]);
            }
        }
    }
}

/// Whether entries are the kept ones with watermarks added at the safe epoch, behind those that are
/// there or in an entry of their own.
pub open spec fn added_to(
    kept: Seq<EpochWatermarksView>,
    added: Seq<VnodeWatermarkView>,
    safe_epoch: u64,
    r: Seq<EpochWatermarksView>,
) -> bool {
    if added.len() == 0 {
        r == kept
    } else if kept.len() > 0 && kept[0].epoch == safe_epoch {
        &&& r.len() == kept.len()
        &&& r[0].epoch == safe_epoch
        &&& r[0].vnode_watermarks == kept[0].vnode_watermarks + added
        &&& r.skip(1) == kept.skip(1)
    } else {
        &&& r.len() == kept.len() + 1
        &&& r[0].epoch == safe_epoch
        &&& r[0].vnode_watermarks == added
        &&& r.skip(1) == kept
    }
}

/// Whether watermarks say of each virtual node, once, what was newest of it, where nothing else is left
/// of it, and say nothing of others.
pub open spec fn fills_gaps(
    all: Seq<EpochWatermarksView>,
    kept: Seq<EpochWatermarksView>,
    added: Seq<VnodeWatermarkView>,
) -> bool {
    &&& each_vnode_once(added)
    &&& forall|vnode: usize| #[trigger]
        said_of(added, vnode) == (if newest(kept, vnode) is Some {
            None
        } else {
            newest(all, vnode)
        })
    &&& forall|a: int, vnode: usize|
        0 <= a < added.len() && #[trigger] speaks_of(added[a], vnode) ==> newest(
            kept,
            vnode,
        ) is None && newest(all, vnode) == Some(added[a].watermark)
}

proof fn lemma_carried_added(
    kept: Seq<EpochWatermarksView>,
    added: Seq<VnodeWatermarkView>,
    safe_epoch: u64,
)
    ensures
        added_to(kept, added, safe_epoch, with_carried(kept, added, safe_epoch)),
{
    let r = with_carried(kept, added, safe_epoch);
    if added.len() > 0 {
        if kept.len() > 0 && kept[0].epoch == safe_epoch {
            assert(r.skip(1) =~= kept.skip(1));
        } else {
            assert(r.skip(1) =~= kept);
        }
    }
}

proof fn lemma_carried_fills_gaps(
    stale: Seq<EpochWatermarksView>,
    kept: Seq<EpochWatermarksView>,
)
    ensures
        fills_gaps(stale + kept, kept, carried_over(stale, covered_by_all(kept))),
{
    let all = stale + kept;
    let known = covered_by_all(kept);
    let added = carried_over(stale, known);
    lemma_carried_once(stale, known);
    assert forall|vnode: usize| #[trigger] said_of(added, vnode) == (if newest(
        kept,
        vnode,
    ) is Some {
        None
    } else {
        newest(all, vnode)
    }) by {
        lemma_carried_said(stale, known, vnode);
        lemma_covered_newest(kept, vnode);
        lemma_newest_add(stale, kept, vnode);
    }
    assert forall|a: int, vnode: usize|
        0 <= a < added.len() && #[trigger] speaks_of(added[a], vnode) implies newest(
        kept,
        vnode,
    ) is None && newest(all, vnode) == Some(added[a].watermark) by {
        lemma_said_of_once(added, a, vnode);
        lemma_covered_newest(kept, vnode);
    }
}

/// Watermarks of which the first is not older than the safe epoch are left as they are.
pub proof fn clearing_leaves_what_is_not_stale(w: TableWatermarksView, safe_epoch: u64)
    requires
        w.watermarks.len() == 0 || w.watermarks[0].epoch >= safe_epoch,
    ensures
        w.cleared(safe_epoch) == w,
{
}

/// Clearing watermarks of which the first is older than the safe epoch leaves those of the safe epoch
/// or later, and at the safe epoch it adds what was said of virtual nodes of which nothing else is
/// left: the newest that was said of each, once, and nothing of other virtual nodes.
pub proof fn clearing_adds_what_is_missing(w: TableWatermarksView, safe_epoch: u64) -> (added: Seq<
    VnodeWatermarkView,
>)
    requires
        ascending(w.watermarks),
        w.watermarks.len() > 0,
        w.watermarks[0].epoch < safe_epoch,
    ensures
        ({
            let kept = w.watermarks.filter(|e: EpochWatermarksView| e.epoch >= safe_epoch);
            &&& added_to(kept, added, safe_epoch, w.cleared(safe_epoch).watermarks)
            &&& fills_gaps(w.watermarks, kept, added)
        }),
{
    let all = w.watermarks;
    lemma_first_kept_parts(all, safe_epoch);
    let start = first_kept(all, safe_epoch);
    let (stale, kept) = (all.take(start), all.skip(start));
    lemma_filter_suffix(all, start, |e: EpochWatermarksView| e.epoch >= safe_epoch);
    assert(stale + kept =~= all);
    let added = carried_over(stale, covered_by_all(kept));
    lemma_carried_added(kept, added, safe_epoch);
    lemma_carried_fills_gaps(stale, kept);
    added
}

/// The entries that a map of watermarks has for a table; none where it has no watermarks.
pub open spec fn entries_of(m: Map<TableId, TableWatermarksView>, t: TableId) -> Seq<
    EpochWatermarksView,
> {
    if m.dom().contains(t) {
        m[t].watermarks
    } else {
        Seq::empty()
    }
}

/// A table has watermarks after a delta if it had some or gets some, unless it is removed and had
/// some and gets some. They move as they did.
pub proof fn delta_decides_which_tables_have_watermarks(
    v: VersionView,
    delta: VersionDeltaView,
    order: Seq<CompactionGroupId>,
    t: TableId,
)
    requires
        v.with_delta(delta, order) is Some,
    ensures
        ({
            let had = v.table_watermarks.dom().contains(t);
            let gets = delta.new_table_watermarks.dom().contains(t);
            let r = v.with_delta(delta, order)->0.table_watermarks;
            &&& r.dom().contains(t) <==> (had || gets) && !(had && gets
                && delta.removed_table_ids.contains(t))
            &&& r.dom().contains(t) && had ==> r[t].direction == v.table_watermarks[t].direction
            &&& r.dom().contains(t) && gets ==> r[t].direction
                == delta.new_table_watermarks[t].direction
        }),
{
    if v.table_watermarks.dom().contains(t) && delta.new_table_watermarks.dom().contains(t)
        && !delta.removed_table_ids.contains(t) {
        assert(v.table_watermarks[t].precedes(delta.new_table_watermarks[t]));
    }
}

proof fn lemma_joined(
    v: VersionView,
    delta: VersionDeltaView,
    order: Seq<CompactionGroupId>,
    t: TableId,
)
    requires
        v.with_delta(delta, order) is Some,
        v.with_delta(delta, order)->0.table_watermarks.dom().contains(t),
        ascending(entries_of(v.table_watermarks, t)),
        !v.table_watermarks.dom().contains(t) ==> ascending(
            entries_of(delta.new_table_watermarks, t),
        ),
    ensures
        ascending(
            entries_of(v.table_watermarks, t) + entries_of(delta.new_table_watermarks, t),
        ),
{
    let had = v.table_watermarks.dom().contains(t);
    let gets = delta.new_table_watermarks.dom().contains(t);
    let joined = entries_of(v.table_watermarks, t) + entries_of(delta.new_table_watermarks, t);
    delta_decides_which_tables_have_watermarks(v, delta, order, t);
    if had && gets {
        assert(v.table_watermarks[t].precedes(delta.new_table_watermarks[t]));
        following_keeps_epochs_sorted(v.table_watermarks[t], delta.new_table_watermarks[t]);
    } else if had {
        assert(joined =~= v.table_watermarks[t].watermarks);
    } else {
        assert(joined =~= entries_of(delta.new_table_watermarks, t));
    }
}

/// After a delta no watermark of a table that had some, in the order of their epochs, is older than
/// the safe epoch of the table, whether or not the delta brings new ones.
pub proof fn delta_leaves_no_stale_watermark(
    v: VersionView,
    delta: VersionDeltaView,
    order: Seq<CompactionGroupId>,
    t: TableId,
    i: int,
)
    requires
        v.with_delta(delta, order) is Some,
        v.table_watermarks.dom().contains(t),
        v.table_watermarks[t].watermarks.len() > 0,
        ascending(v.table_watermarks[t].watermarks),
        v.with_delta(delta, order)->0.table_watermarks.dom().contains(t),
        v.with_delta(delta, order)->0.state_table_info.dom().contains(t),
        0 <= i < v.with_delta(delta, order)->0.table_watermarks[t].watermarks.len(),
    ensures
        v.with_delta(delta, order)->0.table_watermarks[t].watermarks[i].epoch >= v.with_delta(
            delta,
            order,
        )->0.state_table_info[t].safe_epoch,
{
    let r = v.with_delta(delta, order)->0;
    let cur = v.table_watermarks[t];
    let gets = delta.new_table_watermarks.dom().contains(t);
    let joined = if gets {
        cur.followed_by(delta.new_table_watermarks[t])
    } else {
        cur
    };
    lemma_joined(v, delta, order, t);
    assert(joined.watermarks =~= entries_of(v.table_watermarks, t) + entries_of(
        delta.new_table_watermarks,
        t,
    ));
    let safe_epoch = r.state_table_info[t].safe_epoch;
    clearing_drops_stale_epochs(joined, safe_epoch);
    if safe_epoch <= cur.watermarks[0].epoch {
        assert(joined.watermarks[0] == cur.watermarks[0]);
        if i > 0 {
            assert(joined.watermarks[0].epoch <= joined.watermarks[i].epoch);
        }
    }
}

/// A delta forgets no newest watermark: the newest watermark of each virtual node is the newest of
/// those that the table had and those that it gets, unless the table loses its watermarks.
pub proof fn delta_keeps_newest_watermarks(
    v: VersionView,
    delta: VersionDeltaView,
    order: Seq<CompactionGroupId>,
    t: TableId,
    vnode: usize,
)
    requires
        v.with_delta(delta, order) is Some,
        v.with_delta(delta, order)->0.table_watermarks.dom().contains(t),
        ascending(entries_of(v.table_watermarks, t)),
        !v.table_watermarks.dom().contains(t) ==> ascending(
            entries_of(delta.new_table_watermarks, t),
        ),
    ensures
        newest(v.with_delta(delta, order)->0.table_watermarks[t].watermarks, vnode) == newest(
            entries_of(v.table_watermarks, t) + entries_of(delta.new_table_watermarks, t),
            vnode,
        ),
{
    let r = v.with_delta(delta, order)->0;
    let had = v.table_watermarks.dom().contains(t);
    let gets = delta.new_table_watermarks.dom().contains(t);
    let joined = entries_of(v.table_watermarks, t) + entries_of(delta.new_table_watermarks, t);
    lemma_joined(v, delta, order, t);
    if had {
        let w = if gets {
            v.table_watermarks[t].followed_by(delta.new_table_watermarks[t])
        } else {
            v.table_watermarks[t]
        };
        assert(w.watermarks =~= joined);
        if r.state_table_info.dom().contains(t) {
            clearing_keeps_newest_watermarks(w, r.state_table_info[t].safe_epoch, vnode);
        }
    } else {
        assert(joined =~= delta.new_table_watermarks[t].watermarks);
    }
}

/// What a table had and what it gets at its safe epoch or later is there after a delta, at its epoch.
/// Where the table has no info, or had no watermark older than its safe epoch, all is there and
/// nothing else.
pub proof fn delta_keeps_later_watermarks(
    v: VersionView,
    delta: VersionDeltaView,
    order: Seq<CompactionGroupId>,
    t: TableId,
)
    requires
        v.with_delta(delta, order) is Some,
        v.with_delta(delta, order)->0.table_watermarks.dom().contains(t),
        ascending(entries_of(v.table_watermarks, t)),
        !v.table_watermarks.dom().contains(t) ==> ascending(
            entries_of(delta.new_table_watermarks, t),
        ),
    ensures
        ({
            let r = v.with_delta(delta, order)->0;
            let joined = entries_of(v.table_watermarks, t) + entries_of(
                delta.new_table_watermarks,
                t,
            );
            &&& !r.state_table_info.dom().contains(t) || entries_of(v.table_watermarks, t).len()
                == 0 || r.state_table_info[t].safe_epoch <= v.table_watermarks[t].watermarks[0].epoch
                ==> r.table_watermarks[t].watermarks == joined
            &&& r.state_table_info.dom().contains(t) ==> forall|i: int|
                0 <= i < joined.len() && (#[trigger] joined[i]).epoch
                    >= r.state_table_info[t].safe_epoch ==> has_entry(
                    r.table_watermarks[t].watermarks,
                    joined[i],
                )
            &&& r.state_table_info.dom().contains(t) ==> forall|i: int|
                0 <= i < joined.len() && (#[trigger] joined[i]).epoch
                    > r.state_table_info[t].safe_epoch
                    ==> r.table_watermarks[t].watermarks.contains(joined[i])
        }),
{
    let r = v.with_delta(delta, order)->0;
    let had = v.table_watermarks.dom().contains(t);
    let gets = delta.new_table_watermarks.dom().contains(t);
    let joined = entries_of(v.table_watermarks, t) + entries_of(delta.new_table_watermarks, t);
    lemma_joined(v, delta, order, t);
    let w = if had && gets {
        v.table_watermarks[t].followed_by(delta.new_table_watermarks[t])
    } else if had {
        v.table_watermarks[t]
    } else {
        delta.new_table_watermarks[t]
    };
    assert(w.watermarks =~= joined);
    if r.state_table_info.dom().contains(t) {
        let safe_epoch = r.state_table_info[t].safe_epoch;
        let now = r.table_watermarks[t].watermarks;
        assert forall|i: int| 0 <= i < joined.len() && (#[trigger] joined[i]).epoch
            >= safe_epoch implies has_entry(now, joined[i]) && (joined[i].epoch > safe_epoch
            ==> now.contains(joined[i])) by {
            if now == joined {
                let e = joined[i].vnode_watermarks;
                assert(e.take(e.len() as int) =~= e);
                assert(now[i] == joined[i]);
            } else {
                clearing_keeps_later_entries(w, safe_epoch, i);
            }
        }
    }
}

/// Where a table had a watermark older than its safe epoch, a delta leaves of what the table had and
/// what it gets that of the safe epoch or later, and adds at the safe epoch the newest of what is said
/// of virtual nodes of which nothing else is left.
pub proof fn delta_adds_what_is_missing(
    v: VersionView,
    delta: VersionDeltaView,
    order: Seq<CompactionGroupId>,
    t: TableId,
) -> (added: Seq<VnodeWatermarkView>)
    requires
        v.with_delta(delta, order) is Some,
        v.with_delta(delta, order)->0.table_watermarks.dom().contains(t),
        v.with_delta(delta, order)->0.state_table_info.dom().contains(t),
        ascending(entries_of(v.table_watermarks, t)),
        entries_of(v.table_watermarks, t).len() > 0,
        entries_of(v.table_watermarks, t)[0].epoch < v.with_delta(
            delta,
            order,
        )->0.state_table_info[t].safe_epoch,
    ensures
        ({
            let r = v.with_delta(delta, order)->0;
            let safe_epoch = r.state_table_info[t].safe_epoch;
            let joined = entries_of(v.table_watermarks, t) + entries_of(
                delta.new_table_watermarks,
                t,
            );
            let kept = joined.filter(|e: EpochWatermarksView| e.epoch >= safe_epoch);
            &&& added_to(kept, added, safe_epoch, r.table_watermarks[t].watermarks)
            &&& fills_gaps(joined, kept, added)
        }),
{
    let r = v.with_delta(delta, order)->0;
    let joined = entries_of(v.table_watermarks, t) + entries_of(delta.new_table_watermarks, t);
    lemma_joined(v, delta, order, t);
    let w = if delta.new_table_watermarks.dom().contains(t) {
        v.table_watermarks[t].followed_by(delta.new_table_watermarks[t])
    } else {
        v.table_watermarks[t]
    };
    assert(w.watermarks =~= joined);
    clearing_adds_what_is_missing(w, r.state_table_info[t].safe_epoch)
}

/// The watermarks as of the safe epoch are there for a table if and only if it is listed, has
/// watermarks, and the first of them are of its safe epoch. They are all that the table has at that
/// epoch.
pub proof fn safe_watermarks_are_the_first_entry(
    tables: Map<TableId, TableWatermarksView>,
    info: Map<TableId, StateTableInfo>,
    existing: Seq<u32>,
    t: TableId,
)
    ensures
        safe_watermarks(tables, info, existing).dom().contains(t) <==> existing.contains(t)
            && tables.dom().contains(t) && tables[t].watermarks.len() > 0
            && tables[t].watermarks[0].epoch == info[t].safe_epoch,
        safe_watermarks(tables, info, existing).dom().contains(t) ==> {
            let r = safe_watermarks(tables, info, existing)[t];
            &&& r.watermarks.len() == 1
            &&& r.watermarks[0] == tables[t].watermarks[0]
            &&& r.direction == tables[t].direction
        },
{
}

/// A virtual node has a watermark for reading if and only if something is said of it, and it reads
/// what is said.
pub proof fn reading_finds_what_is_said(w: TableWatermarksView, vnode: u16)
    requires
        w.watermarks.len() == 1,
        vnodes_distinct(w.watermarks[0].vnode_watermarks),
    ensures
        for_reading(w).direction == w.direction,
        for_reading(w).vnode_watermarks.dom().contains(vnode) <==> said_of(
            w.watermarks[0].vnode_watermarks,
            vnode as usize,
        ) is Some,
        for_reading(w).vnode_watermarks.dom().contains(vnode) ==> Some(
            for_reading(w).vnode_watermarks[vnode],
        ) == said_of(w.watermarks[0].vnode_watermarks, vnode as usize),
{
    lemma_by_vnode_said(w.watermarks[0].vnode_watermarks, vnode);
}

proof fn lemma_by_vnode_said(list: Seq<VnodeWatermarkView>, vnode: u16)
    requires
        vnodes_distinct(list),
    ensures
        watermark_by_vnode(list).dom().contains(vnode) <==> said_of(list, vnode as usize) is Some,
        watermark_by_vnode(list).dom().contains(vnode) ==> Some(watermark_by_vnode(list)[vnode])
            == said_of(list, vnode as usize),
    decreases list.len(),
{
    if list.len() > 0 {
        let t = list.drop_last();
        lemma_said_of_push(t, list.last(), vnode as usize);
        assert(list =~= t.push(list.last()));
        assert(vnodes_distinct(t)) by {
            assert forall|a: int, v: int|
                0 <= a < t.len() && #[trigger] crate::safe_epoch::is_for(t[a], v) implies v
                <= u16::MAX by {
                assert(crate::safe_epoch::is_for(list[a], v));
            }
            assert forall|a: int, b: int, v: int|
                0 <= a < b < t.len() && #[trigger] crate::safe_epoch::is_for(
                    t[a],
                    v,
                ) implies !#[trigger] crate::safe_epoch::is_for(t[b], v) by {
                assert(crate::safe_epoch::is_for(list[a], v));
                assert(!crate::safe_epoch::is_for(list[b], v));
            }
        }
        lemma_by_vnode_said(t, vnode);
        if said_of(t, vnode as usize) is Some {
            lemma_said_somewhere(t, vnode as usize);
            let i = choose|i: int| 0 <= i < t.len() && speaks_of(#[trigger] t[i], vnode as usize);
            assert(crate::safe_epoch::is_for(list[i], vnode as int));
            assert(!crate::safe_epoch::is_for(list[list.len() - 1], vnode as int));
        }
    }
}

proof fn lemma_said_somewhere(list: Seq<VnodeWatermarkView>, vnode: usize)
    requires
        said_of(list, vnode) is Some,
    ensures
        exists|i: int| 0 <= i < list.len() && speaks_of(#[trigger] list[i], vnode),
    decreases list.len(),
{
    if speaks_of(list[0], vnode) {
    } else {
        lemma_said_somewhere(list.skip(1), vnode);
        let i = choose|i: int|
            0 <= i < list.skip(1).len() && speaks_of(#[trigger] list.skip(1)[i], vnode);
        assert(speaks_of(list[i + 1], vnode));
    }
}

} // verus!
