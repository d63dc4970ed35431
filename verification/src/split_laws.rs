//! What a split makes of a level, stated SST by SST.
use crate::level::LevelType;
use vstd::prelude::*;

#[allow(unused_imports)]
use crate::buf::lex_less;
#[allow(unused_imports)]
use crate::key::full_key;
#[allow(unused_imports)]
use crate::level::LevelView;
#[allow(unused_imports)]
use crate::seqs::{
    lemma_filter_prefix, lemma_filter_suffix, lemma_first_index, lemma_is_first_index,
};
#[allow(unused_imports)]
use crate::split::{
    at_least, branched_ssts, remaining_ssts, split_at, split_ids, split_level_at,
    split_level_by_tables, split_off, starts_at_or_after, touches,
};
#[allow(unused_imports)]
use crate::sstable_info::SstView;

verus! {

/// Whether an SST is another one under an id.
pub open spec fn under_id(sst: SstView, sst_id: int, after: SstView) -> bool {
    after.sst_id == sst_id && after == (SstView { sst_id: after.sst_id, ..sst })
}

/// Whether an SST holds one of the tables.
pub open spec fn holds_one_of(sst: SstView, tables: Set<u32>) -> bool {
    exists|k: int| 0 <= k < sst.table_ids.len() && tables.contains(#[trigger] sst.table_ids[k])
}

/// The SSTs that hold one of the tables.
pub open spec fn with_one_of(ssts: Seq<SstView>, tables: Set<u32>) -> Seq<SstView> {
    ssts.filter(|s: SstView| holds_one_of(s, tables))
}

/// Whether an SST stays as it is where it holds none of the tables, and otherwise under the id behind
/// that of its branch.
pub open spec fn stays_by_tables(
    ssts: Seq<SstView>,
    tables: Set<u32>,
    new_sst_id: u64,
    i: int,
    after: SstView,
) -> bool {
    if holds_one_of(ssts[i], tables) {
        under_id(ssts[i], new_sst_id + with_one_of(ssts.take(i), tables).len() + 1, after)
    } else {
        after == ssts[i]
    }
}

proof fn lemma_branched(ssts: Seq<SstView>, members: Set<u32>, new_sst_id: u64)
    requires
        new_sst_id + branched_ssts(ssts, members, new_sst_id).len() <= u64::MAX,
    ensures
        branched_ssts(ssts, members, new_sst_id).len() == with_one_of(ssts, members).len(),
        forall|k: int|
            0 <= k < with_one_of(ssts, members).len() ==> under_id(
                with_one_of(ssts, members)[k],
                new_sst_id + k,
                #[trigger] branched_ssts(ssts, members, new_sst_id)[k],
            ),
    decreases ssts.len(),
{
    reveal(Seq::filter);
    let p = |s: SstView| holds_one_of(s, members);
    if ssts.len() > 0 {
        let t = ssts.drop_last();
        lemma_branched(t, members, new_sst_id);
        assert(touches(ssts.last(), members) == holds_one_of(ssts.last(), members));
        assert(p(ssts.last()) == holds_one_of(ssts.last(), members));
        let (b, tb) = (
            branched_ssts(ssts, members, new_sst_id),
            branched_ssts(t, members, new_sst_id),
        );
        let (w, tw) = (with_one_of(ssts, members), with_one_of(t, members));
        assert forall|k: int| 0 <= k < w.len() implies under_id(
            w[k],
            new_sst_id + k,
            #[trigger] b[k],
        ) by {
            if k < tw.len() {
                assert(b[k] == tb[k]);
                assert(w[k] == tw[k]);
            }
        }
    } else {
        assert(with_one_of(ssts, members) =~= Seq::empty());
    }
}

proof fn lemma_remaining(ssts: Seq<SstView>, members: Set<u32>, new_sst_id: u64)
    requires
        new_sst_id + branched_ssts(ssts, members, new_sst_id).len() <= u64::MAX,
    ensures
        remaining_ssts(ssts, members, new_sst_id).len() == ssts.len(),
        forall|i: int|
            0 <= i < ssts.len() ==> stays_by_tables(
                ssts,
                members,
                new_sst_id,
                i,
                #[trigger] remaining_ssts(ssts, members, new_sst_id)[i],
            ),
    decreases ssts.len(),
{
    if ssts.len() > 0 {
        let t = ssts.drop_last();
        let n = ssts.len() - 1;
        lemma_remaining(t, members, new_sst_id);
        lemma_branched(t, members, new_sst_id);
        assert(touches(ssts.last(), members) == holds_one_of(ssts.last(), members));
        let (r, tr) = (
            remaining_ssts(ssts, members, new_sst_id),
            remaining_ssts(t, members, new_sst_id),
        );
        assert forall|i: int| 0 <= i < ssts.len() implies stays_by_tables(
            ssts,
            members,
            new_sst_id,
            i,
            #[trigger] r[i],
        ) by {
            if i < n {
                assert(r[i] == tr[i]);
                assert(t[i] == ssts[i]);
                assert(t.take(i) =~= ssts.take(i));
                assert(stays_by_tables(t, members, new_sst_id, i, tr[i]));
            } else {
                assert(ssts.take(i) =~= t);
            }
        }
    }
}

/// When tables move, the SSTs that hold one of them branch off, in order and under the ids set aside;
/// all else of them stays the same. Every SST stays too, and all of it but the ids of those that branch
/// off. The level is the same one, and counts what it counted.
pub proof fn split_by_tables_branches_their_ssts(
    level: LevelView,
    new_sst_id: u64,
    members: Set<u32>,
)
    requires
        split_level_by_tables(level, new_sst_id, members) is Some,
    ensures
        ({
            let r = split_level_by_tables(level, new_sst_id, members)->0;
            let moving = with_one_of(level.table_infos, members);
            &&& r.next_sst_id == new_sst_id + moving.len()
            &&& r.branched.len() == moving.len()
            &&& forall|k: int|
                0 <= k < moving.len() ==> under_id(
                    moving[k],
                    new_sst_id + k,
                    #[trigger] r.branched[k],
                )
            &&& r.level == (LevelView { table_infos: r.level.table_infos, ..level })
            &&& r.level.table_infos.len() == level.table_infos.len()
            &&& forall|i: int|
                0 <= i < level.table_infos.len() ==> stays_by_tables(
                    level.table_infos,
                    members,
                    new_sst_id,
                    i,
                    #[trigger] r.level.table_infos[i],
                )
        }),
{
    lemma_branched(level.table_infos, members, new_sst_id);
    lemma_remaining(level.table_infos, members, new_sst_id);
}

/// A split of an SST without a key keeps all of it but its id, on both sides.
pub proof fn split_without_key_copies(sst: SstView, new_sst_id: u64)
    ensures
        split_off(sst, new_sst_id, None) is Some <==> new_sst_id < u64::MAX,
        split_off(sst, new_sst_id, None) is Some ==> under_id(
            sst,
            new_sst_id + 1,
            (split_off(sst, new_sst_id, None)->0).0,
        ) && under_id(sst, new_sst_id as int, (split_off(sst, new_sst_id, None)->0).1),
{
}

/// Whether an SST is what is left of another one in front of a key.
pub open spec fn cut_before(
    sst: SstView,
    new_sst_id: u64,
    split_key: Seq<u8>,
    after: SstView,
) -> bool {
    &&& after == (SstView {
        sst_id: after.sst_id,
        key_range: after.key_range,
        estimated_sst_size: after.estimated_sst_size,
        table_ids: after.table_ids,
        ..sst
    })
    &&& after.sst_id == new_sst_id + 1
    &&& after.key_range.left == sst.key_range.left
    &&& after.key_range.right == split_key
    &&& after.key_range.right_exclusive
    &&& after.estimated_sst_size == sst.estimated_sst_size / 2
    &&& after.table_ids == tables_before(sst.table_ids, split_key)
}

/// Whether an SST is what is left of another one from a key on.
pub open spec fn cut_from(
    sst: SstView,
    new_sst_id: u64,
    split_key: Seq<u8>,
    after: SstView,
) -> bool {
    &&& after == (SstView {
        sst_id: after.sst_id,
        key_range: after.key_range,
        estimated_sst_size: after.estimated_sst_size,
        table_ids: after.table_ids,
        ..sst
    })
    &&& after.sst_id == new_sst_id
    &&& after.key_range.left == split_key
    &&& after.key_range.right == sst.key_range.right
    &&& after.key_range.right_exclusive == sst.key_range.right_exclusive
    &&& after.estimated_sst_size == sst.estimated_sst_size / 2
    &&& after.table_ids == tables_from(sst.table_ids, split_key)
}

/// Whether a key is of the first virtual node of its table.
pub open spec fn at_first_vnode(split_key: Seq<u8>) -> bool {
    full_key(split_key).user_key.table_key[0] == 0 && full_key(split_key).user_key.table_key[1] == 0
}

/// The tables with keys in front of the key.
pub open spec fn tables_before(table_ids: Seq<u32>, split_key: Seq<u8>) -> Seq<u32> {
    let t = full_key(split_key).user_key.table_id;
    table_ids.filter(|id: u32| id < t || id == t && !at_first_vnode(split_key))
}

/// The tables with keys from the key on.
pub open spec fn tables_from(table_ids: Seq<u32>, split_key: Seq<u8>) -> Seq<u32> {
    let t = full_key(split_key).user_key.table_id;
    table_ids.filter(|id: u32| id >= t)
}

/// Whether the ids are in order, each once, and the table of the key is one of them where it would be
/// on both sides.
pub open spec fn ids_can_be_cut(table_ids: Seq<u32>, split_key: Seq<u8>) -> bool {
    &&& forall|i: int, j: int|
        0 <= i < j < table_ids.len() ==> #[trigger] table_ids[i] < #[trigger] table_ids[j]
    &&& at_first_vnode(split_key) || table_ids.contains(full_key(split_key).user_key.table_id)
}

/// The tables of an SST that is split at a key go to the sides on which they have keys.
pub proof fn split_ids_go_to_their_sides(table_ids: Seq<u32>, split_key: Seq<u8>)
    requires
        split_ids(table_ids, split_key) is Some,
        ids_can_be_cut(table_ids, split_key),
    ensures
        split_ids(table_ids, split_key)->0 == (
            tables_before(table_ids, split_key),
            tables_from(table_ids, split_key),
        ),
{
    let key = full_key(split_key).user_key;
    let t = key.table_id;
    let pos = crate::seqs::first_index(table_ids, at_least(t));
    lemma_first_index(table_ids, at_least(t));
    let p = |id: u32| id < t || id == t && !at_first_vnode(split_key);
    let q = |id: u32| id >= t;
    assert(key.vnode() == 0 <==> at_first_vnode(split_key)) by {
        let (a, b) = (key.table_key[0], key.table_key[1]);
        assert(key.vnode() == a * 256 + b);
    }
    assert forall|i: int| pos <= i < table_ids.len() implies #[trigger] table_ids[i] >= t by {
        assert(at_least(t)(table_ids[pos]));
        if i > pos {
            assert(table_ids[pos] < table_ids[i]);
        }
    }
    assert forall|i: int| 0 <= i < pos implies #[trigger] table_ids[i] < t by {
        assert(!at_least(t)(table_ids[i]));
    }
    lemma_filter_suffix(table_ids, pos, q);
    if at_first_vnode(split_key) {
        lemma_filter_prefix(table_ids, pos, p);
    } else {
        let k = choose|k: int| 0 <= k < table_ids.len() && table_ids[k] == t;
        assert(table_ids[k] == t);
        if k > pos {
            assert(table_ids[pos] < table_ids[k]);
        }
        assert(k == pos);
        assert forall|i: int| pos + 1 <= i < table_ids.len() implies !p(
            #[trigger] table_ids[i],
        ) by {
            assert(table_ids[pos] < table_ids[i]);
        }
        lemma_filter_prefix(table_ids, pos + 1, p);
    }
}

/// Of tables in order, `p` of which, at the front, are smaller than the key's: these are on the left
/// and the others on the right, and the first of the others is on the left too where the key is not of
/// the first virtual node.
pub proof fn split_ids_go_by_place(table_ids: Seq<u32>, split_key: Seq<u8>, p: int)
    requires
        split_ids(table_ids, split_key) is Some,
        0 <= p <= table_ids.len(),
        forall|i: int|
            0 <= i < p ==> #[trigger] table_ids[i] < full_key(split_key).user_key.table_id,
        p < table_ids.len() ==> table_ids[p] >= full_key(split_key).user_key.table_id,
    ensures
        (split_ids(table_ids, split_key)->0).1 == table_ids.skip(p),
        at_first_vnode(split_key) ==> (split_ids(table_ids, split_key)->0).0 == table_ids.take(p),
        !at_first_vnode(split_key) ==> p < table_ids.len() && (split_ids(
            table_ids,
            split_key,
        )->0).0 == table_ids.take(p + 1),
{
    let key = full_key(split_key).user_key;
    lemma_is_first_index(table_ids, at_least(key.table_id), p);
    assert(key.vnode() == 0 <==> at_first_vnode(split_key)) by {
        let (a, b) = (key.table_key[0], key.table_key[1]);
        assert(key.vnode() == a * 256 + b);
    }
}

/// An SST is cut at a key into what lies in front of the key and what lies from it on.
pub proof fn split_cuts_at_key(sst: SstView, new_sst_id: u64, split_key: Seq<u8>)
    requires
        split_at(sst, new_sst_id, split_key) is Some,
        ids_can_be_cut(sst.table_ids, split_key),
    ensures
        cut_before(sst, new_sst_id, split_key, (split_at(sst, new_sst_id, split_key)->0).0),
        cut_from(sst, new_sst_id, split_key, (split_at(sst, new_sst_id, split_key)->0).1),
        split_off(sst, new_sst_id, Some(split_key)) == split_at(sst, new_sst_id, split_key),
{
    split_ids_go_to_their_sides(sst.table_ids, split_key);
}

/// When a level is split at a key, `p` of whose SSTs, at the front, start before it: these stay, and
/// the others branch off, all as they are. The last of those in front is cut where it reaches the key.
/// The level is the same one, and counts what it counted.
pub proof fn split_at_key_parts_a_level(
    level: LevelView,
    new_sst_id: u64,
    split_key: Seq<u8>,
    p: int,
)
    requires
        split_level_at(level, new_sst_id, split_key) is Some,
        level.level_type != LevelType::Overlapping,
        0 <= p <= level.table_infos.len(),
        forall|i: int|
            0 <= i < p ==> lex_less((#[trigger] level.table_infos[i]).key_range.left, split_key),
        forall|i: int|
            p <= i < level.table_infos.len() ==> !lex_less(
                (#[trigger] level.table_infos[i]).key_range.left,
                split_key,
            ),
    ensures
        ({
            let r = split_level_at(level, new_sst_id, split_key)->0;
            let (ssts, stay) = (level.table_infos, r.level.table_infos);
            let range = ssts[p - 1].key_range;
            let whole = p == 0 || lex_less(range.right, split_key) || (range.right_exclusive
                && range.right == split_key);
            &&& r.level == (LevelView { table_infos: stay, ..level })
            &&& stay.len() == p
            &&& whole ==> stay == ssts.take(p) && r.branched == ssts.skip(p) && r.next_sst_id
                == new_sst_id
            &&& !whole ==> {
                &&& stay.take(p - 1) == ssts.take(p - 1)
                &&& r.branched.len() == ssts.len() - p + 1
                &&& r.branched.skip(1) == ssts.skip(p)
                &&& r.next_sst_id == new_sst_id + 1
                &&& ids_can_be_cut(ssts[p - 1].table_ids, split_key) ==> cut_before(
                    ssts[p - 1],
                    new_sst_id,
                    split_key,
                    stay[p - 1],
                ) && cut_from(ssts[p - 1], new_sst_id, split_key, r.branched[0])
            }
        }),
{
    let r = split_level_at(level, new_sst_id, split_key)->0;
    let ssts = level.table_infos;
    if ssts.len() > 0 {
        lemma_is_first_index(ssts, starts_at_or_after(split_key), p);
        if p > 0 {
            assert(lex_less(ssts[p - 1].key_range.left, split_key));
            let range = ssts[p - 1].key_range;
            if !(lex_less(range.right, split_key) || (range.right_exclusive && range.right
                == split_key)) {
                assert(r.level.table_infos.take(p - 1) =~= ssts.take(p - 1));
                assert(r.branched.skip(1) =~= ssts.skip(p));
                if ids_can_be_cut(ssts[p - 1].table_ids, split_key) {
                    split_cuts_at_key(ssts[p - 1], new_sst_id, split_key);
                }
            }
        } else {
            assert(!lex_less(ssts[0].key_range.left, split_key));
        }
    } else {
        assert(r.branched =~= ssts.skip(p));
        assert(r.level.table_infos =~= ssts.take(p));
    }
}

/// When a level whose SSTs may overlap is split at a key, all of them stay and all of them branch off,
/// in order and under the ids set aside.
pub proof fn split_at_key_copies_overlapping(
    level: LevelView,
    new_sst_id: u64,
    split_key: Seq<u8>,
)
    requires
        split_level_at(level, new_sst_id, split_key) is Some,
        level.level_type == LevelType::Overlapping,
    ensures
        ({
            let r = split_level_at(level, new_sst_id, split_key)->0;
            let (ssts, stay) = (level.table_infos, r.level.table_infos);
            &&& r.level == (LevelView { table_infos: stay, ..level })
            &&& stay.len() == ssts.len()
            &&& r.branched.len() == ssts.len()
            &&& r.next_sst_id == new_sst_id + ssts.len()
            &&& forall|i: int|
                0 <= i < ssts.len() ==> under_id(ssts[i], new_sst_id + i + 1, #[trigger] stay[i])
            &&& forall|i: int|
                0 <= i < ssts.len() ==> under_id(ssts[i], new_sst_id + i, #[trigger] r.branched[i])
        }),
{
}

} // verus!
