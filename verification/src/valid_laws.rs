//! What validation finds, stated on what a version holds.
use crate::level::{CompactionGroupId, LevelType};
use vstd::prelude::*;

#[allow(unused_imports)]
use crate::buf::lex_less;
#[allow(unused_imports)]
use crate::group_deltas::strictly_increasing;
#[allow(unused_imports)]
use crate::key::full_key;
#[allow(unused_imports)]
use crate::key_range::KeyRangeView;
#[allow(unused_imports)]
use crate::level::{LevelView, LevelsView};
#[allow(unused_imports)]
use crate::maps::{is_walk, lemma_gather_walk};
#[allow(unused_imports)]
use crate::query_laws::joined_up;
#[allow(unused_imports)]
use crate::sstable_info::SstView;
#[allow(unused_imports)]
use crate::text::{decimal, level_type_text, sst_text};
#[allow(unused_imports)]
use crate::validate::{
    first_level_violations, first_sst_violations, first_sub_level_violations, group_violations,
    kind_violations, level_name, level_violations, listed_if, sst_violations,
    sub_level_violations,
};
#[allow(unused_imports)]
use crate::version::VersionView;

verus! {

/// Whether a range ends before another starts: its right user key lies before the other's left one,
/// or is the same and left out.
pub open spec fn parted(a: KeyRangeView, b: KeyRangeView) -> bool {
    let (end, start) = (full_key(a.right).user_key, full_key(b.left).user_key);
    ||| end.table_id < start.table_id
    ||| end.table_id == start.table_id && lex_less(end.table_key, start.table_key)
    ||| end.table_id == start.table_id && end.table_key == start.table_key && a.right_exclusive
}

/// Whether the tables of an SST are in order, each once.
pub open spec fn tables_in_order(sst: SstView) -> bool {
    forall|i: int, j: int|
        0 <= i < j < sst.table_ids.len() ==> #[trigger] sst.table_ids[i]
            < #[trigger] sst.table_ids[j]
}

/// Whether neighbours in a level that lets none overlap are apart.
pub open spec fn neighbours_parted(level: LevelView, i: int) -> bool {
    level.level_type == LevelType::Nonoverlapping && 0 < i < level.table_infos.len() ==> parted(
        level.table_infos[i - 1].key_range,
        level.table_infos[i].key_range,
    )
}

/// Whether all is well in a level that should have a number.
pub open spec fn level_sound(expected: u32, level: LevelView) -> bool {
    &&& level.level_idx == expected
    &&& expected == 0 ==> level.table_infos.len() > 0
    &&& expected != 0 ==> level.level_type == LevelType::Nonoverlapping
    &&& forall|i: int|
        0 <= i < level.table_infos.len() ==> tables_in_order(#[trigger] level.table_infos[i])
    &&& forall|i: int| #[trigger] neighbours_parted(level, i)
}

/// Whether all is well in a group: sub-levels go from the newest to the oldest, and all levels are
/// sound.
pub open spec fn group_sound(group_id: CompactionGroupId, levels: LevelsView) -> bool {
    &&& levels.group_id == group_id
    &&& forall|i: int|
        0 <= i < levels.l0.sub_levels.len() ==> (
        #[trigger] levels.l0.sub_levels[i]).sub_level_id < u64::MAX && level_sound(
            0,
            levels.l0.sub_levels[i],
        )
    &&& forall|i: int, j: int|
        0 <= i < j < levels.l0.sub_levels.len() ==> (
        #[trigger] levels.l0.sub_levels[i]).sub_level_id > (
        #[trigger] levels.l0.sub_levels[j]).sub_level_id
    &&& forall|i: int|
        0 <= i < levels.levels.len() ==> level_sound((i + 1) as u32, #[trigger] levels.levels[i])
}

/// What may be said of a level.
pub open spec fn told_of_level(
    group_id: CompactionGroupId,
    expected: u32,
    level: LevelView,
    text: Seq<char>,
) -> bool {
    let name = if level.level_idx == 0 {
        "GROUP "@ + decimal(group_id) + " LEVEL "@ + decimal(level.level_idx as u64) + "SUBLEVEL "@
            + decimal(level.sub_level_id)
    } else {
        "GROUP "@ + decimal(group_id) + " LEVEL "@ + decimal(level.level_idx as u64)
    };
    ||| level.level_idx == 0 && level.table_infos.len() == 0 && text == name + ": empty level"@
    ||| level.level_idx != 0 && level.level_type != LevelType::Nonoverlapping && text == name
        + ": level type "@ + level_type_text(level.level_type) + " is not non-overlapping"@
    ||| level.level_idx != expected && text == name + ": mismatched level idx "@ + decimal(
        expected as u64,
    )
    ||| exists|i: int|
        0 <= i < level.table_infos.len() && told_of_sst(
            name,
            level,
            #[trigger] level.table_infos[i],
            i,
            text,
        )
}

/// What may be said of an SST of a level.
pub open spec fn told_of_sst(
    name: Seq<char>,
    level: LevelView,
    sst: SstView,
    i: int,
    text: Seq<char>,
) -> bool {
    ||| !tables_in_order(sst) && text == name + " SST "@ + decimal(sst.object_id)
        + ": table_ids not sorted"@
    ||| !neighbours_parted(level, i) && text == name + " SST "@ + decimal(sst.object_id)
        + ": key range should not overlap. prev="@ + sst_text(level.table_infos[i - 1])
        + ", cur="@ + sst_text(sst)
}

/// What may be said of a group.
pub open spec fn told_of_group(
    group_id: CompactionGroupId,
    levels: LevelsView,
    text: Seq<char>,
) -> bool {
    let subs = levels.l0.sub_levels;
    ||| levels.group_id != group_id && text == "GROUP "@ + decimal(group_id)
        + ": inconsistent group id "@ + decimal(levels.group_id) + " in Levels"@
    ||| exists|i: int|
        0 <= i < subs.len() && told_of_sub_level(group_id, subs, #[trigger] subs[i], i, text)
    ||| exists|i: int|
        0 <= i < levels.levels.len() && told_of_level(
            group_id,
            (i + 1) as u32,
            #[trigger] levels.levels[i],
            text,
        )
}

/// What may be said of a sub-level.
pub open spec fn told_of_sub_level(
    group_id: CompactionGroupId,
    sub_levels: Seq<LevelView>,
    level: LevelView,
    i: int,
    text: Seq<char>,
) -> bool {
    let front = if i == 0 {
        u64::MAX
    } else {
        sub_levels[i - 1].sub_level_id
    };
    ||| level.sub_level_id >= front && text == "GROUP "@ + decimal(group_id)
        + " LEVEL 0: sub_level_id "@ + decimal(level.level_idx as u64) + " >= prev_sub_level "@
        + decimal(front)
    ||| told_of_level(group_id, 0, level, text)
}

proof fn lemma_tables_in_order(sst: SstView)
    ensures
        strictly_increasing(sst.table_ids) <==> tables_in_order(sst),
{
    if strictly_increasing(sst.table_ids) {
        assert(tables_in_order(sst));
    }
}

proof fn lemma_in_two<A>(a: Seq<A>, b: Seq<A>, x: A)
    ensures
        (a + b).contains(x) <==> a.contains(x) || b.contains(x),
{
    let all = a + b;
    if all.contains(x) {
        let k = choose|k: int| 0 <= k < all.len() && all[k] == x;
        if k < a.len() {
            assert(a[k] == x);
        } else {
            assert(b[k - a.len()] == x);
        }
    }
    if a.contains(x) {
        let k = choose|k: int| 0 <= k < a.len() && a[k] == x;
        assert(all[k] == x);
    }
    if b.contains(x) {
        let k = choose|k: int| 0 <= k < b.len() && b[k] == x;
        assert(all[a.len() + k] == x);
    }
}

proof fn lemma_listed(holds: bool, text: Seq<char>, x: Seq<char>)
    ensures
        listed_if(holds, text).contains(x) <==> holds && x == text,
{
    if holds {
        assert(listed_if(holds, text)[0] == text);
    }
}

proof fn lemma_sst_told(name: Seq<char>, level: LevelView, i: int, text: Seq<char>)
    requires
        0 <= i < level.table_infos.len(),
    ensures
        sst_violations(name, level, i).contains(text) <==> told_of_sst(
            name,
            level,
            level.table_infos[i],
            i,
            text,
        ),
{
    let sst = level.table_infos[i];
    lemma_tables_in_order(sst);
    let order_text = name + " SST "@ + decimal(sst.object_id) + ": table_ids not sorted"@;
    let overlap_text = name + " SST "@ + decimal(sst.object_id)
        + ": key range should not overlap. prev="@ + sst_text(level.table_infos[i - 1])
        + ", cur="@ + sst_text(sst);
    let overlaps = crate::validate::overlaps_previous(level, i);
    assert(overlaps <==> !neighbours_parted(level, i));
    lemma_listed(!strictly_increasing(sst.table_ids), order_text, text);
    lemma_listed(overlaps, overlap_text, text);
    lemma_in_two(
        listed_if(!strictly_increasing(sst.table_ids), order_text),
        listed_if(overlaps, overlap_text),
        text,
    );
}

proof fn lemma_ssts_told(name: Seq<char>, level: LevelView, n: int, text: Seq<char>)
    requires
        0 <= n <= level.table_infos.len(),
    ensures
        first_sst_violations(name, level, n).contains(text) <==> exists|i: int|
            0 <= i < n && told_of_sst(name, level, #[trigger] level.table_infos[i], i, text),
    decreases n,
{
    if n > 0 {
        lemma_ssts_told(name, level, n - 1, text);
        lemma_sst_told(name, level, n - 1, text);
        lemma_in_two(
            first_sst_violations(name, level, n - 1),
            sst_violations(name, level, n - 1),
            text,
        );
        assert(told_of_sst(name, level, level.table_infos[n - 1], n - 1, text)
            || !told_of_sst(name, level, level.table_infos[n - 1], n - 1, text));
    }
}

/// The violations listed of a level are those that it has, each under its text.
pub proof fn level_violations_are_told(
    group_id: CompactionGroupId,
    expected: u32,
    level: LevelView,
    text: Seq<char>,
)
    ensures
        level_violations(group_id, expected, level).contains(text) <==> told_of_level(
            group_id,
            expected,
            level,
            text,
        ),
{
    reveal(level_violations);
    let name = level_name(group_id, level);
    let n = level.table_infos.len() as int;
    let number_text = name + ": mismatched level idx "@ + decimal(expected as u64);
    let kind = kind_violations(name, level);
    let number = listed_if(level.level_idx != expected, number_text);
    let ssts = first_sst_violations(name, level, n);
    lemma_in_two(kind + number, ssts, text);
    lemma_in_two(kind, number, text);
    lemma_ssts_told(name, level, n, text);
    lemma_listed(level.level_idx != expected, number_text, text);
    lemma_listed(level.table_infos.len() == 0, name + ": empty level"@, text);
    lemma_listed(
        level.level_type != LevelType::Nonoverlapping,
        name + ": level type "@ + level_type_text(level.level_type) + " is not non-overlapping"@,
        text,
    );
}

proof fn lemma_sub_levels_told(
    group_id: CompactionGroupId,
    subs: Seq<LevelView>,
    n: int,
    text: Seq<char>,
)
    requires
        0 <= n <= subs.len(),
    ensures
        first_sub_level_violations(group_id, subs, n).contains(text) <==> exists|i: int|
            0 <= i < n && told_of_sub_level(group_id, subs, #[trigger] subs[i], i, text),
    decreases n,
{
    if n > 0 {
        let i = n - 1;
        lemma_sub_levels_told(group_id, subs, i, text);
        let front = crate::validate::id_in_front(subs, i);
        let order_text = "GROUP "@ + decimal(group_id) + " LEVEL 0: sub_level_id "@ + decimal(
            subs[i].level_idx as u64,
        ) + " >= prev_sub_level "@ + decimal(front);
        lemma_listed(subs[i].sub_level_id >= front, order_text, text);
        level_violations_are_told(group_id, 0, subs[i], text);
        lemma_in_two(
            listed_if(subs[i].sub_level_id >= front, order_text),
            level_violations(group_id, 0, subs[i]),
            text,
        );
        lemma_in_two(
            first_sub_level_violations(group_id, subs, i),
            sub_level_violations(group_id, subs, i),
            text,
        );
        assert(sub_level_violations(group_id, subs, i).contains(text) <==> told_of_sub_level(
            group_id,
            subs,
            subs[i],
            i,
            text,
        ));
    }
}

proof fn lemma_upper_told(
    group_id: CompactionGroupId,
    levels: Seq<LevelView>,
    n: int,
    text: Seq<char>,
)
    requires
        0 <= n <= levels.len(),
    ensures
        first_level_violations(group_id, levels, n).contains(text) <==> exists|i: int|
            0 <= i < n && told_of_level(group_id, (i + 1) as u32, #[trigger] levels[i], text),
    decreases n,
{
    if n > 0 {
        lemma_upper_told(group_id, levels, n - 1, text);
        level_violations_are_told(group_id, n as u32, levels[n - 1], text);
        lemma_in_two(
            first_level_violations(group_id, levels, n - 1),
            level_violations(group_id, n as u32, levels[n - 1]),
            text,
        );
        let told = told_of_level(group_id, ((n - 1) + 1) as u32, levels[n - 1], text);
        assert(told == told_of_level(group_id, n as u32, levels[n - 1], text));
    }
}

/// The violations listed of a group are those that it has, each under its text.
pub proof fn group_violations_are_told(
    group_id: CompactionGroupId,
    levels: LevelsView,
    text: Seq<char>,
)
    ensures
        group_violations(group_id, levels).contains(text) <==> told_of_group(
            group_id,
            levels,
            text,
        ),
{
    let subs = levels.l0.sub_levels;
    let id_text = "GROUP "@ + decimal(group_id) + ": inconsistent group id "@ + decimal(
        levels.group_id,
    ) + " in Levels"@;
    let a = listed_if(levels.group_id != group_id, id_text);
    let b = first_sub_level_violations(group_id, subs, subs.len() as int);
    let c = first_level_violations(group_id, levels.levels, levels.levels.len() as int);
    lemma_listed(levels.group_id != group_id, id_text, text);
    lemma_sub_levels_told(group_id, subs, subs.len() as int, text);
    lemma_upper_told(group_id, levels.levels, levels.levels.len() as int, text);
    lemma_in_two(a + b, c, text);
    lemma_in_two(a, b, text);
}

/// The violations listed of a version are those that it has and that its groups have, each under its
/// text.
pub proof fn violations_are_told(
    version: VersionView,
    order: Seq<CompactionGroupId>,
    text: Seq<char>,
)
    requires
        is_walk(order, version.levels.dom()),
    ensures
        version.violations(order).contains(text) <==> {
            ||| version.safe_epoch > version.max_committed_epoch && text == "VERSION: safe_epoch "@
                + decimal(version.safe_epoch) + " > max_committed_epoch "@ + decimal(
                version.max_committed_epoch,
            )
            ||| exists|g: CompactionGroupId| #[trigger]
                version.levels.dom().contains(g) && told_of_group(g, version.levels[g], text)
        },
{
    let part = version.violations_of();
    let epoch_text = "VERSION: safe_epoch "@ + decimal(version.safe_epoch)
        + " > max_committed_epoch "@ + decimal(version.max_committed_epoch);
    let late = version.safe_epoch > version.max_committed_epoch;
    lemma_listed(late, epoch_text, text);
    lemma_in_two(listed_if(late, epoch_text), crate::maps::gather(order, part), text);
    lemma_gather_walk(order, version.levels.dom(), part, text);
    assert forall|g: CompactionGroupId| #[trigger]
        version.levels.dom().contains(g) implies (part(g).contains(text) <==> told_of_group(
        g,
        version.levels[g],
        text,
    )) by {
        group_violations_are_told(g, version.levels[g], text);
    }
}

proof fn lemma_level_sound(
    group_id: CompactionGroupId,
    expected: u32,
    level: LevelView,
)
    ensures
        (forall|text: Seq<char>| !#[trigger] told_of_level(group_id, expected, level, text))
            <==> level_sound(expected, level),
{
    let name = level_name(group_id, level);
    if forall|text: Seq<char>| !#[trigger] told_of_level(group_id, expected, level, text) {
        assert(!told_of_level(group_id, expected, level, name + ": empty level"@));
        assert(!told_of_level(
            group_id,
            expected,
            level,
            name + ": level type "@ + level_type_text(level.level_type)
                + " is not non-overlapping"@,
        ));
        assert(!told_of_level(
            group_id,
            expected,
            level,
            name + ": mismatched level idx "@ + decimal(expected as u64),
        ));
        assert forall|i: int| 0 <= i < level.table_infos.len() implies tables_in_order(
            #[trigger] level.table_infos[i],
        ) by {
            let sst = level.table_infos[i];
            let text = name + " SST "@ + decimal(sst.object_id) + ": table_ids not sorted"@;
            assert(!told_of_level(group_id, expected, level, text));
            assert(!told_of_sst(name, level, sst, i, text));
        }
        assert forall|i: int| #[trigger] neighbours_parted(level, i) by {
            if level.level_type == LevelType::Nonoverlapping && 0 < i < level.table_infos.len() {
                let sst = level.table_infos[i];
                let text = name + " SST "@ + decimal(sst.object_id)
                    + ": key range should not overlap. prev="@ + sst_text(
                    level.table_infos[i - 1],
                ) + ", cur="@ + sst_text(sst);
                assert(!told_of_level(group_id, expected, level, text));
                assert(!told_of_sst(name, level, sst, i, text));
            }
        }
    }
    if level_sound(expected, level) {
        assert forall|text: Seq<char>| !#[trigger] told_of_level(
            group_id,
            expected,
            level,
            text,
        ) by {
            assert forall|i: int| 0 <= i < level.table_infos.len() implies !told_of_sst(
                name,
                level,
                #[trigger] level.table_infos[i],
                i,
                text,
            ) by {
                assert(neighbours_parted(level, i));
            }
        }
    }
}

proof fn lemma_group_sound(group_id: CompactionGroupId, levels: LevelsView)
    ensures
        (forall|text: Seq<char>| !#[trigger] told_of_group(group_id, levels, text))
            <==> group_sound(group_id, levels),
{
    let subs = levels.l0.sub_levels;
    if forall|text: Seq<char>| !#[trigger] told_of_group(group_id, levels, text) {
        assert(!told_of_group(
            group_id,
            levels,
            "GROUP "@ + decimal(group_id) + ": inconsistent group id "@ + decimal(levels.group_id)
                + " in Levels"@,
        ));
        assert forall|i: int| 0 <= i < subs.len() implies #[trigger] id_drops(subs, i)
            && level_sound(0, subs[i]) by {
            let front = if i == 0 {
                u64::MAX
            } else {
                subs[i - 1].sub_level_id
            };
            let text = "GROUP "@ + decimal(group_id) + " LEVEL 0: sub_level_id "@ + decimal(
                subs[i].level_idx as u64,
            ) + " >= prev_sub_level "@ + decimal(front);
            assert(!told_of_group(group_id, levels, text));
            assert(!told_of_sub_level(group_id, subs, subs[i], i, text));
            assert forall|x: Seq<char>| !#[trigger] told_of_level(group_id, 0, subs[i], x) by {
                assert(!told_of_group(group_id, levels, x));
                assert(!told_of_sub_level(group_id, subs, subs[i], i, x));
            }
            lemma_level_sound(group_id, 0, subs[i]);
        }
        lemma_decreasing(subs);
        assert forall|i: int| 0 <= i < subs.len() implies (#[trigger] subs[i]).sub_level_id
            < u64::MAX && level_sound(0, subs[i]) by {
            assert(id_drops(subs, i));
        }
        assert forall|i: int| 0 <= i < levels.levels.len() implies level_sound(
            (i + 1) as u32,
            #[trigger] levels.levels[i],
        ) by {
            assert forall|x: Seq<char>| !#[trigger] told_of_level(
                group_id,
                (i + 1) as u32,
                levels.levels[i],
                x,
            ) by {
                assert(!told_of_group(group_id, levels, x));
            }
            lemma_level_sound(group_id, (i + 1) as u32, levels.levels[i]);
        }
    }
    if group_sound(group_id, levels) {
        assert forall|text: Seq<char>| !#[trigger] told_of_group(group_id, levels, text) by {
            assert forall|i: int| 0 <= i < subs.len() implies !told_of_sub_level(
                group_id,
                subs,
                #[trigger] subs[i],
                i,
                text,
            ) by {
                lemma_level_sound(group_id, 0, subs[i]);
                assert(!told_of_level(group_id, 0, subs[i], text));
                if i > 0 {
                    assert(subs[i - 1].sub_level_id > subs[i].sub_level_id);
                }
            }
            assert forall|i: int| 0 <= i < levels.levels.len() implies !told_of_level(
                group_id,
                (i + 1) as u32,
                #[trigger] levels.levels[i],
                text,
            ) by {
                lemma_level_sound(group_id, (i + 1) as u32, levels.levels[i]);
            }
        }
    }
}

/// Whether a sub-level's id is smaller than that of the one in front.
spec fn id_drops(subs: Seq<LevelView>, i: int) -> bool {
    subs[i].sub_level_id < (if i == 0 {
        u64::MAX
    } else {
        subs[i - 1].sub_level_id
    })
}

proof fn lemma_decreasing(subs: Seq<LevelView>)
    requires
        forall|i: int| 0 <= i < subs.len() ==> #[trigger] id_drops(subs, i),
    ensures
        forall|i: int, j: int|
            0 <= i < j < subs.len() ==> (#[trigger] subs[i]).sub_level_id > (
            #[trigger] subs[j]).sub_level_id,
        forall|i: int| 0 <= i < subs.len() ==> (#[trigger] subs[i]).sub_level_id < u64::MAX,
{
    assert forall|i: int, j: int| 0 <= i < j < subs.len() implies (
    #[trigger] subs[i]).sub_level_id > (#[trigger] subs[j]).sub_level_id by {
        lemma_decreasing_step(subs, i, j);
    }
    assert forall|i: int| 0 <= i < subs.len() implies (#[trigger] subs[i]).sub_level_id
        < u64::MAX by {
        assert(id_drops(subs, i));
        if i > 0 {
            assert(id_drops(subs, 0));
            lemma_decreasing_step(subs, 0, i);
        }
    }
}

proof fn lemma_decreasing_step(subs: Seq<LevelView>, i: int, j: int)
    requires
        forall|i: int| 0 <= i < subs.len() ==> #[trigger] id_drops(subs, i),
        0 <= i < j < subs.len(),
    ensures
        subs[i].sub_level_id > subs[j].sub_level_id,
    decreases j - i,
{
    assert(id_drops(subs, j));
    if i < j - 1 {
        lemma_decreasing_step(subs, i, j - 1);
    }
}

/// Nothing is listed of a version if and only if its safe epoch is not beyond its committed one and
/// all is well in its groups: in every level that lets no SSTs overlap each SST ends before the next
/// one starts, and so on.
pub proof fn nothing_is_told_of_a_sound_version(
    version: VersionView,
    order: Seq<CompactionGroupId>,
)
    requires
        is_walk(order, version.levels.dom()),
    ensures
        version.violations(order).len() == 0 <==> {
            &&& version.safe_epoch <= version.max_committed_epoch
            &&& forall|g: CompactionGroupId| #[trigger]
                version.levels.dom().contains(g) ==> group_sound(g, version.levels[g])
        },
{
    let all = version.violations(order);
    if all.len() == 0 {
        let epoch_text = "VERSION: safe_epoch "@ + decimal(version.safe_epoch)
            + " > max_committed_epoch "@ + decimal(version.max_committed_epoch);
        violations_are_told(version, order, epoch_text);
        assert(!all.contains(epoch_text));
        assert forall|g: CompactionGroupId| #[trigger]
            version.levels.dom().contains(g) implies group_sound(g, version.levels[g]) by {
            assert forall|text: Seq<char>| !#[trigger] told_of_group(
                g,
                version.levels[g],
                text,
            ) by {
                violations_are_told(version, order, text);
                assert(!all.contains(text));
            }
            lemma_group_sound(g, version.levels[g]);
        }
    }
    if version.safe_epoch <= version.max_committed_epoch && (forall|g: CompactionGroupId| #[trigger]
        version.levels.dom().contains(g) ==> group_sound(g, version.levels[g])) {
        if all.len() > 0 {
            let text = all[0];
            assert(all.contains(text));
            violations_are_told(version, order, text);
            let g = choose|g: CompactionGroupId| #[trigger]
                version.levels.dom().contains(g) && told_of_group(g, version.levels[g], text);
            lemma_group_sound(g, version.levels[g]);
        }
    }
}

/// A text where something holds, and none where it does not.
pub open spec fn text_if(holds: bool, text: Seq<char>) -> Seq<Seq<char>> {
    if holds {
        seq![text]
    } else {
        Seq::empty()
    }
}

/// What is listed of an SST of a level.
pub open spec fn listed_of_sst(name: Seq<char>, level: LevelView, i: int) -> Seq<Seq<char>> {
    let sst = level.table_infos[i];
    text_if(
        !tables_in_order(sst),
        name + " SST "@ + decimal(sst.object_id) + ": table_ids not sorted"@,
    ) + text_if(
        !neighbours_parted(level, i),
        name + " SST "@ + decimal(sst.object_id) + ": key range should not overlap. prev="@
            + sst_text(level.table_infos[i - 1]) + ", cur="@ + sst_text(sst),
    )
}

/// What is listed of a level that should have a number.
pub open spec fn listed_of_level(
    group_id: CompactionGroupId,
    expected: u32,
    level: LevelView,
) -> Seq<Seq<char>> {
    let place = "GROUP "@ + decimal(group_id) + " LEVEL "@ + decimal(level.level_idx as u64);
    let name = if level.level_idx == 0 {
        place + "SUBLEVEL "@ + decimal(level.sub_level_id)
    } else {
        place
    };
    text_if(
        level.level_idx == 0 && level.table_infos.len() == 0,
        name + ": empty level"@,
    ) + text_if(
        level.level_idx != 0 && level.level_type != LevelType::Nonoverlapping,
        name + ": level type "@ + level_type_text(level.level_type) + " is not non-overlapping"@,
    ) + text_if(
        level.level_idx != expected,
        name + ": mismatched level idx "@ + decimal(expected as u64),
    ) + joined_up(
        Seq::new(level.table_infos.len(), |i: int| listed_of_sst(name, level, i)),
    )
}

/// What is listed of a sub-level.
pub open spec fn listed_of_sub_level(
    group_id: CompactionGroupId,
    subs: Seq<LevelView>,
    i: int,
) -> Seq<Seq<char>> {
    let front = if i == 0 {
        u64::MAX
    } else {
        subs[i - 1].sub_level_id
    };
    text_if(
        subs[i].sub_level_id >= front,
        "GROUP "@ + decimal(group_id) + " LEVEL 0: sub_level_id "@ + decimal(
            subs[i].level_idx as u64,
        ) + " >= prev_sub_level "@ + decimal(front),
    ) + listed_of_level(group_id, 0, subs[i])
}

/// What is listed of a group: of the group itself, of its sub-levels, and of its levels above 0.
pub open spec fn listed_of_group(group_id: CompactionGroupId, levels: LevelsView) -> Seq<
    Seq<char>,
> {
    text_if(
        levels.group_id != group_id,
        "GROUP "@ + decimal(group_id) + ": inconsistent group id "@ + decimal(levels.group_id)
            + " in Levels"@,
    ) + joined_up(
        Seq::new(
            levels.l0.sub_levels.len(),
            |i: int| listed_of_sub_level(group_id, levels.l0.sub_levels, i),
        ),
    ) + joined_up(
        Seq::new(
            levels.levels.len(),
            |i: int| listed_of_level(group_id, (i + 1) as u32, levels.levels[i]),
        ),
    )
}

proof fn lemma_joined_new<A>(n: nat, f: spec_fn(int) -> Seq<A>)
    ensures
        n == 0 ==> joined_up(Seq::new(n, f)) == Seq::<A>::empty(),
        n > 0 ==> joined_up(Seq::new(n, f)) == joined_up(Seq::new((n - 1) as nat, f)) + f(
            n - 1,
        ),
{
    if n > 0 {
        let all = Seq::new(n, f);
        let ids = Seq::new(n, |i: int| i);
        crate::query_laws::gathering_joins_parts(ids, f);
        crate::query_laws::gathering_joins_parts(ids.drop_last(), f);
        assert(ids.map_values(f) =~= all);
        assert(ids.drop_last().map_values(f) =~= Seq::new((n - 1) as nat, f));
    }
}

proof fn lemma_ssts_listed(name: Seq<char>, level: LevelView, n: nat)
    requires
        n <= level.table_infos.len(),
    ensures
        first_sst_violations(name, level, n as int) == joined_up(
            Seq::new(n, |i: int| listed_of_sst(name, level, i)),
        ),
    decreases n,
{
    let f = |i: int| listed_of_sst(name, level, i);
    lemma_joined_new(n, f);
    if n > 0 {
        lemma_ssts_listed(name, level, (n - 1) as nat);
        let sst = level.table_infos[n - 1];
        lemma_tables_in_order(sst);
        let overlaps = crate::validate::overlaps_previous(level, n - 1);
        assert(overlaps <==> !neighbours_parted(level, n - 1));
        assert(sst_violations(name, level, n - 1) =~= f(n - 1));
    }
}

proof fn lemma_level_listed(group_id: CompactionGroupId, expected: u32, level: LevelView)
    ensures
        level_violations(group_id, expected, level) == listed_of_level(group_id, expected, level),
{
    reveal(level_violations);
    let name = level_name(group_id, level);
    lemma_ssts_listed(name, level, level.table_infos.len());
    let kind = kind_violations(name, level);
    let (a, b) = (
        text_if(level.level_idx == 0 && level.table_infos.len() == 0, name + ": empty level"@),
        text_if(
            level.level_idx != 0 && level.level_type != LevelType::Nonoverlapping,
            name + ": level type "@ + level_type_text(level.level_type)
                + " is not non-overlapping"@,
        ),
    );
    assert(kind =~= a + b);
}

proof fn lemma_sub_levels_listed(group_id: CompactionGroupId, subs: Seq<LevelView>, n: nat)
    requires
        n <= subs.len(),
    ensures
        first_sub_level_violations(group_id, subs, n as int) == joined_up(
            Seq::new(n, |i: int| listed_of_sub_level(group_id, subs, i)),
        ),
    decreases n,
{
    let f = |i: int| listed_of_sub_level(group_id, subs, i);
    lemma_joined_new(n, f);
    if n > 0 {
        lemma_sub_levels_listed(group_id, subs, (n - 1) as nat);
        lemma_level_listed(group_id, 0, subs[n - 1]);
        assert(sub_level_violations(group_id, subs, n - 1) =~= f(n - 1));
    }
}

proof fn lemma_upper_listed(group_id: CompactionGroupId, levels: Seq<LevelView>, n: nat)
    requires
        n <= levels.len(),
    ensures
        first_level_violations(group_id, levels, n as int) == joined_up(
            Seq::new(n, |i: int| listed_of_level(group_id, (i + 1) as u32, levels[i])),
        ),
    decreases n,
{
    let f = |i: int| listed_of_level(group_id, (i + 1) as u32, levels[i]);
    lemma_joined_new(n, f);
    if n > 0 {
        lemma_upper_listed(group_id, levels, (n - 1) as nat);
        lemma_level_listed(group_id, n as u32, levels[n - 1]);
    }
}

/// The violations of a version are listed once each, in order: first that of its epochs, and then group
/// by group those of the group, of its sub-levels and of its levels above 0; of a level first its own
/// and then those of its SSTs.
pub proof fn violations_are_listed_in_order(version: VersionView, order: Seq<CompactionGroupId>)
    ensures
        version.violations(order) == text_if(
            version.safe_epoch > version.max_committed_epoch,
            "VERSION: safe_epoch "@ + decimal(version.safe_epoch) + " > max_committed_epoch "@
                + decimal(version.max_committed_epoch),
        ) + joined_up(
            order.map_values(|g: CompactionGroupId| listed_of_group(g, version.levels[g])),
        ),
{
    crate::query_laws::gathering_joins_parts(order, version.violations_of());
    let f = |g: CompactionGroupId| listed_of_group(g, version.levels[g]);
    assert forall|i: int| 0 <= i < order.len() implies #[trigger] order.map_values(
        version.violations_of(),
    )[i] == order.map_values(f)[i] by {
        let levels = version.levels[order[i]];
        lemma_sub_levels_listed(order[i], levels.l0.sub_levels, levels.l0.sub_levels.len());
        lemma_upper_listed(order[i], levels.levels, levels.levels.len());
    }
    assert(order.map_values(version.violations_of()) =~= order.map_values(f));
}

} // verus!
