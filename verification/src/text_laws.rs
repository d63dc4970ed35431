//! How SSTs are described in texts, stated field by field.
use crate::level::LevelType;
use crate::sstable_info::BloomFilterType;
use vstd::prelude::*;

#[allow(unused_imports)]
use crate::sstable_info::SstView;
#[allow(unused_imports)]
use crate::text::{
    bool_text, byte_text, decimal, filter_text, level_type_text, list_text, range_text, sst_text,
};

verus! {

/// Texts with a comma between each two.
pub open spec fn with_commas(parts: Seq<Seq<char>>) -> Seq<char>
    decreases parts.len(),
{
    if parts.len() == 0 {
        Seq::empty()
    } else if parts.len() == 1 {
        parts[0]
    } else {
        parts[0] + ", "@ + with_commas(parts.skip(1))
    }
}

/// A field with its name in front.
pub open spec fn field(name: Seq<char>, value: Seq<char>) -> Seq<char> {
    name + ": "@ + value
}

proof fn lemma_with_commas_push(parts: Seq<Seq<char>>, x: Seq<char>)
    requires
        parts.len() > 0,
    ensures
        with_commas(parts.push(x)) == with_commas(parts) + ", "@ + x,
    decreases parts.len(),
{
    let all = parts.push(x);
    if parts.len() == 1 {
        assert(all.skip(1) =~= seq![x]);
        assert(with_commas(all.skip(1)) == x);
        assert(with_commas(all) =~= with_commas(parts) + ", "@ + x);
    } else {
        lemma_with_commas_push(parts.skip(1), x);
        assert(all.skip(1) =~= parts.skip(1).push(x));
        assert(all[0] == parts[0]);
        assert(with_commas(all) =~= with_commas(parts) + ", "@ + x);
    }
}

/// A list of numbers has a comma between each two of them.
pub proof fn listed_numbers_have_commas(ids: Seq<u32>)
    ensures
        list_text(ids) == with_commas(ids.map_values(|id: u32| decimal(id as u64))),
    decreases ids.len(),
{
    let f = |id: u32| decimal(id as u64);
    if ids.len() > 1 {
        let t = ids.drop_last();
        listed_numbers_have_commas(t);
        lemma_with_commas_push(t.map_values(f), f(ids.last()));
        assert(t.map_values(f).push(f(ids.last())) =~= ids.map_values(f));
    }
}

/// A field more behind the others.
proof fn lemma_next_field(
    start: Seq<char>,
    parts: Seq<Seq<char>>,
    name: Seq<char>,
    value: Seq<char>,
    label: Seq<char>,
)
    requires
        parts.len() > 0,
        label == ", "@ + name + ": "@,
    ensures
        start + with_commas(parts) + label + value == start + with_commas(
            parts.push(field(name, value)),
        ),
{
    lemma_with_commas_push(parts, field(name, value));
    assert(start + with_commas(parts) + label + value =~= start + (with_commas(parts) + ", "@
        + field(name, value)));
}

proof fn lemma_first_labels()
    ensures
        "SstableInfo { object_id: "@ == "SstableInfo { "@ + "object_id"@ + ": "@,
        ", sst_id: "@ == ", "@ + "sst_id"@ + ": "@,
        ", key_range: "@ == ", "@ + "key_range"@ + ": "@,
        ", file_size: "@ == ", "@ + "file_size"@ + ": "@,
        ", table_ids: "@ == ", "@ + "table_ids"@ + ": "@,
        ", meta_offset: "@ == ", "@ + "meta_offset"@ + ": "@,
        ", stale_key_count: "@ == ", "@ + "stale_key_count"@ + ": "@,
{
    reveal_strlit(", ");
    reveal_strlit(": ");
    reveal_strlit("SstableInfo { object_id: ");
    reveal_strlit("SstableInfo { ");
    reveal_strlit("object_id");
    reveal_strlit(", sst_id: ");
    reveal_strlit("sst_id");
    reveal_strlit(", key_range: ");
    reveal_strlit("key_range");
    reveal_strlit(", file_size: ");
    reveal_strlit("file_size");
    reveal_strlit(", table_ids: ");
    reveal_strlit("table_ids");
    reveal_strlit(", meta_offset: ");
    reveal_strlit("meta_offset");
    reveal_strlit(", stale_key_count: ");
    reveal_strlit("stale_key_count");
    assert("SstableInfo { object_id: "@ =~= "SstableInfo { "@ + "object_id"@ + ": "@);
    assert(", sst_id: "@ =~= ", "@ + "sst_id"@ + ": "@);
    assert(", key_range: "@ =~= ", "@ + "key_range"@ + ": "@);
    assert(", file_size: "@ =~= ", "@ + "file_size"@ + ": "@);
    assert(", table_ids: "@ =~= ", "@ + "table_ids"@ + ": "@);
    assert(", meta_offset: "@ =~= ", "@ + "meta_offset"@ + ": "@);
    assert(", stale_key_count: "@ =~= ", "@ + "stale_key_count"@ + ": "@);
}

proof fn lemma_last_labels()
    ensures
        ", total_key_count: "@ == ", "@ + "total_key_count"@ + ": "@,
        ", min_epoch: "@ == ", "@ + "min_epoch"@ + ": "@,
        ", max_epoch: "@ == ", "@ + "max_epoch"@ + ": "@,
        ", uncompressed_file_size: "@ == ", "@ + "uncompressed_file_size"@ + ": "@,
        ", range_tombstone_count: "@ == ", "@ + "range_tombstone_count"@ + ": "@,
        ", bloom_filter_kind: "@ == ", "@ + "bloom_filter_kind"@ + ": "@,
        ", estimated_sst_size: "@ == ", "@ + "estimated_sst_size"@ + ": "@,
{
    reveal_strlit(", ");
    reveal_strlit(": ");
    reveal_strlit(", total_key_count: ");
    reveal_strlit("total_key_count");
    reveal_strlit(", min_epoch: ");
    reveal_strlit("min_epoch");
    reveal_strlit(", max_epoch: ");
    reveal_strlit("max_epoch");
    reveal_strlit(", uncompressed_file_size: ");
    reveal_strlit("uncompressed_file_size");
    reveal_strlit(", range_tombstone_count: ");
    reveal_strlit("range_tombstone_count");
    reveal_strlit(", bloom_filter_kind: ");
    reveal_strlit("bloom_filter_kind");
    reveal_strlit(", estimated_sst_size: ");
    reveal_strlit("estimated_sst_size");
    assert(", total_key_count: "@ =~= ", "@ + "total_key_count"@ + ": "@);
    assert(", min_epoch: "@ =~= ", "@ + "min_epoch"@ + ": "@);
    assert(", max_epoch: "@ =~= ", "@ + "max_epoch"@ + ": "@);
    assert(", uncompressed_file_size: "@ =~= ", "@ + "uncompressed_file_size"@ + ": "@);
    assert(", range_tombstone_count: "@ =~= ", "@ + "range_tombstone_count"@ + ": "@);
    assert(", bloom_filter_kind: "@ =~= ", "@ + "bloom_filter_kind"@ + ": "@);
    assert(", estimated_sst_size: "@ =~= ", "@ + "estimated_sst_size"@ + ": "@);
}

/// The first fields of an SST, with their names.
pub open spec fn first_fields(sst: SstView) -> Seq<Seq<char>> {
    seq![
        field("object_id"@, decimal(sst.object_id)),
        field("sst_id"@, decimal(sst.sst_id)),
        field("key_range"@, range_text(sst.key_range)),
        field("file_size"@, decimal(sst.file_size)),
        field("table_ids"@, "["@ + list_text(sst.table_ids) + "]"@),
        field("meta_offset"@, decimal(sst.meta_offset)),
        field("stale_key_count"@, decimal(sst.stale_key_count)),
    ]
}

/// The fields of an SST behind the first ones, with their names.
pub open spec fn last_fields(sst: SstView) -> Seq<Seq<char>> {
    seq![
        field("total_key_count"@, decimal(sst.total_key_count)),
        field("min_epoch"@, decimal(sst.min_epoch)),
        field("max_epoch"@, decimal(sst.max_epoch)),
        field("uncompressed_file_size"@, decimal(sst.uncompressed_file_size)),
        field("range_tombstone_count"@, decimal(sst.range_tombstone_count)),
        field("bloom_filter_kind"@, filter_text(sst.bloom_filter_kind)),
        field("estimated_sst_size"@, decimal(sst.estimated_sst_size)),
    ]
}

/// The description of an SST gives each of its fields with its name, in order and with a comma between
/// each two.
pub proof fn sst_is_described_by_its_fields(sst: SstView)
    ensures
        sst_text(sst) == "SstableInfo { "@ + with_commas(first_fields(sst) + last_fields(sst))
            + " }"@,
{
    let start = "SstableInfo { "@;
    let (f, l) = (first_fields(sst), last_fields(sst));
    lemma_first_labels();
    lemma_last_labels();
    let p1 = seq![f[0]];
    let p2 = p1.push(f[1]);
    let p3 = p2.push(f[2]);
    let p4 = p3.push(f[3]);
    let p5 = p4.push(f[4]);
    let p6 = p5.push(f[5]);
    let p7 = p6.push(f[6]);
    let p8 = p7.push(l[0]);
    let p9 = p8.push(l[1]);
    let p10 = p9.push(l[2]);
    let p11 = p10.push(l[3]);
    let p12 = p11.push(l[4]);
    let p13 = p12.push(l[5]);
    let p14 = p13.push(l[6]);
    assert("SstableInfo { object_id: "@ + decimal(sst.object_id) =~= start + with_commas(p1));
    lemma_next_field(start, p1, "sst_id"@, decimal(sst.sst_id), ", sst_id: "@);
    lemma_next_field(start, p2, "key_range"@, range_text(sst.key_range), ", key_range: "@);
    lemma_next_field(start, p3, "file_size"@, decimal(sst.file_size), ", file_size: "@);
    lemma_next_field(
        start,
        p4,
        "table_ids"@,
        "["@ + list_text(sst.table_ids) + "]"@,
        ", table_ids: "@,
    );
    lemma_next_field(start, p5, "meta_offset"@, decimal(sst.meta_offset), ", meta_offset: "@);
    lemma_next_field(
        start,
        p6,
        "stale_key_count"@,
        decimal(sst.stale_key_count),
        ", stale_key_count: "@,
    );
    lemma_next_field(
        start,
        p7,
        "total_key_count"@,
        decimal(sst.total_key_count),
        ", total_key_count: "@,
    );
    lemma_next_field(start, p8, "min_epoch"@, decimal(sst.min_epoch), ", min_epoch: "@);
    lemma_next_field(start, p9, "max_epoch"@, decimal(sst.max_epoch), ", max_epoch: "@);
    lemma_next_field(
        start,
        p10,
        "uncompressed_file_size"@,
        decimal(sst.uncompressed_file_size),
        ", uncompressed_file_size: "@,
    );
    lemma_next_field(
        start,
        p11,
        "range_tombstone_count"@,
        decimal(sst.range_tombstone_count),
        ", range_tombstone_count: "@,
    );
    lemma_next_field(
        start,
        p12,
        "bloom_filter_kind"@,
        filter_text(sst.bloom_filter_kind),
        ", bloom_filter_kind: "@,
    );
    lemma_next_field(
        start,
        p13,
        "estimated_sst_size"@,
        decimal(sst.estimated_sst_size),
        ", estimated_sst_size: "@,
    );
    assert(p14 =~= f + l);
}

/// Different kinds of filters, and different types of levels, have different names.
pub proof fn names_tell_kinds_apart(a: BloomFilterType, b: BloomFilterType, s: LevelType, t: LevelType)
    ensures
        filter_text(a) == filter_text(b) <==> a == b,
        level_type_text(s) == level_type_text(t) <==> s == t,
        bool_text(true) != bool_text(false),
{
    reveal_strlit("Unspecified");
    reveal_strlit("Sstable");
    reveal_strlit("Blocked");
    reveal_strlit("Nonoverlapping");
    reveal_strlit("Overlapping");
    reveal_strlit("true");
    reveal_strlit("false");
    assert("Sstable"@[0] == 'S' && "Blocked"@[0] == 'B' && "Unspecified"@[0] == 'U');
    assert("Nonoverlapping"@[0] == 'N' && "Overlapping"@[0] == 'O');
    assert("true"@[0] == 't' && "false"@[0] == 'f');
}

/// The number that a lower-case hexadecimal digit stands for.
pub open spec fn hex_value(c: char) -> int {
    if '0' as int <= c as int <= '9' as int {
        c as int - '0' as int
    } else {
        c as int - 'a' as int + 10
    }
}

/// A printable ASCII character other than a quote and a backslash stands for itself in a byte string
/// literal. Another byte is escaped: line ends, tabs and zeros by a letter or digit, quotes and
/// backslashes by themselves, and all others by two hexadecimal digits.
pub proof fn bytes_are_escaped(b: u8)
    ensures
        ({
            let text = byte_text()(b);
            let plain = 32 <= b < 127 && b != 34 && b != 92;
            let named = b == 0 || b == 9 || b == 10 || b == 13;
            &&& plain ==> text == seq![b as char]
            &&& !plain ==> text.len() >= 2 && text[0] == '\\'
            &&& b == 34 || b == 92 ==> text.len() == 2 && text[1] as int == b
            &&& b == 0 ==> text.len() == 2 && text[1] == '0'
            &&& b == 9 ==> text.len() == 2 && text[1] == 't'
            &&& b == 10 ==> text.len() == 2 && text[1] == 'n'
            &&& b == 13 ==> text.len() == 2 && text[1] == 'r'
            &&& !plain && !named && b != 34 && b != 92 ==> text.len() == 4 && text[1] == 'x'
                && hex_value(text[2]) * 16 + hex_value(text[3]) == b
        }),
{
}

} // verus!
