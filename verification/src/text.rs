//! Text renderings of numbers, byte strings and SST descriptions.
use crate::key_range::KeyRange;
use crate::level::LevelType;
use crate::sstable_info::{BloomFilterType, SstableInfo};
use bytes::Bytes;
use vstd::prelude::*;

#[allow(unused_imports)]
use crate::buf::contents;
#[allow(unused_imports)]
use crate::key_range::KeyRangeView;
#[allow(unused_imports)]
use crate::maps::gather;
#[allow(unused_imports)]
use crate::sstable_info::SstView;

verus! {

/// The decimal digit of a number below ten.
pub open spec fn digit(d: u64) -> Seq<char> {
    if d == 0 {
        "0"@
    } else if d == 1 {
        "1"@
    } else if d == 2 {
        "2"@
    } else if d == 3 {
        "3"@
    } else if d == 4 {
        "4"@
    } else if d == 5 {
        "5"@
    } else if d == 6 {
        "6"@
    } else if d == 7 {
        "7"@
    } else if d == 8 {
        "8"@
    } else {
        "9"@
    }
}

/// A number in decimal.
pub open spec fn decimal(n: u64) -> Seq<char>
    decreases n,
{
    if n < 10 {
        digit(n)
    } else {
        decimal(n / 10) + digit(n % 10)
    }
}

/// The decimal digit of a number below ten.
fn digit_str(d: u64) -> (r: &'static str)
    requires
        d < 10,
    ensures
        r@ == digit(d),
{
    if d == 0 {
        "0"
    } else if d == 1 {
        "1"
    } else if d == 2 {
        "2"
    } else if d == 3 {
        "3"
    } else if d == 4 {
        "4"
    } else if d == 5 {
        "5"
    } else if d == 6 {
        "6"
    } else if d == 7 {
        "7"
    } else if d == 8 {
        "8"
    } else {
        "9"
    }
}

/// A number in decimal.
pub fn decimal_string(n: u64) -> (r: String)
    ensures
        r@ == decimal(n),
    decreases n,
{
    if n < 10 {
        digit_str(n).to_owned()
    } else {
        let mut r = decimal_string(n / 10);
        r.append(digit_str(n % 10));
        r
    }
}

/// The lower-case hexadecimal digit of a number below sixteen.
pub open spec fn hex_digit(d: u8) -> char {
    if d < 10 {
        (48 + d) as char
    } else {
        (87 + d) as char
    }
}

/// A byte as it stands in a byte string literal: escaped where it is a quote, a backslash, or not
/// a printable ASCII character.
pub open spec fn byte_text() -> spec_fn(u8) -> Seq<char> {
    |b: u8|
        if b == 10 {
            seq!['\\', 'n']
        } else if b == 13 {
            seq!['\\', 'r']
        } else if b == 9 {
            seq!['\\', 't']
        } else if b == 92 || b == 34 {
            seq!['\\', b as char]
        } else if b == 0 {
            seq!['\\', '0']
        } else if 32 <= b < 127 {
            seq![b as char]
        } else {
            seq!['\\', 'x', hex_digit(b / 16), hex_digit(b % 16)]
        }
}

/// A byte string as a literal.
pub open spec fn bytes_text(s: Seq<u8>) -> Seq<char> {
    seq!['b', '"'] + gather(s, byte_text()) + seq!['"']
}

/// `Bytes::fmt` of `Debug`: the byte string as a byte string literal.
#[verifier::external_body]
pub(crate) fn bytes_string(b: &Bytes) -> (r: String)
    ensures
        r@ == bytes_text(contents(*b)),
{
    format!("{:?}", b)
}

/// The name of a truth value.
pub open spec fn bool_text(b: bool) -> Seq<char> {
    if b {
        "true"@
    } else {
        "false"@
    }
}

fn bool_str(b: bool) -> (r: &'static str)
    ensures
        r@ == bool_text(b),
{
    if b {
        "true"
    } else {
        "false"
    }
}

/// Numbers in decimal with commas between them.
pub open spec fn list_text(ids: Seq<u32>) -> Seq<char>
    decreases ids.len(),
{
    if ids.len() == 0 {
        Seq::empty()
    } else if ids.len() == 1 {
        decimal(ids[0] as u64)
    } else {
        list_text(ids.drop_last()) + ", "@ + decimal(ids.last() as u64)
    }
}

/// A list of numbers in brackets.
fn ids_string(ids: &Vec<u32>) -> (r: String)
    ensures
        r@ == "["@ + list_text(ids@) + "]"@,
{
    let mut list = String::new();
    let mut i: usize = 0;
    assert(list@ =~= list_text(ids@.take(0)));
    while i < ids.len()
        invariant
            i <= ids.len(),
            list@ == list_text(ids@.take(i as int)),
        decreases ids.len() - i,
    {
        proof {
            assert(ids@.take(i + 1).drop_last() =~= ids@.take(i as int));
            assert(ids@.take(i + 1).last() == ids@[i as int]);
            assert(ids@.take(i + 1)[0] == ids@[0]);
        }
        if i > 0 {
            list.append(", ");
        }
        list.append(decimal_string(ids[i] as u64).as_str());
        assert(list@ =~= list_text(ids@.take(i + 1)));
        i = i + 1;
    }
    assert(ids@.take(i as int) =~= ids@);
    let mut r = "[".to_owned();
    r.append(list.as_str());
    r.append("]");
    r
}

/// A key range, field by field.
pub open spec fn range_text(range: KeyRangeView) -> Seq<char> {
    "KeyRange { left: "@ + bytes_text(range.left) + ", right: "@ + bytes_text(range.right)
        + ", right_exclusive: "@ + bool_text(range.right_exclusive) + " }"@
}

fn range_string(range: &KeyRange) -> (r: String)
    ensures
        r@ == range_text(range@),
{
    let mut r = "KeyRange { left: ".to_owned();
    r.append(bytes_string(&range.left).as_str());
    r.append(", right: ");
    r.append(bytes_string(&range.right).as_str());
    r.append(", right_exclusive: ");
    r.append(bool_str(range.right_exclusive));
    r.append(" }");
    r
}

/// The name of a filter.
pub open spec fn filter_text(f: BloomFilterType) -> Seq<char> {
    match f {
        BloomFilterType::Unspecified => "Unspecified"@,
        BloomFilterType::Sstable => "Sstable"@,
        BloomFilterType::Blocked => "Blocked"@,
    }
}

fn filter_str(f: BloomFilterType) -> (r: &'static str)
    ensures
        r@ == filter_text(f),
{
    match f {
        BloomFilterType::Unspecified => "Unspecified",
        BloomFilterType::Sstable => "Sstable",
        BloomFilterType::Blocked => "Blocked",
    }
}

/// The name of a level type.
pub open spec fn level_type_text(t: LevelType) -> Seq<char> {
    match t {
        LevelType::Unspecified => "Unspecified"@,
        LevelType::Nonoverlapping => "Nonoverlapping"@,
        LevelType::Overlapping => "Overlapping"@,
    }
}

/// The name of a level type.
pub fn level_type_str(t: LevelType) -> (r: &'static str)
    ensures
        r@ == level_type_text(t),
{
    match t {
        LevelType::Unspecified => "Unspecified",
        LevelType::Nonoverlapping => "Nonoverlapping",
        LevelType::Overlapping => "Overlapping",
    }
}

/// The description of an SST, field by field.
pub open spec fn sst_text(sst: SstView) -> Seq<char> {
    "SstableInfo { object_id: "@ + decimal(sst.object_id) + ", sst_id: "@ + decimal(sst.sst_id)
        + ", key_range: "@ + range_text(sst.key_range) + ", file_size: "@ + decimal(sst.file_size)
        + ", table_ids: "@ + ("["@ + list_text(sst.table_ids) + "]"@) + ", meta_offset: "@
        + decimal(sst.meta_offset) + ", stale_key_count: "@ + decimal(sst.stale_key_count)
        + ", total_key_count: "@ + decimal(sst.total_key_count) + ", min_epoch: "@ + decimal(
        sst.min_epoch,
    ) + ", max_epoch: "@ + decimal(sst.max_epoch) + ", uncompressed_file_size: "@ + decimal(
        sst.uncompressed_file_size,
    ) + ", range_tombstone_count: "@ + decimal(sst.range_tombstone_count)
        + ", bloom_filter_kind: "@ + filter_text(sst.bloom_filter_kind) + ", estimated_sst_size: "@
        + decimal(sst.estimated_sst_size) + " }"@
}

/// The description of an SST, field by field.
pub fn sst_string(sst: &SstableInfo) -> (r: String)
    ensures
        r@ == sst_text(sst@),
{
    let mut r = "SstableInfo { object_id: ".to_owned();
    r.append(decimal_string(sst.object_id).as_str());
    r.append(", sst_id: ");
    r.append(decimal_string(sst.sst_id).as_str());
    r.append(", key_range: ");
    r.append(range_string(&sst.key_range).as_str());
    r.append(", file_size: ");
    r.append(decimal_string(sst.file_size).as_str());
    r.append(", table_ids: ");
    r.append(ids_string(&sst.table_ids).as_str());
    r.append(", meta_offset: ");
    r.append(decimal_string(sst.meta_offset).as_str());
    r.append(", stale_key_count: ");
    r.append(decimal_string(sst.stale_key_count).as_str());
    r.append(", total_key_count: ");
    r.append(decimal_string(sst.total_key_count).as_str());
    r.append(", min_epoch: ");
    r.append(decimal_string(sst.min_epoch).as_str());
    r.append(", max_epoch: ");
    r.append(decimal_string(sst.max_epoch).as_str());
    r.append(", uncompressed_file_size: ");
    r.append(decimal_string(sst.uncompressed_file_size).as_str());
    r.append(", range_tombstone_count: ");
    r.append(decimal_string(sst.range_tombstone_count).as_str());
    r.append(", bloom_filter_kind: ");
    r.append(filter_str(sst.bloom_filter_kind));
    r.append(", estimated_sst_size: ");
    r.append(decimal_string(sst.estimated_sst_size).as_str());
    r.append(" }");
    r
}

} // verus!
