//! The order of keys and key ranges, and numbers in decimal, stated on bytes and digits.
use vstd::prelude::*;

#[allow(unused_imports)]
use crate::buf::lex_less;
#[allow(unused_imports)]
use crate::key::{encoded_less, encoded_order_is_key_order, full_key, u32_be, FullKeyView};
#[allow(unused_imports)]
use crate::key_range::KeyRangeView;
#[allow(unused_imports)]
use crate::split::split_side;
#[allow(unused_imports)]
use crate::text::{decimal, digit};

verus! {

/// Whether byte strings are the same up to a place, at which the first ends or has the smaller byte.
pub open spec fn smaller_at(a: Seq<u8>, b: Seq<u8>, k: int) -> bool {
    &&& 0 <= k <= a.len()
    &&& k < b.len()
    &&& a.take(k) == b.take(k)
    &&& k == a.len() || a[k] < b[k]
}

/// A byte string comes before another one if and only if they are the same up to a place at which it
/// ends or has the smaller byte.
pub proof fn first_difference_decides(a: Seq<u8>, b: Seq<u8>)
    ensures
        lex_less(a, b) <==> exists|k: int| #[trigger] smaller_at(a, b, k),
    decreases a.len(),
{
    if b.len() == 0 {
    } else if a.len() == 0 {
        assert(a.take(0) =~= b.take(0));
        assert(smaller_at(a, b, 0));
    } else if a[0] != b[0] {
        if a[0] < b[0] {
            assert(a.take(0) =~= b.take(0));
            assert(smaller_at(a, b, 0));
        }
        if exists|k: int| #[trigger] smaller_at(a, b, k) {
            let k = choose|k: int| #[trigger] smaller_at(a, b, k);
            if k > 0 {
                assert(a.take(k)[0] == b.take(k)[0]);
            }
        }
    } else {
        let (x, y) = (a.skip(1), b.skip(1));
        first_difference_decides(x, y);
        if lex_less(a, b) {
            let k = choose|k: int| #[trigger] smaller_at(x, y, k);
            assert forall|i: int| 0 <= i < k + 1 implies a[i] == b[i] by {
                if i > 0 {
                    assert(x.take(k)[i - 1] == y.take(k)[i - 1]);
                }
            }
            assert(a.take(k + 1) =~= b.take(k + 1));
            assert(smaller_at(a, b, k + 1));
        }
        if exists|k: int| #[trigger] smaller_at(a, b, k) {
            let k = choose|k: int| #[trigger] smaller_at(a, b, k);
            assert(k > 0);
            assert forall|i: int| 0 <= i < k - 1 implies x[i] == y[i] by {
                assert(a.take(k)[i + 1] == b.take(k)[i + 1]);
            }
            assert(x.take(k - 1) =~= y.take(k - 1));
            assert(smaller_at(x, y, k - 1));
        }
    }
}

/// Whether a full key comes before another one: by its table, then by its table key, and then the later
/// epoch first.
pub open spec fn key_before(a: FullKeyView, b: FullKeyView) -> bool {
    ||| a.user_key.table_id < b.user_key.table_id
    ||| a.user_key.table_id == b.user_key.table_id && lex_less(
        a.user_key.table_key,
        b.user_key.table_key,
    )
    ||| a.user_key.table_id == b.user_key.table_id && a.user_key.table_key == b.user_key.table_key
        && a.epoch > b.epoch
}

/// An encoded full key starts with its table, in four bytes, and ends with its epoch, in eight, the
/// larger bytes in front; a table key starts with its virtual node in two.
pub proof fn encoded_keys_are_big_endian(key: FullKeyView)
    ensures
        ({
            let (s, n) = (key.encoded(), key.user_key.table_key.len() as int);
            &&& s.len() == n + 12
            &&& s.subrange(4, 4 + n) == key.user_key.table_key
            &&& s[0] * 0x100_0000 + s[1] * 0x1_0000 + s[2] * 0x100 + s[3]
                == key.user_key.table_id
            &&& (s[n + 4] * 0x100_0000 + s[n + 5] * 0x1_0000 + s[n + 6] * 0x100 + s[n + 7])
                * 0x1_0000_0000 + (s[n + 8] * 0x100_0000 + s[n + 9] * 0x1_0000 + s[n + 10] * 0x100
                + s[n + 11]) == key.epoch
        }),
        key.user_key.table_key.len() >= 2 ==> key.user_key.vnode() == key.user_key.table_key[0]
            * 0x100 + key.user_key.table_key[1],
{
    let (s, t) = (key.encoded(), key.user_key.table_key);
    let n = t.len() as int;
    assert(s.subrange(4, 4 + n) =~= t);
    let (hi, lo) = ((key.epoch / 0x1_0000_0000) as u32, (key.epoch % 0x1_0000_0000) as u32);
    lemma_u32_bytes(key.user_key.table_id);
    lemma_u32_bytes(hi);
    lemma_u32_bytes(lo);
    assert forall|i: int| 0 <= i < 4 implies #[trigger] s[i] == u32_be(key.user_key.table_id)[i]
        && s[n + 4 + i] == u32_be(hi)[i] && s[n + 8 + i] == u32_be(lo)[i] by {}
    assert(s[n + 4] == u32_be(hi)[0] && s[n + 8] == u32_be(lo)[0]);
    assert(s[0] == u32_be(key.user_key.table_id)[0]);
    assert(s[1] == u32_be(key.user_key.table_id)[1]);
    assert(s[2] == u32_be(key.user_key.table_id)[2]);
    assert(s[3] == u32_be(key.user_key.table_id)[3]);
}

proof fn lemma_u32_bytes(x: u32)
    ensures
        u32_be(x)[0] * 0x100_0000 + u32_be(x)[1] * 0x1_0000 + u32_be(x)[2] * 0x100 + u32_be(x)[3]
            == x,
        u32_be(x).len() == 4,
{
}

/// Encoded full keys are ordered as the keys are.
pub proof fn encoded_keys_are_in_key_order(a: Seq<u8>, b: Seq<u8>)
    requires
        a.len() >= 12,
        b.len() >= 12,
    ensures
        encoded_less(a, b) <==> key_before(full_key(a), full_key(b)),
        full_key(a).less(full_key(b)) <==> key_before(full_key(a), full_key(b)),
{
    encoded_order_is_key_order(a, b);
}

/// Key ranges are ordered by their left bounds, then by their right bounds, of which an empty one is
/// beyond all others, and then the one that leaves its right bound out first.
pub proof fn ranges_are_in_order_of_bounds(a: KeyRangeView, b: KeyRangeView)
    ensures
        a.left != b.left && a.left.len() >= 12 && b.left.len() >= 12 ==> (a.less(b) <==> key_before(
            full_key(a.left),
            full_key(b.left),
        )),
        a.left == b.left && a.right != b.right && a.right.len() >= 12 && b.right.len() >= 12 ==> (
        a.less(b) <==> key_before(full_key(a.right), full_key(b.right))),
        a.left == b.left && a.right.len() > 0 && b.right.len() == 0 ==> a.less(b) && !b.less(a),
        a.left == b.left && a.right == b.right ==> (a.less(b) <==> a.right_exclusive
            && !b.right_exclusive),
{
    if a.left.len() >= 12 && b.left.len() >= 12 {
        encoded_keys_are_in_key_order(a.left, b.left);
    }
    if a.right.len() >= 12 && b.right.len() >= 12 {
        encoded_keys_are_in_key_order(a.right, b.right);
    }
}

/// A range ends before a key if and only if its right user key comes before the key's, or is the same
/// and left out.
pub proof fn range_ends_before_user_key(range: KeyRangeView, key: Seq<u8>)
    ensures
        ({
            let (end, start) = (full_key(range.right).user_key, full_key(key).user_key);
            range.ends_before(key) <==> end.table_id < start.table_id || (end.table_id
                == start.table_id && lex_less(end.table_key, start.table_key)) || (end.table_id
                == start.table_id && end.table_key == start.table_key && range.right_exclusive)
        }),
{
}

/// A range lies right of a key if it starts at the key or after it, left of it if it starts before the
/// key and ends before it or just there without it, and on both sides otherwise.
pub proof fn range_lies_on_its_side(range: KeyRangeView, key: Seq<u8>)
    ensures
        ({
            let starts_before = lex_less(range.left, key);
            let ends_before = lex_less(range.right, key) || (range.right == key
                && range.right_exclusive);
            &&& split_side(range, key) is Right <==> !starts_before
            &&& split_side(range, key) is Left <==> starts_before && ends_before
            &&& split_side(range, key) is Both <==> starts_before && !ends_before
        }),
{
}

/// The number of which a text is the decimal digits.
pub open spec fn value_of(text: Seq<char>) -> int
    decreases text.len(),
{
    if text.len() == 0 {
        0
    } else {
        value_of(text.drop_last()) * 10 + (text.last() as int - '0' as int)
    }
}

proof fn lemma_digit(d: u64)
    requires
        d < 10,
    ensures
        digit(d).len() == 1,
        digit(d)[0] as int == '0' as int + d,
{
    reveal_strlit("0");
    reveal_strlit("1");
    reveal_strlit("2");
    reveal_strlit("3");
    reveal_strlit("4");
    reveal_strlit("5");
    reveal_strlit("6");
    reveal_strlit("7");
    reveal_strlit("8");
    reveal_strlit("9");
}

/// The decimal text of a number is made of digits, has no zero in front, and is read as the number.
pub proof fn decimal_reads_as_the_number(n: u64)
    ensures
        value_of(decimal(n)) == n,
        decimal(n).len() > 0,
        forall|i: int|
            0 <= i < decimal(n).len() ==> '0' as int <= #[trigger] decimal(n)[i] as int <= '9' as int,
        n > 0 ==> decimal(n)[0] != '0',
    decreases n,
{
    if n < 10 {
        lemma_digit(n);
        let t = decimal(n);
        assert(t.drop_last() =~= Seq::empty());
        assert(value_of(t.drop_last()) == 0);
        assert(t.last() == t[0]);
    } else {
        decimal_reads_as_the_number(n / 10);
        lemma_digit(n % 10);
        let t = decimal(n);
        assert(t.drop_last() =~= decimal(n / 10));
        assert(t.last() == digit(n % 10)[0]);
        assert(t[0] == decimal(n / 10)[0]);
        assert forall|i: int| 0 <= i < t.len() implies '0' as int <= #[trigger] t[i] as int
            <= '9' as int by {
            if i < t.len() - 1 {
                assert(t[i] == decimal(n / 10)[i]);
            }
        }
    }
}

} // verus!
