//! Ranges of encoded full keys.
use crate::buf::{bytes_as_slice, bytes_clone, bytes_empty};
use crate::key::{encoded_key_less, FullKey};
use bytes::Bytes;
use vstd::prelude::*;

#[allow(unused_imports)]
use crate::buf::contents;
#[allow(unused_imports)]
use crate::key::{
    encoded_less, full_key, is_full_key, lemma_encoded_asymmetric, lemma_encoded_total,
    lemma_encoded_transitive,
};

verus! {

/// What a key range stands for.
#[verifier::ext_equal]
pub struct KeyRangeView {
    pub left: Seq<u8>,
    pub right: Seq<u8>,
    pub right_exclusive: bool,
}

/// The keys from `left` on, up to `right`. An empty bound leaves its side open.
#[derive(Debug, PartialEq, Eq)]
pub struct KeyRange {
    pub left: Bytes,
    pub right: Bytes,
    pub right_exclusive: bool,
}

impl View for KeyRange {
    type V = KeyRangeView;

    open spec fn view(&self) -> KeyRangeView {
        KeyRangeView {
            left: contents(self.left),
            right: contents(self.right),
            right_exclusive: self.right_exclusive,
        }
    }
}

impl KeyRangeView {
    /// The range of every key.
    pub open spec fn all() -> KeyRangeView {
        KeyRangeView { left: Seq::empty(), right: Seq::empty(), right_exclusive: false }
    }

    /// The order of ranges: by the left bound, then by the right bound, then the range that
    /// leaves its right bound out first.
    pub open spec fn less(self, other: KeyRangeView) -> bool {
        if self.left != other.left {
            encoded_less(self.left, other.left)
        } else if self.right != other.right {
            right_less(self.right, other.right)
        } else {
            self.right_exclusive && !other.right_exclusive
        }
    }

    /// Whether the right bound can be held against `key`.
    pub open spec fn right_comparable(self, key: Seq<u8>) -> bool {
        is_full_key(self.right) && is_full_key(key)
    }

    /// Whether the range ends before the user key of the encoded full key `key`.
    pub open spec fn ends_before(self, key: Seq<u8>) -> bool {
        let end = full_key(self.right).user_key;
        let start = full_key(key).user_key;
        end.less(start) || (end == start && self.right_exclusive)
    }
}

/// The order of right bounds: an empty one is beyond every other.
pub open spec fn right_less(a: Seq<u8>, b: Seq<u8>) -> bool {
    a.len() > 0 && (b.len() == 0 || encoded_less(a, b))
}

impl Clone for KeyRange {
    fn clone(&self) -> (r: KeyRange)
        ensures
            r@ == self@,
    {
        KeyRange {
            left: bytes_clone(&self.left),
            right: bytes_clone(&self.right),
            right_exclusive: self.right_exclusive,
        }
    }
}

impl Default for KeyRange {
    fn default() -> (r: KeyRange)
        ensures
            r@ == KeyRangeView::all(),
    {
        KeyRange { left: bytes_empty(), right: bytes_empty(), right_exclusive: false }
    }
}

impl KeyRange {
    /// Whether this range comes before the other.
    pub fn less(&self, other: &KeyRange) -> (r: bool)
        ensures
            r == self@.less(other@),
    {
        let left = bytes_as_slice(&self.left);
        let other_left = bytes_as_slice(&other.left);
        let right = bytes_as_slice(&self.right);
        let other_right = bytes_as_slice(&other.right);
        proof {
            lemma_encoded_total(left@, other_left@);
            lemma_encoded_asymmetric(left@, other_left@);
            lemma_encoded_asymmetric(left@, left@);
            lemma_encoded_total(right@, other_right@);
            lemma_encoded_asymmetric(right@, other_right@);
            lemma_encoded_asymmetric(right@, right@);
        }
        if encoded_key_less(left, other_left) {
            true
        } else if encoded_key_less(other_left, left) {
            false
        } else if right.len() == 0 || other_right.len() == 0 {
            if right.len() == other_right.len() {
                assert(right@ =~= other_right@);
                self.right_exclusive && !other.right_exclusive
            } else {
                right.len() > 0
            }
        } else if encoded_key_less(right, other_right) {
            true
        } else if encoded_key_less(other_right, right) {
            false
        } else {
            self.right_exclusive && !other.right_exclusive
        }
    }

    /// Whether this range ends before the user key of the encoded full key.
    pub fn ends_before(&self, key: &Bytes) -> (r: bool)
        requires
            self@.right_comparable(contents(*key)),
        ensures
            r == self@.ends_before(contents(*key)),
    {
        let end = FullKey::decode(bytes_as_slice(&self.right)).user_key;
        let start = FullKey::decode(bytes_as_slice(key)).user_key;
        proof {
            crate::buf::lemma_lex_total(end@.table_key, start@.table_key);
            crate::buf::lemma_lex_asymmetric(end@.table_key, start@.table_key);
        }
        end.less(&start) || (!start.less(&end) && self.right_exclusive)
    }
}

/// The order of key ranges never holds both ways.
pub proof fn lemma_range_asymmetric(a: KeyRangeView, b: KeyRangeView)
    ensures
        !(a.less(b) && b.less(a)),
{
    lemma_encoded_asymmetric(a.left, b.left);
    lemma_encoded_asymmetric(a.right, b.right);
}

/// A range that comes before another comes before every range that the other does not come
/// behind.
pub proof fn lemma_range_weak(a: KeyRangeView, b: KeyRangeView, c: KeyRangeView)
    requires
        a.less(b),
        !c.less(b),
    ensures
        a.less(c),
{
    lemma_encoded_total(b.left, c.left);
    lemma_encoded_total(b.right, c.right);
    lemma_encoded_asymmetric(a.left, c.left);
    lemma_encoded_asymmetric(a.left, b.left);
    lemma_encoded_asymmetric(a.right, b.right);
    if encoded_less(a.left, b.left) && encoded_less(b.left, c.left) {
        lemma_encoded_transitive(a.left, b.left, c.left);
    }
    if encoded_less(a.right, b.right) && encoded_less(b.right, c.right) {
        lemma_encoded_transitive(a.right, b.right, c.right);
    }
    lemma_encoded_asymmetric(a.right, c.right);
}

} // verus!
