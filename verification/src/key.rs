//! Keys of the store, as they are written into SST key ranges.
//!
//! An encoded full key is the table id (four bytes, big endian), the table key, and the epoch
//! (eight bytes, big endian). A table key starts with its virtual node (two bytes, big endian).
use crate::buf::{lex_less, slice_less};
use vstd::prelude::*;

#[allow(unused_imports)]
use crate::buf::{lemma_lex_asymmetric, lemma_lex_total, lemma_lex_transitive};

verus! {

/// Identifies a state table.
pub type TableId = u32;

/// Bytes of the table id in front of a table key.
pub const TABLE_PREFIX_LEN: usize = 4;

/// Bytes of the virtual node in front of a table key.
pub const VNODE_LEN: usize = 2;

/// Bytes of the epoch at the end of a full key.
pub const EPOCH_LEN: usize = 8;

/// What a user key stands for.
#[verifier::ext_equal]
pub struct UserKeyView {
    pub table_id: TableId,
    pub table_key: Seq<u8>,
}

/// What a full key stands for.
#[verifier::ext_equal]
pub struct FullKeyView {
    pub user_key: UserKeyView,
    pub epoch: u64,
}

/// The number that two bytes write in big endian.
pub open spec fn be_u16(s: Seq<u8>) -> u16 {
    (s[0] * 256 + s[1]) as u16
}

/// The number that four bytes write in big endian.
pub open spec fn be_u32(s: Seq<u8>) -> u32 {
    (s[0] * 16777216 + s[1] * 65536 + s[2] * 256 + s[3]) as u32
}

/// The number that eight bytes write in big endian.
pub open spec fn be_u64(s: Seq<u8>) -> u64 {
    (be_u32(s) * 4294967296 + be_u32(s.skip(4))) as u64
}

/// The four bytes that write `x` in big endian.
pub open spec fn u32_be(x: u32) -> Seq<u8> {
    seq![(x / 16777216) as u8, ((x / 65536) % 256) as u8, ((x / 256) % 256) as u8, (x % 256) as u8]
}

/// The eight bytes that write `x` in big endian.
pub open spec fn u64_be(x: u64) -> Seq<u8> {
    u32_be((x / 4294967296) as u32) + u32_be((x % 4294967296) as u32)
}

/// Whether the bytes are long enough to be an encoded full key.
pub open spec fn is_full_key(s: Seq<u8>) -> bool {
    s.len() >= 12
}

/// The full key that the bytes encode.
pub open spec fn full_key(s: Seq<u8>) -> FullKeyView {
    FullKeyView {
        user_key: UserKeyView {
            table_id: be_u32(s),
            table_key: s.subrange(4, s.len() - 8),
        },
        epoch: be_u64(s.skip(s.len() - 8)),
    }
}

impl UserKeyView {
    /// The order of user keys: by table, then by table key.
    pub open spec fn less(self, other: UserKeyView) -> bool {
        self.table_id < other.table_id || (self.table_id == other.table_id && lex_less(
            self.table_key,
            other.table_key,
        ))
    }

    /// Whether the table key is long enough to hold a virtual node.
    pub open spec fn has_vnode(self) -> bool {
        self.table_key.len() >= 2
    }

    /// The virtual node of the key.
    pub open spec fn vnode(self) -> u16 {
        be_u16(self.table_key)
    }
}

impl FullKeyView {
    /// The order of full keys: by user key, then the later epoch first.
    pub open spec fn less(self, other: FullKeyView) -> bool {
        self.user_key.less(other.user_key) || (self.user_key == other.user_key && self.epoch
            > other.epoch)
    }

    /// The bytes that encode the key.
    pub open spec fn encoded(self) -> Seq<u8> {
        u32_be(self.user_key.table_id) + self.user_key.table_key + u64_be(self.epoch)
    }
}

/// A key of a state table.
pub struct UserKey<'a> {
    pub table_id: TableId,
    pub table_key: &'a [u8],
}

/// A user key at an epoch.
pub struct FullKey<'a> {
    pub user_key: UserKey<'a>,
    pub epoch: u64,
}

impl<'a> View for UserKey<'a> {
    type V = UserKeyView;

    open spec fn view(&self) -> UserKeyView {
        UserKeyView { table_id: self.table_id, table_key: self.table_key@ }
    }
}

impl<'a> View for FullKey<'a> {
    type V = FullKeyView;

    open spec fn view(&self) -> FullKeyView {
        FullKeyView { user_key: self.user_key@, epoch: self.epoch }
    }
}

fn read_u32(s: &[u8], at: usize) -> (r: u32)
    requires
        at + 4 <= s@.len(),
    ensures
        r == be_u32(s@.skip(at as int)),
{
    (s[at] as u32) * 16777216 + (s[at + 1] as u32) * 65536 + (s[at + 2] as u32) * 256 + (s[at
        + 3] as u32)
}

fn push_u32(v: &mut Vec<u8>, x: u32)
    ensures
        final(v)@ == old(v)@ + u32_be(x),
{
    v.push((x / 16777216) as u8);
    v.push(((x / 65536) % 256) as u8);
    v.push(((x / 256) % 256) as u8);
    v.push((x % 256) as u8);
    assert(v@ =~= old(v)@ + u32_be(x));
}

impl<'a> UserKey<'a> {
    /// Whether this key comes before the other.
    pub fn less(&self, other: &UserKey<'_>) -> (r: bool)
        ensures
            r == self@.less(other@),
    {
        self.table_id < other.table_id || (self.table_id == other.table_id && slice_less(
            self.table_key,
            other.table_key,
        ))
    }

    /// The virtual node that the table key starts with.
    pub fn get_vnode_id(&self) -> (r: usize)
        requires
            self@.has_vnode(),
        ensures
            r == self@.vnode(),
    {
        (self.table_key[0] as usize) * 256 + (self.table_key[1] as usize)
    }
}

impl<'a> FullKey<'a> {
    /// The key made of its parts.
    pub fn new(table_id: TableId, table_key: &'a [u8], epoch: u64) -> (r: FullKey<'a>)
        ensures
            r@ == (FullKeyView {
                user_key: UserKeyView { table_id, table_key: table_key@ },
                epoch,
            }),
    {
        FullKey { user_key: UserKey { table_id, table_key }, epoch }
    }

    /// Reads an encoded key.
    pub fn decode(slice: &'a [u8]) -> (r: FullKey<'a>)
        requires
            is_full_key(slice@),
        ensures
            r@ == full_key(slice@),
    {
        let epoch_pos: usize = slice.len() - EPOCH_LEN;
        let table_id: u32 = read_u32(slice, 0);
        let high: u64 = read_u32(slice, epoch_pos) as u64;
        let low: u64 = read_u32(slice, epoch_pos + 4) as u64;
        proof {
            assert(slice@.skip(0) =~= slice@);
            assert(slice@.skip(epoch_pos as int).skip(4) =~= slice@.skip(epoch_pos + 4));
        }
        let table_key = vstd::slice::slice_subrange(slice, TABLE_PREFIX_LEN, epoch_pos);
        FullKey { user_key: UserKey { table_id, table_key }, epoch: high * 4294967296 + low }
    }

    /// Writes the key down.
    pub fn encode(&self) -> (r: Vec<u8>)
        ensures
            r@ == self@.encoded(),
    {
        let mut r: Vec<u8> = Vec::new();
        push_u32(&mut r, self.user_key.table_id);
        r.extend_from_slice(self.user_key.table_key);
        assert(r@ =~= u32_be(self.user_key.table_id) + self.user_key.table_key@);
        push_u32(&mut r, (self.epoch / 4294967296) as u32);
        push_u32(&mut r, (self.epoch % 4294967296) as u32);
        assert(r@ =~= self@.encoded());
        r
    }

    /// Whether this key comes before the other.
    pub fn less(&self, other: &FullKey<'_>) -> (r: bool)
        ensures
            r == self@.less(other@),
    {
        if self.user_key.less(&other.user_key) {
            true
        } else {
            proof {
                lemma_lex_total(self@.user_key.table_key, other@.user_key.table_key);
                lemma_lex_asymmetric(self@.user_key.table_key, other@.user_key.table_key);
            }
            !other.user_key.less(&self.user_key) && self.epoch > other.epoch
        }
    }
}

/// A table key: the virtual node, then the payload.
pub fn gen_key_from_bytes(vnode: u16, payload: &[u8]) -> (r: Vec<u8>)
    ensures
        r@ == seq![(vnode / 256) as u8, (vnode % 256) as u8] + payload@,
{
    let mut r: Vec<u8> = Vec::new();
    r.push((vnode / 256) as u8);
    r.push((vnode % 256) as u8);
    r.extend_from_slice(payload);
    assert(r@ =~= seq![(vnode / 256) as u8, (vnode % 256) as u8] + payload@);
    r
}

/// Reading back an encoded key gives the key that was written.
pub proof fn decode_reads_encoded(k: FullKeyView)
    ensures
        is_full_key(k.encoded()),
        full_key(k.encoded()) == k,
{
    let s = k.encoded();
    let t = k.user_key.table_key;
    let n = t.len() as int;
    let tail = s.skip(s.len() - 8);
    assert(s.len() == n + 12);
    assert(s.subrange(4, s.len() - 8) =~= t);
    assert(tail =~= u64_be(k.epoch));
    assert(tail.skip(4) =~= u32_be((k.epoch % 4294967296) as u32));
    lemma_u32_round_trip(k.user_key.table_id);
    lemma_u32_round_trip((k.epoch / 4294967296) as u32);
    lemma_u32_round_trip((k.epoch % 4294967296) as u32);
    assert(s[0] == u32_be(k.user_key.table_id)[0]);
    assert(s[1] == u32_be(k.user_key.table_id)[1]);
    assert(s[2] == u32_be(k.user_key.table_id)[2]);
    assert(s[3] == u32_be(k.user_key.table_id)[3]);
    let hi = u32_be((k.epoch / 4294967296) as u32);
    assert(tail[0] == hi[0] && tail[1] == hi[1] && tail[2] == hi[2] && tail[3] == hi[3]);
}

proof fn lemma_u32_round_trip(x: u32)
    ensures
        be_u32(u32_be(x)) == x,
{
    let s = u32_be(x);
    assert(s[0] == x / 16777216 && s[1] == (x / 65536) % 256 && s[2] == (x / 256) % 256 && s[3] == x
        % 256);
}

/// The virtual node of a generated table key is the one it was generated for.
pub proof fn generated_key_holds_vnode(vnode: u16, payload: Seq<u8>)
    ensures
        be_u16(seq![(vnode / 256) as u8, (vnode % 256) as u8] + payload) == vnode,
{
    let s = seq![(vnode / 256) as u8, (vnode % 256) as u8] + payload;
    assert(s[0] == vnode / 256 && s[1] == vnode % 256);
}

/// Full keys are totally ordered.
pub proof fn full_key_order_is_total(a: FullKeyView, b: FullKeyView)
    ensures
        a.less(b) || b.less(a) || a == b,
        !(a.less(b) && b.less(a)),
{
    lemma_lex_total(a.user_key.table_key, b.user_key.table_key);
    lemma_lex_asymmetric(a.user_key.table_key, b.user_key.table_key);
}

/// The order of full keys is transitive.
pub proof fn full_key_order_is_transitive(a: FullKeyView, b: FullKeyView, c: FullKeyView)
    requires
        a.less(b),
        b.less(c),
    ensures
        a.less(c),
{
    if lex_less(a.user_key.table_key, b.user_key.table_key) && lex_less(
        b.user_key.table_key,
        c.user_key.table_key,
    ) {
        lemma_lex_transitive(a.user_key.table_key, b.user_key.table_key, c.user_key.table_key);
    }
}

/// What stands in front of the epoch of an encoded key.
pub open spec fn user_part(s: Seq<u8>) -> Seq<u8> {
    if s.len() >= 8 {
        s.take(s.len() - 8)
    } else {
        s
    }
}

/// The epoch of an encoded key, as it is written.
pub open spec fn epoch_part(s: Seq<u8>) -> Seq<u8> {
    if s.len() >= 8 {
        s.skip(s.len() - 8)
    } else {
        Seq::empty()
    }
}

/// The order of encoded full keys: by what stands in front of the epoch, then the later epoch
/// first.
pub open spec fn encoded_less(a: Seq<u8>, b: Seq<u8>) -> bool {
    lex_less(user_part(a), user_part(b)) || (user_part(a) == user_part(b) && lex_less(
        epoch_part(b),
        epoch_part(a),
    ))
}

/// Whether one encoded full key comes before another.
pub fn encoded_key_less(a: &[u8], b: &[u8]) -> (r: bool)
    ensures
        r == encoded_less(a@, b@),
{
    let a_pos: usize = if a.len() >= EPOCH_LEN {
        a.len() - EPOCH_LEN
    } else {
        a.len()
    };
    let b_pos: usize = if b.len() >= EPOCH_LEN {
        b.len() - EPOCH_LEN
    } else {
        b.len()
    };
    let a_user = vstd::slice::slice_subrange(a, 0, a_pos);
    let b_user = vstd::slice::slice_subrange(b, 0, b_pos);
    let a_epoch = vstd::slice::slice_subrange(a, a_pos, a.len());
    let b_epoch = vstd::slice::slice_subrange(b, b_pos, b.len());
    proof {
        assert(a_user@ =~= user_part(a@));
        assert(b_user@ =~= user_part(b@));
        assert(a_epoch@ =~= epoch_part(a@));
        assert(b_epoch@ =~= epoch_part(b@));
        lemma_lex_total(a_user@, b_user@);
        lemma_lex_asymmetric(a_user@, b_user@);
    }
    if slice_less(a_user, b_user) {
        true
    } else if slice_less(b_user, a_user) {
        false
    } else {
        slice_less(b_epoch, a_epoch)
    }
}

proof fn lemma_lex_u32(a: Seq<u8>, b: Seq<u8>)
    requires
        a.len() >= 4,
        b.len() >= 4,
    ensures
        be_u32(a) != be_u32(b) ==> lex_less(a, b) == (be_u32(a) < be_u32(b)),
        be_u32(a) == be_u32(b) ==> a.take(4) == b.take(4) && lex_less(a, b) == lex_less(
            a.skip(4),
            b.skip(4),
        ),
{
    let (a1, b1) = (a.skip(1), b.skip(1));
    let (a2, b2) = (a1.skip(1), b1.skip(1));
    let (a3, b3) = (a2.skip(1), b2.skip(1));
    assert(a1[0] == a[1] && a2[0] == a[2] && a3[0] == a[3]);
    assert(b1[0] == b[1] && b2[0] == b[2] && b3[0] == b[3]);
    assert(a3.skip(1) =~= a.skip(4));
    assert(b3.skip(1) =~= b.skip(4));
    assert(lex_less(a, b) == (if a[0] != b[0] {
        a[0] < b[0]
    } else {
        lex_less(a1, b1)
    }));
    assert(lex_less(a1, b1) == (if a[1] != b[1] {
        a[1] < b[1]
    } else {
        lex_less(a2, b2)
    }));
    assert(lex_less(a2, b2) == (if a[2] != b[2] {
        a[2] < b[2]
    } else {
        lex_less(a3, b3)
    }));
    assert(lex_less(a3, b3) == (if a[3] != b[3] {
        a[3] < b[3]
    } else {
        lex_less(a.skip(4), b.skip(4))
    }));
    if be_u32(a) == be_u32(b) {
        assert(a[0] == b[0] && a[1] == b[1] && a[2] == b[2] && a[3] == b[3]);
        assert(a.take(4) =~= b.take(4));
    }
}

proof fn lemma_lex_u64(a: Seq<u8>, b: Seq<u8>)
    requires
        a.len() == 8,
        b.len() == 8,
    ensures
        lex_less(a, b) == (be_u64(a) < be_u64(b)),
{
    lemma_lex_u32(a, b);
    lemma_lex_u32(a.skip(4), b.skip(4));
    assert(!lex_less(a.skip(4).skip(4), b.skip(4).skip(4)));
    assert(be_u64(a) == be_u32(a) * 4294967296 + be_u32(a.skip(4)));
    assert(be_u64(b) == be_u32(b) * 4294967296 + be_u32(b.skip(4)));
}

/// Encoded keys are in the order of the full keys that they encode.
pub proof fn encoded_order_is_key_order(a: Seq<u8>, b: Seq<u8>)
    requires
        is_full_key(a),
        is_full_key(b),
    ensures
        encoded_less(a, b) == full_key(a).less(full_key(b)),
{
    let (ua, ub) = (user_part(a), user_part(b));
    let (ta, tb) = (full_key(a).user_key.table_key, full_key(b).user_key.table_key);
    lemma_lex_u32(ua, ub);
    assert(be_u32(ua) == be_u32(a));
    assert(be_u32(ub) == be_u32(b));
    assert(ua.skip(4) =~= ta);
    assert(ub.skip(4) =~= tb);
    lemma_lex_u64(epoch_part(b), epoch_part(a));
    if be_u32(a) == be_u32(b) && ta == tb {
        assert(ua =~= ua.take(4) + ua.skip(4));
        assert(ub =~= ub.take(4) + ub.skip(4));
    }
    lemma_lex_asymmetric(ua, ub);
}

/// The order of encoded keys never holds both ways.
pub proof fn lemma_encoded_asymmetric(a: Seq<u8>, b: Seq<u8>)
    ensures
        !(encoded_less(a, b) && encoded_less(b, a)),
{
    lemma_lex_asymmetric(user_part(a), user_part(b));
    lemma_lex_asymmetric(epoch_part(a), epoch_part(b));
}

/// The order of encoded keys is transitive.
pub proof fn lemma_encoded_transitive(a: Seq<u8>, b: Seq<u8>, c: Seq<u8>)
    requires
        encoded_less(a, b),
        encoded_less(b, c),
    ensures
        encoded_less(a, c),
{
    if lex_less(user_part(a), user_part(b)) && lex_less(user_part(b), user_part(c)) {
        lemma_lex_transitive(user_part(a), user_part(b), user_part(c));
    } else if user_part(a) == user_part(b) && user_part(b) == user_part(c) {
        lemma_lex_transitive(epoch_part(c), epoch_part(b), epoch_part(a));
    }
}

/// Two different encoded keys are ordered one way or the other.
pub proof fn lemma_encoded_total(a: Seq<u8>, b: Seq<u8>)
    ensures
        encoded_less(a, b) || encoded_less(b, a) || a == b,
{
    lemma_lex_total(user_part(a), user_part(b));
    lemma_lex_total(epoch_part(a), epoch_part(b));
    if user_part(a) == user_part(b) && epoch_part(a) == epoch_part(b) {
        assert(user_part(a) + epoch_part(a) =~= a);
        assert(user_part(b) + epoch_part(b) =~= b);
    }
}

} // verus!
