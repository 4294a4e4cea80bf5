//! The key codec: how a logical record (user key, data type, generation
//! version, sub-element) is laid out as physical byte keys and values.
//!
//! Record header (the value under the meta key):
//!   String:          tag | ttl (8) | payload...
//!   Hash, Set, ZSet: tag | ttl (8) | version (2) | count (2)
//!   List:            tag | ttl (8) | version (2) | head (8) | tail (8)
//! All integers are big-endian.
//!
//! Physical keys:
//!   meta key:  'x' 'M' | user key
//!   data key:  'x' 'D' | len(user key) (8) | user key | version (2) | kind | sub
//! The length prefix keeps every user key's entries in one contiguous,
//! prefix-free block of the key space.
use vstd::prelude::*;

verus! {

/// The data type tag of a record.
#[derive(Debug, Clone, Copy, PartialEq, Eq, Structural)]
pub enum DataType {
    String,
    Hash,
    List,
    PlainSet,
    Zset,
}

pub open spec fn type_tag(t: DataType) -> u8 {
    match t {
        DataType::String => 0,
        DataType::Hash => 1,
        DataType::List => 2,
        DataType::PlainSet => 3,
        DataType::Zset => 4,
    }
}

pub open spec fn tag_type(b: u8) -> Option<DataType> {
    if b == 0 {
        Some(DataType::String)
    } else if b == 1 {
        Some(DataType::Hash)
    } else if b == 2 {
        Some(DataType::List)
    } else if b == 3 {
        Some(DataType::PlainSet)
    } else if b == 4 {
        Some(DataType::Zset)
    } else {
        None
    }
}

impl DataType {
    /// The byte that stands for this type in a header.
    pub fn tag(&self) -> (r: u8)
        ensures
            r == type_tag(*self),
            tag_type(r) == Some(*self),
    {
        match self {
            DataType::String => 0,
            DataType::Hash => 1,
            DataType::List => 2,
            DataType::PlainSet => 3,
            DataType::Zset => 4,
        }
    }
}

// ---------------------------------------------------------------------
// Big-endian integers
// ---------------------------------------------------------------------

pub open spec fn be16(x: u16) -> Seq<u8> {
    seq![(x >> 8u16) as u8, x as u8]
}

pub open spec fn from_be16(s: Seq<u8>) -> u16
    recommends
        s.len() == 2,
{
    ((s[0] as u16) << 8u16) | (s[1] as u16)
}

pub open spec fn be64(x: u64) -> Seq<u8> {
    seq![
        (x >> 56u64) as u8,
        (x >> 48u64) as u8,
        (x >> 40u64) as u8,
        (x >> 32u64) as u8,
        (x >> 24u64) as u8,
        (x >> 16u64) as u8,
        (x >> 8u64) as u8,
        x as u8,
    ]
}

pub open spec fn from_be64(s: Seq<u8>) -> u64
    recommends
        s.len() == 8,
{
    ((s[0] as u64) << 56u64) | ((s[1] as u64) << 48u64) | ((s[2] as u64) << 40u64) | ((
    s[3] as u64) << 32u64) | ((s[4] as u64) << 24u64) | ((s[5] as u64) << 16u64) | ((
    s[6] as u64) << 8u64) | (s[7] as u64)
}

proof fn lemma_be16_bits(x: u16)
    by (bit_vector)
    ensures
        ((((x >> 8u16) as u8) as u16) << 8u16) | ((x as u8) as u16) == x,
{
}

proof fn lemma_be64_bits(x: u64)
    by (bit_vector)
    ensures
        ((((x >> 56u64) as u8) as u64) << 56u64) | ((((x >> 48u64) as u8) as u64) << 48u64) | ((((
        x >> 40u64) as u8) as u64) << 40u64) | ((((x >> 32u64) as u8) as u64) << 32u64) | ((((x
            >> 24u64) as u8) as u64) << 24u64) | ((((x >> 16u64) as u8) as u64) << 16u64) | ((((x
            >> 8u64) as u8) as u64) << 8u64) | ((x as u8) as u64) == x,
{
}

/// Decoding a big-endian u16 undoes encoding it.
pub proof fn lemma_be16_round_trip(x: u16)
    ensures
        be16(x).len() == 2,
        from_be16(be16(x)) == x,
{
    lemma_be16_bits(x);
}

/// Decoding a big-endian u64 undoes encoding it.
pub proof fn lemma_be64_round_trip(x: u64)
    ensures
        be64(x).len() == 8,
        from_be64(be64(x)) == x,
{
    lemma_be64_bits(x);
}

pub fn push_be16(out: &mut Vec<u8>, x: u16)
    ensures
        final(out)@ == old(out)@ + be16(x),
{
    out.push((x >> 8u16) as u8);
    out.push(x as u8);
    assert(final(out)@ =~= old(out)@ + be16(x));
}

pub fn push_be64(out: &mut Vec<u8>, x: u64)
    ensures
        final(out)@ == old(out)@ + be64(x),
{
    out.push((x >> 56u64) as u8);
    out.push((x >> 48u64) as u8);
    out.push((x >> 40u64) as u8);
    out.push((x >> 32u64) as u8);
    out.push((x >> 24u64) as u8);
    out.push((x >> 16u64) as u8);
    out.push((x >> 8u64) as u8);
    out.push(x as u8);
    assert(final(out)@ =~= old(out)@ + be64(x));
}

pub fn read_be16(v: &[u8], at: usize) -> (r: u16)
    requires
        at + 2 <= v@.len(),
    ensures
        r == from_be16(v@.subrange(at as int, at + 2)),
{
    ((v[at] as u16) << 8u16) | (v[at + 1] as u16)
}

pub fn read_be64(v: &[u8], at: usize) -> (r: u64)
    requires
        at + 8 <= v@.len(),
    ensures
        r == from_be64(v@.subrange(at as int, at + 8)),
{
    ((v[at] as u64) << 56u64) | ((v[at + 1] as u64) << 48u64) | ((v[at + 2] as u64) << 40u64)
        | ((v[at + 3] as u64) << 32u64) | ((v[at + 4] as u64) << 24u64) | ((v[at + 5] as u64)
        << 16u64) | ((v[at + 6] as u64) << 8u64) | (v[at + 7] as u64)
}

/// Appends the bytes of `b` to `out`.
pub fn push_bytes(out: &mut Vec<u8>, b: &[u8])
    ensures
        final(out)@ == old(out)@ + b@,
{
    let mut i: usize = 0;
    while i < b.len()
        invariant
            i <= b@.len(),
            out@ == old(out)@ + b@.subrange(0, i as int),
        decreases b@.len() - i,
    {
        out.push(b[i]);
        i = i + 1;
        assert(out@ =~= old(out)@ + b@.subrange(0, i as int));
    }
    assert(b@.subrange(0, b@.len() as int) =~= b@);
}

/// The bytes of `v` from `from` to its end.
pub fn bytes_from(v: &[u8], from: usize) -> (r: Vec<u8>)
    requires
        from <= v@.len(),
    ensures
        r@ == v@.subrange(from as int, v@.len() as int),
{
    let mut r: Vec<u8> = Vec::new();
    let mut i: usize = from;
    while i < v.len()
        invariant
            from <= i <= v@.len(),
            r@ == v@.subrange(from as int, i as int),
        decreases v@.len() - i,
    {
        r.push(v[i]);
        i = i + 1;
        assert(r@ =~= v@.subrange(from as int, i as int));
    }
    r
}

/// Whether two byte strings are equal.
pub fn bytes_eq(a: &[u8], b: &[u8]) -> (r: bool)
    ensures
        r == (a@ == b@),
{
    if a.len() != b.len() {
        return false;
    }
    let mut i: usize = 0;
    while i < a.len()
        invariant
            a@.len() == b@.len(),
            i <= a@.len(),
            forall|j: int| 0 <= j < i ==> a@[j] == b@[j],
        decreases a@.len() - i,
    {
        if a[i] != b[i] {
            return false;
        }
        i = i + 1;
    }
    assert(a@ =~= b@);
    true
}

// ---------------------------------------------------------------------
// Headers
// ---------------------------------------------------------------------

/// Length of a Hash, Set or ZSet header.
pub const META_LEN: usize = 13;

/// Length of a List header.
pub const LIST_META_LEN: usize = 27;

/// Length of a String header before its payload.
pub const STRING_PREFIX_LEN: usize = 9;

pub open spec fn meta_bytes(t: DataType, ttl: u64, version: u16, count: u16) -> Seq<u8> {
    seq![type_tag(t)] + be64(ttl) + be16(version) + be16(count)
}

pub open spec fn list_meta_bytes(ttl: u64, version: u16, head: u64, tail: u64) -> Seq<u8> {
    seq![type_tag(DataType::List)] + be64(ttl) + be16(version) + be64(head) + be64(tail)
}

pub open spec fn string_bytes(ttl: u64, payload: Seq<u8>) -> Seq<u8> {
    seq![type_tag(DataType::String)] + be64(ttl) + payload
}

// ---------------------------------------------------------------------
// Physical keys
// ---------------------------------------------------------------------

pub const KEY_SPACE: u8 = 120;

pub const META_MARK: u8 = 77;

pub const DATA_MARK: u8 = 68;

/// Sub-entry kinds.
pub const KIND_HASH: u8 = 104;

pub const KIND_SET: u8 = 115;

pub const KIND_LIST: u8 = 108;

pub const KIND_ZSET_MEMBER: u8 = 122;

pub const KIND_ZSET_SCORE: u8 = 114;

pub open spec fn meta_key(k: Seq<u8>) -> Seq<u8> {
    seq![KEY_SPACE, META_MARK] + k
}

/// The prefix that all sub-entries of one kind of (user key, version) share.
pub open spec fn data_prefix(k: Seq<u8>, version: u16, kind: u8) -> Seq<u8> {
    seq![KEY_SPACE, DATA_MARK] + be64(k.len() as u64) + k + be16(version) + seq![kind]
}

pub open spec fn data_key(k: Seq<u8>, version: u16, kind: u8, sub: Seq<u8>) -> Seq<u8> {
    data_prefix(k, version, kind) + sub
}

/// Scores are stored offset by 2^63, so that the unsigned big-endian
/// bytes order as the signed scores do.
pub open spec fn score_bits(s: i64) -> u64 {
    (s as int + 0x8000_0000_0000_0000) as u64
}

pub open spec fn score_from_bits(u: u64) -> i64 {
    (u as int - 0x8000_0000_0000_0000) as i64
}

pub open spec fn list_elem_key(k: Seq<u8>, version: u16, index: u64) -> Seq<u8> {
    data_key(k, version, KIND_LIST, be64(index))
}

pub open spec fn zset_score_key(k: Seq<u8>, version: u16, score: i64, member: Seq<u8>) -> Seq<u8> {
    data_key(k, version, KIND_ZSET_SCORE, be64(score_bits(score)) + member)
}

/// The order of scores is the order of their stored form.
pub proof fn lemma_score_order(a: i64, b: i64)
    ensures
        a < b <==> score_bits(a) < score_bits(b),
        a == b <==> score_bits(a) == score_bits(b),
        score_from_bits(score_bits(a)) == a,
{
}

/// A data key determines its user key, version, kind and sub-element.
pub proof fn lemma_data_key_injective(
    k1: Seq<u8>,
    v1: u16,
    d1: u8,
    s1: Seq<u8>,
    k2: Seq<u8>,
    v2: u16,
    d2: u8,
    s2: Seq<u8>,
)
    requires
        k1.len() <= u64::MAX,
        k2.len() <= u64::MAX,
        data_key(k1, v1, d1, s1) == data_key(k2, v2, d2, s2),
    ensures
        k1 == k2,
        v1 == v2,
        d1 == d2,
        s1 == s2,
{
    let a = data_key(k1, v1, d1, s1);
    let b = data_key(k2, v2, d2, s2);
    lemma_be64_round_trip(k1.len() as u64);
    lemma_be64_round_trip(k2.len() as u64);
    assert(a.subrange(2, 10) =~= be64(k1.len() as u64));
    assert(b.subrange(2, 10) =~= be64(k2.len() as u64));
    assert(k1.len() == k2.len());
    let n = k1.len() as int;
    assert(a.subrange(10, 10 + n) =~= k1);
    assert(b.subrange(10, 10 + n) =~= k2);
    lemma_be16_round_trip(v1);
    lemma_be16_round_trip(v2);
    assert(a.subrange(10 + n, 12 + n) =~= be16(v1));
    assert(b.subrange(10 + n, 12 + n) =~= be16(v2));
    assert(a[12 + n] == d1);
    assert(b[12 + n] == d2);
    assert(a.subrange(13 + n, a.len() as int) =~= s1);
    assert(b.subrange(13 + n, b.len() as int) =~= s2);
}

/// What follows the fixed part of a data key is its sub-element.
pub proof fn lemma_data_key_tail(k: Seq<u8>, v: u16, d: u8, s: Seq<u8>)
    ensures
        data_key(k, v, d, s).len() == 13 + k.len() + s.len(),
        data_key(k, v, d, s).subrange(13 + k.len() as int, data_key(k, v, d, s).len() as int) == s,
{
    lemma_be64_round_trip(k.len() as u64);
    lemma_be16_round_trip(v);
    assert(data_key(k, v, d, s).subrange(13 + k.len() as int, data_key(k, v, d, s).len() as int) =~= s);
}

/// No meta key is a data key.
pub proof fn lemma_meta_not_data(k1: Seq<u8>, k2: Seq<u8>, v: u16, d: u8, s: Seq<u8>)
    ensures
        meta_key(k1) != data_key(k2, v, d, s),
{
    assert(meta_key(k1)[1] == META_MARK);
    assert(data_key(k2, v, d, s)[1] == DATA_MARK);
}


// ---------------------------------------------------------------------
// Header values
// ---------------------------------------------------------------------

/// The header of a Hash, Set or ZSet record.
#[derive(Debug, Clone, Copy, PartialEq, Eq, Structural)]
pub struct Meta {
    pub ttl: u64,
    pub version: u16,
    pub count: u16,
}

/// The header of a List record: elements live at indexes head..tail.
#[derive(Debug, Clone, Copy, PartialEq, Eq, Structural)]
pub struct ListMeta {
    pub ttl: u64,
    pub version: u16,
    pub head: u64,
    pub tail: u64,
}

pub open spec fn is_collection_type(t: DataType) -> bool {
    t == DataType::Hash || t == DataType::PlainSet || t == DataType::Zset
}

/// The (ttl, version, count) that 13 bytes of a Hash, Set or ZSet header
/// hold. The type tag is the reader's to check.
pub open spec fn parse_meta(b: Seq<u8>) -> Option<Meta> {
    if b.len() == META_LEN {
        Some(
            Meta {
                ttl: from_be64(b.subrange(1, 9)),
                version: from_be16(b.subrange(9, 11)),
                count: from_be16(b.subrange(11, 13)),
            },
        )
    } else {
        None
    }
}

/// The (ttl, version, head, tail) that 27 bytes of a List header hold. The
/// type tag is the reader's to check.
pub open spec fn parse_list_meta(b: Seq<u8>) -> Option<ListMeta> {
    if b.len() == LIST_META_LEN {
        Some(
            ListMeta {
                ttl: from_be64(b.subrange(1, 9)),
                version: from_be16(b.subrange(9, 11)),
                head: from_be64(b.subrange(11, 19)),
                tail: from_be64(b.subrange(19, 27)),
            },
        )
    } else {
        None
    }
}

/// Reading a written header gives back what was written.
pub proof fn lemma_meta_round_trip(t: DataType, m: Meta)
    ensures
        parse_meta(meta_bytes(t, m.ttl, m.version, m.count)) == Some(m),
{
    let b = meta_bytes(t, m.ttl, m.version, m.count);
    lemma_be64_round_trip(m.ttl);
    lemma_be16_round_trip(m.version);
    lemma_be16_round_trip(m.count);
    assert(b.subrange(1, 9) =~= be64(m.ttl));
    assert(b.subrange(9, 11) =~= be16(m.version));
    assert(b.subrange(11, 13) =~= be16(m.count));
}

/// Reading a written List header gives back what was written.
pub proof fn lemma_list_meta_round_trip(m: ListMeta)
    ensures
        parse_list_meta(list_meta_bytes(m.ttl, m.version, m.head, m.tail)) == Some(m),
{
    let b = list_meta_bytes(m.ttl, m.version, m.head, m.tail);
    lemma_be64_round_trip(m.ttl);
    lemma_be16_round_trip(m.version);
    lemma_be64_round_trip(m.head);
    lemma_be64_round_trip(m.tail);
    assert(b.subrange(1, 9) =~= be64(m.ttl));
    assert(b.subrange(9, 11) =~= be16(m.version));
    assert(b.subrange(11, 19) =~= be64(m.head));
    assert(b.subrange(19, 27) =~= be64(m.tail));
}

// ---------------------------------------------------------------------
// Decoding
// ---------------------------------------------------------------------

/// Reads stored keys and values. Every decoder checks the length of its
/// input and returns `None` on malformed bytes.
pub struct KeyDecoder {}

impl KeyDecoder {
    /// What follows the first 15 bytes of a key.
    pub fn decode_string(key: &[u8]) -> (r: Option<Vec<u8>>)
        ensures
            key@.len() < 15 ==> r is None,
            key@.len() >= 15 ==> r is Some && r.unwrap()@ == key@.subrange(15, key@.len() as int),
    {
        if key.len() < 15 {
            None
        } else {
            Some(bytes_from(key, 15))
        }
    }

    pub fn decode_key_type(value: &[u8]) -> (r: Option<DataType>)
        ensures
            value@.len() == 0 ==> r is None,
            value@.len() > 0 ==> r == tag_type(value@[0]),
    {
        if value.len() == 0 {
            return None;
        }
        let b = value[0];
        if b == 0 {
            Some(DataType::String)
        } else if b == 1 {
            Some(DataType::Hash)
        } else if b == 2 {
            Some(DataType::List)
        } else if b == 3 {
            Some(DataType::PlainSet)
        } else if b == 4 {
            Some(DataType::Zset)
        } else {
            None
        }
    }

    pub fn decode_key_ttl(value: &[u8]) -> (r: Option<u64>)
        ensures
            r == (if value@.len() >= 9 {
                Some(from_be64(value@.subrange(1, 9)))
            } else {
                None
            }),
    {
        if value.len() < 9 {
            None
        } else {
            Some(read_be64(value, 1))
        }
    }

    /// The address part of a topology key: what follows its four-byte prefix.
    pub fn decode_topo_key_addr(value: &[u8]) -> (r: Option<Vec<u8>>)
        ensures
            value@.len() < 4 ==> r is None,
            value@.len() >= 4 ==> r is Some && r.unwrap()@ == value@.subrange(
                4,
                value@.len() as int,
            ),
    {
        if value.len() < 4 {
            None
        } else {
            Some(bytes_from(value, 4))
        }
    }

    pub fn decode_topo_value(value: &[u8]) -> (r: Option<u64>)
        ensures
            r == (if value@.len() == 8 {
                Some(from_be64(value@))
            } else {
                None
            }),
    {
        if value.len() != 8 {
            None
        } else {
            let r = read_be64(value, 0);
            assert(value@.subrange(0, 8) =~= value@);
            Some(r)
        }
    }

    /// The payload of a String record.
    pub fn decode_key_string_slice(value: &[u8]) -> (r: Option<Vec<u8>>)
        ensures
            value@.len() < STRING_PREFIX_LEN ==> r is None,
            value@.len() >= STRING_PREFIX_LEN ==> r is Some && r.unwrap()@ == value@.subrange(
                STRING_PREFIX_LEN as int,
                value@.len() as int,
            ),
    {
        if value.len() < STRING_PREFIX_LEN {
            None
        } else {
            Some(bytes_from(value, STRING_PREFIX_LEN))
        }
    }

    /// The payload of a String record, as an owned value.
    pub fn decode_key_string_value(value: &[u8]) -> (r: Option<Vec<u8>>)
        ensures
            value@.len() < STRING_PREFIX_LEN ==> r is None,
            value@.len() >= STRING_PREFIX_LEN ==> r is Some && r.unwrap()@ == value@.subrange(
                STRING_PREFIX_LEN as int,
                value@.len() as int,
            ),
    {
        Self::decode_key_string_slice(value)
    }

    pub fn decode_key_version(value: &[u8]) -> (r: Option<u16>)
        ensures
            r == (if value@.len() >= 11 {
                Some(from_be16(value@.subrange(9, 11)))
            } else {
                None
            }),
    {
        if value.len() < 11 {
            None
        } else {
            Some(read_be16(value, 9))
        }
    }

    /// The element count of a Hash, Set or ZSet header.
    pub fn decode_key_index_size(value: &[u8]) -> (r: Option<u16>)
        ensures
            r == (if value@.len() == META_LEN {
                Some(from_be16(value@.subrange(11, 13)))
            } else {
                None
            }),
    {
        if value.len() != META_LEN {
            None
        } else {
            Some(read_be16(value, 11))
        }
    }

    /// (ttl, version, count) of a Hash, Set or ZSet header.
    pub fn decode_key_meta(value: &[u8]) -> (r: Option<Meta>)
        ensures
            r == parse_meta(value@),
    {
        if value.len() != META_LEN {
            return None;
        }
        Some(
            Meta {
                ttl: read_be64(value, 1),
                version: read_be16(value, 9),
                count: read_be16(value, 11),
            },
        )
    }

    /// (ttl, version, head, tail) of a List header.
    pub fn decode_key_list_meta(value: &[u8]) -> (r: Option<ListMeta>)
        ensures
            r == parse_list_meta(value@),
    {
        if value.len() != LIST_META_LEN {
            return None;
        }
        Some(
            ListMeta {
                ttl: read_be64(value, 1),
                version: read_be16(value, 9),
                head: read_be64(value, 11),
                tail: read_be64(value, 19),
            },
        )
    }

    /// The sub-element of a data key of user key `rkey`: what follows the
    /// length, the user key, the version, the kind and `skip` more bytes.
    fn data_key_tail(rkey: &[u8], key: &[u8], skip: usize) -> (r: Option<Vec<u8>>)
        requires
            skip <= 8,
        ensures
            key@.len() < 13 + rkey@.len() + skip ==> r is None,
            key@.len() >= 13 + rkey@.len() + skip ==> r is Some && r.unwrap()@ == key@.subrange(
                13 + rkey@.len() as int + skip,
                key@.len() as int,
            ),
    {
        let n = rkey.len();
        if key.len() < 13 || key.len() - 13 < n || key.len() - 13 - n < skip {
            return None;
        }
        Some(bytes_from(key, 13 + n + skip))
    }

    /// The field of a Hash data key of `rkey`.
    pub fn decode_key_hash_userkey_from_datakey(rkey: &[u8], key: &[u8]) -> (r: Option<Vec<u8>>)
        ensures
            forall|v: u16, s: Seq<u8>|
                key@ == #[trigger] data_key(rkey@, v, KIND_HASH, s) ==> r is Some && r.unwrap()@
                    == s,
    {
        let r = Self::data_key_tail(rkey, key, 0);
        proof {
            assert forall|v: u16, s: Seq<u8>| key@ == #[trigger] data_key(rkey@, v, KIND_HASH, s) implies r is Some
                && r.unwrap()@ == s by {
                lemma_data_key_tail(rkey@, v, KIND_HASH, s);
            }
        }
        r
    }

    /// The member of a Set data key of `rkey`.
    pub fn decode_key_set_member_from_datakey(rkey: &[u8], key: &[u8]) -> (r: Option<Vec<u8>>)
        ensures
            forall|v: u16, s: Seq<u8>|
                key@ == #[trigger] data_key(rkey@, v, KIND_SET, s) ==> r is Some && r.unwrap()@ == s,
    {
        let r = Self::data_key_tail(rkey, key, 0);
        proof {
            assert forall|v: u16, s: Seq<u8>| key@ == #[trigger] data_key(rkey@, v, KIND_SET, s) implies r is Some
                && r.unwrap()@ == s by {
                lemma_data_key_tail(rkey@, v, KIND_SET, s);
            }
        }
        r
    }

    /// The member of a ZSet member-keyed data key of `rkey`.
    pub fn decode_key_zset_member_from_datakey(rkey: &[u8], key: &[u8]) -> (r: Option<Vec<u8>>)
        ensures
            forall|v: u16, s: Seq<u8>|
                key@ == #[trigger] data_key(rkey@, v, KIND_ZSET_MEMBER, s) ==> r is Some
                    && r.unwrap()@ == s,
    {
        let r = Self::data_key_tail(rkey, key, 0);
        proof {
            assert forall|v: u16, s: Seq<u8>| key@ == #[trigger] data_key(rkey@, v, KIND_ZSET_MEMBER, s) implies r is Some
                && r.unwrap()@ == s by {
                lemma_data_key_tail(rkey@, v, KIND_ZSET_MEMBER, s);
            }
        }
        r
    }

    /// The member of a ZSet score-ordered key of `rkey`.
    pub fn decode_key_zset_member_from_scorekey(rkey: &[u8], key: &[u8]) -> (r: Option<Vec<u8>>)
        ensures
            forall|v: u16, sc: i64, m: Seq<u8>|
                key@ == #[trigger] zset_score_key(rkey@, v, sc, m) ==> r is Some && r.unwrap()@
                    == m,
    {
        let r = Self::data_key_tail(rkey, key, 8);
        proof {
            assert forall|v: u16, sc: i64, m: Seq<u8>| key@ == #[trigger] zset_score_key(rkey@, v, sc, m) implies r is Some
                && r.unwrap()@ == m by {
                let sub = be64(score_bits(sc)) + m;
                lemma_data_key_tail(rkey@, v, KIND_ZSET_SCORE, sub);
                lemma_be64_round_trip(score_bits(sc));
                assert(key@.subrange(13 + rkey@.len() as int + 8, key@.len() as int) =~= sub.subrange(8, sub.len() as int));
                assert(sub.subrange(8, sub.len() as int) =~= m);
            }
        }
        r
    }

    /// The score of a ZSet score-ordered key of `rkey`.
    pub fn decode_key_zset_score_from_scorekey(rkey: &[u8], key: &[u8]) -> (r: Option<i64>)
        ensures
            forall|v: u16, sc: i64, m: Seq<u8>|
                key@ == #[trigger] zset_score_key(rkey@, v, sc, m) ==> r == Some(sc),
    {
        match Self::data_key_tail(rkey, key, 0) {
            None => None,
            Some(t) => {
                if t.len() < 8 {
                    return None;
                }
                let u = read_be64(t.as_slice(), 0);
                let r = if u >= 0x8000_0000_0000_0000u64 {
                    (u - 0x8000_0000_0000_0000u64) as i64
                } else {
                    (u as i64) - 0x7fff_ffff_ffff_ffffi64 - 1
                };
                proof {
                    assert forall|v: u16, sc: i64, m: Seq<u8>| key@ == #[trigger] zset_score_key(rkey@, v, sc, m) implies r == sc by {
                        let sub = be64(score_bits(sc)) + m;
                        lemma_data_key_tail(rkey@, v, KIND_ZSET_SCORE, sub);
                        lemma_be64_round_trip(score_bits(sc));
                        assert(t@.subrange(0, 8) =~= be64(score_bits(sc)));
                        lemma_score_order(sc, sc);
                    }
                }
                Some(r)
            },
        }
    }

    /// The score stored under a ZSet member-keyed entry.
    pub fn decode_key_zset_data_value(value: &[u8]) -> (r: Option<i64>)
        ensures
            r == (if value@.len() == 8 {
                Some(score_from_bits(from_be64(value@)))
            } else {
                None
            }),
    {
        if value.len() != 8 {
            return None;
        }
        let u = read_be64(value, 0);
        assert(value@.subrange(0, 8) =~= value@);
        Some(if u >= 0x8000_0000_0000_0000u64 {
            (u - 0x8000_0000_0000_0000u64) as i64
        } else {
            (u as i64) - 0x7fff_ffff_ffff_ffffi64 - 1
        })
    }
}

// ---------------------------------------------------------------------
// Encoding
// ---------------------------------------------------------------------

/// Builds physical keys and header values.
pub struct KeyEncoder {}

impl KeyEncoder {
    pub fn encode_meta_key(k: &[u8]) -> (r: Vec<u8>)
        ensures
            r@ == meta_key(k@),
    {
        let mut r: Vec<u8> = Vec::new();
        r.push(KEY_SPACE);
        r.push(META_MARK);
        push_bytes(&mut r, k);
        assert(r@ =~= meta_key(k@));
        r
    }

    pub fn encode_data_key(k: &[u8], version: u16, kind: u8, sub: &[u8]) -> (r: Vec<u8>)
        ensures
            r@ == data_key(k@, version, kind, sub@),
    {
        let mut r: Vec<u8> = Vec::new();
        r.push(KEY_SPACE);
        r.push(DATA_MARK);
        push_be64(&mut r, k.len() as u64);
        push_bytes(&mut r, k);
        push_be16(&mut r, version);
        r.push(kind);
        push_bytes(&mut r, sub);
        assert(r@ =~= data_key(k@, version, kind, sub@));
        r
    }

    /// The prefix shared by the data keys of generation `version` of `k`.
    pub fn encode_generation_prefix(k: &[u8], version: u16) -> (r: Vec<u8>)
        ensures
            forall|d: u8, s: Seq<u8>| r@.is_prefix_of(#[trigger] data_key(k@, version, d, s)),
            r@.len() == 12 + k@.len(),
    {
        let mut r: Vec<u8> = Vec::new();
        r.push(KEY_SPACE);
        r.push(DATA_MARK);
        push_be64(&mut r, k.len() as u64);
        push_bytes(&mut r, k);
        push_be16(&mut r, version);
        proof {
            assert forall|d: u8, s: Seq<u8>| r@.is_prefix_of(#[trigger] data_key(k@, version, d, s)) by {
                assert(data_key(k@, version, d, s).subrange(0, r@.len() as int) =~= r@);
            }
        }
        r
    }

    pub fn encode_list_elem_key(k: &[u8], version: u16, index: u64) -> (r: Vec<u8>)
        ensures
            r@ == list_elem_key(k@, version, index),
    {
        let mut sub: Vec<u8> = Vec::new();
        push_be64(&mut sub, index);
        assert(sub@ =~= be64(index));
        Self::encode_data_key(k, version, KIND_LIST, sub.as_slice())
    }

    pub fn encode_score(score: i64) -> (r: Vec<u8>)
        ensures
            r@ == be64(score_bits(score)),
    {
        let u: u64 = if score >= 0 {
            (score as u64) + 0x8000_0000_0000_0000u64
        } else {
            ((score + 0x7fff_ffff_ffff_ffffi64 + 1) as u64)
        };
        let mut r: Vec<u8> = Vec::new();
        push_be64(&mut r, u);
        assert(r@ =~= be64(score_bits(score)));
        r
    }

    pub fn encode_zset_score_key(k: &[u8], version: u16, score: i64, member: &[u8]) -> (r: Vec<
        u8,
    >)
        ensures
            r@ == zset_score_key(k@, version, score, member@),
    {
        let mut sub = Self::encode_score(score);
        push_bytes(&mut sub, member);
        Self::encode_data_key(k, version, KIND_ZSET_SCORE, sub.as_slice())
    }

    pub fn encode_meta(t: DataType, ttl: u64, version: u16, count: u16) -> (r: Vec<u8>)
        ensures
            r@ == meta_bytes(t, ttl, version, count),
    {
        let mut r: Vec<u8> = Vec::new();
        r.push(t.tag());
        push_be64(&mut r, ttl);
        push_be16(&mut r, version);
        push_be16(&mut r, count);
        assert(r@ =~= meta_bytes(t, ttl, version, count));
        r
    }

    pub fn encode_list_meta(ttl: u64, version: u16, head: u64, tail: u64) -> (r: Vec<u8>)
        ensures
            r@ == list_meta_bytes(ttl, version, head, tail),
    {
        let mut r: Vec<u8> = Vec::new();
        r.push(2);
        push_be64(&mut r, ttl);
        push_be16(&mut r, version);
        push_be64(&mut r, head);
        push_be64(&mut r, tail);
        assert(r@ =~= list_meta_bytes(ttl, version, head, tail));
        r
    }

    pub fn encode_string_value(ttl: u64, payload: &[u8]) -> (r: Vec<u8>)
        ensures
            r@ == string_bytes(ttl, payload@),
    {
        let mut r: Vec<u8> = Vec::new();
        r.push(0);
        push_be64(&mut r, ttl);
        push_bytes(&mut r, payload);
        assert(r@ =~= string_bytes(ttl, payload@));
        r
    }
}

} // verus!
