//! Records and their generations, and the keyed collections (Hash, Set and
//! the member-keyed half of ZSet) built on them.
//!
//! A record is its header under the meta key. Its elements live under data
//! keys that carry the header's generation version. Deleting a record drops
//! only its header. Every user key also has a generation key, which is never
//! deleted and holds the last version handed out; a new record takes the next
//! one, so the data keys of earlier generations can never be read again.
use vstd::prelude::*;
use crate::encoding::{
    be16, data_key, from_be16, is_collection_type, lemma_be16_round_trip,
    lemma_data_key_injective, lemma_meta_not_data, lemma_meta_round_trip, meta_bytes, meta_key,
    parse_meta, push_be16, push_bytes, read_be16, tag_type, type_tag, DataType, KeyDecoder,
    KeyEncoder, Meta, KEY_SPACE, META_MARK, DATA_MARK, KIND_HASH, KIND_SET, KIND_ZSET_MEMBER,
};
use crate::store::TxnBuffer;

verus! {

/// The errors a command can end in.
#[derive(Debug, Clone, Copy, PartialEq, Eq, Structural)]
pub enum CmdError {
    /// The key holds a record of another type.
    WrongType,
    /// A stored header does not decode.
    Corrupt,
    /// A stored value is not an integer.
    NotInteger,
    /// An increment would leave the range of `i64`, or a header's count or
    /// bound its range.
    Overflow,
    /// All 65536 generations of the key have been used.
    VersionsExhausted,
    /// The command's arguments are malformed.
    InvalidArguments,
    /// The deployment does not offer the command's store access mode.
    NotSupported,
    /// The transaction kept conflicting with others and was given up.
    TransientConflict,
    /// The backing store failed otherwise.
    StoreFailure,
}

impl CmdError {
    /// The protocol error message.
    pub fn message(&self) -> (r: &'static str) {
        match self {
            CmdError::WrongType => "WRONGTYPE Operation against a key holding the wrong kind of value",
            CmdError::Corrupt => "ERR internal consistency error",
            CmdError::NotInteger => "ERR hash value is not an integer",
            CmdError::Overflow => "ERR increment or decrement would overflow",
            CmdError::VersionsExhausted => "ERR no generation left for key",
            CmdError::InvalidArguments => "ERR invalid arguments",
            CmdError::NotSupported => "ERR not supported",
            CmdError::TransientConflict => "ERR transaction conflict, try again",
            CmdError::StoreFailure => "ERR backing store failure",
        }
    }
}

pub const GEN_MARK: u8 = 71;

pub open spec fn gen_key(k: Seq<u8>) -> Seq<u8> {
    seq![KEY_SPACE, GEN_MARK] + k
}

/// The last generation handed out for `k`, or -1.
pub open spec fn last_gen(st: Map<Seq<u8>, Seq<u8>>, k: Seq<u8>) -> int {
    if st.contains_key(gen_key(k)) && st[gen_key(k)].len() == 2 {
        from_be16(st[gen_key(k)]) as int
    } else {
        -1
    }
}

/// No data key of `k` is of a generation not yet handed out.
pub open spec fn gens_ok(st: Map<Seq<u8>, Seq<u8>>, k: Seq<u8>) -> bool {
    forall|v: u16, d: u8, s: Seq<u8>|
        #[trigger] st.contains_key(data_key(k, v, d, s)) ==> v <= last_gen(st, k)
}

/// What the header of `k` says for a command on type `t`: no record, a
/// record of type `t`, or an error.
pub open spec fn coll_status(st: Map<Seq<u8>, Seq<u8>>, k: Seq<u8>, t: DataType) -> Result<
    Option<Meta>,
    CmdError,
> {
    if !st.contains_key(meta_key(k)) {
        Ok(None)
    } else {
        let b = st[meta_key(k)];
        if b.len() == 0 || tag_type(b[0]) is None {
            Err(CmdError::Corrupt)
        } else if tag_type(b[0]) != Some(t) {
            Err(CmdError::WrongType)
        } else {
            match parse_meta(b) {
                Some(m) => Ok(Some(m)),
                None => Err(CmdError::Corrupt),
            }
        }
    }
}

/// The elements of kind `kind` of generation `v` of `k`.
pub open spec fn elems(st: Map<Seq<u8>, Seq<u8>>, k: Seq<u8>, v: u16, kind: u8) -> Map<
    Seq<u8>,
    Seq<u8>,
> {
    Map::new(
        |f: Seq<u8>| st.contains_key(data_key(k, v, kind, f)),
        |f: Seq<u8>| st[data_key(k, v, kind, f)],
    )
}

/// The logical contents of `k` as a collection of type `t`: empty where
/// there is no record (or one of another type).
pub open spec fn members(st: Map<Seq<u8>, Seq<u8>>, k: Seq<u8>, t: DataType, kind: u8) -> Map<
    Seq<u8>,
    Seq<u8>,
> {
    match coll_status(st, k, t) {
        Ok(Some(m)) => elems(st, k, m.version, kind),
        _ => Map::empty(),
    }
}

/// The stored state of `k`, as a collection of type `t` with elements of
/// kind `kind`, is consistent: the header's count is the number of elements,
/// a record is never empty, and no generation is ahead of the generation key.
pub open spec fn coll_ok(st: Map<Seq<u8>, Seq<u8>>, k: Seq<u8>, t: DataType, kind: u8) -> bool {
    &&& gens_ok(st, k)
    &&& match coll_status(st, k, t) {
        Ok(Some(m)) => {
            &&& elems(st, k, m.version, kind).dom().finite()
            &&& elems(st, k, m.version, kind).dom().len() == m.count
            &&& m.count > 0
            &&& m.version <= last_gen(st, k)
        },
        _ => true,
    }
}

/// Whether `q` is the data key of some element of kind `kind` of `k`.
pub open spec fn is_elem_key(q: Seq<u8>, k: Seq<u8>, kind: u8) -> bool {
    exists|v: u16, f: Seq<u8>| q == #[trigger] data_key(k, v, kind, f)
}

/// `a` and `b` agree on every key but the header, the generation key and
/// the elements of kind `kind` of `k`.
pub open spec fn same_outside(
    a: Map<Seq<u8>, Seq<u8>>,
    b: Map<Seq<u8>, Seq<u8>>,
    k: Seq<u8>,
    kind: u8,
) -> bool {
    forall|q: Seq<u8>|
        q != meta_key(k) && q != gen_key(k) && !is_elem_key(q, k, kind) ==> (
        #[trigger] a.contains_key(q) == b.contains_key(q) && (a.contains_key(q) ==> a[q]
            == b[q]))
}

/// Whether setting element `f` of `k` can succeed: the record exists and
/// either has `f` or room in its count, or there is no record and a
/// generation is left for a new one.
pub open spec fn put_fits(st: Map<Seq<u8>, Seq<u8>>, k: Seq<u8>, t: DataType, kind: u8, f: Seq<u8>) -> bool {
    match coll_status(st, k, t) {
        Ok(Some(m)) => members(st, k, t, kind).contains_key(f) || m.count < u16::MAX,
        Ok(None) => last_gen(st, k) < u16::MAX,
        Err(_) => false,
    }
}

/// The header status after one element is removed from a record with
/// header `m`: gone with its last element, else one lower in count.
pub open spec fn status_after_remove(m: Meta) -> Result<Option<Meta>, CmdError> {
    if m.count <= 1 {
        Ok(None)
    } else {
        Ok(Some(Meta { ttl: m.ttl, version: m.version, count: (m.count - 1) as u16 }))
    }
}

/// `b` holds no key that `a` does not, but perhaps the header of `k`.
pub open spec fn only_removes(a: Map<Seq<u8>, Seq<u8>>, b: Map<Seq<u8>, Seq<u8>>, k: Seq<u8>) -> bool {
    forall|q: Seq<u8>| #[trigger] b.contains_key(q) && q != meta_key(k) ==> a.contains_key(q)
}

pub open spec fn is_coll_kind(t: DataType, kind: u8) -> bool {
    ||| t == DataType::Hash && kind == KIND_HASH
    ||| t == DataType::PlainSet && kind == KIND_SET
    ||| t == DataType::Zset && kind == KIND_ZSET_MEMBER
}

// ---------------------------------------------------------------------
// Lemmas on keys
// ---------------------------------------------------------------------

pub proof fn lemma_gen_key_distinct(k: Seq<u8>, k2: Seq<u8>, v: u16, d: u8, s: Seq<u8>)
    ensures
        gen_key(k) != meta_key(k2),
        gen_key(k) != data_key(k2, v, d, s),
{
    assert(gen_key(k)[1] == GEN_MARK);
    assert(meta_key(k2)[1] == META_MARK);
    assert(data_key(k2, v, d, s)[1] == DATA_MARK);
}

/// Writing a key that is no data key of (k, v, kind) leaves those elements.
pub proof fn lemma_elems_other(
    st: Map<Seq<u8>, Seq<u8>>,
    k: Seq<u8>,
    v: u16,
    kind: u8,
    key: Seq<u8>,
    val: Seq<u8>,
)
    requires
        forall|f: Seq<u8>| key != #[trigger] data_key(k, v, kind, f),
    ensures
        elems(st.insert(key, val), k, v, kind) == elems(st, k, v, kind),
        elems(st.remove(key), k, v, kind) == elems(st, k, v, kind),
{
    assert(elems(st.insert(key, val), k, v, kind) =~= elems(st, k, v, kind));
    assert(elems(st.remove(key), k, v, kind) =~= elems(st, k, v, kind));
}

pub proof fn lemma_elems_put(
    st: Map<Seq<u8>, Seq<u8>>,
    k: Seq<u8>,
    v: u16,
    kind: u8,
    f: Seq<u8>,
    val: Seq<u8>,
)
    requires
        k.len() <= u64::MAX,
    ensures
        elems(st.insert(data_key(k, v, kind, f), val), k, v, kind) == elems(
            st,
            k,
            v,
            kind,
        ).insert(f, val),
        elems(st.remove(data_key(k, v, kind, f)), k, v, kind) == elems(st, k, v, kind).remove(f),
{
    assert forall|g: Seq<u8>| data_key(k, v, kind, g) == data_key(k, v, kind, f) implies g == f by {
        lemma_data_key_injective(k, v, kind, g, k, v, kind, f);
    }
    assert(elems(st.insert(data_key(k, v, kind, f), val), k, v, kind) =~= elems(
        st,
        k,
        v,
        kind,
    ).insert(f, val));
    assert(elems(st.remove(data_key(k, v, kind, f)), k, v, kind) =~= elems(
        st,
        k,
        v,
        kind,
    ).remove(f));
}

pub proof fn lemma_meta_not_elem(k: Seq<u8>, v: u16, kind: u8)
    ensures
        forall|f: Seq<u8>| meta_key(k) != #[trigger] data_key(k, v, kind, f),
        forall|f: Seq<u8>| gen_key(k) != #[trigger] data_key(k, v, kind, f),
{
    assert forall|f: Seq<u8>| meta_key(k) != #[trigger] data_key(k, v, kind, f) by {
        lemma_meta_not_data(k, k, v, kind, f);
    }
    assert forall|f: Seq<u8>| gen_key(k) != #[trigger] data_key(k, v, kind, f) by {
        lemma_gen_key_distinct(k, k, v, kind, f);
    }
}

/// A generation past the last one handed out has no elements: a record
/// created under it starts empty, whatever earlier generations left behind.
pub proof fn lemma_fresh_generation_is_empty(
    st: Map<Seq<u8>, Seq<u8>>,
    k: Seq<u8>,
    v: u16,
    kind: u8,
)
    requires
        gens_ok(st, k),
        v > last_gen(st, k),
    ensures
        elems(st, k, v, kind) == Map::<Seq<u8>, Seq<u8>>::empty(),
{
    assert(elems(st, k, v, kind) =~= Map::<Seq<u8>, Seq<u8>>::empty());
}

/// Once the header of `k` is dropped, `k` holds nothing of any collection
/// type, and the generation that a new record of `k` takes holds no
/// element, whatever earlier generations left in the store.
pub proof fn lemma_deleted_key_is_empty(
    st: Map<Seq<u8>, Seq<u8>>,
    k: Seq<u8>,
    t: DataType,
    kind: u8,
)
    requires
        gens_ok(st, k),
        last_gen(st, k) < u16::MAX,
    ensures
        members(st.remove(meta_key(k)), k, t, kind) == Map::<Seq<u8>, Seq<u8>>::empty(),
        gens_ok(st.remove(meta_key(k)), k),
        elems(st.remove(meta_key(k)), k, (last_gen(st, k) + 1) as u16, kind) == Map::<
            Seq<u8>,
            Seq<u8>,
        >::empty(),
{
    let fin = st.remove(meta_key(k));
    lemma_gen_key_distinct(k, k, 0, 0, Seq::empty());
    assert(last_gen(fin, k) == last_gen(st, k));
    assert forall|v2: u16, d2: u8, s2: Seq<u8>|
        #[trigger] fin.contains_key(data_key(k, v2, d2, s2)) implies v2 <= last_gen(fin, k) by {
        assert(st.contains_key(data_key(k, v2, d2, s2)));
    }
    assert(members(fin, k, t, kind) =~= Map::<Seq<u8>, Seq<u8>>::empty());
    lemma_fresh_generation_is_empty(fin, k, (last_gen(st, k) + 1) as u16, kind);
}

/// Deleting a collection key and then setting one element of it, in a
/// record of any collection type, leaves exactly that element: nothing
/// written before the deletion shows, although it may still be stored.
pub proof fn lemma_recreate_shows_only_new(
    st: Map<Seq<u8>, Seq<u8>>,
    st2: Map<Seq<u8>, Seq<u8>>,
    k: Seq<u8>,
    t: DataType,
    kind: u8,
    f: Seq<u8>,
    val: Seq<u8>,
)
    requires
        gens_ok(st, k),
        last_gen(st, k) < u16::MAX,
        members(st2, k, t, kind) == members(st.remove(meta_key(k)), k, t, kind).insert(f, val),
    ensures
        members(st2, k, t, kind) == Map::<Seq<u8>, Seq<u8>>::empty().insert(f, val),
{
    lemma_deleted_key_is_empty(st, k, t, kind);
}

// ---------------------------------------------------------------------
// Executable operations
// ---------------------------------------------------------------------

pub fn gen_key_of(k: &[u8]) -> (r: Vec<u8>)
    ensures
        r@ == gen_key(k@),
{
    let mut r: Vec<u8> = Vec::new();
    r.push(KEY_SPACE);
    r.push(GEN_MARK);
    push_bytes(&mut r, k);
    assert(r@ =~= gen_key(k@));
    r
}

/// Reads the header of `k` for a command on type `t`.
pub fn read_status(buf: &TxnBuffer, k: &[u8], t: DataType) -> (r: Result<Option<Meta>, CmdError>)
    requires
        buf.wf(),
        is_collection_type(t),
    ensures
        r == coll_status(buf@, k@, t),
{
    let mk = KeyEncoder::encode_meta_key(k);
    match buf.get(mk.as_slice()) {
        None => Ok(None),
        Some(b) => {
            match KeyDecoder::decode_key_type(b.as_slice()) {
                None => Err(CmdError::Corrupt),
                Some(found) => {
                    if found != t {
                        Err(CmdError::WrongType)
                    } else {
                        match KeyDecoder::decode_key_meta(b.as_slice()) {
                            Some(m) => Ok(Some(m)),
                            None => Err(CmdError::Corrupt),
                        }
                    }
                },
            }
        },
    }
}

/// The next generation for `k`, which is then recorded as handed out.
pub fn next_generation(buf: &mut TxnBuffer, k: &[u8]) -> (r: Result<u16, CmdError>)
    requires
        old(buf).wf(),
    ensures
        final(buf).wf(),
        r is Err ==> final(buf)@ == old(buf)@ && r == Err::<u16, CmdError>(
            CmdError::VersionsExhausted,
        ),
        last_gen(old(buf)@, k@) < u16::MAX ==> r is Ok,
        r is Ok ==> r.unwrap() == last_gen(old(buf)@, k@) + 1 && final(buf)@ == old(buf)@.insert(
            gen_key(k@),
            be16(r.unwrap()),
        ) && last_gen(final(buf)@, k@) == r.unwrap(),
{
    let gk = gen_key_of(k);
    let next: u16 = match buf.get(gk.as_slice()) {
        Some(b) => {
            if b.len() == 2 {
                let last = read_be16(b.as_slice(), 0);
                assert(b@.subrange(0, 2) =~= b@);
                if last == u16::MAX {
                    return Err(CmdError::VersionsExhausted);
                }
                last + 1
            } else {
                0
            }
        },
        None => 0,
    };
    let mut val: Vec<u8> = Vec::new();
    push_be16(&mut val, next);
    assert(val@ =~= be16(next));
    buf.put(gk, val);
    proof {
        lemma_be16_round_trip(next);
    }
    Ok(next)
}

/// The value of element `f` of `k`, a collection of type `t`.
pub fn coll_get(buf: &TxnBuffer, k: &[u8], t: DataType, kind: u8, f: &[u8]) -> (r: Result<
    Option<Vec<u8>>,
    CmdError,
>)
    requires
        buf.wf(),
        is_coll_kind(t, kind),
    ensures
        coll_status(buf@, k@, t) is Err ==> r == Err::<Option<Vec<u8>>, CmdError>(
            coll_status(buf@, k@, t)->Err_0,
        ),
        coll_status(buf@, k@, t) is Ok ==> r is Ok && (r.unwrap() is Some <==> members(
            buf@,
            k@,
            t,
            kind,
        ).contains_key(f@)) && (r.unwrap() is Some ==> r.unwrap().unwrap()@ == members(
            buf@,
            k@,
            t,
            kind,
        )[f@]),
{
    match read_status(buf, k, t) {
        Err(e) => Err(e),
        Ok(None) => Ok(None),
        Ok(Some(m)) => {
            let dk = KeyEncoder::encode_data_key(k, m.version, kind, f);
            Ok(buf.get(dk.as_slice()))
        },
    }
}

/// The number of elements of `k`, a collection of type `t`.
pub fn coll_len(buf: &TxnBuffer, k: &[u8], t: DataType, kind: u8) -> (r: Result<u64, CmdError>)
    requires
        buf.wf(),
        is_coll_kind(t, kind),
        coll_ok(buf@, k@, t, kind),
    ensures
        coll_status(buf@, k@, t) is Err ==> r == Err::<u64, CmdError>(
            coll_status(buf@, k@, t)->Err_0,
        ),
        coll_status(buf@, k@, t) is Ok ==> r is Ok && r.unwrap() == members(
            buf@,
            k@,
            t,
            kind,
        ).dom().len(),
{
    match read_status(buf, k, t) {
        Err(e) => Err(e),
        Ok(None) => {
            assert(members(buf@, k@, t, kind).dom() =~= Set::<Seq<u8>>::empty());
            Ok(0)
        },
        Ok(Some(m)) => Ok(m.count as u64),
    }
}

/// Sets element `f` of `k` to `val`, creating the record where there is
/// none. Returns whether `f` is new.
pub fn coll_put(buf: &mut TxnBuffer, k: &[u8], t: DataType, kind: u8, f: &[u8], val: Vec<u8>) -> (r:
    Result<bool, CmdError>)
    requires
        old(buf).wf(),
        is_coll_kind(t, kind),
        coll_ok(old(buf)@, k@, t, kind),
    ensures
        final(buf).wf(),
        same_outside(final(buf)@, old(buf)@, k@, kind),
        coll_ok(final(buf)@, k@, t, kind),
        coll_status(old(buf)@, k@, t) is Err ==> r == Err::<bool, CmdError>(
            coll_status(old(buf)@, k@, t)->Err_0,
        ) && final(buf)@ == old(buf)@,
        r is Ok ==> coll_status(final(buf)@, k@, t) is Ok && coll_status(final(buf)@, k@, t)->Ok_0 is Some,
        r is Ok && coll_status(old(buf)@, k@, t) is Ok && coll_status(old(buf)@, k@, t)->Ok_0 is Some
            ==> coll_status(final(buf)@, k@, t)->Ok_0.unwrap().version == coll_status(old(buf)@, k@, t)->Ok_0.unwrap().version,
        r is Ok && coll_status(old(buf)@, k@, t) == Ok::<Option<Meta>, CmdError>(None)
            ==> coll_status(final(buf)@, k@, t)->Ok_0.unwrap().version > last_gen(old(buf)@, k@),
        r is Err ==> final(buf)@ == old(buf)@,
        r is Ok ==> members(final(buf)@, k@, t, kind) == members(old(buf)@, k@, t, kind).insert(
            f@,
            val@,
        ) && r.unwrap() == !members(old(buf)@, k@, t, kind).contains_key(f@),
        put_fits(old(buf)@, k@, t, kind, f@) ==> r is Ok,
        coll_status(old(buf)@, k@, t) is Ok && coll_status(old(buf)@, k@, t)->Ok_0 is Some ==> r is Ok || r == Err::<bool, CmdError>(
            CmdError::Overflow,
        ),
        coll_status(old(buf)@, k@, t) == Ok::<Option<Meta>, CmdError>(None) ==> r is Ok || r == Err::<bool, CmdError>(
            CmdError::VersionsExhausted,
        ),
{
    let ghost st = buf@;
    let ghost kv = k@;
    let _ = k.len();
    assert(kv.len() <= u64::MAX);
    match read_status(buf, k, t) {
        Err(e) => Err(e),
        Ok(None) => {
            let v = match next_generation(buf, k) {
                Ok(v) => v,
                Err(e) => {
                    return Err(e);
                },
            };
            let ghost st1 = buf@;
            proof {
                lemma_fresh_generation_is_empty(st, kv, v, kind);
                lemma_meta_not_elem(kv, v, kind);
                assert forall|f2: Seq<u8>| gen_key(kv) != #[trigger] data_key(kv, v, kind, f2) by {}
                lemma_elems_other(st, kv, v, kind, gen_key(kv), be16(v));
            }
            let dk = KeyEncoder::encode_data_key(k, v, kind, f);
            buf.put(dk, val);
            let ghost st2 = buf@;
            let mk = KeyEncoder::encode_meta_key(k);
            let mv = KeyEncoder::encode_meta(t, 0, v, 1);
            buf.put(mk, mv);
            proof {
                let m = Meta { ttl: 0, version: v, count: 1 };
                lemma_meta_round_trip(t, m);
                lemma_elems_put(st1, kv, v, kind, f@, val@);
                lemma_elems_other(st2, kv, v, kind, meta_key(kv), meta_bytes(t, 0, v, 1));
                let fin = buf@;
                assert(fin[meta_key(kv)] == meta_bytes(t, 0, v, 1));
                assert(meta_bytes(t, 0, v, 1)[0] == type_tag(t));
                assert(coll_status(fin, kv, t) == Ok::<Option<Meta>, CmdError>(Some(m)));
                assert(elems(fin, kv, v, kind) == Map::<Seq<u8>, Seq<u8>>::empty().insert(
                    f@,
                    val@,
                ));
                assert(elems(fin, kv, v, kind).dom() =~= set![f@]);
                lemma_gen_key_distinct(kv, kv, v, kind, f@);
                lemma_meta_not_data(kv, kv, v, kind, f@);
                assert(last_gen(fin, kv) == v);
                assert forall|v2: u16, d2: u8, s2: Seq<u8>|
                    #[trigger] fin.contains_key(data_key(kv, v2, d2, s2)) implies v2
                    <= last_gen(fin, kv) by {
                    lemma_meta_not_data(kv, kv, v2, d2, s2);
                    lemma_gen_key_distinct(kv, kv, v2, d2, s2);
                    if data_key(kv, v2, d2, s2) != data_key(kv, v, kind, f@) {
                        assert(st.contains_key(data_key(kv, v2, d2, s2)));
                    } else {
                        lemma_data_key_injective(kv, v2, d2, s2, kv, v, kind, f@);
                    }
                }
                assert(members(st, kv, t, kind) =~= Map::<Seq<u8>, Seq<u8>>::empty());
                assert(members(fin, kv, t, kind) =~= members(st, kv, t, kind).insert(f@, val@));
            }
            Ok(true)
        },
        Ok(Some(m)) => {
            let dk = KeyEncoder::encode_data_key(k, m.version, kind, f);
            let existed = buf.get(dk.as_slice()).is_some();
            if !existed && m.count == u16::MAX {
                return Err(CmdError::Overflow);
            }
            buf.put(dk, val);
            let ghost st1 = buf@;
            proof {
                lemma_elems_put(st, kv, m.version, kind, f@, val@);
                lemma_gen_key_distinct(kv, kv, m.version, kind, f@);
                lemma_meta_not_data(kv, kv, m.version, kind, f@);
                assert(st1[meta_key(kv)] == st[meta_key(kv)]);
                assert(coll_status(st1, kv, t) == coll_status(st, kv, t));
                assert(last_gen(st1, kv) == last_gen(st, kv));
                assert forall|v2: u16, d2: u8, s2: Seq<u8>|
                    #[trigger] st1.contains_key(data_key(kv, v2, d2, s2)) implies v2
                    <= last_gen(st1, kv) by {
                    if data_key(kv, v2, d2, s2) != data_key(kv, m.version, kind, f@) {
                        assert(st.contains_key(data_key(kv, v2, d2, s2)));
                    } else {
                        lemma_data_key_injective(kv, v2, d2, s2, kv, m.version, kind, f@);
                    }
                }
            }
            if !existed {
                let mk = KeyEncoder::encode_meta_key(k);
                let mv = KeyEncoder::encode_meta(t, m.ttl, m.version, m.count + 1);
                buf.put(mk, mv);
                proof {
                    let m2 = Meta { count: (m.count + 1) as u16, ..m };
                    lemma_meta_round_trip(t, m2);
                    lemma_meta_not_elem(kv, m.version, kind);
                    lemma_elems_other(st1, kv, m.version, kind, meta_key(kv), meta_bytes(t, m.ttl, m.version, m2.count));
                    let fin = buf@;
                    assert(meta_bytes(t, m.ttl, m.version, m2.count)[0] == type_tag(t));
                    assert(coll_status(fin, kv, t) == Ok::<Option<Meta>, CmdError>(Some(m2)));
                    lemma_gen_key_distinct(kv, kv, 0, 0, Seq::empty());
                    assert(last_gen(fin, kv) == last_gen(st, kv));
                    assert(elems(fin, kv, m.version, kind).dom() =~= elems(st, kv, m.version, kind).dom().insert(f@));
                    assert forall|v2: u16, d2: u8, s2: Seq<u8>|
                        #[trigger] fin.contains_key(data_key(kv, v2, d2, s2)) implies v2
                        <= last_gen(fin, kv) by {
                        lemma_meta_not_data(kv, kv, v2, d2, s2);
                        assert(st1.contains_key(data_key(kv, v2, d2, s2)));
                    }
                }
            } else {
                proof {
                    assert(elems(st1, kv, m.version, kind).dom() =~= elems(st, kv, m.version, kind).dom());
                }
            }
            Ok(!existed)
        },
    }
}

/// Removes element `f` of `k`; removing the last element removes the
/// record. Returns whether `f` was there.
pub fn coll_remove(buf: &mut TxnBuffer, k: &[u8], t: DataType, kind: u8, f: &[u8]) -> (r: Result<
    bool,
    CmdError,
>)
    requires
        old(buf).wf(),
        is_coll_kind(t, kind),
        coll_ok(old(buf)@, k@, t, kind),
    ensures
        final(buf).wf(),
        same_outside(final(buf)@, old(buf)@, k@, kind),
        only_removes(old(buf)@, final(buf)@, k@),
        r == Ok::<bool, CmdError>(true) ==> !final(buf)@.contains_key(
            data_key(k@, coll_status(old(buf)@, k@, t)->Ok_0.unwrap().version, kind, f@),
        ),
        r == Ok::<bool, CmdError>(false) ==> final(buf)@ == old(buf)@,
        r == Ok::<bool, CmdError>(true) && coll_status(old(buf)@, k@, t) is Ok && coll_status(
            old(buf)@,
            k@,
            t,
        )->Ok_0 is Some ==> coll_status(final(buf)@, k@, t) == status_after_remove(
            coll_status(old(buf)@, k@, t)->Ok_0.unwrap(),
        ),
        coll_ok(final(buf)@, k@, t, kind),
        coll_status(old(buf)@, k@, t) is Err ==> r == Err::<bool, CmdError>(
            coll_status(old(buf)@, k@, t)->Err_0,
        ) && final(buf)@ == old(buf)@,
        coll_status(final(buf)@, k@, t) is Ok && coll_status(final(buf)@, k@, t)->Ok_0 is Some
            ==> coll_status(old(buf)@, k@, t) is Ok && coll_status(old(buf)@, k@, t)->Ok_0 is Some
            && coll_status(final(buf)@, k@, t)->Ok_0.unwrap().version == coll_status(old(buf)@, k@, t)->Ok_0.unwrap().version,
        coll_status(old(buf)@, k@, t) is Ok ==> coll_status(final(buf)@, k@, t) is Ok,
        coll_status(old(buf)@, k@, t) is Ok ==> r is Ok,
        r is Ok ==> members(final(buf)@, k@, t, kind) == members(old(buf)@, k@, t, kind).remove(
            f@,
        ) && r.unwrap() == members(old(buf)@, k@, t, kind).contains_key(f@),
        r is Ok && members(final(buf)@, k@, t, kind).is_empty() ==> coll_status(
            final(buf)@,
            k@,
            t,
        ) == Ok::<Option<Meta>, CmdError>(None),
{
    let ghost st = buf@;
    let ghost kv = k@;
    let _ = k.len();
    assert(kv.len() <= u64::MAX);
    match read_status(buf, k, t) {
        Err(e) => Err(e),
        Ok(None) => {
            assert(members(st, kv, t, kind) =~= members(st, kv, t, kind).remove(f@));
            Ok(false)
        },
        Ok(Some(m)) => {
            let dk = KeyEncoder::encode_data_key(k, m.version, kind, f);
            if buf.get(dk.as_slice()).is_none() {
                assert(members(st, kv, t, kind) =~= members(st, kv, t, kind).remove(f@));
                return Ok(false);
            }
            buf.delete(dk.as_slice());
            let ghost st1 = buf@;
            proof {
                lemma_elems_put(st, kv, m.version, kind, f@, Seq::empty());
                lemma_gen_key_distinct(kv, kv, m.version, kind, f@);
                lemma_meta_not_data(kv, kv, m.version, kind, f@);
                assert(last_gen(st1, kv) == last_gen(st, kv));
                assert(elems(st, kv, m.version, kind).dom().contains(f@));
                assert(elems(st1, kv, m.version, kind).dom() =~= elems(st, kv, m.version, kind).dom().remove(f@));
            }
            let mk = KeyEncoder::encode_meta_key(k);
            if m.count == 1 {
                buf.delete(mk.as_slice());
                proof {
                    let fin = buf@;
                    lemma_gen_key_distinct(kv, kv, 0, 0, Seq::empty());
                    assert(last_gen(fin, kv) == last_gen(st, kv));
                    assert forall|v2: u16, d2: u8, s2: Seq<u8>|
                        #[trigger] fin.contains_key(data_key(kv, v2, d2, s2)) implies v2
                        <= last_gen(fin, kv) by {
                        lemma_meta_not_data(kv, kv, v2, d2, s2);
                        assert(st.contains_key(data_key(kv, v2, d2, s2)));
                    }
                    assert(elems(st1, kv, m.version, kind).dom().len() == 0);
                    assert(elems(st1, kv, m.version, kind).dom() =~= Set::<Seq<u8>>::empty());
                    assert(members(fin, kv, t, kind) =~= members(st, kv, t, kind).remove(f@));
                }
            } else {
                let mv = KeyEncoder::encode_meta(t, m.ttl, m.version, m.count - 1);
                buf.put(mk, mv);
                proof {
                    let m2 = Meta { count: (m.count - 1) as u16, ..m };
                    lemma_meta_round_trip(t, m2);
                    lemma_meta_not_elem(kv, m.version, kind);
                    lemma_elems_other(st1, kv, m.version, kind, meta_key(kv), meta_bytes(t, m.ttl, m.version, m2.count));
                    let fin = buf@;
                    assert(meta_bytes(t, m.ttl, m.version, m2.count)[0] == type_tag(t));
                    assert(coll_status(fin, kv, t) == Ok::<Option<Meta>, CmdError>(Some(m2)));
                    lemma_gen_key_distinct(kv, kv, 0, 0, Seq::empty());
                    assert(last_gen(fin, kv) == last_gen(st, kv));
                    assert forall|v2: u16, d2: u8, s2: Seq<u8>|
                        #[trigger] fin.contains_key(data_key(kv, v2, d2, s2)) implies v2
                        <= last_gen(fin, kv) by {
                        lemma_meta_not_data(kv, kv, v2, d2, s2);
                        assert(st.contains_key(data_key(kv, v2, d2, s2)));
                    }
                    assert(elems(fin, kv, m.version, kind).dom().contains(f@) == false);
                    assert(!members(fin, kv, t, kind).is_empty()) by {
                        assert(elems(fin, kv, m.version, kind).dom().len() > 0);
                        if members(fin, kv, t, kind).is_empty() {
                            assert(elems(fin, kv, m.version, kind).dom() =~= Set::<Seq<u8>>::empty());
                        }
                    }
                }
            }
            Ok(true)
        },
    }
}

/// Deletes the record of `k`, of whatever type, by dropping its header; the
/// elements of its generation are left behind and are never read again.
/// Returns whether there was a record.
pub fn delete_key(buf: &mut TxnBuffer, k: &[u8]) -> (r: bool)
    requires
        old(buf).wf(),
        gens_ok(old(buf)@, k@),
    ensures
        final(buf).wf(),
        gens_ok(final(buf)@, k@),
        r == old(buf)@.contains_key(meta_key(k@)),
        final(buf)@ == old(buf)@.remove(meta_key(k@)),
        forall|t: DataType| #[trigger] coll_status(final(buf)@, k@, t) == Ok::<Option<Meta>, CmdError>(None),
{
    let mk = KeyEncoder::encode_meta_key(k);
    let existed = buf.get(mk.as_slice()).is_some();
    let ghost st = buf@;
    buf.delete(mk.as_slice());
    proof {
        let fin = buf@;
        lemma_gen_key_distinct(k@, k@, 0, 0, Seq::empty());
        assert(last_gen(fin, k@) == last_gen(st, k@));
        assert forall|v2: u16, d2: u8, s2: Seq<u8>|
            #[trigger] fin.contains_key(data_key(k@, v2, d2, s2)) implies v2 <= last_gen(fin, k@) by {
            lemma_meta_not_data(k@, k@, v2, d2, s2);
            assert(st.contains_key(data_key(k@, v2, d2, s2)));
        }
    }
    existed
}

} // verus!
