//! Hash commands: fields of a key, each a data entry of the key's current
//! generation.
use vstd::prelude::*;
use crate::encoding::{DataType, Meta, KIND_HASH};
use crate::frame::{format_i64, lemma_parse_format, parse_i64, parse_i64_spec, signed_decimal};
use crate::record::{
    coll_get, coll_len, coll_ok, coll_put, coll_remove, coll_status, members, put_fits,
    status_after_remove, CmdError,
};
use crate::store::TxnBuffer;

verus! {

/// The fields of `k` as a hash.
pub open spec fn hash_of(st: Map<Seq<u8>, Seq<u8>>, k: Seq<u8>) -> Map<Seq<u8>, Seq<u8>> {
    members(st, k, DataType::Hash, KIND_HASH)
}

pub open spec fn hash_ok(st: Map<Seq<u8>, Seq<u8>>, k: Seq<u8>) -> bool {
    coll_ok(st, k, DataType::Hash, KIND_HASH)
}

pub open spec fn hash_status(st: Map<Seq<u8>, Seq<u8>>, k: Seq<u8>) -> Result<
    Option<Meta>,
    CmdError,
> {
    coll_status(st, k, DataType::Hash)
}

/// The integer a field holds for an increment: 0 where it is missing.
pub open spec fn hash_int(h: Map<Seq<u8>, Seq<u8>>, f: Seq<u8>) -> Option<i64> {
    if h.contains_key(f) {
        parse_i64_spec(h[f])
    } else {
        Some(0)
    }
}

/// A field that an increment has written reads back as the sum, so that a
/// later increment of it adds to that sum: increments in sequence add up.
pub proof fn lemma_increments_add_up(h: Map<Seq<u8>, Seq<u8>>, f: Seq<u8>, n: i64)
    ensures
        hash_int(h.insert(f, signed_decimal(n as int)), f) == Some(n),
{
    lemma_parse_format(n);
}

pub struct HashCommandCtx {}

impl HashCommandCtx {
    /// HSET: sets field `f` of `k`. Returns whether the field is new.
    pub fn hset(buf: &mut TxnBuffer, k: &[u8], f: &[u8], v: Vec<u8>) -> (r: Result<bool, CmdError>)
        requires
            old(buf).wf(),
            hash_ok(old(buf)@, k@),
        ensures
            final(buf).wf(),
            hash_ok(final(buf)@, k@),
            hash_status(old(buf)@, k@) is Err ==> r == Err::<bool, CmdError>(
                hash_status(old(buf)@, k@)->Err_0,
            ),
            r is Err ==> final(buf)@ == old(buf)@,
            put_fits(old(buf)@, k@, DataType::Hash, KIND_HASH, f@) ==> r is Ok,
            r is Ok ==> hash_of(final(buf)@, k@) == hash_of(old(buf)@, k@).insert(f@, v@)
                && r.unwrap() == !hash_of(old(buf)@, k@).contains_key(f@),
    {
        coll_put(buf, k, DataType::Hash, KIND_HASH, f, v)
    }

    /// HGET: the value of field `f` of `k`; `None` where it is missing.
    pub fn hget(buf: &TxnBuffer, k: &[u8], f: &[u8]) -> (r: Result<Option<Vec<u8>>, CmdError>)
        requires
            buf.wf(),
        ensures
            hash_status(buf@, k@) is Err ==> r == Err::<Option<Vec<u8>>, CmdError>(
                hash_status(buf@, k@)->Err_0,
            ),
            hash_status(buf@, k@) is Ok ==> r is Ok && (r.unwrap() is Some <==> hash_of(
                buf@,
                k@,
            ).contains_key(f@)) && (r.unwrap() is Some ==> r.unwrap().unwrap()@ == hash_of(
                buf@,
                k@,
            )[f@]),
    {
        coll_get(buf, k, DataType::Hash, KIND_HASH, f)
    }

    /// HDEL: removes field `f` of `k`; removing the last field removes the
    /// key. Returns whether the field was there.
    pub fn hdel(buf: &mut TxnBuffer, k: &[u8], f: &[u8]) -> (r: Result<bool, CmdError>)
        requires
            old(buf).wf(),
            hash_ok(old(buf)@, k@),
        ensures
            final(buf).wf(),
            hash_ok(final(buf)@, k@),
            hash_status(old(buf)@, k@) is Err ==> r == Err::<bool, CmdError>(
                hash_status(old(buf)@, k@)->Err_0,
            ) && final(buf)@ == old(buf)@,
            hash_status(old(buf)@, k@) is Ok ==> r is Ok,
            r is Ok ==> hash_of(final(buf)@, k@) == hash_of(old(buf)@, k@).remove(f@)
                && r.unwrap() == hash_of(old(buf)@, k@).contains_key(f@),
            r is Ok && hash_of(final(buf)@, k@).is_empty() ==> hash_status(final(buf)@, k@)
                == Ok::<Option<Meta>, CmdError>(None),
            r == Ok::<bool, CmdError>(false) ==> final(buf)@ == old(buf)@,
            r == Ok::<bool, CmdError>(true) && hash_status(old(buf)@, k@) is Ok && hash_status(
                old(buf)@,
                k@,
            )->Ok_0 is Some ==> hash_status(final(buf)@, k@) == status_after_remove(
                hash_status(old(buf)@, k@)->Ok_0.unwrap(),
            ),
    {
        coll_remove(buf, k, DataType::Hash, KIND_HASH, f)
    }

    /// HLEN: the number of fields of `k`.
    pub fn hlen(buf: &TxnBuffer, k: &[u8]) -> (r: Result<u64, CmdError>)
        requires
            buf.wf(),
            hash_ok(buf@, k@),
        ensures
            hash_status(buf@, k@) is Err ==> r == Err::<u64, CmdError>(
                hash_status(buf@, k@)->Err_0,
            ),
            hash_status(buf@, k@) is Ok ==> r is Ok && r.unwrap() == hash_of(buf@, k@).dom().len(),
    {
        coll_len(buf, k, DataType::Hash, KIND_HASH)
    }

    /// HINCRBY: adds `step` to the integer in field `f` of `k` (0 where it
    /// is missing) and returns the sum. The read and the write happen in
    /// one transaction, so concurrent increments conflict rather than
    /// overwrite each other.
    pub fn hincrby(buf: &mut TxnBuffer, k: &[u8], f: &[u8], step: i64) -> (r: Result<i64, CmdError>)
        requires
            old(buf).wf(),
            hash_ok(old(buf)@, k@),
        ensures
            final(buf).wf(),
            hash_ok(final(buf)@, k@),
            r is Err ==> final(buf)@ == old(buf)@,
            hash_status(old(buf)@, k@) is Err ==> r == Err::<i64, CmdError>(
                hash_status(old(buf)@, k@)->Err_0,
            ),
            hash_status(old(buf)@, k@) is Ok && hash_int(hash_of(old(buf)@, k@), f@) is None
                ==> r == Err::<i64, CmdError>(CmdError::NotInteger),
            hash_status(old(buf)@, k@) is Ok && hash_int(hash_of(old(buf)@, k@), f@) is Some
                && !(i64::MIN <= hash_int(hash_of(old(buf)@, k@), f@).unwrap() + step
                <= i64::MAX) ==> r == Err::<i64, CmdError>(CmdError::Overflow),
            hash_status(old(buf)@, k@) is Ok && hash_int(hash_of(old(buf)@, k@), f@) is Some
                && i64::MIN <= hash_int(hash_of(old(buf)@, k@), f@).unwrap() + step <= i64::MAX
                && put_fits(old(buf)@, k@, DataType::Hash, KIND_HASH, f@) ==> r is Ok,
            r is Ok ==> hash_int(hash_of(old(buf)@, k@), f@) is Some && r.unwrap() == hash_int(
                hash_of(old(buf)@, k@),
                f@,
            ).unwrap() + step && hash_of(final(buf)@, k@) == hash_of(old(buf)@, k@).insert(
                f@,
                signed_decimal(r.unwrap() as int),
            ),
    {
        let cur: i64 = match coll_get(buf, k, DataType::Hash, KIND_HASH, f) {
            Err(e) => {
                return Err(e);
            },
            Ok(None) => 0,
            Ok(Some(v)) => match parse_i64(v.as_slice()) {
                Some(n) => n,
                None => {
                    return Err(CmdError::NotInteger);
                },
            },
        };
        let next = match cur.checked_add(step) {
            Some(n) => n,
            None => {
                return Err(CmdError::Overflow);
            },
        };
        match coll_put(buf, k, DataType::Hash, KIND_HASH, f, format_i64(next)) {
            Ok(_) => Ok(next),
            Err(e) => Err(e),
        }
    }
}

} // verus!
