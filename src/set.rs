//! Set commands: members of a key, each a data entry of the key's current
//! generation; the header keeps the cardinality.
use vstd::prelude::*;
use crate::encoding::{DataType, Meta, KIND_SET};
use crate::record::{
    coll_get, coll_len, coll_ok, coll_put, coll_remove, coll_status, members, put_fits,
    status_after_remove, CmdError,
};
use crate::store::TxnBuffer;

verus! {

/// The members of `k` as a set.
pub open spec fn set_of(st: Map<Seq<u8>, Seq<u8>>, k: Seq<u8>) -> Set<Seq<u8>> {
    members(st, k, DataType::PlainSet, KIND_SET).dom()
}

pub open spec fn set_ok(st: Map<Seq<u8>, Seq<u8>>, k: Seq<u8>) -> bool {
    coll_ok(st, k, DataType::PlainSet, KIND_SET)
}

pub open spec fn set_status(st: Map<Seq<u8>, Seq<u8>>, k: Seq<u8>) -> Result<
    Option<Meta>,
    CmdError,
> {
    coll_status(st, k, DataType::PlainSet)
}

pub struct SetCommandCtx {}

impl SetCommandCtx {
    /// SADD: adds `m` to `k`. Returns whether it is new.
    pub fn sadd(buf: &mut TxnBuffer, k: &[u8], m: &[u8]) -> (r: Result<bool, CmdError>)
        requires
            old(buf).wf(),
            set_ok(old(buf)@, k@),
        ensures
            final(buf).wf(),
            set_ok(final(buf)@, k@),
            set_status(old(buf)@, k@) is Err ==> r == Err::<bool, CmdError>(
                set_status(old(buf)@, k@)->Err_0,
            ),
            r is Err ==> final(buf)@ == old(buf)@,
            put_fits(old(buf)@, k@, DataType::PlainSet, KIND_SET, m@) ==> r is Ok,
            r is Ok ==> set_of(final(buf)@, k@) == set_of(old(buf)@, k@).insert(m@) && r.unwrap()
                == !set_of(old(buf)@, k@).contains(m@),
    {
        let r = coll_put(buf, k, DataType::PlainSet, KIND_SET, m, Vec::new());
        proof {
            if r is Ok {
                assert(set_of(buf@, k@) =~= set_of(old(buf)@, k@).insert(m@));
            }
        }
        r
    }

    /// SREM: removes `m` from `k`; removing the last member removes the key.
    /// Returns whether it was there.
    pub fn srem(buf: &mut TxnBuffer, k: &[u8], m: &[u8]) -> (r: Result<bool, CmdError>)
        requires
            old(buf).wf(),
            set_ok(old(buf)@, k@),
        ensures
            final(buf).wf(),
            set_ok(final(buf)@, k@),
            set_status(old(buf)@, k@) is Err ==> r == Err::<bool, CmdError>(
                set_status(old(buf)@, k@)->Err_0,
            ) && final(buf)@ == old(buf)@,
            set_status(old(buf)@, k@) is Ok ==> r is Ok,
            r is Ok ==> set_of(final(buf)@, k@) == set_of(old(buf)@, k@).remove(m@) && r.unwrap()
                == set_of(old(buf)@, k@).contains(m@),
            r is Ok && set_of(final(buf)@, k@).is_empty() ==> set_status(final(buf)@, k@)
                == Ok::<Option<Meta>, CmdError>(None),
            r == Ok::<bool, CmdError>(false) ==> final(buf)@ == old(buf)@,
            r == Ok::<bool, CmdError>(true) && set_status(old(buf)@, k@) is Ok && set_status(
                old(buf)@,
                k@,
            )->Ok_0 is Some ==> set_status(final(buf)@, k@) == status_after_remove(
                set_status(old(buf)@, k@)->Ok_0.unwrap(),
            ),
    {
        let r = coll_remove(buf, k, DataType::PlainSet, KIND_SET, m);
        proof {
            if r is Ok {
                assert(set_of(buf@, k@) =~= set_of(old(buf)@, k@).remove(m@));
                if set_of(buf@, k@).is_empty() {
                    assert(members(buf@, k@, DataType::PlainSet, KIND_SET)
                        =~= Map::<Seq<u8>, Seq<u8>>::empty());
                }
            }
        }
        r
    }

    /// SISMEMBER: whether `m` is a member of `k`.
    pub fn sismember(buf: &TxnBuffer, k: &[u8], m: &[u8]) -> (r: Result<bool, CmdError>)
        requires
            buf.wf(),
        ensures
            set_status(buf@, k@) is Err ==> r == Err::<bool, CmdError>(
                set_status(buf@, k@)->Err_0,
            ),
            set_status(buf@, k@) is Ok ==> r == Ok::<bool, CmdError>(
                set_of(buf@, k@).contains(m@),
            ),
    {
        match coll_get(buf, k, DataType::PlainSet, KIND_SET, m) {
            Ok(v) => Ok(v.is_some()),
            Err(e) => Err(e),
        }
    }

    /// SCARD: the number of members of `k`, kept in its header.
    pub fn scard(buf: &TxnBuffer, k: &[u8]) -> (r: Result<u64, CmdError>)
        requires
            buf.wf(),
            set_ok(buf@, k@),
        ensures
            set_status(buf@, k@) is Err ==> r == Err::<u64, CmdError>(
                set_status(buf@, k@)->Err_0,
            ),
            set_status(buf@, k@) is Ok ==> r is Ok && r.unwrap() == set_of(buf@, k@).len(),
    {
        coll_len(buf, k, DataType::PlainSet, KIND_SET)
    }
}

} // verus!
