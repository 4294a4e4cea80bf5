//! String commands: the value is held inline in the record's header.
use vstd::prelude::*;
use crate::encoding::{
    be64, bytes_from, lemma_meta_not_data, meta_key, push_be64, push_bytes, string_bytes, tag_type,
    type_tag, DataType, KeyDecoder, KeyEncoder, STRING_PREFIX_LEN,
};
use crate::record::{gens_ok, last_gen, lemma_gen_key_distinct, CmdError};
use crate::store::TxnBuffer;

verus! {

/// The value of `k` as a String: none where there is no record.
pub open spec fn string_status(st: Map<Seq<u8>, Seq<u8>>, k: Seq<u8>) -> Result<
    Option<Seq<u8>>,
    CmdError,
> {
    if !st.contains_key(meta_key(k)) {
        Ok(None)
    } else {
        let b = st[meta_key(k)];
        if b.len() == 0 || tag_type(b[0]) is None {
            Err(CmdError::Corrupt)
        } else if tag_type(b[0]) != Some(DataType::String) {
            Err(CmdError::WrongType)
        } else if b.len() < STRING_PREFIX_LEN {
            Err(CmdError::Corrupt)
        } else {
            Ok(Some(b.subrange(STRING_PREFIX_LEN as int, b.len() as int)))
        }
    }
}

/// A header with its expiry timestamp replaced by `at`.
pub open spec fn with_ttl(b: Seq<u8>, at: u64) -> Seq<u8> {
    b.subrange(0, 1) + be64(at) + b.subrange(9, b.len() as int)
}

pub struct StringCommandCtx {}

impl StringCommandCtx {
    /// GET: the value of `k`.
    pub fn get(buf: &TxnBuffer, k: &[u8]) -> (r: Result<Option<Vec<u8>>, CmdError>)
        requires
            buf.wf(),
        ensures
            string_status(buf@, k@) is Err ==> r == Err::<Option<Vec<u8>>, CmdError>(
                string_status(buf@, k@)->Err_0,
            ),
            string_status(buf@, k@) is Ok ==> r is Ok && (r.unwrap() is Some <==> string_status(
                buf@,
                k@,
            )->Ok_0 is Some) && (r.unwrap() is Some ==> r.unwrap().unwrap()@ == string_status(
                buf@,
                k@,
            )->Ok_0.unwrap()),
    {
        let mk = KeyEncoder::encode_meta_key(k);
        match buf.get(mk.as_slice()) {
            None => Ok(None),
            Some(b) => match KeyDecoder::decode_key_type(b.as_slice()) {
                None => Err(CmdError::Corrupt),
                Some(t) => {
                    if t != DataType::String {
                        Err(CmdError::WrongType)
                    } else {
                        match KeyDecoder::decode_key_string_slice(b.as_slice()) {
                            Some(v) => Ok(Some(v)),
                            None => Err(CmdError::Corrupt),
                        }
                    }
                },
            },
        }
    }

    /// SET: makes `k` a String holding `v`, whatever it held before. The
    /// elements of a collection it held are left to their generation.
    pub fn set(buf: &mut TxnBuffer, k: &[u8], v: &[u8])
        requires
            old(buf).wf(),
            gens_ok(old(buf)@, k@),
        ensures
            final(buf).wf(),
            gens_ok(final(buf)@, k@),
            final(buf)@ == old(buf)@.insert(meta_key(k@), string_bytes(0, v@)),
            string_status(final(buf)@, k@) == Ok::<Option<Seq<u8>>, CmdError>(Some(v@)),
    {
        let ghost st = buf@;
        let mk = KeyEncoder::encode_meta_key(k);
        let val = KeyEncoder::encode_string_value(0, v);
        buf.put(mk, val);
        proof {
            let fin = buf@;
            let b = string_bytes(0, v@);
            assert(b[0] == type_tag(DataType::String));
            assert(b.subrange(STRING_PREFIX_LEN as int, b.len() as int) =~= v@);
            lemma_gen_key_distinct(k@, k@, 0, 0, Seq::empty());
            assert(last_gen(fin, k@) == last_gen(st, k@));
            assert forall|v2: u16, d2: u8, s2: Seq<u8>|
                #[trigger] fin.contains_key(crate::encoding::data_key(k@, v2, d2, s2)) implies v2
                <= last_gen(fin, k@) by {
                lemma_meta_not_data(k@, k@, v2, d2, s2);
                assert(st.contains_key(crate::encoding::data_key(k@, v2, d2, s2)));
            }
        }
    }

    /// Sets the expiry timestamp (ms) of `k`, of whatever type, keeping the
    /// rest of its header. Returns whether `k` exists.
    pub fn expire_at(buf: &mut TxnBuffer, k: &[u8], at: u64) -> (r: Result<bool, CmdError>)
        requires
            old(buf).wf(),
            gens_ok(old(buf)@, k@),
        ensures
            final(buf).wf(),
            gens_ok(final(buf)@, k@),
            !old(buf)@.contains_key(meta_key(k@)) ==> r == Ok::<bool, CmdError>(false)
                && final(buf)@ == old(buf)@,
            old(buf)@.contains_key(meta_key(k@)) && old(buf)@[meta_key(k@)].len() < 9 ==> r
                == Err::<bool, CmdError>(CmdError::Corrupt) && final(buf)@ == old(buf)@,
            old(buf)@.contains_key(meta_key(k@)) && old(buf)@[meta_key(k@)].len() >= 9 ==> r
                == Ok::<bool, CmdError>(true) && final(buf)@ == old(buf)@.insert(
                meta_key(k@),
                with_ttl(old(buf)@[meta_key(k@)], at),
            ),
    {
        let ghost st = buf@;
        let mk = KeyEncoder::encode_meta_key(k);
        let b = match buf.get(mk.as_slice()) {
            None => {
                return Ok(false);
            },
            Some(b) => b,
        };
        if b.len() < 9 {
            return Err(CmdError::Corrupt);
        }
        let mut nb: Vec<u8> = Vec::new();
        nb.push(b[0]);
        push_be64(&mut nb, at);
        let rest = bytes_from(b.as_slice(), 9);
        push_bytes(&mut nb, rest.as_slice());
        assert(nb@ =~= with_ttl(b@, at));
        buf.put(mk, nb);
        proof {
            let fin = buf@;
            lemma_gen_key_distinct(k@, k@, 0, 0, Seq::empty());
            assert(last_gen(fin, k@) == last_gen(st, k@));
            assert forall|v2: u16, d2: u8, s2: Seq<u8>|
                #[trigger] fin.contains_key(crate::encoding::data_key(k@, v2, d2, s2)) implies v2
                <= last_gen(fin, k@) by {
                lemma_meta_not_data(k@, k@, v2, d2, s2);
                assert(st.contains_key(crate::encoding::data_key(k@, v2, d2, s2)));
            }
        }
        Ok(true)
    }
}

} // verus!
