//! List commands. A list is a window head..tail of element indexes in its
//! header; each element is a data entry of the current generation under its
//! index. Pushes move a bound outward, pops move it inward, and the length
//! is tail - head.
use vstd::prelude::*;
use crate::encoding::{
    be64, data_key, lemma_be64_round_trip, lemma_data_key_injective, lemma_list_meta_round_trip,
    lemma_meta_not_data, list_elem_key, list_meta_bytes, meta_key, parse_list_meta, tag_type,
    type_tag, DataType, KeyDecoder, KeyEncoder, ListMeta, KIND_LIST,
};
use crate::record::{gen_key, gens_ok, last_gen, lemma_gen_key_distinct, next_generation, CmdError};
use crate::store::TxnBuffer;

verus! {

/// Where the bounds of a new list start, so that it can grow both ways.
pub const LIST_ORIGIN: u64 = 0x8000_0000_0000_0000;

pub open spec fn list_status(st: Map<Seq<u8>, Seq<u8>>, k: Seq<u8>) -> Result<
    Option<ListMeta>,
    CmdError,
> {
    if !st.contains_key(meta_key(k)) {
        Ok(None)
    } else {
        let b = st[meta_key(k)];
        if b.len() == 0 || tag_type(b[0]) is None {
            Err(CmdError::Corrupt)
        } else if tag_type(b[0]) != Some(DataType::List) {
            Err(CmdError::WrongType)
        } else {
            match parse_list_meta(b) {
                Some(m) => Ok(Some(m)),
                None => Err(CmdError::Corrupt),
            }
        }
    }
}

/// The elements of `k` in order, head first.
pub open spec fn list_of(st: Map<Seq<u8>, Seq<u8>>, k: Seq<u8>) -> Seq<Seq<u8>> {
    match list_status(st, k) {
        Ok(Some(m)) => Seq::new(
            (m.tail - m.head) as nat,
            |i: int| st[list_elem_key(k, m.version, (m.head + i) as u64)],
        ),
        _ => Seq::empty(),
    }
}

/// The stored state of `k` as a list is consistent: a list record is never
/// empty, and every index of its window has its element.
pub open spec fn list_ok(st: Map<Seq<u8>, Seq<u8>>, k: Seq<u8>) -> bool {
    &&& gens_ok(st, k)
    &&& match list_status(st, k) {
        Ok(Some(m)) => {
            &&& m.head < m.tail
            &&& m.version <= last_gen(st, k)
            &&& forall|i: u64|
                m.head <= i < m.tail ==> st.contains_key(#[trigger] list_elem_key(k, m.version, i))
        },
        _ => true,
    }
}

/// The window that LRANGE reads: negative offsets count from the end, and
/// the end is clamped to the last element.
pub open spec fn range_start(n: int, left: int) -> int {
    if left < 0 {
        if left + n < 0 {
            0
        } else {
            left + n
        }
    } else {
        left
    }
}

pub open spec fn range_end(n: int, right: int) -> int {
    if right < 0 {
        right + n
    } else if right >= n {
        n - 1
    } else {
        right
    }
}

pub open spec fn list_range(s: Seq<Seq<u8>>, left: int, right: int) -> Seq<Seq<u8>> {
    let l = range_start(s.len() as int, left);
    let r = range_end(s.len() as int, right);
    if l > r || l >= s.len() {
        Seq::empty()
    } else {
        s.subrange(l, r + 1)
    }
}

/// The whole list, from the first to the last offset, in push order.
pub proof fn lemma_range_all(s: Seq<Seq<u8>>)
    ensures
        list_range(s, 0, -1) == s,
{
    if s.len() > 0 {
        assert(s.subrange(0, s.len() as int) =~= s);
    } else {
        assert(list_range(s, 0, -1) =~= s);
    }
}

/// A list whose header was dropped is empty, and pushing onto it again
/// gives exactly the pushed element: no element of before shows.
pub proof fn lemma_deleted_list_is_empty(st: Map<Seq<u8>, Seq<u8>>, st2: Map<Seq<u8>, Seq<u8>>, k: Seq<u8>, v: Seq<u8>)
    requires
        list_of(st2, k) == list_of(st.remove(meta_key(k)), k).push(v),
    ensures
        list_of(st.remove(meta_key(k)), k) == Seq::<Seq<u8>>::empty(),
        list_of(st2, k) == seq![v],
{
    assert(list_status(st.remove(meta_key(k)), k) == Ok::<Option<ListMeta>, CmdError>(None));
    assert(list_of(st2, k) =~= seq![v]);
}

proof fn lemma_elem_key_facts(k: Seq<u8>, v: u16, i: u64)
    requires
        k.len() <= u64::MAX,
    ensures
        list_elem_key(k, v, i) != meta_key(k),
        list_elem_key(k, v, i) != gen_key(k),
        forall|j: u64| list_elem_key(k, v, i) == #[trigger] list_elem_key(k, v, j) ==> i == j,
{
    lemma_meta_not_data(k, k, v, KIND_LIST, be64(i));
    lemma_gen_key_distinct(k, k, v, KIND_LIST, be64(i));
    assert forall|j: u64| list_elem_key(k, v, i) == #[trigger] list_elem_key(k, v, j) implies i
        == j by {
        lemma_data_key_injective(k, v, KIND_LIST, be64(i), k, v, KIND_LIST, be64(j));
        lemma_be64_round_trip(i);
        lemma_be64_round_trip(j);
    }
}

/// Writing a data key of a generation already handed out keeps `gens_ok`.
proof fn lemma_gens_after_put(st: Map<Seq<u8>, Seq<u8>>, k: Seq<u8>, key: Seq<u8>, val: Seq<u8>, v: u16, d: u8, sub: Seq<u8>)
    requires
        k.len() <= u64::MAX,
        gens_ok(st, k),
        key == data_key(k, v, d, sub),
        v <= last_gen(st, k),
    ensures
        gens_ok(st.insert(key, val), k),
        last_gen(st.insert(key, val), k) == last_gen(st, k),
{
    let fin = st.insert(key, val);
    lemma_gen_key_distinct(k, k, v, d, sub);
    assert(last_gen(fin, k) == last_gen(st, k));
    assert forall|v2: u16, d2: u8, s2: Seq<u8>|
        #[trigger] fin.contains_key(data_key(k, v2, d2, s2)) implies v2 <= last_gen(fin, k) by {
        if data_key(k, v2, d2, s2) == key {
            lemma_data_key_injective(k, v2, d2, s2, k, v, d, sub);
        } else {
            assert(st.contains_key(data_key(k, v2, d2, s2)));
        }
    }
}

proof fn lemma_gens_after_remove(st: Map<Seq<u8>, Seq<u8>>, k: Seq<u8>, key: Seq<u8>)
    requires
        gens_ok(st, k),
        key != gen_key(k),
    ensures
        gens_ok(st.remove(key), k),
        last_gen(st.remove(key), k) == last_gen(st, k),
{
    let fin = st.remove(key);
    assert(last_gen(fin, k) == last_gen(st, k));
    assert forall|v2: u16, d2: u8, s2: Seq<u8>|
        #[trigger] fin.contains_key(data_key(k, v2, d2, s2)) implies v2 <= last_gen(fin, k) by {
        assert(st.contains_key(data_key(k, v2, d2, s2)));
    }
}

proof fn lemma_gens_after_meta(st: Map<Seq<u8>, Seq<u8>>, k: Seq<u8>, val: Seq<u8>)
    requires
        gens_ok(st, k),
    ensures
        gens_ok(st.insert(meta_key(k), val), k),
        last_gen(st.insert(meta_key(k), val), k) == last_gen(st, k),
{
    let fin = st.insert(meta_key(k), val);
    lemma_gen_key_distinct(k, k, 0, 0, Seq::empty());
    assert(last_gen(fin, k) == last_gen(st, k));
    assert forall|v2: u16, d2: u8, s2: Seq<u8>|
        #[trigger] fin.contains_key(data_key(k, v2, d2, s2)) implies v2 <= last_gen(fin, k) by {
        lemma_meta_not_data(k, k, v2, d2, s2);
        assert(st.contains_key(data_key(k, v2, d2, s2)));
    }
}

fn read_list_status(buf: &TxnBuffer, k: &[u8]) -> (r: Result<Option<ListMeta>, CmdError>)
    requires
        buf.wf(),
    ensures
        r == list_status(buf@, k@),
{
    let mk = KeyEncoder::encode_meta_key(k);
    match buf.get(mk.as_slice()) {
        None => Ok(None),
        Some(b) => match KeyDecoder::decode_key_type(b.as_slice()) {
            None => Err(CmdError::Corrupt),
            Some(found) => {
                if found != DataType::List {
                    Err(CmdError::WrongType)
                } else {
                    match KeyDecoder::decode_key_list_meta(b.as_slice()) {
                        Some(m) => Ok(Some(m)),
                        None => Err(CmdError::Corrupt),
                    }
                }
            },
        },
    }
}

/// Whether a push at that end can succeed: the bound has room to move
/// out, or there is no list and a generation is left for a new one.
pub open spec fn push_fits(st: Map<Seq<u8>, Seq<u8>>, k: Seq<u8>, at_head: bool) -> bool {
    match list_status(st, k) {
        Ok(Some(m)) => if at_head {
            m.head > 0
        } else {
            m.tail < u64::MAX
        },
        Ok(None) => last_gen(st, k) < u16::MAX,
        Err(_) => false,
    }
}

pub struct ListCommandCtx {}

impl ListCommandCtx {
    /// Writes the header of a list; the elements are already in place.
    fn write_meta(buf: &mut TxnBuffer, k: &[u8], m: ListMeta)
        requires
            old(buf).wf(),
        ensures
            final(buf).wf(),
            final(buf)@ == old(buf)@.insert(meta_key(k@), list_meta_bytes(m.ttl, m.version, m.head, m.tail)),
            list_status(final(buf)@, k@) == Ok::<Option<ListMeta>, CmdError>(Some(m)),
    {
        let mk = KeyEncoder::encode_meta_key(k);
        let mv = KeyEncoder::encode_list_meta(m.ttl, m.version, m.head, m.tail);
        buf.put(mk, mv);
        proof {
            lemma_list_meta_round_trip(m);
            assert(list_meta_bytes(m.ttl, m.version, m.head, m.tail)[0] == type_tag(DataType::List));
        }
    }

    /// RPUSH (`at_head` false) or LPUSH (`at_head` true) of one element.
    /// Returns the new length.
    pub fn push(buf: &mut TxnBuffer, k: &[u8], val: Vec<u8>, at_head: bool) -> (r: Result<u64, CmdError>)
        requires
            old(buf).wf(),
            list_ok(old(buf)@, k@),
        ensures
            final(buf).wf(),
            list_ok(final(buf)@, k@),
            list_status(old(buf)@, k@) is Err ==> r == Err::<u64, CmdError>(
                list_status(old(buf)@, k@)->Err_0,
            ),
            r is Err ==> final(buf)@ == old(buf)@,
            push_fits(old(buf)@, k@, at_head) ==> r is Ok,
            r is Ok && !at_head ==> list_of(final(buf)@, k@) == list_of(old(buf)@, k@).push(val@),
            r is Ok && at_head ==> list_of(final(buf)@, k@) == seq![val@] + list_of(old(buf)@, k@),
            r is Ok ==> r.unwrap() == list_of(final(buf)@, k@).len(),
    {
        let ghost st = buf@;
        let ghost kv = k@;
        let _ = k.len();
        assert(kv.len() <= u64::MAX);
        let (m, fresh) = match read_list_status(buf, k) {
            Err(e) => {
                return Err(e);
            },
            Ok(Some(m)) => {
                if (at_head && m.head == 0) || (!at_head && m.tail == u64::MAX) {
                    return Err(CmdError::Overflow);
                }
                (m, false)
            },
            Ok(None) => {
                let v = match next_generation(buf, k) {
                    Ok(v) => v,
                    Err(e) => {
                        return Err(e);
                    },
                };
                (ListMeta { ttl: 0, version: v, head: LIST_ORIGIN, tail: LIST_ORIGIN }, true)
            },
        };
        let ghost st1 = buf@;
        proof {
            if fresh {
                lemma_gen_key_distinct(kv, kv, 0, 0, Seq::empty());
                assert forall|v2: u16, d2: u8, s2: Seq<u8>|
                    #[trigger] st1.contains_key(data_key(kv, v2, d2, s2)) implies v2 <= last_gen(
                    st1,
                    kv,
                ) by {
                    lemma_gen_key_distinct(kv, kv, v2, d2, s2);
                    assert(st.contains_key(data_key(kv, v2, d2, s2)));
                }
            }
        }
        let idx: u64 = if at_head {
            m.head - 1
        } else {
            m.tail
        };
        let ek = KeyEncoder::encode_list_elem_key(k, m.version, idx);
        buf.put(ek, val);
        let ghost st2 = buf@;
        let nm = if at_head {
            ListMeta { head: idx, ..m }
        } else {
            ListMeta { tail: m.tail + 1, ..m }
        };
        Self::write_meta(buf, k, nm);
        proof {
            let fin = buf@;
            lemma_elem_key_facts(kv, m.version, idx);
            lemma_gens_after_put(st1, kv, list_elem_key(kv, m.version, idx), val@, m.version, KIND_LIST, be64(idx));
            lemma_gens_after_meta(st2, kv, list_meta_bytes(nm.ttl, nm.version, nm.head, nm.tail));
            assert forall|i: u64| nm.head <= i < nm.tail implies fin.contains_key(
                #[trigger] list_elem_key(kv, m.version, i),
            ) by {
                lemma_elem_key_facts(kv, m.version, i);
                if i != idx {
                    assert(!fresh);
                    assert(st.contains_key(list_elem_key(kv, m.version, i)));
                }
            }
            let old_list = list_of(st, kv);
            if !fresh {
                assert(old_list =~= Seq::new(
                    (m.tail - m.head) as nat,
                    |i: int| st[list_elem_key(kv, m.version, (m.head + i) as u64)],
                ));
            } else {
                assert(old_list =~= Seq::<Seq<u8>>::empty());
            }
            let new_list = list_of(fin, kv);
            assert forall|i: int| 0 <= i < old_list.len() implies #[trigger] old_list[i] == fin[list_elem_key(kv, m.version, (m.head + i) as u64)] by {
                let j = (m.head + i) as u64;
                lemma_elem_key_facts(kv, m.version, j);
                assert(j != idx);
                assert(st1[list_elem_key(kv, m.version, j)] == st[list_elem_key(kv, m.version, j)]) by {
                    if fresh {
                        assert(false);
                    }
                }
            }
            if at_head {
                assert(new_list =~= seq![val@] + old_list);
            } else {
                assert(new_list =~= old_list.push(val@));
            }
        }
        Ok(nm.tail - nm.head)
    }

    /// LPOP (`at_head` true) or RPOP (`at_head` false): removes and returns
    /// the element at that end; removing the last element removes the key.
    pub fn pop(buf: &mut TxnBuffer, k: &[u8], at_head: bool) -> (r: Result<Option<Vec<u8>>, CmdError>)
        requires
            old(buf).wf(),
            list_ok(old(buf)@, k@),
        ensures
            final(buf).wf(),
            list_ok(final(buf)@, k@),
            list_status(old(buf)@, k@) is Err ==> r == Err::<Option<Vec<u8>>, CmdError>(
                list_status(old(buf)@, k@)->Err_0,
            ) && final(buf)@ == old(buf)@,
            list_status(old(buf)@, k@) is Ok ==> r is Ok,
            r is Ok && list_of(old(buf)@, k@).len() == 0 ==> r.unwrap() is None && final(buf)@
                == old(buf)@,
            r is Ok && list_of(old(buf)@, k@).len() > 0 && at_head ==> r.unwrap() is Some
                && r.unwrap().unwrap()@ == list_of(old(buf)@, k@)[0] && list_of(final(buf)@, k@)
                == list_of(old(buf)@, k@).drop_first(),
            r is Ok && list_of(old(buf)@, k@).len() > 0 && !at_head ==> r.unwrap() is Some
                && r.unwrap().unwrap()@ == list_of(old(buf)@, k@).last() && list_of(final(buf)@, k@)
                == list_of(old(buf)@, k@).drop_last(),
            r is Ok && list_of(final(buf)@, k@).len() == 0 ==> list_status(final(buf)@, k@)
                == Ok::<Option<ListMeta>, CmdError>(None),
    {
        let ghost st = buf@;
        let ghost kv = k@;
        let _ = k.len();
        assert(kv.len() <= u64::MAX);
        let m = match read_list_status(buf, k) {
            Err(e) => {
                return Err(e);
            },
            Ok(None) => {
                return Ok(None);
            },
            Ok(Some(m)) => m,
        };
        let idx: u64 = if at_head {
            m.head
        } else {
            m.tail - 1
        };
        let ek = KeyEncoder::encode_list_elem_key(k, m.version, idx);
        let val = match buf.get(ek.as_slice()) {
            Some(v) => v,
            None => {
                proof {
                    assert(st.contains_key(list_elem_key(kv, m.version, idx)));
                }
                return Err(CmdError::Corrupt);
            },
        };
        buf.delete(ek.as_slice());
        let ghost st1 = buf@;
        let nm = if at_head {
            ListMeta { head: m.head + 1, ..m }
        } else {
            ListMeta { tail: m.tail - 1, ..m }
        };
        proof {
            lemma_elem_key_facts(kv, m.version, idx);
            lemma_gens_after_remove(st, kv, list_elem_key(kv, m.version, idx));
        }
        if nm.head == nm.tail {
            let mk = KeyEncoder::encode_meta_key(k);
            buf.delete(mk.as_slice());
            proof {
                lemma_gen_key_distinct(kv, kv, 0, 0, Seq::empty());
                lemma_gens_after_remove(st1, kv, meta_key(kv));
            }
        } else {
            Self::write_meta(buf, k, nm);
            proof {
                lemma_gens_after_meta(st1, kv, list_meta_bytes(nm.ttl, nm.version, nm.head, nm.tail));
            }
        }
        proof {
            let fin = buf@;
            let old_list = list_of(st, kv);
            let new_list = list_of(fin, kv);
            assert forall|i: u64| nm.head <= i < nm.tail implies fin.contains_key(
                #[trigger] list_elem_key(kv, m.version, i),
            ) && fin[list_elem_key(kv, m.version, i)] == st[list_elem_key(kv, m.version, i)] by {
                lemma_elem_key_facts(kv, m.version, i);
                assert(st.contains_key(list_elem_key(kv, m.version, i)));
            }
            if at_head {
                assert(old_list[0] == st[list_elem_key(kv, m.version, m.head)]);
                if nm.head == nm.tail {
                    assert(new_list =~= old_list.drop_first());
                } else {
                    assert(new_list =~= old_list.drop_first());
                }
            } else {
                assert(old_list.last() == st[list_elem_key(kv, m.version, (m.tail - 1) as u64)]);
                assert(new_list =~= old_list.drop_last());
            }
        }
        Ok(Some(val))
    }

    /// LLEN: tail - head, read from the header alone.
    pub fn llen(buf: &TxnBuffer, k: &[u8]) -> (r: Result<u64, CmdError>)
        requires
            buf.wf(),
            list_ok(buf@, k@),
        ensures
            list_status(buf@, k@) is Err ==> r == Err::<u64, CmdError>(
                list_status(buf@, k@)->Err_0,
            ),
            list_status(buf@, k@) is Ok ==> r is Ok && r.unwrap() == list_of(buf@, k@).len(),
    {
        match read_list_status(buf, k) {
            Err(e) => Err(e),
            Ok(None) => Ok(0),
            Ok(Some(m)) => Ok(m.tail - m.head),
        }
    }

    /// LRANGE: the elements from offset `left` to offset `right`, both
    /// included; negative offsets count from the end.
    pub fn lrange(buf: &TxnBuffer, k: &[u8], left: i64, right: i64) -> (r: Result<Vec<Vec<u8>>, CmdError>)
        requires
            buf.wf(),
            list_ok(buf@, k@),
        ensures
            list_status(buf@, k@) is Err ==> r == Err::<Vec<Vec<u8>>, CmdError>(
                list_status(buf@, k@)->Err_0,
            ),
            list_status(buf@, k@) is Ok ==> r is Ok && r.unwrap()@.map_values(|v: Vec<u8>| v@)
                == list_range(list_of(buf@, k@), left as int, right as int),
    {
        let m = match read_list_status(buf, k) {
            Err(e) => {
                return Err(e);
            },
            Ok(None) => {
                let out: Vec<Vec<u8>> = Vec::new();
                proof {
                    assert(out@.map_values(|v: Vec<u8>| v@) =~= list_range(list_of(buf@, k@), left as int, right as int));
                }
                return Ok(out);
            },
            Ok(Some(m)) => m,
        };
        let ghost s = list_of(buf@, k@);
        let n: i128 = (m.tail - m.head) as i128;
        let l: i128 = if left < 0 {
            if (left as i128) + n < 0 {
                0
            } else {
                (left as i128) + n
            }
        } else {
            left as i128
        };
        let r: i128 = if right < 0 {
            (right as i128) + n
        } else if (right as i128) >= n {
            n - 1
        } else {
            right as i128
        };
        let mut out: Vec<Vec<u8>> = Vec::new();
        if l > r || l >= n {
            proof {
                assert(out@.map_values(|v: Vec<u8>| v@) =~= list_range(s, left as int, right as int));
            }
            return Ok(out);
        }
        let mut i: i128 = l;
        while i <= r
            invariant
                buf.wf(),
                list_ok(buf@, k@),
                list_status(buf@, k@) == Ok::<Option<ListMeta>, CmdError>(Some(m)),
                s == list_of(buf@, k@),
                n == s.len(),
                0 <= l <= i,
                i <= r + 1,
                r < n,
                out@.map_values(|v: Vec<u8>| v@) == s.subrange(l as int, i as int),
            decreases r + 1 - i,
        {
            let idx: u64 = m.head + (i as u64);
            let ek = KeyEncoder::encode_list_elem_key(k, m.version, idx);
            let v = match buf.get(ek.as_slice()) {
                Some(v) => v,
                None => {
                    proof {
                        assert(buf@.contains_key(list_elem_key(k@, m.version, idx)));
                    }
                    return Err(CmdError::Corrupt);
                },
            };
            let ghost before = out@;
            let ghost vv = v@;
            out.push(v);
            proof {
                assert(out@.map_values(|v: Vec<u8>| v@) =~= before.map_values(|v: Vec<u8>| v@).push(vv));
                assert(s[i as int] == buf@[list_elem_key(k@, m.version, idx)]);
                assert(out@.map_values(|v: Vec<u8>| v@) =~= s.subrange(l as int, i + 1));
            }
            i = i + 1;
        }
        Ok(out)
    }
}

} // verus!
