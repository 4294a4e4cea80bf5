//! Sorted-set commands. Each member has two entries of the key's current
//! generation: a member-keyed one whose value is the score, and a
//! score-ordered one whose key is (score, member). Both are written and
//! removed together.
use vstd::prelude::*;
use crate::encoding::{
    be64, data_key, from_be64, lemma_be64_round_trip, lemma_data_key_injective,
    lemma_meta_not_data, lemma_score_order, meta_key, score_bits, score_from_bits, zset_score_key,
    DataType, KeyDecoder, KeyEncoder, Meta, KIND_ZSET_MEMBER, KIND_ZSET_SCORE,
};
use crate::record::{
    coll_len, coll_ok, coll_put, coll_remove, coll_status, elems, gen_key, is_elem_key,
    last_gen, lemma_gen_key_distinct, members, only_removes, put_fits, read_status, CmdError,
};
use crate::store::TxnBuffer;
use crate::encoding::{bytes_from, lemma_data_key_tail};

verus! {

/// The members of `k` with their stored scores.
pub open spec fn zset_of(st: Map<Seq<u8>, Seq<u8>>, k: Seq<u8>) -> Map<Seq<u8>, Seq<u8>> {
    members(st, k, DataType::Zset, KIND_ZSET_MEMBER)
}

pub open spec fn zset_status(st: Map<Seq<u8>, Seq<u8>>, k: Seq<u8>) -> Result<
    Option<Meta>,
    CmdError,
> {
    coll_status(st, k, DataType::Zset)
}

/// The score that stored score bytes hold.
pub open spec fn score_of(b: Seq<u8>) -> i64 {
    score_from_bits(from_be64(b))
}

/// The stored form of a score.
pub open spec fn score_bytes(s: i64) -> Seq<u8> {
    be64(score_bits(s))
}

/// The members that the score-ordered entries of generation `v` name.
pub open spec fn score_index_members(st: Map<Seq<u8>, Seq<u8>>, k: Seq<u8>, v: u16) -> Set<
    Seq<u8>,
> {
    Set::new(|m: Seq<u8>| exists|s: i64| #[trigger] st.contains_key(zset_score_key(k, v, s, m)))
}

/// The two indexes of generation `v` agree: a score-ordered entry exists
/// exactly for each member, with the member's score.
pub open spec fn indexes_agree(st: Map<Seq<u8>, Seq<u8>>, k: Seq<u8>, v: u16) -> bool {
    &&& forall|s: i64, m: Seq<u8>|
        #[trigger] st.contains_key(zset_score_key(k, v, s, m)) ==> st.contains_key(
            data_key(k, v, KIND_ZSET_MEMBER, m),
        ) && st[data_key(k, v, KIND_ZSET_MEMBER, m)] == score_bytes(s)
    &&& forall|m: Seq<u8>|
        #[trigger] st.contains_key(data_key(k, v, KIND_ZSET_MEMBER, m)) ==> st.contains_key(
            zset_score_key(k, v, score_of(st[data_key(k, v, KIND_ZSET_MEMBER, m)]), m),
        ) && st[data_key(k, v, KIND_ZSET_MEMBER, m)].len() == 8
}

/// The stored state of `k` as a sorted set is consistent.
pub open spec fn zset_ok(st: Map<Seq<u8>, Seq<u8>>, k: Seq<u8>) -> bool {
    &&& coll_ok(st, k, DataType::Zset, KIND_ZSET_MEMBER)
    &&& match zset_status(st, k) {
        Ok(Some(m)) => indexes_agree(st, k, m.version),
        _ => true,
    }
}

/// A score written is the score read back.
pub proof fn lemma_score_round_trip(s: i64)
    ensures
        score_of(score_bytes(s)) == s,
        score_bytes(s).len() == 8,
{
    lemma_be64_round_trip(score_bits(s));
    lemma_score_order(s, s);
}

proof fn lemma_score_bytes_injective(a: i64, b: i64)
    ensures
        score_bytes(a) == score_bytes(b) ==> a == b,
{
    lemma_score_round_trip(a);
    lemma_score_round_trip(b);
}

/// A score-ordered key determines its score and member.
proof fn lemma_score_key_injective(k: Seq<u8>, v: u16, s1: i64, m1: Seq<u8>, s2: i64, m2: Seq<u8>)
    requires
        k.len() <= u64::MAX,
        zset_score_key(k, v, s1, m1) == zset_score_key(k, v, s2, m2),
    ensures
        s1 == s2,
        m1 == m2,
{
    lemma_data_key_injective(
        k,
        v,
        KIND_ZSET_SCORE,
        score_bytes(s1) + m1,
        k,
        v,
        KIND_ZSET_SCORE,
        score_bytes(s2) + m2,
    );
    lemma_score_round_trip(s1);
    lemma_score_round_trip(s2);
    let a = score_bytes(s1) + m1;
    let b = score_bytes(s2) + m2;
    assert(a.subrange(0, 8) =~= score_bytes(s1));
    assert(b.subrange(0, 8) =~= score_bytes(s2));
    lemma_score_bytes_injective(s1, s2);
    assert(a.subrange(8, a.len() as int) =~= m1);
    assert(b.subrange(8, b.len() as int) =~= m2);
}

/// Score-ordered keys are neither headers, generation keys nor
/// member-keyed entries.
proof fn lemma_score_key_distinct(k: Seq<u8>, v: u16, s: i64, m: Seq<u8>)
    requires
        k.len() <= u64::MAX,
    ensures
        zset_score_key(k, v, s, m) != meta_key(k),
        zset_score_key(k, v, s, m) != gen_key(k),
        !is_elem_key(zset_score_key(k, v, s, m), k, KIND_ZSET_MEMBER),
{
    lemma_meta_not_data(k, k, v, KIND_ZSET_SCORE, score_bytes(s) + m);
    lemma_gen_key_distinct(k, k, v, KIND_ZSET_SCORE, score_bytes(s) + m);
    assert forall|v2: u16, f: Seq<u8>|
        zset_score_key(k, v, s, m) != #[trigger] data_key(k, v2, KIND_ZSET_MEMBER, f) by {
        if zset_score_key(k, v, s, m) == data_key(k, v2, KIND_ZSET_MEMBER, f) {
            lemma_data_key_injective(
                k,
                v,
                KIND_ZSET_SCORE,
                score_bytes(s) + m,
                k,
                v2,
                KIND_ZSET_MEMBER,
                f,
            );
        }
    }
}

/// Where the indexes agree, the members found through the score-ordered
/// entries are exactly the members found through the member-keyed ones.
pub proof fn lemma_indexes_same_members(st: Map<Seq<u8>, Seq<u8>>, k: Seq<u8>)
    requires
        zset_ok(st, k),
    ensures
        zset_status(st, k) is Ok && zset_status(st, k)->Ok_0 is Some ==> score_index_members(
            st,
            k,
            zset_status(st, k)->Ok_0.unwrap().version,
        ) == zset_of(st, k).dom(),
{
    if zset_status(st, k) is Ok && zset_status(st, k)->Ok_0 is Some {
        let v = zset_status(st, k)->Ok_0.unwrap().version;
        assert forall|m: Seq<u8>| #[trigger] zset_of(st, k).dom().contains(m) implies score_index_members(
            st,
            k,
            v,
        ).contains(m) by {
            let s = score_of(st[data_key(k, v, KIND_ZSET_MEMBER, m)]);
            assert(st.contains_key(zset_score_key(k, v, s, m)));
        }
        assert(score_index_members(st, k, v) =~= zset_of(st, k).dom());
    }
}

/// Byte-wise lexicographic order, strict.
pub open spec fn bytes_lt(a: Seq<u8>, b: Seq<u8>) -> bool
    decreases a.len(),
{
    if b.len() == 0 {
        false
    } else if a.len() == 0 {
        true
    } else if a[0] != b[0] {
        a[0] < b[0]
    } else {
        bytes_lt(a.drop_first(), b.drop_first())
    }
}

/// Comparing the big-endian bytes of two numbers from byte `i` on.
spec fn be_lt7(x: u64, y: u64) -> bool {
    (x as u8) < (y as u8)
}

spec fn be_lt6(x: u64, y: u64) -> bool {
    ((x >> 8u64) as u8) < ((y >> 8u64) as u8) || (((x >> 8u64) as u8) == ((y >> 8u64) as u8)
        && be_lt7(x, y))
}

spec fn be_lt5(x: u64, y: u64) -> bool {
    ((x >> 16u64) as u8) < ((y >> 16u64) as u8) || (((x >> 16u64) as u8) == ((y >> 16u64) as u8)
        && be_lt6(x, y))
}

spec fn be_lt4(x: u64, y: u64) -> bool {
    ((x >> 24u64) as u8) < ((y >> 24u64) as u8) || (((x >> 24u64) as u8) == ((y >> 24u64) as u8)
        && be_lt5(x, y))
}

spec fn be_lt3(x: u64, y: u64) -> bool {
    ((x >> 32u64) as u8) < ((y >> 32u64) as u8) || (((x >> 32u64) as u8) == ((y >> 32u64) as u8)
        && be_lt4(x, y))
}

spec fn be_lt2(x: u64, y: u64) -> bool {
    ((x >> 40u64) as u8) < ((y >> 40u64) as u8) || (((x >> 40u64) as u8) == ((y >> 40u64) as u8)
        && be_lt3(x, y))
}

spec fn be_lt1(x: u64, y: u64) -> bool {
    ((x >> 48u64) as u8) < ((y >> 48u64) as u8) || (((x >> 48u64) as u8) == ((y >> 48u64) as u8)
        && be_lt2(x, y))
}

spec fn be_lt0(x: u64, y: u64) -> bool {
    ((x >> 56u64) as u8) < ((y >> 56u64) as u8) || (((x >> 56u64) as u8) == ((y >> 56u64) as u8)
        && be_lt1(x, y))
}

proof fn lemma_be64_bits_lt(x: u64, y: u64)
    by (bit_vector)
    ensures
        be_lt0(x, y) <==> x < y,
{
}

/// Big-endian bytes order as the numbers they encode.
pub proof fn lemma_be64_order(x: u64, y: u64)
    ensures
        bytes_lt(be64(x), be64(y)) <==> x < y,
{
    reveal_with_fuel(bytes_lt, 9);
    let a = be64(x);
    let b = be64(y);
    assert(a.drop_first().drop_first().drop_first().drop_first().drop_first().drop_first().drop_first().drop_first() =~= Seq::<u8>::empty());
    assert(b.drop_first().drop_first().drop_first().drop_first().drop_first().drop_first().drop_first().drop_first() =~= Seq::<u8>::empty());
    lemma_be64_bits_lt(x, y);
}

/// The stored bytes of scores order, byte by byte, as the scores do: a
/// range scan of score-ordered keys meets scores in numeric order.
pub proof fn lemma_score_bytes_order(a: i64, b: i64)
    ensures
        bytes_lt(score_bytes(a), score_bytes(b)) <==> a < b,
{
    lemma_be64_order(score_bits(a), score_bits(b));
    lemma_score_order(a, b);
}

/// Whether (s1, m1) comes before (s2, m2): by score, then by member.
pub open spec fn zbefore(s1: i64, m1: Seq<u8>, s2: i64, m2: Seq<u8>) -> bool {
    s1 < s2 || (s1 == s2 && bytes_lt(m1, m2))
}

/// The rank of member `m` of `z`: how many members come before it.
pub open spec fn rank_of(z: Map<Seq<u8>, Seq<u8>>, m: Seq<u8>) -> nat {
    z.dom().filter(|m2: Seq<u8>| zbefore(score_of(z[m2]), m2, score_of(z[m]), m)).len()
}

fn bytes_lt_exec(a: &[u8], b: &[u8]) -> (r: bool)
    ensures
        r == bytes_lt(a@, b@),
{
    let mut i: usize = 0;
    assert(a@.subrange(0, a@.len() as int) =~= a@);
    assert(b@.subrange(0, b@.len() as int) =~= b@);
    while i < a.len() && i < b.len()
        invariant
            i <= a@.len(),
            i <= b@.len(),
            bytes_lt(a@, b@) == bytes_lt(
                a@.subrange(i as int, a@.len() as int),
                b@.subrange(i as int, b@.len() as int),
            ),
        decreases a@.len() - i,
    {
        assert(a@.subrange(i as int, a@.len() as int)[0] == a@[i as int]);
        assert(b@.subrange(i as int, b@.len() as int)[0] == b@[i as int]);
        if a[i] != b[i] {
            return a[i] < b[i];
        }
        assert(a@.subrange(i as int, a@.len() as int).drop_first() =~= a@.subrange(i + 1, a@.len() as int));
        assert(b@.subrange(i as int, b@.len() as int).drop_first() =~= b@.subrange(i + 1, b@.len() as int));
        i = i + 1;
    }
    i < b.len()
}

/// Neither entry of member `m` of generation `v` of `k` remains.
pub open spec fn member_gone(st: Map<Seq<u8>, Seq<u8>>, k: Seq<u8>, v: u16, m: Seq<u8>) -> bool {
    &&& !st.contains_key(data_key(k, v, KIND_ZSET_MEMBER, m))
    &&& forall|s: i64| !#[trigger] st.contains_key(zset_score_key(k, v, s, m))
}

/// In a consistent sorted set, a value that is no member has no entry of
/// either index in the live generation.
pub proof fn lemma_nonmember_gone(st: Map<Seq<u8>, Seq<u8>>, k: Seq<u8>, m: Seq<u8>)
    requires
        zset_ok(st, k),
        zset_status(st, k) is Ok && zset_status(st, k)->Ok_0 is Some,
        !zset_of(st, k).contains_key(m),
    ensures
        member_gone(st, k, zset_status(st, k)->Ok_0.unwrap().version, m),
{
    let v = zset_status(st, k)->Ok_0.unwrap().version;
    assert(zset_of(st, k) == elems(st, k, v, KIND_ZSET_MEMBER));
    assert forall|s: i64| !#[trigger] st.contains_key(zset_score_key(k, v, s, m)) by {
        if st.contains_key(zset_score_key(k, v, s, m)) {
            assert(st.contains_key(data_key(k, v, KIND_ZSET_MEMBER, m)));
        }
    }
}

/// Entries that are gone stay gone through changes that add no key but the
/// header.
pub proof fn lemma_gone_stays_gone(
    a: Map<Seq<u8>, Seq<u8>>,
    b: Map<Seq<u8>, Seq<u8>>,
    k: Seq<u8>,
    v: u16,
    m: Seq<u8>,
)
    requires
        member_gone(a, k, v, m),
        only_removes(a, b, k),
    ensures
        member_gone(b, k, v, m),
{
    lemma_meta_not_data(k, k, v, KIND_ZSET_MEMBER, m);
    assert forall|s: i64| !#[trigger] b.contains_key(zset_score_key(k, v, s, m)) by {
        lemma_meta_not_data(k, k, v, KIND_ZSET_SCORE, score_bytes(s) + m);
        if b.contains_key(zset_score_key(k, v, s, m)) {
            assert(a.contains_key(zset_score_key(k, v, s, m)));
        }
    }
}

pub struct ZsetCommandCtx {}

impl ZsetCommandCtx {
    /// ZADD: sets the score of `m` in `k`, writing both of its entries and
    /// dropping the score-ordered entry of its previous score. Returns
    /// whether `m` is new.
    pub fn zadd(buf: &mut TxnBuffer, k: &[u8], m: &[u8], score: i64) -> (r: Result<bool, CmdError>)
        requires
            old(buf).wf(),
            zset_ok(old(buf)@, k@),
        ensures
            final(buf).wf(),
            zset_ok(final(buf)@, k@),
            zset_status(old(buf)@, k@) is Err ==> r == Err::<bool, CmdError>(
                zset_status(old(buf)@, k@)->Err_0,
            ),
            r is Err ==> final(buf)@ == old(buf)@,
            put_fits(old(buf)@, k@, DataType::Zset, KIND_ZSET_MEMBER, m@) ==> r is Ok,
            r is Ok ==> zset_of(final(buf)@, k@) == zset_of(old(buf)@, k@).insert(
                m@,
                score_bytes(score),
            ) && r.unwrap() == !zset_of(old(buf)@, k@).contains_key(m@),
    {
        let ghost st = buf@;
        let ghost kv = k@;
        let _ = k.len();
        assert(kv.len() <= u64::MAX);
        let status = match read_status(buf, k, DataType::Zset) {
            Err(e) => {
                return Err(e);
            },
            Ok(s) => s,
        };
        let old_score: Option<i64> = match status {
            None => None,
            Some(meta) => {
                let mk = KeyEncoder::encode_data_key(k, meta.version, KIND_ZSET_MEMBER, m);
                match buf.get(mk.as_slice()) {
                    None => None,
                    Some(b) => KeyDecoder::decode_key_zset_data_value(b.as_slice()),
                }
            },
        };
        let put = coll_put(buf, k, DataType::Zset, KIND_ZSET_MEMBER, m, KeyEncoder::encode_score(score));
        let is_new = match put {
            Err(e) => {
                return Err(e);
            },
            Ok(n) => n,
        };
        let ghost st1 = buf@;
        let meta = match read_status(buf, k, DataType::Zset) {
            Ok(Some(meta)) => meta,
            _ => {
                proof {
                    assert(false);
                }
                return Err(CmdError::Corrupt);
            },
        };
        let ghost v = meta.version;
        proof {
            assert forall|s2: i64, m2: Seq<u8>|
                #[trigger] st1.contains_key(zset_score_key(kv, v, s2, m2)) == st.contains_key(
                    zset_score_key(kv, v, s2, m2),
                ) by {
                lemma_score_key_distinct(kv, v, s2, m2);
            }
            if status is None {
                assert forall|s2: i64, m2: Seq<u8>|
                    !#[trigger] st1.contains_key(zset_score_key(kv, v, s2, m2)) by {
                    lemma_score_key_distinct(kv, v, s2, m2);
                }
            }
        }
        match old_score {
            Some(os) => {
                let osk = KeyEncoder::encode_zset_score_key(k, meta.version, os, m);
                buf.delete(osk.as_slice());
            },
            None => {},
        }
        let ghost st2 = buf@;
        let nsk = KeyEncoder::encode_zset_score_key(k, meta.version, score, m);
        buf.put(nsk, Vec::new());
        proof {
            let fin = buf@;
            lemma_score_round_trip(score);
            let mkey = data_key(kv, v, KIND_ZSET_MEMBER, m@);
            if status is Some {
                assert(v == status.unwrap().version);
                if old_score is Some {
                    assert(st.contains_key(mkey));
                    lemma_score_round_trip(old_score.unwrap());
                }
            }
            lemma_score_key_distinct(kv, v, score, m@);
            lemma_gen_key_distinct(kv, kv, v, KIND_ZSET_SCORE, score_bytes(score) + m@);
            if old_score is Some {
                lemma_score_key_distinct(kv, v, old_score.unwrap(), m@);
            }
            // the header, the generation and the members are as coll_put left them
            assert(fin[meta_key(kv)] == st1[meta_key(kv)]);
            assert(last_gen(fin, kv) == last_gen(st1, kv));
            assert(elems(fin, kv, v, KIND_ZSET_MEMBER) =~= elems(st1, kv, v, KIND_ZSET_MEMBER));
            assert(zset_status(fin, kv) == zset_status(st1, kv));
            assert forall|v2: u16, d2: u8, s2: Seq<u8>|
                #[trigger] fin.contains_key(data_key(kv, v2, d2, s2)) implies v2 <= last_gen(
                fin,
                kv,
            ) by {
                if data_key(kv, v2, d2, s2) == zset_score_key(kv, v, score, m@) {
                    lemma_data_key_injective(
                        kv,
                        v2,
                        d2,
                        s2,
                        kv,
                        v,
                        KIND_ZSET_SCORE,
                        score_bytes(score) + m@,
                    );
                } else {
                    assert(st1.contains_key(data_key(kv, v2, d2, s2)));
                }
            }
            // what the member-keyed entries of generation v were and are
            let sb = score_bytes(score);
            assert(zset_of(st1, kv) == elems(st1, kv, v, KIND_ZSET_MEMBER));
            if status is Some {
                assert(zset_of(st, kv) == elems(st, kv, v, KIND_ZSET_MEMBER));
                assert(indexes_agree(st, kv, v));
            } else {
                assert(zset_of(st, kv) =~= Map::<Seq<u8>, Seq<u8>>::empty());
            }
            assert(elems(st1, kv, v, KIND_ZSET_MEMBER)[m@] == sb);
            assert(elems(fin, kv, v, KIND_ZSET_MEMBER).contains_key(m@));
            assert(fin.contains_key(mkey) && fin[mkey] == sb);
            assert forall|m2: Seq<u8>|
                m2 != m@ && #[trigger] fin.contains_key(data_key(kv, v, KIND_ZSET_MEMBER, m2)) implies status is Some
                && st.contains_key(data_key(kv, v, KIND_ZSET_MEMBER, m2)) && fin[data_key(
                kv,
                v,
                KIND_ZSET_MEMBER,
                m2,
            )] == st[data_key(kv, v, KIND_ZSET_MEMBER, m2)] by {
                assert(elems(fin, kv, v, KIND_ZSET_MEMBER).contains_key(m2));
                assert(elems(st1, kv, v, KIND_ZSET_MEMBER).contains_key(m2));
                assert(zset_of(st, kv).contains_key(m2));
                assert(elems(st1, kv, v, KIND_ZSET_MEMBER)[m2] == zset_of(st, kv)[m2]);
            }
            assert forall|s2: i64, m2: Seq<u8>|
                #[trigger] fin.contains_key(zset_score_key(kv, v, s2, m2)) implies fin.contains_key(
                data_key(kv, v, KIND_ZSET_MEMBER, m2),
            ) && fin[data_key(kv, v, KIND_ZSET_MEMBER, m2)] == score_bytes(s2) by {
                if zset_score_key(kv, v, s2, m2) == zset_score_key(kv, v, score, m@) {
                    lemma_score_key_injective(kv, v, s2, m2, score, m@);
                } else {
                    assert(st2.contains_key(zset_score_key(kv, v, s2, m2)));
                    assert(st1.contains_key(zset_score_key(kv, v, s2, m2)));
                    assert(st.contains_key(zset_score_key(kv, v, s2, m2)));
                    assert(status is Some);
                    assert(st.contains_key(data_key(kv, v, KIND_ZSET_MEMBER, m2)));
                    if m2 == m@ {
                        assert(old_score is Some);
                        lemma_score_round_trip(s2);
                        lemma_score_bytes_injective(s2, old_score.unwrap());
                        assert(false);
                    } else {
                        assert(elems(st, kv, v, KIND_ZSET_MEMBER).contains_key(m2));
                        assert(elems(st1, kv, v, KIND_ZSET_MEMBER).contains_key(m2));
                        assert(elems(fin, kv, v, KIND_ZSET_MEMBER).contains_key(m2));
                        assert(elems(st1, kv, v, KIND_ZSET_MEMBER)[m2] == elems(st, kv, v, KIND_ZSET_MEMBER)[m2]);
                        assert(elems(fin, kv, v, KIND_ZSET_MEMBER)[m2] == elems(st1, kv, v, KIND_ZSET_MEMBER)[m2]);
                    }
                }
            }
            assert forall|m2: Seq<u8>|
                #[trigger] fin.contains_key(data_key(kv, v, KIND_ZSET_MEMBER, m2)) implies fin.contains_key(
                zset_score_key(kv, v, score_of(fin[data_key(kv, v, KIND_ZSET_MEMBER, m2)]), m2),
            ) && fin[data_key(kv, v, KIND_ZSET_MEMBER, m2)].len() == 8 by {
                if m2 != m@ {
                    let s2 = score_of(st[data_key(kv, v, KIND_ZSET_MEMBER, m2)]);
                    assert(st.contains_key(zset_score_key(kv, v, s2, m2)));
                    assert(st1.contains_key(zset_score_key(kv, v, s2, m2)));
                    if old_score is Some {
                        if zset_score_key(kv, v, s2, m2) == zset_score_key(
                            kv,
                            v,
                            old_score.unwrap(),
                            m@,
                        ) {
                            lemma_score_key_injective(kv, v, s2, m2, old_score.unwrap(), m@);
                        }
                    }
                    assert(st2.contains_key(zset_score_key(kv, v, s2, m2)));
                }
            }
            assert(indexes_agree(fin, kv, v));
        }
        Ok(is_new)
    }

    /// ZREM: removes `m` from `k`, both of its entries; removing the last
    /// member removes the key. Returns whether `m` was there.
    pub fn zrem(buf: &mut TxnBuffer, k: &[u8], m: &[u8]) -> (r: Result<bool, CmdError>)
        requires
            old(buf).wf(),
            zset_ok(old(buf)@, k@),
        ensures
            final(buf).wf(),
            zset_ok(final(buf)@, k@),
            zset_status(old(buf)@, k@) is Err ==> r == Err::<bool, CmdError>(
                zset_status(old(buf)@, k@)->Err_0,
            ) && final(buf)@ == old(buf)@,
            zset_status(old(buf)@, k@) is Ok ==> r is Ok,
            r is Ok ==> zset_of(final(buf)@, k@) == zset_of(old(buf)@, k@).remove(m@)
                && r.unwrap() == zset_of(old(buf)@, k@).contains_key(m@),
            r is Ok && zset_of(final(buf)@, k@).is_empty() ==> zset_status(final(buf)@, k@)
                == Ok::<Option<Meta>, CmdError>(None),
            r == Ok::<bool, CmdError>(false) ==> final(buf)@ == old(buf)@,
            only_removes(old(buf)@, final(buf)@, k@),
            zset_status(final(buf)@, k@) is Ok && zset_status(final(buf)@, k@)->Ok_0 is Some
                ==> zset_status(old(buf)@, k@) is Ok && zset_status(old(buf)@, k@)->Ok_0 is Some
                && zset_status(final(buf)@, k@)->Ok_0.unwrap().version == zset_status(
                old(buf)@,
                k@,
            )->Ok_0.unwrap().version,
            r == Ok::<bool, CmdError>(true) ==> member_gone(
                final(buf)@,
                k@,
                zset_status(old(buf)@, k@)->Ok_0.unwrap().version,
                m@,
            ),
    {
        let ghost st = buf@;
        let ghost kv = k@;
        let _ = k.len();
        assert(kv.len() <= u64::MAX);
        let status = match read_status(buf, k, DataType::Zset) {
            Err(e) => {
                return Err(e);
            },
            Ok(s) => s,
        };
        let (version, old_score): (u16, Option<i64>) = match status {
            None => (0, None),
            Some(meta) => {
                let mk = KeyEncoder::encode_data_key(k, meta.version, KIND_ZSET_MEMBER, m);
                match buf.get(mk.as_slice()) {
                    None => (meta.version, None),
                    Some(b) => (meta.version, KeyDecoder::decode_key_zset_data_value(b.as_slice())),
                }
            },
        };
        let removed = match coll_remove(buf, k, DataType::Zset, KIND_ZSET_MEMBER, m) {
            Err(e) => {
                return Err(e);
            },
            Ok(x) => x,
        };
        let ghost st1 = buf@;
        proof {
            if old_score is Some {
                assert(st.contains_key(data_key(kv, version, KIND_ZSET_MEMBER, m@)));
                assert(zset_of(st, kv).contains_key(m@));
            }
            if removed {
                assert(status is Some);
                assert(st.contains_key(data_key(kv, version, KIND_ZSET_MEMBER, m@)));
                assert(old_score is Some);
            }
        }
        match old_score {
            Some(os) => {
                let osk = KeyEncoder::encode_zset_score_key(k, version, os, m);
                buf.delete(osk.as_slice());
            },
            None => {},
        }
        proof {
            let fin = buf@;
            if old_score is Some {
                let os = old_score.unwrap();
                lemma_score_key_distinct(kv, version, os, m@);
                lemma_gen_key_distinct(kv, kv, version, KIND_ZSET_SCORE, score_bytes(os) + m@);
                assert(last_gen(fin, kv) == last_gen(st1, kv));
                assert(zset_status(fin, kv) == zset_status(st1, kv));
                assert forall|v2: u16| #[trigger] elems(fin, kv, v2, KIND_ZSET_MEMBER) == elems(
                    st1,
                    kv,
                    v2,
                    KIND_ZSET_MEMBER,
                ) by {
                    assert(elems(fin, kv, v2, KIND_ZSET_MEMBER) =~= elems(
                        st1,
                        kv,
                        v2,
                        KIND_ZSET_MEMBER,
                    ));
                }
                assert(zset_of(fin, kv) == zset_of(st1, kv));
            }
            match zset_status(fin, kv) {
                Ok(Some(meta2)) => {
                    let v = meta2.version;
                    assert(zset_status(fin, kv) == zset_status(st1, kv));
                    assert(status is Some && v == version);
                    assert(zset_of(st1, kv) == elems(st1, kv, v, KIND_ZSET_MEMBER));
                    assert(zset_of(st, kv) == elems(st, kv, v, KIND_ZSET_MEMBER));
                    assert(indexes_agree(st, kv, v));
                    assert(elems(fin, kv, v, KIND_ZSET_MEMBER) =~= elems(st1, kv, v, KIND_ZSET_MEMBER));
                    assert forall|s2: i64, m2: Seq<u8>|
                        #[trigger] fin.contains_key(zset_score_key(kv, v, s2, m2)) implies fin.contains_key(
                        data_key(kv, v, KIND_ZSET_MEMBER, m2),
                    ) && fin[data_key(kv, v, KIND_ZSET_MEMBER, m2)] == score_bytes(s2) by {
                        lemma_score_key_distinct(kv, v, s2, m2);
                        assert(st1.contains_key(zset_score_key(kv, v, s2, m2)));
                        assert(st.contains_key(zset_score_key(kv, v, s2, m2)));
                        assert(st.contains_key(data_key(kv, v, KIND_ZSET_MEMBER, m2)));
                        if m2 == m@ {
                            lemma_score_round_trip(s2);
                            assert(old_score == Some(s2));
                            assert(false);
                        } else {
                            assert(elems(st, kv, v, KIND_ZSET_MEMBER).contains_key(m2));
                            assert(elems(st1, kv, v, KIND_ZSET_MEMBER).contains_key(m2));
                            assert(elems(fin, kv, v, KIND_ZSET_MEMBER).contains_key(m2));
                            assert(elems(st1, kv, v, KIND_ZSET_MEMBER)[m2] == elems(st, kv, v, KIND_ZSET_MEMBER)[m2]);
                        }
                    }
                    assert forall|m2: Seq<u8>|
                        #[trigger] fin.contains_key(data_key(kv, v, KIND_ZSET_MEMBER, m2)) implies fin.contains_key(
                        zset_score_key(kv, v, score_of(fin[data_key(kv, v, KIND_ZSET_MEMBER, m2)]), m2),
                    ) && fin[data_key(kv, v, KIND_ZSET_MEMBER, m2)].len() == 8 by {
                        assert(elems(fin, kv, v, KIND_ZSET_MEMBER).contains_key(m2));
                        assert(elems(st1, kv, v, KIND_ZSET_MEMBER).contains_key(m2));
                        assert(m2 != m@);
                        assert(elems(st, kv, v, KIND_ZSET_MEMBER).contains_key(m2));
                        assert(elems(st1, kv, v, KIND_ZSET_MEMBER)[m2] == elems(st, kv, v, KIND_ZSET_MEMBER)[m2]);
                        assert(st.contains_key(data_key(kv, v, KIND_ZSET_MEMBER, m2)));
                        let s2 = score_of(st[data_key(kv, v, KIND_ZSET_MEMBER, m2)]);
                        lemma_score_key_distinct(kv, v, s2, m2);
                        assert(st.contains_key(zset_score_key(kv, v, s2, m2)));
                        assert(st1.contains_key(zset_score_key(kv, v, s2, m2)));
                        if old_score is Some {
                            if zset_score_key(kv, v, s2, m2) == zset_score_key(
                                kv,
                                v,
                                old_score.unwrap(),
                                m@,
                            ) {
                                lemma_score_key_injective(kv, v, s2, m2, old_score.unwrap(), m@);
                            }
                        }
                    }
                },
                _ => {},
            }
            assert forall|v2: u16, d2: u8, s2: Seq<u8>|
                #[trigger] fin.contains_key(data_key(kv, v2, d2, s2)) implies v2 <= last_gen(
                fin,
                kv,
            ) by {
                lemma_gen_key_distinct(kv, kv, v2, d2, s2);
                assert(st1.contains_key(data_key(kv, v2, d2, s2)));
            }
            assert forall|q: Seq<u8>| #[trigger] fin.contains_key(q) && q != meta_key(kv) implies st.contains_key(q) by {
                assert(st1.contains_key(q));
            }
            if removed {
                let v = version;
                assert(!fin.contains_key(data_key(kv, v, KIND_ZSET_MEMBER, m@)));
                assert forall|s2: i64| !#[trigger] fin.contains_key(zset_score_key(kv, v, s2, m@)) by {
                    if fin.contains_key(zset_score_key(kv, v, s2, m@)) {
                        lemma_score_key_distinct(kv, v, s2, m@);
                        assert(st1.contains_key(zset_score_key(kv, v, s2, m@)));
                        assert(st.contains_key(zset_score_key(kv, v, s2, m@)));
                        lemma_score_round_trip(s2);
                        assert(old_score == Some(s2));
                    }
                }
            }
        }
        Ok(removed)
    }

    /// ZSCORE: the score of `m` in `k`; `None` where it is no member.
    pub fn zscore(buf: &TxnBuffer, k: &[u8], m: &[u8]) -> (r: Result<Option<i64>, CmdError>)
        requires
            buf.wf(),
            zset_ok(buf@, k@),
        ensures
            zset_status(buf@, k@) is Err ==> r == Err::<Option<i64>, CmdError>(
                zset_status(buf@, k@)->Err_0,
            ),
            zset_status(buf@, k@) is Ok ==> r is Ok && (r.unwrap() is Some <==> zset_of(
                buf@,
                k@,
            ).contains_key(m@)) && (r.unwrap() is Some ==> r.unwrap().unwrap() == score_of(
                zset_of(buf@, k@)[m@],
            )),
    {
        match read_status(buf, k, DataType::Zset) {
            Err(e) => Err(e),
            Ok(None) => Ok(None),
            Ok(Some(meta)) => {
                let mk = KeyEncoder::encode_data_key(k, meta.version, KIND_ZSET_MEMBER, m);
                match buf.get(mk.as_slice()) {
                    None => Ok(None),
                    Some(b) => match KeyDecoder::decode_key_zset_data_value(b.as_slice()) {
                        Some(s) => Ok(Some(s)),
                        None => {
                            proof {
                                assert(buf@.contains_key(data_key(k@, meta.version, KIND_ZSET_MEMBER, m@)));
                            }
                            Err(CmdError::Corrupt)
                        },
                    },
                }
            },
        }
    }

    /// ZRANK: the rank of `m` in `k`, counting from 0 by (score, member);
    /// `None` where it is no member. This counts the members that come
    /// before `m`, a scan linear in the size of the set.
    pub fn zrank(buf: &TxnBuffer, k: &[u8], m: &[u8]) -> (r: Result<Option<u64>, CmdError>)
        requires
            buf.wf(),
            zset_ok(buf@, k@),
        ensures
            zset_status(buf@, k@) is Err ==> r == Err::<Option<u64>, CmdError>(
                zset_status(buf@, k@)->Err_0,
            ),
            zset_status(buf@, k@) is Ok ==> r is Ok && (r.unwrap() is Some <==> zset_of(
                buf@,
                k@,
            ).contains_key(m@)) && (r.unwrap() is Some ==> r.unwrap().unwrap() == rank_of(
                zset_of(buf@, k@),
                m@,
            )),
    {
        let ghost st = buf@;
        let ghost kv = k@;
        let _ = k.len();
        assert(kv.len() <= u64::MAX);
        let meta = match read_status(buf, k, DataType::Zset) {
            Err(e) => {
                return Err(e);
            },
            Ok(None) => {
                return Ok(None);
            },
            Ok(Some(meta)) => meta,
        };
        let ghost v = meta.version;
        let ghost z = zset_of(st, kv);
        assert(z == elems(st, kv, v, KIND_ZSET_MEMBER));
        let mk = KeyEncoder::encode_data_key(k, meta.version, KIND_ZSET_MEMBER, m);
        let target = match buf.get(mk.as_slice()) {
            None => {
                return Ok(None);
            },
            Some(b) => match KeyDecoder::decode_key_zset_data_value(b.as_slice()) {
                Some(sc) => sc,
                None => {
                    proof {
                        assert(st.contains_key(data_key(kv, v, KIND_ZSET_MEMBER, m@)));
                    }
                    return Err(CmdError::Corrupt);
                },
            },
        };
        assert(target == score_of(z[m@]));
        let ghost p = |m2: Seq<u8>| zbefore(score_of(z[m2]), m2, target, m@);
        let empty: Vec<u8> = Vec::new();
        let prefix = KeyEncoder::encode_data_key(k, meta.version, KIND_ZSET_MEMBER, empty.as_slice());
        proof {
            lemma_data_key_tail(kv, v, KIND_ZSET_MEMBER, Seq::empty());
            assert(prefix@ =~= data_key(kv, v, KIND_ZSET_MEMBER, Seq::empty()));
        }
        let plen = prefix.len();
        let entries = buf.scan_prefix(prefix.as_slice());
        let ghost mems = entries@.map_values(
            |e: (Vec<u8>, Vec<u8>)| e.0@.subrange(plen as int, e.0@.len() as int),
        );
        proof {
            assert forall|j: int| 0 <= j < entries@.len() implies #[trigger] entries@[j].0@
                == data_key(kv, v, KIND_ZSET_MEMBER, mems[j]) && z.contains_key(mems[j]) && z[mems[j]]
                == entries@[j].1@ by {
                let key = entries@[j].0@;
                assert(prefix@.is_prefix_of(key));
                assert(key =~= prefix@ + key.subrange(plen as int, key.len() as int));
                assert(data_key(kv, v, KIND_ZSET_MEMBER, mems[j]) =~= prefix@ + mems[j]);
            }
        }
        let mut count: u64 = 0;
        let ghost mut seen: Set<Seq<u8>> = Set::empty();
        let mut i: usize = 0;
        while i < entries.len()
            invariant
                zset_ok(st, kv),
                z == elems(st, kv, v, KIND_ZSET_MEMBER),
                z == zset_of(st, kv),
                zset_status(st, kv) == Ok::<Option<Meta>, CmdError>(Some(meta)),
                v == meta.version,
                plen == prefix@.len(),
                plen == 13 + kv.len(),
                mems.len() == entries@.len(),
                mems == entries@.map_values(
                    |e: (Vec<u8>, Vec<u8>)| e.0@.subrange(plen as int, e.0@.len() as int),
                ),
                forall|j: int| 0 <= j < entries@.len() ==> #[trigger] entries@[j].0@
                    == data_key(kv, v, KIND_ZSET_MEMBER, mems[j]) && z.contains_key(mems[j]) && z[mems[j]]
                    == entries@[j].1@,
                forall|a: int, b: int| 0 <= a < b < entries@.len() ==> (#[trigger] entries@[a]).0@ != (#[trigger] entries@[b]).0@,
                i <= entries@.len(),
                seen.finite(),
                seen == Set::new(|m2: Seq<u8>| exists|j: int| 0 <= j < i && mems[j] == m2 && zbefore(score_of(z[m2]), m2, target, m@)),
                count == seen.len(),
                count <= i,
            decreases entries@.len() - i,
        {
            let key = &entries[i].0;
            let val = &entries[i].1;
            proof {
                assert(entries@[i as int].0@ == data_key(kv, v, KIND_ZSET_MEMBER, mems[i as int]));
                lemma_data_key_tail(kv, v, KIND_ZSET_MEMBER, mems[i as int]);
                assert(st.contains_key(data_key(kv, v, KIND_ZSET_MEMBER, mems[i as int])));
                assert(val@.len() == 8);
            }
            assert(key@ == entries@[i as int].0@);
            if key.len() < plen {
                return Err(CmdError::Corrupt);
            }
            let member = bytes_from(key.as_slice(), plen);
            assert(member@ == mems[i as int]);
            let sc = match KeyDecoder::decode_key_zset_data_value(val.as_slice()) {
                Some(sc) => sc,
                None => {
                    return Err(CmdError::Corrupt);
                },
            };
            let before = sc < target || (sc == target && bytes_lt_exec(member.as_slice(), m));
            let ghost x = mems[i as int];
            let ghost next = Set::new(|m2: Seq<u8>| exists|j: int| 0 <= j < i + 1 && mems[j] == m2 && zbefore(score_of(z[m2]), m2, target, m@));
            proof {
                assert(!seen.contains(x)) by {
                    if seen.contains(x) {
                        let j = choose|j: int| 0 <= j < i && mems[j] == x && zbefore(score_of(z[x]), x, target, m@);
                        assert(entries@[j].0@ == entries@[i as int].0@);
                    }
                }
                if before {
                    assert(next =~= seen.insert(x));
                } else {
                    assert(next =~= seen);
                }
            }
            if before {
                count = count + 1;
            }
            proof {
                seen = next;
            }
            i = i + 1;
        }
        proof {
            let target_set = z.dom().filter(|m2: Seq<u8>| zbefore(score_of(z[m2]), m2, score_of(z[m@]), m@));
            assert forall|m2: Seq<u8>| target_set.contains(m2) implies seen.contains(m2) by {
                assert(st.contains_key(data_key(kv, v, KIND_ZSET_MEMBER, m2)));
                assert(prefix@.is_prefix_of(data_key(kv, v, KIND_ZSET_MEMBER, m2))) by {
                    lemma_data_key_tail(kv, v, KIND_ZSET_MEMBER, m2);
                    assert(data_key(kv, v, KIND_ZSET_MEMBER, m2).subrange(0, plen as int) =~= prefix@);
                }
                let j = choose|j: int| 0 <= j < entries@.len() && (#[trigger] entries@[j]).0@ == data_key(kv, v, KIND_ZSET_MEMBER, m2);
                lemma_data_key_injective(kv, v, KIND_ZSET_MEMBER, mems[j], kv, v, KIND_ZSET_MEMBER, m2);
            }
            assert(seen =~= target_set);
        }
        Ok(Some(count))
    }

    /// ZCARD: the number of members of `k`, kept in its header.
    pub fn zcard(buf: &TxnBuffer, k: &[u8]) -> (r: Result<u64, CmdError>)
        requires
            buf.wf(),
            zset_ok(buf@, k@),
        ensures
            zset_status(buf@, k@) is Err ==> r == Err::<u64, CmdError>(
                zset_status(buf@, k@)->Err_0,
            ),
            zset_status(buf@, k@) is Ok ==> r is Ok && r.unwrap() == zset_of(buf@, k@).dom().len(),
    {
        coll_len(buf, k, DataType::Zset, KIND_ZSET_MEMBER)
    }
}

} // verus!
