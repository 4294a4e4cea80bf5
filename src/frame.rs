//! Protocol-level response values and the decimal text that they carry.
use vstd::prelude::*;
use vstd::string::*;
use crate::encoding::push_bytes;

verus! {

/// A protocol response value.
#[derive(Debug, PartialEq, Eq)]
pub enum Frame {
    Simple(String),
    Error(String),
    Integer(i64),
    Bulk(Vec<u8>),
    Null,
    Array(Vec<Frame>),
}

pub open spec fn digit_byte(d: nat) -> u8 {
    (48 + d) as u8
}

/// The decimal digits of `n`, most significant first, without leading zeros.
pub open spec fn decimal(n: nat) -> Seq<u8>
    decreases n,
{
    if n < 10 {
        seq![digit_byte(n)]
    } else {
        decimal(n / 10).push(digit_byte(n % 10))
    }
}

/// The decimal text of a signed integer.
pub open spec fn signed_decimal(i: int) -> Seq<u8> {
    if i < 0 {
        seq![45u8] + decimal((-i) as nat)
    } else {
        decimal(i as nat)
    }
}

pub open spec fn is_digit(b: u8) -> bool {
    48 <= b <= 57
}

/// The value of a string of decimal digits.
pub open spec fn digits_value(s: Seq<u8>) -> nat
    decreases s.len(),
{
    if s.len() == 0 {
        0
    } else {
        digits_value(s.drop_last()) * 10 + (s.last() - 48) as nat
    }
}

pub open spec fn all_digits(s: Seq<u8>) -> bool {
    s.len() > 0 && forall|i: int| 0 <= i < s.len() ==> is_digit(#[trigger] s[i])
}

/// The integer that decimal text denotes: an optional sign, then one or
/// more digits.
pub open spec fn int_text_value(s: Seq<u8>) -> Option<int> {
    if s.len() > 0 && s[0] == 45u8 && all_digits(s.drop_first()) {
        Some(-(digits_value(s.drop_first()) as int))
    } else if s.len() > 0 && s[0] == 43u8 && all_digits(s.drop_first()) {
        Some(digits_value(s.drop_first()) as int)
    } else if all_digits(s) {
        Some(digits_value(s) as int)
    } else {
        None
    }
}

/// The `i64` that decimal text denotes, if it is one and fits.
pub open spec fn parse_i64_spec(s: Seq<u8>) -> Option<i64> {
    match int_text_value(s) {
        Some(v) => if i64::MIN <= v <= i64::MAX {
            Some(v as i64)
        } else {
            None
        },
        None => None,
    }
}

/// The `u64` that decimal text denotes, with an optional leading `+`, if
/// it fits.
pub open spec fn parse_u64_spec(s: Seq<u8>) -> Option<u64> {
    if s.len() > 0 && s[0] == 43u8 && all_digits(s.drop_first()) {
        if digits_value(s.drop_first()) <= u64::MAX {
            Some(digits_value(s.drop_first()) as u64)
        } else {
            None
        }
    } else if all_digits(s) && digits_value(s) <= u64::MAX {
        Some(digits_value(s) as u64)
    } else {
        None
    }
}

/// Appends the decimal digits of `n`.
pub fn push_decimal(out: &mut Vec<u8>, n: u64)
    ensures
        final(out)@ == old(out)@ + decimal(n as nat),
    decreases n,
{
    if n >= 10 {
        push_decimal(out, n / 10);
    }
    out.push((48 + n % 10) as u8);
    assert(final(out)@ =~= old(out)@ + decimal(n as nat));
}

/// Appends the decimal text of `i`.
pub fn push_signed_decimal(out: &mut Vec<u8>, i: i64)
    ensures
        final(out)@ == old(out)@ + signed_decimal(i as int),
{
    if i < 0 {
        out.push(45u8);
        let m: u64 = if i == i64::MIN {
            9223372036854775808u64
        } else {
            (-i) as u64
        };
        push_decimal(out, m);
        assert(final(out)@ =~= old(out)@ + signed_decimal(i as int));
    } else {
        push_decimal(out, i as u64);
    }
}

/// The decimal text of `i`.
pub fn format_i64(i: i64) -> (r: Vec<u8>)
    ensures
        r@ == signed_decimal(i as int),
{
    let mut r: Vec<u8> = Vec::new();
    push_signed_decimal(&mut r, i);
    assert(r@ =~= signed_decimal(i as int));
    r
}

proof fn lemma_digits_value_step(s: Seq<u8>, i: int)
    requires
        0 <= i < s.len(),
    ensures
        digits_value(s.subrange(0, i + 1)) == digits_value(s.subrange(0, i)) * 10 + (s[i]
            - 48) as nat,
{
    assert(s.subrange(0, i + 1).drop_last() =~= s.subrange(0, i));
}

/// The decimal text of `n` is digits only, and denotes `n`.
pub proof fn lemma_decimal_digits(n: nat)
    ensures
        all_digits(decimal(n)),
        digits_value(decimal(n)) == n,
    decreases n,
{
    if n < 10 {
        assert(decimal(n).drop_last() =~= Seq::<u8>::empty());
        assert(digit_byte(n) == 48 + n);
        assert(digits_value(Seq::<u8>::empty()) == 0);
        assert(decimal(n).last() == digit_byte(n));
        assert(digits_value(decimal(n)) == digits_value(decimal(n).drop_last()) * 10 + (
        decimal(n).last() - 48) as nat);
    } else {
        lemma_decimal_digits(n / 10);
        assert(decimal(n).drop_last() =~= decimal(n / 10));
        assert(digit_byte(n % 10) == 48 + n % 10);
        assert(decimal(n).last() == digit_byte(n % 10));
        assert(is_digit(decimal(n).last()));
        assert((n / 10) * 10 + n % 10 == n) by (nonlinear_arith);
        assert(digits_value(decimal(n)) == digits_value(decimal(n / 10)) * 10 + n % 10);
    }
}

/// Parsing the decimal text of an `i64` gives it back.
pub proof fn lemma_parse_format(i: i64)
    ensures
        parse_i64_spec(signed_decimal(i as int)) == Some(i),
{
    let s = signed_decimal(i as int);
    if i < 0 {
        lemma_decimal_digits((-i) as nat);
        assert(s.drop_first() =~= decimal((-i) as nat));
    } else {
        lemma_decimal_digits(i as nat);
        assert(is_digit(s[0]));
    }
}

/// Reads a run of decimal digits from `s[from..]`; `None` where a byte
/// is not a digit, where the run is empty, or where the value exceeds `limit`.
fn digits_up_to(s: &[u8], from: usize, limit: u64) -> (r: Option<u64>)
    requires
        from <= s@.len(),
    ensures
        r is Some <==> (all_digits(s@.subrange(from as int, s@.len() as int)) && digits_value(
            s@.subrange(from as int, s@.len() as int),
        ) <= limit),
        r is Some ==> r.unwrap() == digits_value(s@.subrange(from as int, s@.len() as int)),
{
    let ghost t = s@.subrange(from as int, s@.len() as int);
    if from == s.len() {
        return None;
    }
    let mut acc: u64 = 0;
    let mut i: usize = from;
    while i < s.len()
        invariant
            from <= i <= s@.len(),
            t == s@.subrange(from as int, s@.len() as int),
            t.len() > 0,
            forall|j: int| from <= j < i ==> is_digit(#[trigger] s@[j]),
            acc == digits_value(s@.subrange(from as int, i as int)),
            acc <= limit,
        decreases s@.len() - i,
    {
        let b = s[i];
        if b < 48 || b > 57 {
            assert(t[i - from] == b);
            return None;
        }
        let d = (b - 48) as u64;
        proof {
            let u = s@.subrange(from as int, s@.len() as int);
            lemma_digits_value_step(s@.subrange(from as int, s@.len() as int), i - from);
            assert(u.subrange(0, i - from + 1) =~= s@.subrange(from as int, i + 1));
            assert(u.subrange(0, i - from) =~= s@.subrange(from as int, i as int));
        }
        if acc > limit / 10 || (acc == limit / 10 && d > limit % 10) {
            assert(acc * 10 + d > limit) by (nonlinear_arith)
                requires
                    acc > limit / 10 || (acc == limit / 10 && d > limit % 10),
            ;
            proof {
                // the value only grows from here on
                lemma_prefix_value_bound(t, i - from + 1, limit);
                assert(t.subrange(0, i - from + 1) =~= s@.subrange(from as int, i + 1));
            }
            return None;
        }
        let q = limit / 10;
        let m = limit % 10;
        assert(limit == 10 * q + m && m < 10);
        assert(acc * 10 + d <= limit) by (nonlinear_arith)
            requires
                !(acc > q || (acc == q && d > m)),
                d <= 9,
                limit == 10 * q + m,
        ;
        acc = acc * 10 + d;
        i = i + 1;
    }
    assert(s@.subrange(from as int, i as int) =~= t);
    Some(acc)
}

/// A value whose digits run past `limit` at some prefix stays past it.
proof fn lemma_prefix_value_bound(t: Seq<u8>, k: int, limit: u64)
    requires
        0 < k <= t.len(),
        digits_value(t.subrange(0, k)) > limit,
    ensures
        (forall|j: int| 0 <= j < t.len() ==> is_digit(#[trigger] t[j])) ==> digits_value(t)
            > limit,
    decreases t.len() - k,
{
    if k < t.len() {
        lemma_digits_value_step(t, k);
        lemma_prefix_value_bound(t, k + 1, limit);
    } else {
        assert(t.subrange(0, k) =~= t);
    }
}

/// Parses a decimal `u64`, with an optional leading `+`.
pub fn parse_u64(s: &[u8]) -> (r: Option<u64>)
    ensures
        r == parse_u64_spec(s@),
{
    if s.len() > 0 && s[0] == 43u8 {
        assert(s@.subrange(1, s@.len() as int) =~= s@.drop_first());
        let r = digits_up_to(s, 1, u64::MAX);
        proof {
            assert(!is_digit(s@[0]));
        }
        r
    } else {
        let r = digits_up_to(s, 0, u64::MAX);
        assert(s@.subrange(0, s@.len() as int) =~= s@);
        r
    }
}

/// Parses a decimal `i64`, with an optional leading sign.
pub fn parse_i64(s: &[u8]) -> (r: Option<i64>)
    ensures
        r == parse_i64_spec(s@),
{
    if s.len() > 0 && (s[0] == 45u8 || s[0] == 43u8) {
        assert(s@.subrange(1, s@.len() as int) =~= s@.drop_first());
        let neg = s[0] == 45u8;
        let limit: u64 = if neg {
            9223372036854775808u64
        } else {
            9223372036854775807u64
        };
        match digits_up_to(s, 1, limit) {
            Some(v) => {
                if neg {
                    if v == 9223372036854775808u64 {
                        Some(i64::MIN)
                    } else {
                        Some(-(v as i64))
                    }
                } else {
                    Some(v as i64)
                }
            },
            None => {
                proof {
                    if all_digits(s@.drop_first()) {
                        assert(!all_digits(s@)) by {
                            assert(!is_digit(s@[0]));
                        }
                    }
                }
                None
            },
        }
    } else {
        assert(s@.subrange(0, s@.len() as int) =~= s@);
        match digits_up_to(s, 0, 9223372036854775807u64) {
            Some(v) => Some(v as i64),
            None => None,
        }
    }
}

/// The UTF-8 bytes of `s`.
pub fn str_bytes(s: &str) -> (r: Vec<u8>)
    ensures
        r@ == s.spec_bytes(),
{
    let mut r: Vec<u8> = Vec::new();
    push_bytes(&mut r, s.as_bytes());
    assert(r@ =~= s.spec_bytes());
    r
}

/// Whether two strings are equal.
pub fn str_eq(a: &str, b: &str) -> (r: bool)
    ensures
        r == (a@ == b@),
{
    let n = a.unicode_len();
    if n != b.unicode_len() {
        return false;
    }
    let mut i: usize = 0;
    while i < n
        invariant
            n == a@.len(),
            n == b@.len(),
            i <= n,
            forall|j: int| 0 <= j < i ==> a@[j] == b@[j],
        decreases n - i,
    {
        if a.get_char(i) != b.get_char(i) {
            return false;
        }
        i = i + 1;
    }
    assert(a@ =~= b@);
    true
}

} // verus!
