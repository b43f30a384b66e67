//! Decimal rendering and parsing of integers, the numeric core of the
//! wire protocol: integer replies, bulk-string lengths and array counts
//! all travel as decimal digit lines, and `INCR`/`DECR` parse stored
//! values as signed 64-bit integers.

use vstd::prelude::*;

verus! {

/// Decimal digit bytes of `n`, most significant digit first.
pub open spec fn dec_digits(n: nat) -> Seq<u8>
    decreases n,
{
    if n < 10 {
        seq![(48 + n) as u8]
    } else {
        dec_digits(n / 10).push((48 + n % 10) as u8)
    }
}

/// Signed decimal rendering: a minus sign for negative values, then the
/// digits of the magnitude.
pub open spec fn int_bytes(n: int) -> Seq<u8> {
    if n < 0 {
        seq![45u8] + dec_digits((-n) as nat)
    } else {
        dec_digits(n as nat)
    }
}

pub open spec fn is_digit(b: u8) -> bool {
    48 <= b <= 57
}

pub open spec fn all_digits(s: Seq<u8>) -> bool {
    forall|i: int| 0 <= i < s.len() ==> is_digit(#[trigger] s[i])
}

/// Numeric value of a sequence of digit bytes, most significant first.
pub open spec fn digits_val(s: Seq<u8>) -> int
    decreases s.len(),
{
    if s.len() == 0 {
        0
    } else {
        digits_val(s.drop_last()) * 10 + (s.last() - 48)
    }
}

/// An acceptable signed decimal: an optional `+` or `-` sign, then at
/// least one digit and nothing else.
pub open spec fn is_signed_decimal(s: Seq<u8>) -> bool {
    if s.len() == 0 {
        false
    } else if s[0] == 45 || s[0] == 43 {
        s.len() > 1 && all_digits(s.drop_first())
    } else {
        all_digits(s)
    }
}

/// The integer a signed decimal stands for.
pub open spec fn signed_decimal_val(s: Seq<u8>) -> int
    recommends
        is_signed_decimal(s),
{
    if s.len() > 0 && s[0] == 45 {
        -digits_val(s.drop_first())
    } else if s.len() > 0 && s[0] == 43 {
        digits_val(s.drop_first())
    } else {
        digits_val(s)
    }
}

/// What parsing a byte string as a signed 64-bit integer yields: the
/// value when the string is a signed decimal within the `i64` range,
/// nothing otherwise.
pub open spec fn spec_parse_i64(s: Seq<u8>) -> Option<i64> {
    if is_signed_decimal(s) && i64::MIN <= signed_decimal_val(s) <= i64::MAX {
        Some(signed_decimal_val(s) as i64)
    } else {
        None
    }
}

/// Every rendered number is a non-empty run of digit bytes.
pub proof fn lemma_dec_digits_shape(n: nat)
    ensures
        dec_digits(n).len() >= 1,
        all_digits(dec_digits(n)),
    decreases n,
{
    if n >= 10 {
        lemma_dec_digits_shape(n / 10);
        assert(all_digits(dec_digits(n))) by {
            let s = dec_digits(n / 10);
            let t = dec_digits(n);
            assert(forall|i: int| 0 <= i < s.len() ==> t[i] == s[i]);
        }
    }
}

/// Rendering then evaluating gives the number back.
pub proof fn lemma_digits_val_dec_digits(n: nat)
    ensures
        digits_val(dec_digits(n)) == n,
    decreases n,
{
    if n < 10 {
        let s = seq![(48 + n) as u8];
        assert(dec_digits(n) =~= s);
        assert(s.drop_last() =~= Seq::<u8>::empty());
        assert(digits_val(s) == digits_val(s.drop_last()) * 10 + (s.last() - 48));
    } else {
        lemma_digits_val_dec_digits(n / 10);
        let s = dec_digits(n);
        assert(s == dec_digits(n / 10).push((48 + n % 10) as u8));
        assert(s.drop_last() =~= dec_digits(n / 10));
        assert(s.last() == (48 + n % 10) as u8);
        assert(digits_val(s) == digits_val(s.drop_last()) * 10 + (s.last() - 48));
        assert(digits_val(s) == n / 10 * 10 + n % 10);
    }
}

/// Rendering an `i64` then parsing it back is the identity.
pub proof fn lemma_parse_int_bytes(n: i64)
    ensures
        spec_parse_i64(int_bytes(n as int)) == Some(n),
{
    if n >= 0 {
        lemma_dec_digits_shape(n as nat);
        lemma_digits_val_dec_digits(n as nat);
        let s = int_bytes(n as int);
        assert(is_digit(s[0]));
        assert(s[0] != 45 && s[0] != 43);
    } else {
        let m = (-(n as int)) as nat;
        lemma_dec_digits_shape(m);
        lemma_digits_val_dec_digits(m);
        let s = int_bytes(n as int);
        assert(s.drop_first() =~= dec_digits(m));
    }
}

/// Appending digit bytes never lowers the value of a digit run.
proof fn lemma_digits_val_prefix_le(s: Seq<u8>, i: int)
    requires
        0 <= i <= s.len(),
        all_digits(s),
    ensures
        digits_val(s.subrange(0, i)) <= digits_val(s),
        digits_val(s) >= 0,
    decreases s.len() - i,
{
    if i == s.len() {
        assert(s.subrange(0, i) =~= s);
        lemma_digits_val_nonneg(s);
    } else {
        lemma_digits_val_prefix_le(s, i + 1);
        let p = s.subrange(0, i);
        let q = s.subrange(0, i + 1);
        assert(q.drop_last() =~= p);
        lemma_digits_val_nonneg(p);
    }
}

proof fn lemma_digits_val_nonneg(s: Seq<u8>)
    requires
        all_digits(s),
    ensures
        digits_val(s) >= 0,
    decreases s.len(),
{
    if s.len() > 0 {
        assert(all_digits(s.drop_last())) by {
            let t = s.drop_last();
            assert(forall|i: int| 0 <= i < t.len() ==> t[i] == s[i]);
        }
        lemma_digits_val_nonneg(s.drop_last());
    }
}

/// Renders `n` as decimal digit bytes.
pub fn u64_to_dec(n: u64) -> (r: Vec<u8>)
    ensures
        r@ == dec_digits(n as nat),
    decreases n,
{
    if n < 10 {
        let mut v: Vec<u8> = Vec::new();
        v.push(48 + n as u8);
        proof {
            assert(v@ =~= dec_digits(n as nat));
        }
        v
    } else {
        let mut v = u64_to_dec(n / 10);
        v.push(48 + (n % 10) as u8);
        proof {
            assert(v@ =~= dec_digits(n as nat));
        }
        v
    }
}

/// Renders `n` as a signed decimal byte string.
pub fn i64_to_dec(n: i64) -> (r: Vec<u8>)
    ensures
        r@ == int_bytes(n as int),
{
    if n >= 0 {
        u64_to_dec(n as u64)
    } else {
        let mag: u64 = if n == i64::MIN {
            9223372036854775808u64
        } else {
            (-n) as u64
        };
        let mut v: Vec<u8> = Vec::new();
        v.push(45u8);
        let mut d = u64_to_dec(mag);
        v.append(&mut d);
        proof {
            assert(v@ =~= int_bytes(n as int));
        }
        v
    }
}

/// Parses a byte string as a signed 64-bit decimal integer.
pub fn parse_i64(s: &[u8]) -> (r: Option<i64>)
    ensures
        r == spec_parse_i64(s@),
{
    let n = s.len();
    if n == 0 {
        return None;
    }
    let neg = s[0] == 45;
    let has_sign = neg || s[0] == 43;
    let start: usize = if has_sign {
        1
    } else {
        0
    };
    if start >= n {
        return None;
    }
    let ghost digits = s@.subrange(start as int, n as int);
    let mut acc: u64 = 0;
    let mut i: usize = start;
    while i < n
        invariant
            start <= i <= n,
            n == s@.len(),
            start < n,
            start == 0 || start == 1,
            start == 1 <==> (s@[0] == 45 || s@[0] == 43),
            neg <==> s@[0] == 45,
            digits == s@.subrange(start as int, n as int),
            all_digits(s@.subrange(start as int, i as int)),
            acc == digits_val(s@.subrange(start as int, i as int)),
        decreases n - i,
    {
        let b = s[i];
        if b < 48 || b > 57 {
            proof {
                let full = s@.subrange(start as int, n as int);
                assert(!is_digit(full[i as int - start as int]));
                assert(!all_digits(full));
                assert(!is_signed_decimal(s@)) by {
                    if start == 1 {
                        assert(s@.drop_first() =~= full);
                    } else {
                        assert(full =~= s@);
                    }
                }
            }
            return None;
        }
        let d = (b - 48) as u64;
        let next = match acc.checked_mul(10) {
            Some(x) => x.checked_add(d),
            None => None,
        };
        proof {
            let p = s@.subrange(start as int, i as int);
            let q = s@.subrange(start as int, i as int + 1);
            assert(q.drop_last() =~= p);
            assert(q.last() == s@[i as int]);
            assert(forall|j: int| 0 <= j < q.len() ==> is_digit(#[trigger] q[j])) by {
                assert(forall|j: int| 0 <= j < p.len() ==> q[j] == p[j]);
            }
        }
        match next {
            Some(x) => {
                acc = x;
            }
            None => {
                // The digits read so far already exceed the `u64` range, so
                // the full value lies outside the `i64` range whatever
                // follows; a non-digit later makes it malformed instead.
                proof {
                    let q = s@.subrange(start as int, i as int + 1);
                    assert(digits_val(q) > u64::MAX);
                    if is_signed_decimal(s@) {
                        let full = s@.subrange(start as int, n as int);
                        assert(all_digits(full)) by {
                            if start == 1 {
                                assert(s@.drop_first() =~= full);
                            } else {
                                assert(full =~= s@);
                            }
                        }
                        lemma_digits_val_prefix_le(full, i as int + 1 - start as int);
                        assert(full.subrange(0, i as int + 1 - start as int) =~= q);
                        assert(digits_val(full) > u64::MAX);
                        if start == 1 {
                            assert(s@.drop_first() =~= full);
                        } else {
                            assert(full =~= s@);
                        }
                        assert(signed_decimal_val(s@) > i64::MAX
                            || signed_decimal_val(s@) < i64::MIN);
                    }
                }
                return None;
            }
        }
        i += 1;
    }
    proof {
        assert(s@.subrange(start as int, n as int) =~= digits);
        if start == 1 {
            assert(s@.drop_first() =~= digits);
        } else {
            assert(digits =~= s@);
        }
        assert(is_signed_decimal(s@));
    }
    if neg {
        if acc > 9223372036854775808u64 {
            proof {
                assert(signed_decimal_val(s@) < i64::MIN);
            }
            None
        } else if acc == 9223372036854775808u64 {
            Some(i64::MIN)
        } else {
            Some(-(acc as i64))
        }
    } else {
        if acc > i64::MAX as u64 {
            proof {
                assert(signed_decimal_val(s@) > i64::MAX);
            }
            None
        } else {
            Some(acc as i64)
        }
    }
}

} // verus!
