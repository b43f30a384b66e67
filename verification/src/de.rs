//! Decoding RESP bytes back into reply values. A buffer that stops short
//! of a complete frame is reported as `Incomplete` — the caller should
//! read more bytes and retry — while a buffer that breaks the grammar is
//! `Malformed`. The distinction is what lets a connection accumulate a
//! request across several reads.

use vstd::prelude::*;
use vstd::slice::{slice_subrange, slice_to_vec};
use crate::numbers::{spec_parse_i64, dec_digits, int_bytes, digits_val, is_digit, all_digits,
    lemma_dec_digits_shape, lemma_digits_val_dec_digits, lemma_parse_int_bytes};
use crate::value::{Value, SpecValue, view_list, lemma_view_list_push, line_safe, wf};
use crate::serializer::{crlf, enc, enc_seq};

verus! {

/// Why a buffer failed to decode: more bytes may still complete it, or
/// it can never decode.
#[derive(Debug, Clone, Copy, PartialEq, Eq, Structural)]
pub enum RespError {
    Incomplete,
    Malformed,
}

/// Position of the first `\r\n` pair at or after `from`.
pub open spec fn find_crlf(s: Seq<u8>, from: int) -> Option<int>
    decreases s.len() - from,
{
    if from < 0 || from + 1 >= s.len() {
        Option::None
    } else if s[from] == 13 && s[from + 1] == 10 {
        Option::Some(from)
    } else {
        find_crlf(s, from + 1)
    }
}

/// What a found terminator position means: in range, a real `\r\n`, and
/// the first one; a miss means no pair exists at all.
pub proof fn lemma_find_crlf_props(s: Seq<u8>, from: int)
    requires
        0 <= from,
    ensures
        match find_crlf(s, from) {
            Option::Some(j) => from <= j && j + 1 < s.len() && s[j] == 13 && s[j + 1] == 10
                && forall|k: int|
                from <= k < j ==> !((#[trigger] s[k]) == 13 && s[k + 1] == 10),
            Option::None => forall|k: int|
                from <= k && k + 1 < s.len() ==> !((#[trigger] s[k]) == 13 && s[k + 1] == 10),
        },
    decreases s.len() - from,
{
    if from + 1 >= s.len() {
    } else if s[from] == 13 && s[from + 1] == 10 {
    } else {
        lemma_find_crlf_props(s, from + 1);
    }
}

/// The first `\r\n` is found where it stands.
pub proof fn lemma_find_crlf_at(s: Seq<u8>, from: int, j: int)
    requires
        0 <= from <= j,
        j + 1 < s.len(),
        s[j] == 13,
        s[j + 1] == 10,
        forall|k: int| from <= k < j ==> !((#[trigger] s[k]) == 13 && s[k + 1] == 10),
    ensures
        find_crlf(s, from) == Option::Some(j),
    decreases j - from,
{
    if from < j {
        lemma_find_crlf_at(s, from + 1, j);
    }
}

/// The value decoded from `s` at `pos`, with the position just past it;
/// or why none could be. The bound guards after each header keep the
/// recursion measure meaningful; they never fire, since `find_crlf`
/// yields in-range positions.
pub open spec fn dec_value(s: Seq<u8>, pos: int) -> Result<(SpecValue, int), RespError>
    decreases s.len() - pos, 0nat,
{
    if pos < 0 || pos >= s.len() {
        Err(RespError::Incomplete)
    } else if s[pos] == 43 || s[pos] == 45 {
        match find_crlf(s, pos + 1) {
            Option::None => Err(RespError::Incomplete),
            Option::Some(j) => {
                let payload = s.subrange(pos + 1, j);
                if s[pos] == 43 {
                    Ok((SpecValue::SimpleString(payload), j + 2))
                } else {
                    Ok((SpecValue::Error(payload), j + 2))
                }
            },
        }
    } else if s[pos] == 58 {
        match find_crlf(s, pos + 1) {
            Option::None => Err(RespError::Incomplete),
            Option::Some(j) => match spec_parse_i64(s.subrange(pos + 1, j)) {
                Option::None => Err(RespError::Malformed),
                Option::Some(n) => Ok((SpecValue::Integer(n as int), j + 2)),
            },
        }
    } else if s[pos] == 36 {
        match find_crlf(s, pos + 1) {
            Option::None => Err(RespError::Incomplete),
            Option::Some(j) => match spec_parse_i64(s.subrange(pos + 1, j)) {
                Option::None => Err(RespError::Malformed),
                Option::Some(n) => {
                    if n == -1 {
                        Ok((SpecValue::Null, j + 2))
                    } else if n < 0 {
                        Err(RespError::Malformed)
                    } else if j + 2 + n + 2 > s.len() {
                        Err(RespError::Incomplete)
                    } else if s[j + 2 + n] == 13 && s[j + 2 + n + 1] == 10 {
                        Ok((SpecValue::BulkString(s.subrange(j + 2, j + 2 + n)), j + 2 + n + 2))
                    } else {
                        Err(RespError::Malformed)
                    }
                },
            },
        }
    } else if s[pos] == 42 {
        match find_crlf(s, pos + 1) {
            Option::None => Err(RespError::Incomplete),
            Option::Some(j) => {
                if j < pos + 1 || j + 2 > s.len() {
                    Err(RespError::Malformed)
                } else {
                    match spec_parse_i64(s.subrange(pos + 1, j)) {
                        Option::None => Err(RespError::Malformed),
                        Option::Some(n) => {
                            if n < 0 {
                                Err(RespError::Malformed)
                            } else {
                                match dec_items(s, j + 2, n as nat) {
                                    Ok((items, end)) => Ok((SpecValue::Array(items), end)),
                                    Err(e) => Err(e),
                                }
                            }
                        },
                    }
                }
            },
        }
    } else {
        Err(RespError::Malformed)
    }
}

/// `count` consecutive values decoded from `s` at `pos`. The bound guard
/// after each element never fires: a decoded value consumes at least one
/// byte and stays inside the buffer.
pub open spec fn dec_items(s: Seq<u8>, pos: int, count: nat) -> Result<
    (Seq<SpecValue>, int),
    RespError,
>
    decreases s.len() - pos, count + 1,
{
    if count == 0 {
        Ok((Seq::empty(), pos))
    } else {
        match dec_value(s, pos) {
            Err(e) => Err(e),
            Ok((v, end)) => {
                if end <= pos || end > s.len() {
                    Err(RespError::Malformed)
                } else {
                    match dec_items(s, end, (count - 1) as nat) {
                        Err(e) => Err(e),
                        Ok((rest, rend)) => Ok((seq![v] + rest, rend)),
                    }
                }
            },
        }
    }
}

/// Finds the first `\r\n` pair at or after `from`.
fn scan_crlf(s: &[u8], from: usize) -> (r: Option<usize>)
    ensures
        match r {
            Option::Some(j) => find_crlf(s@, from as int) == Option::Some(j as int),
            Option::None => find_crlf(s@, from as int) is None,
        },
{
    let mut i: usize = from;
    while i < s.len() && i + 1 < s.len()
        invariant
            from <= i,
            find_crlf(s@, from as int) == find_crlf(s@, i as int),
        decreases s@.len() - i,
    {
        if s[i] == 13 && s[i + 1] == 10 {
            return Some(i);
        }
        proof {
            assert(find_crlf(s@, i as int) == find_crlf(s@, i as int + 1));
        }
        i += 1;
    }
    None
}

/// Copies `s[a..b]` into a fresh vector.
fn copy_range(s: &[u8], a: usize, b: usize) -> (r: Vec<u8>)
    requires
        a <= b && b <= s@.len(),
    ensures
        r@ == s@.subrange(a as int, b as int),
{
    slice_to_vec(slice_subrange(s, a, b))
}

/// Decodes one value from `s` at `pos`. The result agrees exactly with
/// `dec_value`, so a complete frame yields the value and the position
/// just past it, a short buffer yields `Incomplete`, and a grammar break
/// yields `Malformed`.
pub fn decode(s: &[u8], pos: usize) -> (r: Result<(Value, usize), RespError>)
    ensures
        ({
            let d = dec_value(s@, pos as int);
            match r {
                Ok((v, end)) => d == Ok::<(SpecValue, int), RespError>((v@, end as int)),
                Err(e) => d == Err::<(SpecValue, int), RespError>(e),
            }
        }),
        r matches Ok((v, end)) ==> pos < end <= s@.len(),
    decreases s@.len() - pos,
{
    if pos >= s.len() {
        return Err(RespError::Incomplete);
    }
    let marker = s[pos];
    if marker == 43 || marker == 45 {
        match scan_crlf(s, pos + 1) {
            None => Err(RespError::Incomplete),
            Some(j) => {
                proof {
                    lemma_find_crlf_props(s@, pos as int + 1);
                }
                let payload = copy_range(s, pos + 1, j);
                if marker == 43 {
                    Ok((Value::SimpleString(payload), j + 2))
                } else {
                    Ok((Value::Error(payload), j + 2))
                }
            },
        }
    } else if marker == 58 {
        match scan_crlf(s, pos + 1) {
            None => Err(RespError::Incomplete),
            Some(j) => {
                proof {
                    lemma_find_crlf_props(s@, pos as int + 1);
                }
                let line = slice_subrange(s, pos + 1, j);
                match crate::numbers::parse_i64(line) {
                    None => Err(RespError::Malformed),
                    Some(n) => Ok((Value::Integer(n), j + 2)),
                }
            },
        }
    } else if marker == 36 {
        match scan_crlf(s, pos + 1) {
            None => Err(RespError::Incomplete),
            Some(j) => {
                proof {
                    lemma_find_crlf_props(s@, pos as int + 1);
                }
                let line = slice_subrange(s, pos + 1, j);
                match crate::numbers::parse_i64(line) {
                    None => Err(RespError::Malformed),
                    Some(n) => {
                        if n == -1 {
                            Ok((Value::Null, j + 2))
                        } else if n < 0 {
                            Err(RespError::Malformed)
                        } else {
                            let have: usize = s.len() - (j + 2);
                            if n as u64 + 2 > have as u64 {
                                Err(RespError::Incomplete)
                            } else {
                                let start = j + 2;
                                let stop = start + (n as usize);
                                if s[stop] == 13 && s[stop + 1] == 10 {
                                    let payload = copy_range(s, start, stop);
                                    Ok((Value::BulkString(payload), stop + 2))
                                } else {
                                    Err(RespError::Malformed)
                                }
                            }
                        }
                    },
                }
            },
        }
    } else if marker == 42 {
        match scan_crlf(s, pos + 1) {
            None => Err(RespError::Incomplete),
            Some(j) => {
                proof {
                    lemma_find_crlf_props(s@, pos as int + 1);
                }
                let line = slice_subrange(s, pos + 1, j);
                match crate::numbers::parse_i64(line) {
                    None => Err(RespError::Malformed),
                    Some(n) => {
                        if n < 0 {
                            Err(RespError::Malformed)
                        } else {
                            let nn = n as u64;
                            let ghost start: int = j as int + 2;
                            let mut items: Vec<Value> = Vec::new();
                            let mut cur: usize = j + 2;
                            let mut k: u64 = 0;
                            proof {
                                assert(view_list(items@) =~= Seq::<SpecValue>::empty());
                            }
                            let mut early: Option<RespError> = None;
                            while k < nn && early.is_none()
                                invariant
                                    k <= nn,
                                    nn == n as u64,
                                    0 <= n,
                                    pos < s@.len(),
                                    s@[pos as int] == 42,
                                    find_crlf(s@, pos as int + 1) == Option::Some(j as int),
                                    pos + 1 <= j && j as int + 2 <= s@.len(),
                                    spec_parse_i64(s@.subrange(pos as int + 1, j as int))
                                        == Option::Some(n),
                                    start == j as int + 2,
                                    pos < start <= cur && cur <= s@.len(),
                                    items@.len() == k,
                                    ({
                                        let full = dec_items(s@, start, nn as nat);
                                        match early {
                                            Option::Some(e) => full == Err::<
                                                (Seq<SpecValue>, int),
                                                RespError,
                                            >(e),
                                            Option::None => {
                                                let rem = dec_items(
                                                    s@,
                                                    cur as int,
                                                    (nn - k) as nat,
                                                );
                                                match rem {
                                                    Ok(p) => full == Ok::<
                                                        (Seq<SpecValue>, int),
                                                        RespError,
                                                    >((view_list(items@) + p.0, p.1)),
                                                    Err(e) => full == Err::<
                                                        (Seq<SpecValue>, int),
                                                        RespError,
                                                    >(e),
                                                }
                                            },
                                        }
                                    }),
                                decreases nn - k, (if early is None { 1int } else { 0int }),
                            {
                                match decode(s, cur) {
                                    Err(e) => {
                                        early = Some(e);
                                    },
                                    Ok((v, end)) => {
                                        proof {
                                            lemma_view_list_push(items@, v);
                                            let m = (nn - k) as nat;
                                            let rem = dec_items(s@, cur as int, m);
                                            let rem2 = dec_items(s@, end as int, (m - 1) as nat);
                                            match rem2 {
                                                Ok(p2) => {
                                                    assert(rem == Ok::<
                                                        (Seq<SpecValue>, int),
                                                        RespError,
                                                    >((seq![v@] + p2.0, p2.1)));
                                                    assert(view_list(items@.push(v)) + p2.0
                                                        =~= view_list(items@) + (seq![v@] + p2.0));
                                                },
                                                Err(_) => {},
                                            }
                                        }
                                        items.push(v);
                                        cur = end;
                                        k = k + 1;
                                    },
                                }
                            }
                            match early {
                                Some(e) => Err(e),
                                None => {
                                    proof {
                                        let rem = dec_items(s@, cur as int, 0);
                                        assert(rem == Ok::<(Seq<SpecValue>, int), RespError>((
                                            Seq::empty(),
                                            cur as int,
                                        )));
                                        assert(view_list(items@) + Seq::<SpecValue>::empty()
                                            =~= view_list(items@));
                                    }
                                    Ok((Value::Array(items), cur))
                                },
                            }
                        }
                    },
                }
            },
        }
    } else {
        Err(RespError::Malformed)
    }
}

/// A decoded run holds exactly as many values as were asked for.
pub proof fn lemma_dec_items_len(s: Seq<u8>, pos: int, count: nat)
    ensures
        dec_items(s, pos, count) matches Ok(p) ==> p.0.len() == count,
    decreases s.len() - pos, count + 1,
{
    if count > 0 {
        match dec_value(s, pos) {
            Ok(p0) => {
                let end = p0.1;
                if !(end <= pos || end > s.len()) {
                    lemma_dec_items_len(s, end, (count - 1) as nat);
                }
            },
            Err(_) => {},
        }
    }
}

/// Splitting a known concatenation inside a buffer into its two parts.
pub proof fn lemma_subrange_cat(s: Seq<u8>, pos: int, a: Seq<u8>, b: Seq<u8>)
    requires
        0 <= pos,
        pos + a.len() + b.len() <= s.len(),
        s.subrange(pos, pos + a.len() + b.len()) == a + b,
    ensures
        s.subrange(pos, pos + a.len()) == a,
        s.subrange(pos + a.len(), pos + a.len() + b.len()) == b,
{
    let w = s.subrange(pos, pos + a.len() + b.len());
    assert(s.subrange(pos, pos + a.len()) =~= a) by {
        assert(forall|i: int| 0 <= i < a.len() ==> #[trigger] s[pos + i] == w[i] && w[i] == a[i]);
    }
    let c = s.subrange(pos + a.len(), pos + a.len() + b.len());
    assert forall|i: int| 0 <= i < b.len() implies c[i] == b[i] by {
        assert(c[i] == s[pos + a.len() + i]);
        assert(w[a.len() + i] == s[pos + (a.len() + i)]);
        assert(s[pos + a.len() + i] == s[pos + (a.len() + i)]);
        assert(w[a.len() + i] == b[i]);
    }
    assert(c =~= b);
}

/// A line with its terminator at `from` is found exactly at its end, and
/// the bytes before the terminator are the line.
proof fn lemma_find_line(s: Seq<u8>, from: int, line: Seq<u8>)
    requires
        0 <= from,
        from + line.len() + 2 <= s.len(),
        s.subrange(from, from + line.len() + 2) == line + crlf(),
        line_safe(line),
    ensures
        find_crlf(s, from) == Option::Some(from + line.len()),
        s.subrange(from, from + line.len()) == line,
{
    let j = from + line.len() as int;
    lemma_subrange_cat(s, from, line, crlf());
    let t = s.subrange(j, j + 2);
    assert(s[j] == t[0] && s[j + 1] == t[1]);
    assert(s[j] == 13 && s[j + 1] == 10);
    assert(forall|i: int| 0 <= i < line.len() ==> #[trigger] s[from + i] == line[i]) by {
        let p = s.subrange(from, j);
        assert(forall|i: int| 0 <= i < line.len() ==> #[trigger] s[from + i] == p[i]);
    }
    assert forall|k: int| from <= k < j implies !((#[trigger] s[k]) == 13 && s[k + 1] == 10) by {
        assert(s[k] == s[from + (k - from)]);
        assert(s[k] == line[k - from]);
        if k < j - 1 {
            assert(s[k + 1] == s[from + (k + 1 - from)]);
            assert(s[k + 1] == line[k + 1 - from]);
        } else {
            assert(s[k + 1] == 13);
        }
    }
    lemma_find_crlf_at(s, from, j);
}

/// Digit runs hold no `\r`, so they never contain a terminator.
proof fn lemma_digits_line_safe(n: nat)
    ensures
        line_safe(dec_digits(n)),
{
    lemma_dec_digits_shape(n);
    let d = dec_digits(n);
    assert(forall|i: int| 0 <= i < d.len() ==> is_digit(#[trigger] d[i]));
}

/// Signed decimals hold no `\r` either.
proof fn lemma_int_bytes_line_safe(n: int)
    ensures
        line_safe(int_bytes(n)),
{
    let b = int_bytes(n);
    if n < 0 {
        lemma_dec_digits_shape((-n) as nat);
        let d = dec_digits((-n) as nat);
        assert(forall|i: int| 0 <= i < b.len() ==> (#[trigger] b[i]) != 13) by {
            assert(forall|i: int| 1 <= i < b.len() ==> #[trigger] b[i] == d[i - 1]);
            assert(forall|i: int| 0 <= i < d.len() ==> is_digit(#[trigger] d[i]));
        }
    } else {
        lemma_digits_line_safe(n as nat);
    }
}

/// A well-formed value's encoding, wherever it stands in a buffer,
/// decodes back to exactly that value, ending just past the encoding.
/// Whatever follows in the buffer does not disturb it.
pub proof fn lemma_enc_dec(v: SpecValue, s: Seq<u8>, pos: int)
    requires
        wf(v),
        0 <= pos,
        pos + enc(v).len() <= s.len(),
        s.subrange(pos, pos + enc(v).len()) == enc(v),
    ensures
        dec_value(s, pos) == Ok::<(SpecValue, int), RespError>((v, pos + enc(v).len())),
    decreases v, 1int,
{
    let e = enc(v);
    assert(s[pos] == e[0]) by {
        assert(s.subrange(pos, pos + e.len())[0] == s[pos]);
    }
    match v {
        SpecValue::SimpleString(p) => {
            assert(e =~= seq![43u8] + (p + crlf()));
            lemma_subrange_cat(s, pos, seq![43u8], p + crlf());
            lemma_find_line(s, pos + 1, p);
        },
        SpecValue::Error(p) => {
            assert(e =~= seq![45u8] + (p + crlf()));
            lemma_subrange_cat(s, pos, seq![45u8], p + crlf());
            lemma_find_line(s, pos + 1, p);
        },
        SpecValue::Integer(n) => {
            let line = int_bytes(n);
            assert(e =~= seq![58u8] + (line + crlf()));
            lemma_subrange_cat(s, pos, seq![58u8], line + crlf());
            lemma_int_bytes_line_safe(n);
            lemma_find_line(s, pos + 1, line);
            lemma_parse_int_bytes(n as i64);
            assert(int_bytes((n as i64) as int) == line);
        },
        SpecValue::Null => {
            let line = seq![45u8, 49u8];
            assert(e =~= seq![36u8] + (line + crlf()));
            lemma_subrange_cat(s, pos, seq![36u8], line + crlf());
            assert(line_safe(line));
            lemma_find_line(s, pos + 1, line);
            assert(spec_parse_i64(line) == Option::Some(-1i64)) by {
                assert(line.drop_first() =~= seq![49u8]);
                assert(all_digits(seq![49u8]));
                assert(seq![49u8].drop_last() =~= Seq::<u8>::empty());
                assert(digits_val(Seq::<u8>::empty()) == 0);
                assert(digits_val(seq![49u8]) == 1);
            }
        },
        SpecValue::BulkString(b) => {
            let line = dec_digits(b.len());
            lemma_dec_digits_shape(b.len());
            lemma_digits_val_dec_digits(b.len());
            lemma_digits_line_safe(b.len());
            assert(e =~= seq![36u8] + (line + crlf()) + (b + crlf()));
            lemma_subrange_cat(s, pos, seq![36u8] + (line + crlf()), b + crlf());
            lemma_subrange_cat(s, pos, seq![36u8], line + crlf());
            lemma_find_line(s, pos + 1, line);
            let j = pos + 1 + line.len() as int;
            assert(spec_parse_i64(line) == Option::Some(b.len() as i64)) by {
                assert(is_digit(line[0]));
            }
            lemma_subrange_cat(s, j + 2, b, crlf());
            let t = s.subrange(j + 2 + b.len(), j + 2 + b.len() + 2);
            assert(s[j + 2 + b.len()] == t[0] && s[j + 2 + b.len() + 1] == t[1]);
            assert(s[j + 2 + b.len()] == 13 && s[j + 2 + b.len() + 1] == 10);
        },
        SpecValue::Array(items) => {
            let line = dec_digits(items.len());
            lemma_dec_digits_shape(items.len());
            lemma_digits_val_dec_digits(items.len());
            lemma_digits_line_safe(items.len());
            assert(e =~= seq![42u8] + (line + crlf()) + enc_seq(items));
            lemma_subrange_cat(s, pos, seq![42u8] + (line + crlf()), enc_seq(items));
            lemma_subrange_cat(s, pos, seq![42u8], line + crlf());
            lemma_find_line(s, pos + 1, line);
            let j = pos + 1 + line.len() as int;
            assert(spec_parse_i64(line) == Option::Some(items.len() as i64)) by {
                assert(is_digit(line[0]));
            }
            lemma_enc_dec_items(items, s, j + 2);
        },
    }
}

/// A run of well-formed values standing encoded in a buffer decodes back
/// to exactly that run.
pub proof fn lemma_enc_dec_items(items: Seq<SpecValue>, s: Seq<u8>, pos: int)
    requires
        forall|i: int| 0 <= i < items.len() ==> wf(#[trigger] items[i]),
        0 <= pos,
        pos + enc_seq(items).len() <= s.len(),
        s.subrange(pos, pos + enc_seq(items).len()) == enc_seq(items),
    ensures
        dec_items(s, pos, items.len()) == Ok::<(Seq<SpecValue>, int), RespError>((
            items,
            pos + enc_seq(items).len(),
        )),
    decreases items, 0int,
{
    if items.len() == 0 {
        assert(items =~= Seq::<SpecValue>::empty());
    } else {
        let head = items[0];
        let tail = items.drop_first();
        let e0 = enc(head);
        lemma_enc_len_min(head);
        assert(enc_seq(items) == e0 + enc_seq(tail));
        lemma_subrange_cat(s, pos, e0, enc_seq(tail));
        lemma_enc_dec(head, s, pos);
        let end = pos + e0.len() as int;
        lemma_enc_dec_items(tail, s, end);
        assert(seq![head] + tail =~= items);
    }
}

/// Every encoding takes at least one byte.
pub proof fn lemma_enc_len_min(v: SpecValue)
    ensures
        enc(v).len() >= 3,
{
    match v {
        SpecValue::SimpleString(p) => {},
        SpecValue::Error(p) => {},
        SpecValue::Integer(n) => {
            if n < 0 {
                lemma_dec_digits_shape((-n) as nat);
            } else {
                lemma_dec_digits_shape(n as nat);
            }
        },
        SpecValue::Null => {},
        SpecValue::BulkString(b) => {
            lemma_dec_digits_shape(b.len());
        },
        SpecValue::Array(items) => {
            lemma_dec_digits_shape(items.len());
        },
    }
}

/// A buffer that ends partway into `a + b` agrees with `a` as far as it
/// goes, when it stops short of `a`'s end.
proof fn lemma_prefix_head(s: Seq<u8>, pos: int, a: Seq<u8>, b: Seq<u8>)
    requires
        0 <= pos <= s.len(),
        s.len() < pos + a.len(),
        s.subrange(pos, s.len() as int) == (a + b).subrange(0, s.len() - pos),
    ensures
        s.subrange(pos, s.len() as int) == a.subrange(0, s.len() - pos),
{
    let t = s.subrange(pos, s.len() as int);
    let u = a.subrange(0, s.len() - pos);
    assert forall|i: int| 0 <= i < t.len() implies t[i] == u[i] by {
        assert(t[i] == (a + b).subrange(0, s.len() - pos)[i]);
        assert((a + b).subrange(0, s.len() - pos)[i] == (a + b)[i]);
        assert((a + b)[i] == a[i]);
    }
    assert(t =~= u);
}

/// A buffer that covers all of `a` and ends partway into `b` holds `a`
/// whole, then a prefix of `b`.
proof fn lemma_prefix_tail(s: Seq<u8>, pos: int, a: Seq<u8>, b: Seq<u8>)
    requires
        0 <= pos,
        pos + a.len() <= s.len(),
        s.len() <= pos + a.len() + b.len(),
        s.subrange(pos, s.len() as int) == (a + b).subrange(0, s.len() - pos),
    ensures
        s.subrange(pos, pos + a.len()) == a,
        s.subrange(pos + a.len(), s.len() as int) == b.subrange(0, s.len() - pos - a.len()),
{
    let w = (a + b).subrange(0, s.len() - pos);
    assert(s.subrange(pos, pos + a.len()) =~= a) by {
        assert(forall|i: int|
            0 <= i < a.len() ==> s.subrange(pos, pos + a.len())[i] == s[pos + i] && #[trigger] s[pos
                + i] == w[i] && w[i] == (a + b)[i] && (a + b)[i] == a[i]);
    }
    let t = s.subrange(pos + a.len(), s.len() as int);
    let u = b.subrange(0, s.len() - pos - a.len());
    assert forall|i: int| 0 <= i < t.len() implies t[i] == u[i] by {
        assert(t[i] == s[pos + a.len() + i]);
        assert(s[pos + (a.len() + i)] == w[a.len() + i]);
        assert(s[pos + a.len() + i] == s[pos + (a.len() + i)]);
        assert(w[a.len() + i] == (a + b)[a.len() + i]);
        assert((a + b)[a.len() + i] == b[i]);
    }
    assert(t =~= u);
}

/// A buffer that ends before a line's terminator is fully there holds
/// no `\r\n` at all after the line's start.
proof fn lemma_prefix_line_no_crlf(s: Seq<u8>, from: int, line: Seq<u8>)
    requires
        0 <= from <= s.len(),
        s.len() < from + line.len() + 2,
        s.subrange(from, s.len() as int) == (line + crlf()).subrange(0, s.len() - from),
        line_safe(line),
    ensures
        find_crlf(s, from) is None,
{
    lemma_find_crlf_props(s, from);
    let lc = line + crlf();
    match find_crlf(s, from) {
        Option::Some(j) => {
            assert(s[j] == s.subrange(from, s.len() as int)[j - from]);
            assert(s[j] == lc[j - from]);
            assert(s[j + 1] == s.subrange(from, s.len() as int)[j + 1 - from]);
            assert(s[j + 1] == lc[j + 1 - from]);
            if j - from < line.len() - 1 {
                assert(lc[j - from] == line[j - from]);
                assert(lc[j + 1 - from] == line[j + 1 - from]);
                assert(false);
            } else if j - from == line.len() - 1 {
                assert(lc[j + 1 - from] == crlf()[0]);
                assert(false);
            } else {
                assert(j + 1 - from <= s.len() - 1 - from);
                assert(s.len() - from < line.len() + 2);
                assert(j - from == line.len());
                assert(j + 1 < s.len());
                assert(s.len() - from >= line.len() + 2);
                assert(false);
            }
        },
        Option::None => {},
    }
}

/// A buffer holding a proper prefix of a well-formed value's encoding,
/// and nothing after it, decodes as `Incomplete` — never as `Malformed`.
/// This is what lets a connection keep reading rather than give up on a
/// request that is split across reads.
pub proof fn lemma_enc_dec_prefix(v: SpecValue, s: Seq<u8>, pos: int)
    requires
        wf(v),
        0 <= pos <= s.len(),
        s.len() < pos + enc(v).len(),
        s.subrange(pos, s.len() as int) == enc(v).subrange(0, s.len() - pos),
    ensures
        dec_value(s, pos) == Err::<(SpecValue, int), RespError>(RespError::Incomplete),
    decreases v, 1int,
{
    let e = enc(v);
    let avail = s.len() - pos;
    if avail == 0 {
    } else {
        assert(s[pos] == e[0]) by {
            assert(s.subrange(pos, s.len() as int)[0] == s[pos]);
            assert(e.subrange(0, avail)[0] == e[0]);
        }
        match v {
            SpecValue::SimpleString(p) => {
                assert(e =~= seq![43u8] + (p + crlf()));
                lemma_prefix_tail(s, pos, seq![43u8], p + crlf());
                lemma_prefix_line_no_crlf(s, pos + 1, p);
            },
            SpecValue::Error(p) => {
                assert(e =~= seq![45u8] + (p + crlf()));
                lemma_prefix_tail(s, pos, seq![45u8], p + crlf());
                lemma_prefix_line_no_crlf(s, pos + 1, p);
            },
            SpecValue::Integer(n) => {
                let line = int_bytes(n);
                assert(e =~= seq![58u8] + (line + crlf()));
                lemma_prefix_tail(s, pos, seq![58u8], line + crlf());
                lemma_int_bytes_line_safe(n);
                lemma_prefix_line_no_crlf(s, pos + 1, line);
            },
            SpecValue::Null => {
                let line = seq![45u8, 49u8];
                assert(e =~= seq![36u8] + (line + crlf()));
                lemma_prefix_tail(s, pos, seq![36u8], line + crlf());
                assert(line_safe(line));
                lemma_prefix_line_no_crlf(s, pos + 1, line);
            },
            SpecValue::BulkString(b) => {
                let line = dec_digits(b.len());
                lemma_dec_digits_shape(b.len());
                lemma_digits_val_dec_digits(b.len());
                lemma_digits_line_safe(b.len());
                assert(e =~= seq![36u8] + ((line + crlf()) + (b + crlf())));
                lemma_prefix_tail(s, pos, seq![36u8], (line + crlf()) + (b + crlf()));
                if avail - 1 < line.len() + 2 {
                    lemma_prefix_head(s, pos + 1, line + crlf(), b + crlf());
                    lemma_prefix_line_no_crlf(s, pos + 1, line);
                } else {
                    lemma_prefix_tail(s, pos + 1, line + crlf(), b + crlf());
                    lemma_find_line(s, pos + 1, line);
                    let j = pos + 1 + line.len() as int;
                    assert(spec_parse_i64(line) == Option::Some(b.len() as i64)) by {
                        assert(is_digit(line[0]));
                    }
                    assert(j + 2 + b.len() + 2 > s.len());
                }
            },
            SpecValue::Array(items) => {
                let line = dec_digits(items.len());
                lemma_dec_digits_shape(items.len());
                lemma_digits_val_dec_digits(items.len());
                lemma_digits_line_safe(items.len());
                assert(e =~= seq![42u8] + ((line + crlf()) + enc_seq(items)));
                lemma_prefix_tail(s, pos, seq![42u8], (line + crlf()) + enc_seq(items));
                if avail - 1 < line.len() + 2 {
                    lemma_prefix_head(s, pos + 1, line + crlf(), enc_seq(items));
                    lemma_prefix_line_no_crlf(s, pos + 1, line);
                } else {
                    lemma_prefix_tail(s, pos + 1, line + crlf(), enc_seq(items));
                    lemma_find_line(s, pos + 1, line);
                    let j = pos + 1 + line.len() as int;
                    assert(spec_parse_i64(line) == Option::Some(items.len() as i64)) by {
                        assert(is_digit(line[0]));
                    }
                    lemma_enc_dec_items_prefix(items, s, j + 2);
                }
            },
        }
    }
}

/// A buffer that stops partway through an encoded run of values decodes
/// as `Incomplete`.
pub proof fn lemma_enc_dec_items_prefix(items: Seq<SpecValue>, s: Seq<u8>, pos: int)
    requires
        forall|i: int| 0 <= i < items.len() ==> wf(#[trigger] items[i]),
        0 <= pos <= s.len(),
        s.len() < pos + enc_seq(items).len(),
        s.subrange(pos, s.len() as int) == enc_seq(items).subrange(0, s.len() - pos),
    ensures
        dec_items(s, pos, items.len()) == Err::<(Seq<SpecValue>, int), RespError>(
            RespError::Incomplete,
        ),
    decreases items, 0int,
{
    let head = items[0];
    let e0 = enc(head);
    let tail = items.drop_first();
    assert(enc_seq(items) == e0 + enc_seq(tail));
    if s.len() - pos < e0.len() {
        lemma_prefix_head(s, pos, e0, enc_seq(tail));
        lemma_enc_dec_prefix(head, s, pos);
    } else {
        lemma_prefix_tail(s, pos, e0, enc_seq(tail));
        lemma_enc_dec(head, s, pos);
        lemma_enc_len_min(head);
        let end = pos + e0.len() as int;
        lemma_enc_dec_items_prefix(tail, s, end);
    }
}

/// Round trip: the encoding of any well-formed reply value decodes back
/// to that value, consuming exactly the encoding. Well-formed means line
/// payloads hold no `\r\n` of their own and lengths fit the wire headers;
/// a simple string or error that embeds `\r\n` cannot be framed.
pub proof fn lemma_round_trip(v: SpecValue)
    requires
        wf(v),
    ensures
        dec_value(enc(v), 0) == Ok::<(SpecValue, int), RespError>((v, enc(v).len() as int)),
{
    assert(enc(v).subrange(0, enc(v).len() as int) =~= enc(v));
    lemma_enc_dec(v, enc(v), 0);
}

} // verus!
