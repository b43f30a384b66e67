//! Encoding reply values to RESP bytes. Encoding is total: every reply
//! kind has exactly one wire form, given by the `enc_*` spec functions.

use vstd::prelude::*;
use crate::numbers::{dec_digits, int_bytes};
use crate::bytes::views_of;
use crate::value::{Value, SpecValue, view_value, view_list, lemma_view_list_index,
    lemma_view_list_push};

verus! {

/// The line terminator of the wire format.
pub open spec fn crlf() -> Seq<u8> {
    seq![13u8, 10u8]
}

/// `+<s>\r\n`
pub open spec fn enc_simple(s: Seq<u8>) -> Seq<u8> {
    seq![43u8] + s + crlf()
}

/// `-<s>\r\n`
pub open spec fn enc_error(s: Seq<u8>) -> Seq<u8> {
    seq![45u8] + s + crlf()
}

/// `:<n>\r\n`
pub open spec fn enc_integer(n: int) -> Seq<u8> {
    seq![58u8] + int_bytes(n) + crlf()
}

/// `$<len>\r\n<b>\r\n`
pub open spec fn enc_bulk(b: Seq<u8>) -> Seq<u8> {
    seq![36u8] + dec_digits(b.len()) + crlf() + b + crlf()
}

/// `$-1\r\n`
pub open spec fn enc_null() -> Seq<u8> {
    seq![36u8, 45u8, 49u8, 13u8, 10u8]
}

/// The wire form of a reply value.
pub open spec fn enc(v: SpecValue) -> Seq<u8>
    decreases v, 1int,
{
    match v {
        SpecValue::SimpleString(s) => enc_simple(s),
        SpecValue::Error(s) => enc_error(s),
        SpecValue::Integer(n) => enc_integer(n),
        SpecValue::BulkString(b) => enc_bulk(b),
        SpecValue::Null => enc_null(),
        SpecValue::Array(items) => seq![42u8] + dec_digits(items.len()) + crlf() + enc_seq(items),
    }
}

/// The concatenated wire forms of a run of values.
pub open spec fn enc_seq(items: Seq<SpecValue>) -> Seq<u8>
    decreases items, 0int,
{
    if items.len() == 0 {
        Seq::empty()
    } else {
        enc(items[0]) + enc_seq(items.drop_first())
    }
}

/// Encoding a run one value longer appends that value's encoding.
pub proof fn lemma_enc_seq_push(items: Seq<SpecValue>, x: SpecValue)
    ensures
        enc_seq(items.push(x)) == enc_seq(items) + enc(x),
    decreases items.len(),
{
    let p = items.push(x);
    if items.len() == 0 {
        assert(p.drop_first() =~= Seq::<SpecValue>::empty());
        assert(enc_seq(Seq::<SpecValue>::empty()) =~= Seq::<u8>::empty());
        assert(p[0] == x);
        assert(enc_seq(p) == enc(x) + enc_seq(p.drop_first()));
        assert(enc_seq(p) =~= enc(x));
        assert(enc_seq(items) + enc(x) =~= enc(x));
    } else {
        assert(p.drop_first() =~= items.drop_first().push(x));
        lemma_enc_seq_push(items.drop_first(), x);
        assert(enc_seq(p) =~= enc_seq(items) + enc(x));
    }
}

/// Appends all of `src` to `dst`.
pub fn push_all(dst: &mut Vec<u8>, src: &[u8])
    ensures
        final(dst)@ == old(dst)@ + src@,
{
    let mut i: usize = 0;
    while i < src.len()
        invariant
            i <= src@.len(),
            dst@ == old(dst)@ + src@.subrange(0, i as int),
        decreases src@.len() - i,
    {
        let b = src[i];
        dst.push(b);
        proof {
            assert(src@.subrange(0, i as int).push(src@[i as int]) =~= src@.subrange(
                0,
                i as int + 1,
            ));
        }
        i += 1;
    }
    proof {
        assert(src@.subrange(0, src@.len() as int) =~= src@);
    }
}

/// A simple-string reply: `+<message>\r\n`.
pub fn str(message: &[u8]) -> (r: Vec<u8>)
    ensures
        r@ == enc_simple(message@),
{
    let mut r: Vec<u8> = Vec::new();
    r.push(43u8);
    push_all(&mut r, message);
    r.push(13u8);
    r.push(10u8);
    proof {
        assert(r@ =~= enc_simple(message@));
    }
    r
}

/// An error reply: `-<message>\r\n`.
pub fn err(message: &[u8]) -> (r: Vec<u8>)
    ensures
        r@ == enc_error(message@),
{
    let mut r: Vec<u8> = Vec::new();
    r.push(45u8);
    push_all(&mut r, message);
    r.push(13u8);
    r.push(10u8);
    proof {
        assert(r@ =~= enc_error(message@));
    }
    r
}

/// An integer reply: `:<n>\r\n`.
pub fn int_reply(message: i64) -> (r: Vec<u8>)
    ensures
        r@ == enc_integer(message as int),
{
    let mut r: Vec<u8> = Vec::new();
    r.push(58u8);
    let digits = crate::numbers::i64_to_dec(message);
    push_all(&mut r, digits.as_slice());
    r.push(13u8);
    r.push(10u8);
    proof {
        assert(r@ =~= enc_integer(message as int));
    }
    r
}

/// A bulk-string reply: `$<len>\r\n<message>\r\n`, binary safe.
pub fn bulk_str(message: &[u8]) -> (r: Vec<u8>)
    ensures
        r@ == enc_bulk(message@),
{
    let mut r: Vec<u8> = Vec::new();
    r.push(36u8);
    let digits = crate::numbers::u64_to_dec(message.len() as u64);
    push_all(&mut r, digits.as_slice());
    r.push(13u8);
    r.push(10u8);
    push_all(&mut r, message);
    r.push(13u8);
    r.push(10u8);
    proof {
        assert(r@ =~= enc_bulk(message@));
    }
    r
}

/// The null reply: `$-1\r\n`.
pub fn nil() -> (r: Vec<u8>)
    ensures
        r@ == enc_null(),
{
    let mut r: Vec<u8> = Vec::new();
    r.push(36u8);
    r.push(45u8);
    r.push(49u8);
    r.push(13u8);
    r.push(10u8);
    proof {
        assert(r@ =~= enc_null());
    }
    r
}

/// The wire form of an array of bulk strings with the given payloads.
pub open spec fn enc_bulk_seq(items: Seq<Seq<u8>>) -> Seq<u8>
    decreases items.len(),
{
    if items.len() == 0 {
        Seq::empty()
    } else {
        enc_bulk(items[0]) + enc_bulk_seq(items.drop_first())
    }
}

/// `*<count>\r\n` then each payload as a bulk string.
pub open spec fn enc_str_arr(items: Seq<Seq<u8>>) -> Seq<u8> {
    seq![42u8] + dec_digits(items.len()) + crlf() + enc_bulk_seq(items)
}

proof fn lemma_enc_bulk_seq_push(items: Seq<Seq<u8>>, x: Seq<u8>)
    ensures
        enc_bulk_seq(items.push(x)) == enc_bulk_seq(items) + enc_bulk(x),
    decreases items.len(),
{
    let p = items.push(x);
    if items.len() == 0 {
        assert(p.drop_first() =~= Seq::<Seq<u8>>::empty());
        assert(enc_bulk_seq(Seq::<Seq<u8>>::empty()) =~= Seq::<u8>::empty());
        assert(p[0] == x);
        assert(enc_bulk_seq(p) == enc_bulk(x) + enc_bulk_seq(p.drop_first()));
        assert(enc_bulk_seq(p) =~= enc_bulk(x));
        assert(enc_bulk_seq(items) + enc_bulk(x) =~= enc_bulk(x));
    } else {
        assert(p.drop_first() =~= items.drop_first().push(x));
        lemma_enc_bulk_seq_push(items.drop_first(), x);
        assert(enc_bulk_seq(p) =~= enc_bulk_seq(items) + enc_bulk(x));
    }
}

/// An array reply of bulk strings: `*<count>\r\n` then each item.
pub fn str_arr(list: &Vec<Vec<u8>>) -> (r: Vec<u8>)
    ensures
        r@ == enc_str_arr(views_of(list@)),
{
    let ghost payloads = views_of(list@);
    let mut r: Vec<u8> = Vec::new();
    r.push(42u8);
    let digits = crate::numbers::u64_to_dec(list.len() as u64);
    push_all(&mut r, digits.as_slice());
    r.push(13u8);
    r.push(10u8);
    proof {
        assert(r@ =~= seq![42u8] + dec_digits(payloads.len()) + crlf());
        assert(enc_bulk_seq(payloads.subrange(0, 0)) =~= Seq::<u8>::empty());
        assert(r@ =~= seq![42u8] + dec_digits(payloads.len()) + crlf() + enc_bulk_seq(
            payloads.subrange(0, 0),
        ));
    }
    let mut j: usize = 0;
    while j < list.len()
        invariant
            j <= list@.len(),
            payloads == views_of(list@),
            r@ == seq![42u8] + dec_digits(payloads.len()) + crlf() + enc_bulk_seq(
                payloads.subrange(0, j as int),
            ),
        decreases list@.len() - j,
    {
        let item = bulk_str(list[j].as_slice());
        push_all(&mut r, item.as_slice());
        proof {
            lemma_enc_bulk_seq_push(payloads.subrange(0, j as int), payloads[j as int]);
            assert(payloads.subrange(0, j as int).push(payloads[j as int]) =~= payloads.subrange(
                0,
                j as int + 1,
            ));
        }
        j += 1;
    }
    proof {
        assert(payloads.subrange(0, payloads.len() as int) =~= payloads);
    }
    r
}

/// Encodes any reply value to its wire form. Encoding never fails.
pub fn encode(v: &Value) -> (r: Vec<u8>)
    ensures
        r@ == enc(v@),
    decreases *v,
{
    match v {
        Value::SimpleString(s) => str(s.as_slice()),
        Value::Error(s) => err(s.as_slice()),
        Value::Integer(n) => int_reply(*n),
        Value::BulkString(b) => bulk_str(b.as_slice()),
        Value::Null => nil(),
        Value::Array(items) => {
            let mut r: Vec<u8> = Vec::new();
            r.push(42u8);
            let digits = crate::numbers::u64_to_dec(items.len() as u64);
            push_all(&mut r, digits.as_slice());
            r.push(13u8);
            r.push(10u8);
            proof {
                lemma_view_list_index(items@);
                assert(view_list(items@.subrange(0, 0)) =~= Seq::<SpecValue>::empty());
                assert(enc_seq(view_list(items@.subrange(0, 0))) =~= Seq::<u8>::empty());
                assert(r@ =~= seq![42u8] + dec_digits(view_list(items@).len()) + crlf()
                    + enc_seq(view_list(items@.subrange(0, 0))));
            }
            let mut j: usize = 0;
            while j < items.len()
                invariant
                    j <= items@.len(),
                    v == Value::Array(*items),
                    r@ == seq![42u8] + dec_digits(view_list(items@).len()) + crlf() + enc_seq(
                        view_list(items@.subrange(0, j as int)),
                    ),
                decreases items@.len() - j,
            {
                proof {
                    let vv = v->Array_0;
                    assert(vv == *items);
                    assert(decreases_to!(*v => vv));
                    assert(decreases_to!(vv => vv[j as int]));
                    assert(vv[j as int] == items@[j as int]);
                }
                let e = encode(&items[j]);
                push_all(&mut r, e.as_slice());
                proof {
                    lemma_view_list_push(items@.subrange(0, j as int), items@[j as int]);
                    lemma_enc_seq_push(
                        view_list(items@.subrange(0, j as int)),
                        view_value(items@[j as int]),
                    );
                    assert(items@.subrange(0, j as int).push(items@[j as int])
                        =~= items@.subrange(0, j as int + 1));
                }
                j += 1;
            }
            proof {
                assert(items@.subrange(0, items@.len() as int) =~= items@);
            }
            r
        }
    }
}

} // verus!
