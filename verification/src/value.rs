//! The RESP reply value: a tagged union of the five reply kinds the
//! server can send. Payloads are byte strings, so arbitrary binary data
//! round-trips without escaping.

use vstd::prelude::*;

verus! {

/// A reply value. `Array` nests arbitrarily, which also covers the
/// request envelope (an array of bulk strings).
#[derive(Debug, PartialEq, Eq)]
pub enum Value {
    SimpleString(Vec<u8>),
    Error(Vec<u8>),
    Integer(i64),
    BulkString(Vec<u8>),
    Null,
    Array(Vec<Value>),
}

/// The mathematical shape of a reply value: payloads as byte sequences.
/// Contracts and the wire-format spec functions speak of this type.
pub enum SpecValue {
    SimpleString(Seq<u8>),
    Error(Seq<u8>),
    Integer(int),
    BulkString(Seq<u8>),
    Null,
    Array(Seq<SpecValue>),
}

/// The abstraction of an executable reply value.
pub open spec fn view_value(v: Value) -> SpecValue
    decreases v, 1int,
{
    match v {
        Value::SimpleString(s) => SpecValue::SimpleString(s@),
        Value::Error(s) => SpecValue::Error(s@),
        Value::Integer(n) => SpecValue::Integer(n as int),
        Value::BulkString(b) => SpecValue::BulkString(b@),
        Value::Null => SpecValue::Null,
        Value::Array(items) => SpecValue::Array(view_list(items@)),
    }
}

/// The abstraction of a run of executable reply values.
pub open spec fn view_list(items: Seq<Value>) -> Seq<SpecValue>
    decreases items, 0int,
{
    if items.len() == 0 {
        Seq::empty()
    } else {
        seq![view_value(items[0])] + view_list(items.drop_first())
    }
}

impl View for Value {
    type V = SpecValue;

    open spec fn view(&self) -> SpecValue {
        view_value(*self)
    }
}

/// Abstraction distributes over length and indexing.
pub proof fn lemma_view_list_index(items: Seq<Value>)
    ensures
        view_list(items).len() == items.len(),
        forall|i: int| 0 <= i < items.len() ==> view_list(items)[i] == view_value(
            #[trigger] items[i],
        ),
    decreases items.len(),
{
    if items.len() > 0 {
        let d = items.drop_first();
        lemma_view_list_index(d);
        assert(view_list(items) == seq![view_value(items[0])] + view_list(d));
        assert forall|i: int| 0 <= i < items.len() implies view_list(items)[i] == view_value(
            items[i],
        ) by {
            if i > 0 {
                assert(d[i - 1] == items[i]);
                assert(view_list(items)[i] == view_list(d)[i - 1]);
            }
        }
    }
}

/// Abstracting one more value appends its abstraction.
pub proof fn lemma_view_list_push(items: Seq<Value>, x: Value)
    ensures
        view_list(items.push(x)) == view_list(items).push(view_value(x)),
    decreases items.len(),
{
    let p = items.push(x);
    if items.len() == 0 {
        assert(p.drop_first() =~= Seq::<Value>::empty());
        assert(view_list(Seq::<Value>::empty()) =~= Seq::<SpecValue>::empty());
        assert(p[0] == x);
        assert(view_list(p) == seq![view_value(x)] + view_list(p.drop_first()));
        assert(view_list(p) =~= view_list(items).push(view_value(x)));
    } else {
        assert(p.drop_first() =~= items.drop_first().push(x));
        lemma_view_list_push(items.drop_first(), x);
        assert(view_list(p) =~= view_list(items).push(view_value(x)));
    }
}

/// No `\r\n` inside `s`. Simple-string and error payloads travel on a
/// line of their own, so an embedded terminator could not be framed.
pub open spec fn line_safe(s: Seq<u8>) -> bool {
    forall|i: int| 0 <= i && i + 1 < s.len() ==> !((#[trigger] s[i]) == 13 && s[i + 1] == 10)
}

/// Frames on the wire without ambiguity: no simple-string or error
/// payload embeds the line terminator, so the encoding is one complete
/// frame and a reader's framing never desyncs. Length-prefixed payloads
/// are framing-safe whatever bytes they hold.
pub open spec fn frame_safe(v: SpecValue) -> bool
    decreases v,
{
    match v {
        SpecValue::SimpleString(s) => line_safe(s),
        SpecValue::Error(s) => line_safe(s),
        SpecValue::Integer(_) => true,
        SpecValue::BulkString(_) => true,
        SpecValue::Null => true,
        SpecValue::Array(items) => forall|i: int|
            0 <= i < items.len() ==> frame_safe(#[trigger] items[i]),
    }
}

/// A value whose encoding decodes back to itself: line payloads carry no
/// `\r\n`, and integers and lengths fit the signed 64-bit headers of the
/// wire format.
pub open spec fn wf(v: SpecValue) -> bool
    decreases v,
{
    match v {
        SpecValue::SimpleString(s) => line_safe(s),
        SpecValue::Error(s) => line_safe(s),
        SpecValue::Integer(n) => i64::MIN <= n <= i64::MAX,
        SpecValue::BulkString(b) => b.len() <= i64::MAX,
        SpecValue::Null => true,
        SpecValue::Array(items) => items.len() <= i64::MAX && forall|i: int|
            0 <= i < items.len() ==> wf(#[trigger] items[i]),
    }
}

} // verus!
