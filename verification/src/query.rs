//! The request envelope: one RESP array of bulk strings, the first the
//! command name, the rest its arguments. Parsing distinguishes a buffer
//! that is still arriving (`Incomplete`) from one that can never parse
//! (`Malformed`), so a connection can accumulate bytes across reads.

use vstd::prelude::*;
use vstd::string::is_ascii;
use crate::de::{decode, dec_value, find_crlf, RespError, lemma_dec_items_len};
use crate::value::{Value, SpecValue, view_list, lemma_view_list_index, frame_safe};
use crate::command::{Command, spec_command_of, dispatch_post};
use crate::database::{DatabaseOps, StoreModel};
use crate::bytes::{views_of, ascii_bytes, str_bytes, lemma_ascii_no_cr, lemma_no_cr_line_safe};
use crate::numbers::spec_parse_i64;
use crate::serializer::enc;

verus! {

/// A parsed request: the command name, its classification, and the
/// arguments in order.
#[derive(Debug, PartialEq, Eq)]
pub struct Query {
    pub command_str: Vec<u8>,
    pub command_enum: Command,
    pub args: Vec<Vec<u8>>,
}

/// Whether every element of a decoded run is a bulk string.
pub open spec fn all_bulk(items: Seq<SpecValue>) -> bool {
    forall|i: int| 0 <= i < items.len() ==> (#[trigger] items[i]) is BulkString
}

/// The payloads of a run of bulk strings.
pub open spec fn bulk_payloads(items: Seq<SpecValue>) -> Seq<Seq<u8>> {
    Seq::new(items.len(), |i: int| items[i]->BulkString_0)
}

/// What a request buffer holds: the command name, the arguments, and
/// how many bytes the envelope took; or why it does not hold one. A
/// complete frame that is not a non-empty array of bulk strings is
/// malformed.
pub open spec fn spec_request(s: Seq<u8>) -> Result<(Seq<u8>, Seq<Seq<u8>>, int), RespError> {
    match dec_value(s, 0) {
        Err(e) => Err(e),
        Ok((v, end)) => match v {
            SpecValue::Array(items) => {
                if items.len() == 0 || !all_bulk(items) {
                    Err(RespError::Malformed)
                } else {
                    Ok((items[0]->BulkString_0, bulk_payloads(items.drop_first()), end))
                }
            },
            _ => Err(RespError::Malformed),
        },
    }
}

impl Query {
    /// Parses one request from the front of `buf`; yields the query and
    /// the bytes consumed, so pipelined requests behind it stay in the
    /// buffer.
    pub fn new(buf: &[u8]) -> (r: Result<(Query, usize), RespError>)
        ensures
            match r {
                Ok(p) => {
                    &&& spec_request(buf@) == Ok::<(Seq<u8>, Seq<Seq<u8>>, int), RespError>(
                        (p.0.command_str@, views_of(p.0.args@), p.1 as int),
                    )
                    &&& p.0.command_enum == spec_command_of(p.0.command_str@)
                    &&& 0 < p.1 <= buf@.len()
                },
                Err(e) => spec_request(buf@) == Err::<(Seq<u8>, Seq<Seq<u8>>, int), RespError>(e),
            },
    {
        let (value, used) = match decode(buf, 0) {
            Err(e) => {
                return Err(e);
            },
            Ok(p) => p,
        };
        let items = match value {
            Value::Array(items) => items,
            _ => {
                return Err(RespError::Malformed);
            },
        };
        proof {
            lemma_view_list_index(items@);
        }
        if items.len() == 0 {
            return Err(RespError::Malformed);
        }
        let ghost sitems = view_list(items@);
        let mut payloads: Vec<Vec<u8>> = Vec::new();
        let mut j: usize = 0;
        while j < items.len()
            invariant
                j <= items@.len(),
                sitems == view_list(items@),
                dec_value(buf@, 0) == Ok::<(SpecValue, int), RespError>((
                    SpecValue::Array(sitems),
                    used as int,
                )),
                sitems.len() > 0,
                0 < used <= buf@.len(),
                sitems.len() == items@.len(),
                forall|x: int| 0 <= x < items@.len() ==> sitems[x] == crate::value::view_value(
                    #[trigger] items@[x],
                ),
                forall|x: int| 0 <= x < j ==> (#[trigger] sitems[x]) is BulkString,
                payloads@.len() == j,
                forall|x: int| 0 <= x < j ==> (#[trigger] payloads@[x])@
                    == sitems[x]->BulkString_0,
            decreases items@.len() - j,
        {
            match &items[j] {
                Value::BulkString(b) => {
                    payloads.push(vstd::slice::slice_to_vec(b.as_slice()));
                },
                _ => {
                    proof {
                        assert(!(sitems[j as int] is BulkString));
                        assert(!all_bulk(sitems));
                    }
                    return Err(RespError::Malformed);
                },
            }
            j += 1;
        }
        proof {
            assert(all_bulk(sitems));
        }
        let mut rest = payloads;
        let name = rest.remove(0);
        proof {
            assert(sitems.drop_first().len() == sitems.len() - 1);
            assert(views_of(rest@) =~= bulk_payloads(sitems.drop_first())) by {
                assert(forall|x: int|
                    0 <= x < rest@.len() ==> (#[trigger] rest@[x])@ == sitems[x + 1]
                        ->BulkString_0);
                assert(forall|x: int|
                    0 <= x < sitems.drop_first().len() ==> (#[trigger] sitems.drop_first()[x])
                        == sitems[x + 1]);
            }
            assert(name@ == sitems[0]->BulkString_0);
        }
        let command_enum = Command::from_str(name.as_slice());
        Ok((Query { command_str: name, command_enum, args: rest }, used))
    }

    /// Computes the encoded reply to this request against the store at
    /// instant `now_ms`.
    pub fn create_response(&self, db: &mut DatabaseOps, now_ms: i64) -> (r: Vec<u8>)
        requires
            old(db).wf(),
            self.args@.len() <= i64::MAX,
        ensures
            final(db).wf(),
            exists|rep: SpecValue|
                r@ == enc(rep) && #[trigger] dispatch_post(
                    self.command_enum,
                    views_of(self.args@),
                    old(db)@,
                    final(db)@,
                    now_ms as int,
                    rep,
                ),
    {
        let v = self.command_enum.create_response(self, db, now_ms);
        let r = crate::serializer::encode(&v);
        proof {
            assert(r@ == enc(v@) && dispatch_post(
                self.command_enum,
                views_of(self.args@),
                old(db)@,
                db@,
                now_ms as int,
                v@,
            ));
        }
        r
    }
}

/// A parsed request carries fewer than `i64::MAX` arguments: the array
/// header that framed it is a signed 64-bit count, and the name takes
/// one element.
pub proof fn lemma_request_args_bound(s: Seq<u8>)
    ensures
        spec_request(s) matches Ok(t) ==> t.1.len() < i64::MAX,
{
    if spec_request(s) is Ok {
        if 0 < s.len() && s[0] == 42 {
            match find_crlf(s, 1) {
                Option::Some(j) => {
                    if !(j < 1 || j + 2 > s.len()) {
                        match spec_parse_i64(s.subrange(1, j)) {
                            Option::Some(n) => {
                                if n >= 0 {
                                    lemma_dec_items_len(s, j + 2, n as nat);
                                }
                            },
                            Option::None => {},
                        }
                    }
                },
                Option::None => {},
            }
        }
    }
}

/// What one feeding of the accumulated buffer produced.
pub enum StepResult {
    /// The buffer does not yet hold a whole request: keep it and read
    /// more bytes.
    Incomplete,
    /// A reply to write back, how many buffered bytes the request took,
    /// and whether the connection should close (a broken envelope).
    Respond(Vec<u8>, usize, bool),
}

/// The reply text for a request that breaks the wire grammar.
pub open spec fn msg_protocol() -> Seq<u8> {
    ascii_bytes("ERR protocol error"@)
}

/// What one feeding of the accumulated buffer must yield at instant
/// `now`: nothing yet on a short buffer, a closing protocol error on a
/// broken envelope, and otherwise one dispatched reply consuming exactly
/// one request. Every reply is framing-safe (`frame_safe`), so the bytes
/// written back are one complete frame whatever the request held.
pub open spec fn step_post(
    s: Seq<u8>,
    m0: StoreModel,
    m1: StoreModel,
    now: int,
    r: StepResult,
) -> bool {
    match spec_request(s) {
        Err(RespError::Incomplete) => r is Incomplete && m1 == m0,
        Err(RespError::Malformed) => r matches StepResult::Respond(reply, used, close) && reply@
            == enc(SpecValue::Error(msg_protocol())) && frame_safe(SpecValue::Error(msg_protocol()))
            && used == s.len() && close == true && m1 == m0,
        Ok(t) => r matches StepResult::Respond(reply, used, close) && used == t.2 && close
            == false && exists|rep: SpecValue|
            reply@ == enc(rep) && #[trigger] dispatch_post(
                spec_command_of(t.0),
                t.1,
                m0,
                m1,
                now,
                rep,
            ),
    }
}

/// Feeds the bytes a connection has accumulated so far. A buffer that
/// stops short of one whole request is left for more reads — never
/// discarded — so a request split across reads is answered exactly once,
/// when its last bytes arrive. A whole request is answered and its bytes
/// consumed; a broken envelope is answered with a protocol error and
/// closes the connection.
pub fn step(db: &mut DatabaseOps, buf: &[u8], now_ms: i64) -> (r: StepResult)
    requires
        old(db).wf(),
    ensures
        final(db).wf(),
        step_post(buf@, old(db)@, final(db)@, now_ms as int, r),
{
    match Query::new(buf) {
        Err(RespError::Incomplete) => StepResult::Incomplete,
        Err(RespError::Malformed) => {
            proof {
                reveal_strlit("ERR protocol error");
                assert(is_ascii("ERR protocol error"));
                lemma_ascii_no_cr("ERR protocol error");
                lemma_no_cr_line_safe(msg_protocol());
            }
            let text = str_bytes("ERR protocol error");
            let reply = crate::serializer::err(text.as_slice());
            StepResult::Respond(reply, buf.len(), true)
        },
        Ok((q, used)) => {
            proof {
                lemma_request_args_bound(buf@);
            }
            let reply = q.create_response(db, now_ms);
            StepResult::Respond(reply, used, false)
        },
    }
}

/// Relies on chrono::Utc::now: the wall clock, in milliseconds since the
/// Unix epoch. The result depends on the moment of the call, so nothing
/// is promised of it.
#[verifier::external_body]
fn now_millis() -> i64 {
    chrono::Utc::now().timestamp_millis()
}

/// Feeds the accumulated buffer at the present moment: `step` at the
/// instant the clock reads when the call is made. The contract holds
/// whatever that instant turned out to be.
pub fn respond(db: &mut DatabaseOps, buf: &[u8]) -> (r: StepResult)
    requires
        old(db).wf(),
    ensures
        final(db).wf(),
        exists|now: int| #[trigger] step_post(buf@, old(db)@, final(db)@, now, r),
{
    let now_ms = now_millis();
    let r = step(db, buf, now_ms);
    proof {
        assert(step_post(buf@, old(db)@, db@, now_ms as int, r));
    }
    r
}

} // verus!
