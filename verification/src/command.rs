//! The command layer: command names, the `SET` modifier parser, and the
//! handlers that turn a parsed request into a reply value against the
//! key-value engine.

use vstd::prelude::*;
use vstd::string::is_ascii;
use crate::bytes::{to_lower, lower, ascii_bytes, eq_ascii, views_of, str_bytes, no_cr,
    line_clean, to_line_clean, lemma_no_cr_line_safe, lemma_no_cr_concat, lemma_ascii_no_cr,
    lemma_line_clean_no_cr};
use crate::database::{DatabaseOps, DataTypes, StoreModel, spec_get};
use crate::numbers::{int_bytes, spec_parse_i64};
use crate::pattern::{glob_acceptable, glob_matches, glob_match};
use crate::query::Query;
use crate::serializer::push_all;
use crate::value::{Value, SpecValue, frame_safe};

verus! {

/// The commands the server knows; anything else is `Unknown`.
#[derive(Debug, Clone, Copy, PartialEq, Eq, Structural)]
pub enum Command {
    Ping,
    Get,
    Echo,
    SetCmd,
    Keys,
    Delete,
    Exists,
    Incr,
    Decr,
    Unknown,
}

/// The command a (case-insensitive) name stands for.
pub open spec fn spec_command_of(name: Seq<u8>) -> Command {
    let l = lower(name);
    if l == ascii_bytes("ping"@) {
        Command::Ping
    } else if l == ascii_bytes("get"@) {
        Command::Get
    } else if l == ascii_bytes("echo"@) {
        Command::Echo
    } else if l == ascii_bytes("set"@) {
        Command::SetCmd
    } else if l == ascii_bytes("keys"@) {
        Command::Keys
    } else if l == ascii_bytes("del"@) {
        Command::Delete
    } else if l == ascii_bytes("exists"@) {
        Command::Exists
    } else if l == ascii_bytes("incr"@) {
        Command::Incr
    } else if l == ascii_bytes("decr"@) {
        Command::Decr
    } else {
        Command::Unknown
    }
}

impl Command {
    /// Classifies a command name, case-insensitively.
    pub fn from_str(command: &[u8]) -> (r: Command)
        ensures
            r == spec_command_of(command@),
    {
        proof {
            reveal_strlit("ping");
            reveal_strlit("get");
            reveal_strlit("echo");
            reveal_strlit("set");
            reveal_strlit("keys");
            reveal_strlit("del");
            reveal_strlit("exists");
            reveal_strlit("incr");
            reveal_strlit("decr");
            assert(is_ascii("ping"));
            assert(is_ascii("get"));
            assert(is_ascii("echo"));
            assert(is_ascii("set"));
            assert(is_ascii("keys"));
            assert(is_ascii("del"));
            assert(is_ascii("exists"));
            assert(is_ascii("incr"));
            assert(is_ascii("decr"));
        }
        let l = to_lower(command);
        let ls = l.as_slice();
        if eq_ascii(ls, "ping") {
            Command::Ping
        } else if eq_ascii(ls, "get") {
            Command::Get
        } else if eq_ascii(ls, "echo") {
            Command::Echo
        } else if eq_ascii(ls, "set") {
            Command::SetCmd
        } else if eq_ascii(ls, "keys") {
            Command::Keys
        } else if eq_ascii(ls, "del") {
            Command::Delete
        } else if eq_ascii(ls, "exists") {
            Command::Exists
        } else if eq_ascii(ls, "incr") {
            Command::Incr
        } else if eq_ascii(ls, "decr") {
            Command::Decr
        } else {
            Command::Unknown
        }
    }
}

/// The modifiers `SET` recognises after its key and value.
#[derive(Debug, Clone, Copy, PartialEq, Eq, Structural)]
pub enum Modifier {
    Ex,
    Px,
    Exat,
    Pxat,
    Nx,
    Xx,
}

/// Why a `SET` modifier list was rejected.
#[derive(Debug, Clone, Copy, PartialEq, Eq, Structural)]
pub enum SetOptsIssue {
    /// A second expiry modifier; at most one of EX/PX/EXAT/PXAT may appear.
    ConflictingExpiry(Modifier),
    /// NX together with XX.
    ConflictingGate(Modifier),
    /// A numeric modifier with no following value token.
    MissingValue(Modifier),
    /// A numeric modifier whose value is not a signed 64-bit decimal.
    InvalidValue(Modifier),
    /// A token that is no modifier at all; holds its position in the tail.
    UnknownToken(usize),
}

/// A rejected `SET` modifier list, with the reason.
#[derive(Debug, Clone, Copy, PartialEq, Eq, Structural)]
pub struct SetCommandParseErr(pub SetOptsIssue);

/// The validated options of a `SET`: at most one expiry modifier, at
/// most one of NX/XX, numeric values parsed.
#[derive(Debug, Clone, Copy, PartialEq, Eq, Structural)]
pub struct SetCommandOpts {
    pub ex: Option<i64>,
    pub px: Option<i64>,
    pub nx: Option<bool>,
    pub xx: Option<bool>,
    pub exat: Option<i64>,
    pub pxat: Option<i64>,
}

impl SetCommandOpts {
    /// No modifiers at all.
    pub fn new() -> (r: SetCommandOpts)
        ensures
            r == (SetCommandOpts {
                ex: None,
                px: None,
                nx: None,
                xx: None,
                exat: None,
                pxat: None,
            }),
    {
        SetCommandOpts { ex: None, px: None, nx: None, xx: None, exat: None, pxat: None }
    }

    /// Whether any expiry modifier is present.
    pub open spec fn has_expiry(self) -> bool {
        self.ex is Some || self.px is Some || self.exat is Some || self.pxat is Some
    }
}

/// What parsing the modifier tail from position `i` onward yields, given
/// the options gathered so far. Modifiers may come in any order and any
/// case; each numeric one consumes the following token as its value.
pub open spec fn spec_parse_set_args(
    args: Seq<Seq<u8>>,
    i: int,
    acc: SetCommandOpts,
) -> Result<SetCommandOpts, SetCommandParseErr>
    decreases args.len() - i,
{
    if i < 0 || i >= args.len() {
        Ok(acc)
    } else {
        let t = lower(args[i]);
        if t == ascii_bytes("ex"@) {
            if acc.has_expiry() {
                Err(SetCommandParseErr(SetOptsIssue::ConflictingExpiry(Modifier::Ex)))
            } else if i + 1 >= args.len() {
                Err(SetCommandParseErr(SetOptsIssue::MissingValue(Modifier::Ex)))
            } else {
                match crate::numbers::spec_parse_i64(args[i + 1]) {
                    Option::None => Err(
                        SetCommandParseErr(SetOptsIssue::InvalidValue(Modifier::Ex)),
                    ),
                    Option::Some(v) => spec_parse_set_args(
                        args,
                        i + 2,
                        SetCommandOpts { ex: Option::Some(v), ..acc },
                    ),
                }
            }
        } else if t == ascii_bytes("px"@) {
            if acc.has_expiry() {
                Err(SetCommandParseErr(SetOptsIssue::ConflictingExpiry(Modifier::Px)))
            } else if i + 1 >= args.len() {
                Err(SetCommandParseErr(SetOptsIssue::MissingValue(Modifier::Px)))
            } else {
                match crate::numbers::spec_parse_i64(args[i + 1]) {
                    Option::None => Err(
                        SetCommandParseErr(SetOptsIssue::InvalidValue(Modifier::Px)),
                    ),
                    Option::Some(v) => spec_parse_set_args(
                        args,
                        i + 2,
                        SetCommandOpts { px: Option::Some(v), ..acc },
                    ),
                }
            }
        } else if t == ascii_bytes("exat"@) {
            if acc.has_expiry() {
                Err(SetCommandParseErr(SetOptsIssue::ConflictingExpiry(Modifier::Exat)))
            } else if i + 1 >= args.len() {
                Err(SetCommandParseErr(SetOptsIssue::MissingValue(Modifier::Exat)))
            } else {
                match crate::numbers::spec_parse_i64(args[i + 1]) {
                    Option::None => Err(
                        SetCommandParseErr(SetOptsIssue::InvalidValue(Modifier::Exat)),
                    ),
                    Option::Some(v) => spec_parse_set_args(
                        args,
                        i + 2,
                        SetCommandOpts { exat: Option::Some(v), ..acc },
                    ),
                }
            }
        } else if t == ascii_bytes("pxat"@) {
            if acc.has_expiry() {
                Err(SetCommandParseErr(SetOptsIssue::ConflictingExpiry(Modifier::Pxat)))
            } else if i + 1 >= args.len() {
                Err(SetCommandParseErr(SetOptsIssue::MissingValue(Modifier::Pxat)))
            } else {
                match crate::numbers::spec_parse_i64(args[i + 1]) {
                    Option::None => Err(
                        SetCommandParseErr(SetOptsIssue::InvalidValue(Modifier::Pxat)),
                    ),
                    Option::Some(v) => spec_parse_set_args(
                        args,
                        i + 2,
                        SetCommandOpts { pxat: Option::Some(v), ..acc },
                    ),
                }
            }
        } else if t == ascii_bytes("nx"@) {
            if acc.xx is Some {
                Err(SetCommandParseErr(SetOptsIssue::ConflictingGate(Modifier::Nx)))
            } else {
                spec_parse_set_args(args, i + 1, SetCommandOpts { nx: Option::Some(true), ..acc })
            }
        } else if t == ascii_bytes("xx"@) {
            if acc.nx is Some {
                Err(SetCommandParseErr(SetOptsIssue::ConflictingGate(Modifier::Xx)))
            } else {
                spec_parse_set_args(args, i + 1, SetCommandOpts { xx: Option::Some(true), ..acc })
            }
        } else {
            Err(SetCommandParseErr(SetOptsIssue::UnknownToken(i as usize)))
        }
    }
}

/// Parses the modifier tail of a `SET`, starting at `from`.
#[verifier::rlimit(100)]
pub fn parse_set_args(args: &Vec<Vec<u8>>, from: usize) -> (r: Result<
    SetCommandOpts,
    SetCommandParseErr,
>)
    ensures
        r == spec_parse_set_args(
            views_of(args@),
            from as int,
            SetCommandOpts { ex: None, px: None, nx: None, xx: None, exat: None, pxat: None },
        ),
{
    proof {
        reveal_strlit("ex");
        reveal_strlit("px");
        reveal_strlit("exat");
        reveal_strlit("pxat");
        reveal_strlit("nx");
        reveal_strlit("xx");
        assert(is_ascii("ex"));
        assert(is_ascii("px"));
        assert(is_ascii("exat"));
        assert(is_ascii("pxat"));
        assert(is_ascii("nx"));
        assert(is_ascii("xx"));
    }
    let ghost margs = views_of(args@);
    let ghost start = SetCommandOpts {
        ex: None,
        px: None,
        nx: None,
        xx: None,
        exat: None,
        pxat: None,
    };
    let mut acc = SetCommandOpts::new();
    let mut i: usize = from;
    while i < args.len()
        invariant
            from <= i,
            margs == views_of(args@),
            margs.len() == args@.len(),
            start == (SetCommandOpts {
                ex: None,
                px: None,
                nx: None,
                xx: None,
                exat: None,
                pxat: None,
            }),
            is_ascii("ex") && is_ascii("px") && is_ascii("exat") && is_ascii("pxat") && is_ascii(
                "nx",
            ) && is_ascii("xx"),
            spec_parse_set_args(margs, from as int, start) == spec_parse_set_args(
                margs,
                i as int,
                acc,
            ),
        decreases args@.len() - i,
    {
        proof {
            assert(margs[i as int] == args@[i as int]@);
        }
        let t = to_lower(args[i].as_slice());
        let ts = t.as_slice();
        if eq_ascii(ts, "ex") {
            if acc.ex.is_some() || acc.px.is_some() || acc.exat.is_some() || acc.pxat.is_some() {
                return Err(SetCommandParseErr(SetOptsIssue::ConflictingExpiry(Modifier::Ex)));
            }
            if i + 1 >= args.len() {
                return Err(SetCommandParseErr(SetOptsIssue::MissingValue(Modifier::Ex)));
            }
            proof {
                assert(margs[i as int + 1] == args@[i as int + 1]@);
            }
            match crate::numbers::parse_i64(args[i + 1].as_slice()) {
                None => {
                    return Err(SetCommandParseErr(SetOptsIssue::InvalidValue(Modifier::Ex)));
                },
                Some(v) => {
                    acc = SetCommandOpts { ex: Some(v), ..acc };
                    i += 2;
                },
            }
        } else if eq_ascii(ts, "px") {
            if acc.ex.is_some() || acc.px.is_some() || acc.exat.is_some() || acc.pxat.is_some() {
                return Err(SetCommandParseErr(SetOptsIssue::ConflictingExpiry(Modifier::Px)));
            }
            if i + 1 >= args.len() {
                return Err(SetCommandParseErr(SetOptsIssue::MissingValue(Modifier::Px)));
            }
            proof {
                assert(margs[i as int + 1] == args@[i as int + 1]@);
            }
            match crate::numbers::parse_i64(args[i + 1].as_slice()) {
                None => {
                    return Err(SetCommandParseErr(SetOptsIssue::InvalidValue(Modifier::Px)));
                },
                Some(v) => {
                    acc = SetCommandOpts { px: Some(v), ..acc };
                    i += 2;
                },
            }
        } else if eq_ascii(ts, "exat") {
            if acc.ex.is_some() || acc.px.is_some() || acc.exat.is_some() || acc.pxat.is_some() {
                return Err(SetCommandParseErr(SetOptsIssue::ConflictingExpiry(Modifier::Exat)));
            }
            if i + 1 >= args.len() {
                return Err(SetCommandParseErr(SetOptsIssue::MissingValue(Modifier::Exat)));
            }
            proof {
                assert(margs[i as int + 1] == args@[i as int + 1]@);
            }
            match crate::numbers::parse_i64(args[i + 1].as_slice()) {
                None => {
                    return Err(SetCommandParseErr(SetOptsIssue::InvalidValue(Modifier::Exat)));
                },
                Some(v) => {
                    acc = SetCommandOpts { exat: Some(v), ..acc };
                    i += 2;
                },
            }
        } else if eq_ascii(ts, "pxat") {
            if acc.ex.is_some() || acc.px.is_some() || acc.exat.is_some() || acc.pxat.is_some() {
                return Err(SetCommandParseErr(SetOptsIssue::ConflictingExpiry(Modifier::Pxat)));
            }
            if i + 1 >= args.len() {
                return Err(SetCommandParseErr(SetOptsIssue::MissingValue(Modifier::Pxat)));
            }
            proof {
                assert(margs[i as int + 1] == args@[i as int + 1]@);
            }
            match crate::numbers::parse_i64(args[i + 1].as_slice()) {
                None => {
                    return Err(SetCommandParseErr(SetOptsIssue::InvalidValue(Modifier::Pxat)));
                },
                Some(v) => {
                    acc = SetCommandOpts { pxat: Some(v), ..acc };
                    i += 2;
                },
            }
        } else if eq_ascii(ts, "nx") {
            if acc.xx.is_some() {
                return Err(SetCommandParseErr(SetOptsIssue::ConflictingGate(Modifier::Nx)));
            }
            acc = SetCommandOpts { nx: Some(true), ..acc };
            i += 1;
        } else if eq_ascii(ts, "xx") {
            if acc.nx.is_some() {
                return Err(SetCommandParseErr(SetOptsIssue::ConflictingGate(Modifier::Xx)));
            }
            acc = SetCommandOpts { xx: Some(true), ..acc };
            i += 1;
        } else {
            return Err(SetCommandParseErr(SetOptsIssue::UnknownToken(i)));
        }
    }
    Ok(acc)
}

/// Clamping to the signed 64-bit range.
pub open spec fn clamp64(x: int) -> int {
    if x > i64::MAX {
        i64::MAX as int
    } else if x < i64::MIN {
        i64::MIN as int
    } else {
        x
    }
}

/// Saturating product with 1000, for seconds-to-milliseconds.
fn sat_mul_1000(a: i64) -> (r: i64)
    ensures
        r as int == clamp64(a * 1000),
{
    match a.checked_mul(1000) {
        Some(x) => x,
        None => {
            if a > 0 {
                i64::MAX
            } else {
                i64::MIN
            }
        },
    }
}

/// Saturating sum.
fn sat_add(a: i64, b: i64) -> (r: i64)
    ensures
        r as int == clamp64(a + b),
{
    match a.checked_add(b) {
        Some(x) => x,
        None => {
            if b > 0 {
                i64::MAX
            } else {
                i64::MIN
            }
        },
    }
}

/// The absolute expiry instant the options stand for, in milliseconds
/// since the epoch, saturated to the 64-bit range: `EX`/`PX` count from
/// `now_ms`; `EXAT`/`PXAT` are absolute.
pub open spec fn spec_expiry_ms(o: SetCommandOpts, now_ms: int) -> Option<int> {
    if o.ex is Some {
        Option::Some(clamp64(now_ms + clamp64(o.ex->0 * 1000)))
    } else if o.px is Some {
        Option::Some(clamp64(now_ms + o.px->0))
    } else if o.exat is Some {
        Option::Some(clamp64(o.exat->0 * 1000))
    } else if o.pxat is Some {
        Option::Some(o.pxat->0 as int)
    } else {
        Option::None
    }
}

/// Normalizes the parsed options to one absolute instant, if any.
pub fn expiry_ms(o: &SetCommandOpts, now_ms: i64) -> (r: Option<i64>)
    ensures
        match r {
            Option::Some(t) => spec_expiry_ms(*o, now_ms as int) == Option::Some(t as int),
            Option::None => spec_expiry_ms(*o, now_ms as int) is None,
        },
{
    match o.ex {
        Some(s) => Some(sat_add(now_ms, sat_mul_1000(s))),
        None => match o.px {
            Some(ms) => Some(sat_add(now_ms, ms)),
            None => match o.exat {
                Some(s) => Some(sat_mul_1000(s)),
                None => match o.pxat {
                    Some(ms) => Some(ms),
                    None => None,
                },
            },
        },
    }
}

/// The reply text for a wrong argument count.
pub open spec fn msg_wrong_args() -> Seq<u8> {
    ascii_bytes("ERR wrong number of arguments"@)
}

/// The reply text for an unknown command name.
pub open spec fn msg_unknown() -> Seq<u8> {
    ascii_bytes("Err Unknown command"@)
}

/// The reply text when a stored value is no integer, or a sum leaves
/// the 64-bit range.
pub open spec fn msg_not_integer() -> Seq<u8> {
    ascii_bytes("ERR value is not an integer or out of range"@)
}

/// The reply text for a `KEYS` pattern the glob rules reject.
pub open spec fn msg_bad_pattern() -> Seq<u8> {
    ascii_bytes("ERR invalid pattern"@)
}

/// The name of a modifier, as it appears in error texts.
pub open spec fn modifier_text(m: Modifier) -> Seq<u8> {
    match m {
        Modifier::Ex => ascii_bytes("EX"@),
        Modifier::Px => ascii_bytes("PX"@),
        Modifier::Exat => ascii_bytes("EXAT"@),
        Modifier::Pxat => ascii_bytes("PXAT"@),
        Modifier::Nx => ascii_bytes("NX"@),
        Modifier::Xx => ascii_bytes("XX"@),
    }
}

/// The detail of a `SET` modifier error, naming the modifier or the
/// offending token. The echoed token rides on the error line, so its
/// `\r` and `\n` bytes are replaced by spaces: the reply must stay one
/// well-formed frame whatever bytes the request carried.
pub open spec fn set_err_text(e: SetCommandParseErr, args: Seq<Seq<u8>>) -> Seq<u8> {
    match e.0 {
        SetOptsIssue::ConflictingExpiry(m) => modifier_text(m) + ascii_bytes(
            " cannot be paired with another expiry modifier"@,
        ),
        SetOptsIssue::ConflictingGate(m) => modifier_text(m) + ascii_bytes(
            " cannot be paired with its opposite"@,
        ),
        SetOptsIssue::MissingValue(m) => ascii_bytes("No value passed for "@) + modifier_text(m),
        SetOptsIssue::InvalidValue(m) => ascii_bytes("Invalid value for "@) + modifier_text(m),
        SetOptsIssue::UnknownToken(i) => ascii_bytes("Invalid modifier: "@) + (if 0 <= i
            < args.len() {
            line_clean(args[i as int])
        } else {
            Seq::empty()
        }),
    }
}

/// The full `SET` syntax-error reply text.
pub open spec fn msg_syntax_err(e: SetCommandParseErr, args: Seq<Seq<u8>>) -> Seq<u8> {
    ascii_bytes("ERR syntax error. "@) + set_err_text(e, args)
}

/// An `ERR wrong number of arguments` reply.
pub fn wrong_args_value() -> (r: Value)
    ensures
        r@ == SpecValue::Error(msg_wrong_args()),
        frame_safe(r@),
{
    proof {
        reveal_strlit("ERR wrong number of arguments");
        assert(is_ascii("ERR wrong number of arguments"));
        lemma_ascii_no_cr("ERR wrong number of arguments");
        lemma_no_cr_line_safe(ascii_bytes("ERR wrong number of arguments"@));
    }
    Value::Error(str_bytes("ERR wrong number of arguments"))
}

/// The `+PONG` reply.
pub fn pong_value() -> (r: Value)
    ensures
        r@ == SpecValue::SimpleString(ascii_bytes("PONG"@)),
        frame_safe(r@),
{
    proof {
        reveal_strlit("PONG");
        assert(is_ascii("PONG"));
        lemma_ascii_no_cr("PONG");
        lemma_no_cr_line_safe(ascii_bytes("PONG"@));
    }
    Value::SimpleString(str_bytes("PONG"))
}

/// The `+OK` reply.
pub fn ok_value() -> (r: Value)
    ensures
        r@ == SpecValue::SimpleString(ascii_bytes("OK"@)),
        frame_safe(r@),
{
    proof {
        reveal_strlit("OK");
        assert(is_ascii("OK"));
        lemma_ascii_no_cr("OK");
        lemma_no_cr_line_safe(ascii_bytes("OK"@));
    }
    Value::SimpleString(str_bytes("OK"))
}

/// The not-an-integer error reply.
pub fn not_integer_value() -> (r: Value)
    ensures
        r@ == SpecValue::Error(msg_not_integer()),
        frame_safe(r@),
{
    proof {
        reveal_strlit("ERR value is not an integer or out of range");
        assert(is_ascii("ERR value is not an integer or out of range"));
        lemma_ascii_no_cr("ERR value is not an integer or out of range");
        lemma_no_cr_line_safe(ascii_bytes("ERR value is not an integer or out of range"@));
    }
    Value::Error(str_bytes("ERR value is not an integer or out of range"))
}

/// The unknown-command error reply.
pub fn unknown_value() -> (r: Value)
    ensures
        r@ == SpecValue::Error(msg_unknown()),
        frame_safe(r@),
{
    proof {
        reveal_strlit("Err Unknown command");
        assert(is_ascii("Err Unknown command"));
        lemma_ascii_no_cr("Err Unknown command");
        lemma_no_cr_line_safe(ascii_bytes("Err Unknown command"@));
    }
    Value::Error(str_bytes("Err Unknown command"))
}

/// The rejected-pattern error reply.
pub fn bad_pattern_value() -> (r: Value)
    ensures
        r@ == SpecValue::Error(msg_bad_pattern()),
        frame_safe(r@),
{
    proof {
        reveal_strlit("ERR invalid pattern");
        assert(is_ascii("ERR invalid pattern"));
        lemma_ascii_no_cr("ERR invalid pattern");
        lemma_no_cr_line_safe(ascii_bytes("ERR invalid pattern"@));
    }
    Value::Error(str_bytes("ERR invalid pattern"))
}

/// No modifier name carries a line terminator.
proof fn lemma_modifier_text_no_cr(m: Modifier)
    ensures
        no_cr(modifier_text(m)),
{
    reveal_strlit("EX");
    reveal_strlit("PX");
    reveal_strlit("EXAT");
    reveal_strlit("PXAT");
    reveal_strlit("NX");
    reveal_strlit("XX");
    match m {
        Modifier::Ex => lemma_ascii_no_cr("EX"),
        Modifier::Px => lemma_ascii_no_cr("PX"),
        Modifier::Exat => lemma_ascii_no_cr("EXAT"),
        Modifier::Pxat => lemma_ascii_no_cr("PXAT"),
        Modifier::Nx => lemma_ascii_no_cr("NX"),
        Modifier::Xx => lemma_ascii_no_cr("XX"),
    }
}

/// No `SET` error detail carries a line terminator: the fixed texts
/// spell none, and the echoed token is cleaned.
proof fn lemma_set_err_text_no_cr(e: SetCommandParseErr, args: Seq<Seq<u8>>)
    ensures
        no_cr(set_err_text(e, args)),
{
    reveal_strlit(" cannot be paired with another expiry modifier");
    reveal_strlit(" cannot be paired with its opposite");
    reveal_strlit("No value passed for ");
    reveal_strlit("Invalid value for ");
    reveal_strlit("Invalid modifier: ");
    match e.0 {
        SetOptsIssue::ConflictingExpiry(m) => {
            lemma_modifier_text_no_cr(m);
            lemma_ascii_no_cr(" cannot be paired with another expiry modifier");
            lemma_no_cr_concat(
                modifier_text(m),
                ascii_bytes(" cannot be paired with another expiry modifier"@),
            );
        },
        SetOptsIssue::ConflictingGate(m) => {
            lemma_modifier_text_no_cr(m);
            lemma_ascii_no_cr(" cannot be paired with its opposite");
            lemma_no_cr_concat(
                modifier_text(m),
                ascii_bytes(" cannot be paired with its opposite"@),
            );
        },
        SetOptsIssue::MissingValue(m) => {
            lemma_modifier_text_no_cr(m);
            lemma_ascii_no_cr("No value passed for ");
            lemma_no_cr_concat(ascii_bytes("No value passed for "@), modifier_text(m));
        },
        SetOptsIssue::InvalidValue(m) => {
            lemma_modifier_text_no_cr(m);
            lemma_ascii_no_cr("Invalid value for ");
            lemma_no_cr_concat(ascii_bytes("Invalid value for "@), modifier_text(m));
        },
        SetOptsIssue::UnknownToken(i) => {
            lemma_ascii_no_cr("Invalid modifier: ");
            if 0 <= i < args.len() {
                lemma_line_clean_no_cr(args[i as int]);
                lemma_no_cr_concat(ascii_bytes("Invalid modifier: "@), line_clean(args[i as int]));
            } else {
                lemma_no_cr_concat(ascii_bytes("Invalid modifier: "@), Seq::empty());
            }
        },
    }
}

/// The name of a modifier as bytes.
fn modifier_bytes(m: Modifier) -> (r: Vec<u8>)
    ensures
        r@ == modifier_text(m),
{
    proof {
        reveal_strlit("EX");
        reveal_strlit("PX");
        reveal_strlit("EXAT");
        reveal_strlit("PXAT");
        reveal_strlit("NX");
        reveal_strlit("XX");
        assert(is_ascii("EX"));
        assert(is_ascii("PX"));
        assert(is_ascii("EXAT"));
        assert(is_ascii("PXAT"));
        assert(is_ascii("NX"));
        assert(is_ascii("XX"));
    }
    match m {
        Modifier::Ex => str_bytes("EX"),
        Modifier::Px => str_bytes("PX"),
        Modifier::Exat => str_bytes("EXAT"),
        Modifier::Pxat => str_bytes("PXAT"),
        Modifier::Nx => str_bytes("NX"),
        Modifier::Xx => str_bytes("XX"),
    }
}

/// The `SET` syntax-error reply, naming what went wrong.
fn set_err_value(e: &SetCommandParseErr, args: &Vec<Vec<u8>>) -> (r: Value)
    ensures
        r@ == SpecValue::Error(msg_syntax_err(*e, views_of(args@))),
        frame_safe(r@),
{
    proof {
        reveal_strlit("ERR syntax error. ");
        reveal_strlit(" cannot be paired with another expiry modifier");
        reveal_strlit(" cannot be paired with its opposite");
        reveal_strlit("No value passed for ");
        reveal_strlit("Invalid value for ");
        reveal_strlit("Invalid modifier: ");
        assert(is_ascii("ERR syntax error. "));
        assert(is_ascii(" cannot be paired with another expiry modifier"));
        assert(is_ascii(" cannot be paired with its opposite"));
        assert(is_ascii("No value passed for "));
        assert(is_ascii("Invalid value for "));
        assert(is_ascii("Invalid modifier: "));
    }
    let mut msg = str_bytes("ERR syntax error. ");
    match e.0 {
        SetOptsIssue::ConflictingExpiry(m) => {
            let t = modifier_bytes(m);
            push_all(&mut msg, t.as_slice());
            let tail = str_bytes(" cannot be paired with another expiry modifier");
            push_all(&mut msg, tail.as_slice());
        },
        SetOptsIssue::ConflictingGate(m) => {
            let t = modifier_bytes(m);
            push_all(&mut msg, t.as_slice());
            let tail = str_bytes(" cannot be paired with its opposite");
            push_all(&mut msg, tail.as_slice());
        },
        SetOptsIssue::MissingValue(m) => {
            let head = str_bytes("No value passed for ");
            push_all(&mut msg, head.as_slice());
            let t = modifier_bytes(m);
            push_all(&mut msg, t.as_slice());
        },
        SetOptsIssue::InvalidValue(m) => {
            let head = str_bytes("Invalid value for ");
            push_all(&mut msg, head.as_slice());
            let t = modifier_bytes(m);
            push_all(&mut msg, t.as_slice());
        },
        SetOptsIssue::UnknownToken(i) => {
            let head = str_bytes("Invalid modifier: ");
            push_all(&mut msg, head.as_slice());
            if i < args.len() {
                let cleaned = to_line_clean(args[i].as_slice());
                push_all(&mut msg, cleaned.as_slice());
                proof {
                    assert(views_of(args@)[i as int] == args@[i as int]@);
                }
            } else {
                proof {
                    assert(msg@ =~= msg@ + Seq::<u8>::empty());
                }
            }
        },
    }
    proof {
        assert(msg@ =~= ascii_bytes("ERR syntax error. "@) + set_err_text(*e, views_of(args@)));
        lemma_ascii_no_cr("ERR syntax error. ");
        lemma_set_err_text_no_cr(*e, views_of(args@));
        lemma_no_cr_concat(
            ascii_bytes("ERR syntax error. "@),
            set_err_text(*e, views_of(args@)),
        );
        lemma_no_cr_line_safe(msg_syntax_err(*e, views_of(args@)));
    }
    Value::Error(msg)
}

/// `PING` leaves the store alone and answers `+PONG`.
pub open spec fn ping_post(m0: StoreModel, m1: StoreModel, r: SpecValue) -> bool {
    m1 == m0 && r == SpecValue::SimpleString(ascii_bytes("PONG"@))
}

/// `ECHO` answers its one argument as a bulk string.
pub open spec fn echo_post(args: Seq<Seq<u8>>, r: SpecValue) -> bool {
    if args.len() == 1 {
        r == SpecValue::BulkString(args[0])
    } else {
        r == SpecValue::Error(msg_wrong_args())
    }
}

/// `GET` answers the live value, `$-1` when absent or expired.
pub open spec fn get_post(
    args: Seq<Seq<u8>>,
    m0: StoreModel,
    m1: StoreModel,
    now: int,
    r: SpecValue,
) -> bool {
    m1 == m0 && if args.len() != 1 {
        r == SpecValue::Error(msg_wrong_args())
    } else {
        match spec_get(m0, args[0], now) {
            Option::Some(v) => r == SpecValue::BulkString(v),
            Option::None => r == SpecValue::Null,
        }
    }
}

/// `SET key value [modifiers]`: a write installs the value and the
/// normalized expiry wholesale; an `NX`/`XX` gate that blocks answers
/// `$-1` and changes nothing; a modifier error answers the syntax error.
pub open spec fn set_post(
    args: Seq<Seq<u8>>,
    m0: StoreModel,
    m1: StoreModel,
    now: int,
    r: SpecValue,
) -> bool {
    if args.len() < 2 {
        m1 == m0 && r == SpecValue::Error(msg_wrong_args())
    } else {
        match spec_parse_set_args(
            args,
            2,
            SetCommandOpts { ex: None, px: None, nx: None, xx: None, exat: None, pxat: None },
        ) {
            Err(e) => m1 == m0 && r == SpecValue::Error(msg_syntax_err(e, args)),
            Ok(o) => {
                let present = spec_get(m0, args[0], now) is Some;
                let allowed = (!(o.nx is Some) || !present) && (!(o.xx is Some) || present);
                if allowed {
                    m1 == m0.insert(args[0], (args[1], spec_expiry_ms(o, now))) && r
                        == SpecValue::SimpleString(ascii_bytes("OK"@))
                } else {
                    m1 == m0 && r == SpecValue::Null
                }
            },
        }
    }
}

/// Deleting the keys in order: each live key is removed and counted;
/// a dead or absent key is removed physically but not counted.
pub open spec fn spec_del_many(m: StoreModel, keys: Seq<Seq<u8>>, now: int) -> (StoreModel, int)
    decreases keys.len(),
{
    if keys.len() == 0 {
        (m, 0)
    } else {
        let hit: int = if spec_get(m, keys[0], now) is Some {
            1
        } else {
            0
        };
        let rest = spec_del_many(m.remove(keys[0]), keys.drop_first(), now);
        (rest.0, hit + rest.1)
    }
}

/// `DEL key...`: answers how many of the named keys were live, each
/// occurrence counted against the store as it then stands.
pub open spec fn del_post(
    args: Seq<Seq<u8>>,
    m0: StoreModel,
    m1: StoreModel,
    now: int,
    r: SpecValue,
) -> bool {
    if args.len() == 0 {
        m1 == m0 && r == SpecValue::Error(msg_wrong_args())
    } else {
        let d = spec_del_many(m0, args, now);
        m1 == d.0 && r == SpecValue::Integer(d.1)
    }
}

/// How many of the named keys are live; duplicates count separately.
pub open spec fn spec_exists_count(m: StoreModel, keys: Seq<Seq<u8>>, now: int) -> int
    decreases keys.len(),
{
    if keys.len() == 0 {
        0
    } else {
        (if spec_get(m, keys[0], now) is Some {
            1int
        } else {
            0int
        }) + spec_exists_count(m, keys.drop_first(), now)
    }
}

/// `EXISTS key...`: counts live presences, duplicates separately.
pub open spec fn exists_post(
    args: Seq<Seq<u8>>,
    m0: StoreModel,
    m1: StoreModel,
    now: int,
    r: SpecValue,
) -> bool {
    m1 == m0 && if args.len() == 0 {
        r == SpecValue::Error(msg_wrong_args())
    } else {
        r == SpecValue::Integer(spec_exists_count(m0, args, now))
    }
}

/// `KEYS pattern`: an array holding exactly the live keys the pattern
/// matches, each once; an empty pattern is a wrong-argument error and a
/// pattern the glob rules reject is reported as such.
pub open spec fn keys_post(
    args: Seq<Seq<u8>>,
    m0: StoreModel,
    m1: StoreModel,
    now: int,
    r: SpecValue,
) -> bool {
    m1 == m0 && if args.len() != 1 || args[0].len() == 0 {
        r == SpecValue::Error(msg_wrong_args())
    } else if !glob_acceptable(args[0]) {
        r == SpecValue::Error(msg_bad_pattern())
    } else {
        &&& r is Array
        &&& (forall|x: int|
            0 <= x < r->Array_0.len() ==> (#[trigger] r->Array_0[x]) is BulkString && spec_get(
                m0,
                r->Array_0[x]->BulkString_0,
                now,
            ) is Some && glob_matches(args[0], r->Array_0[x]->BulkString_0))
        &&& (forall|k: Seq<u8>|
            spec_get(m0, k, now) is Some && glob_matches(args[0], k) ==> exists|x: int|
                0 <= x < r->Array_0.len() && (#[trigger] r->Array_0[x])->BulkString_0 == k)
        &&& (forall|x: int, y: int|
            0 <= x < y < r->Array_0.len() ==> (#[trigger] r->Array_0[x])->BulkString_0 != (
            #[trigger] r->Array_0[y])->BulkString_0)
    }
}

/// `INCR`/`DECR`: an absent or expired key counts as 0; the new value
/// is stored as decimal text, a live key keeping its expiry. A stored
/// value that is no signed 64-bit decimal, or a sum outside that range,
/// answers the integer error and changes nothing.
pub open spec fn incr_post(
    args: Seq<Seq<u8>>,
    m0: StoreModel,
    m1: StoreModel,
    now: int,
    delta: int,
    r: SpecValue,
) -> bool {
    if args.len() != 1 {
        m1 == m0 && r == SpecValue::Error(msg_wrong_args())
    } else {
        let k = args[0];
        let cur = spec_get(m0, k, now);
        let base: Option<i64> = match cur {
            Option::None => Option::Some(0i64),
            Option::Some(b) => spec_parse_i64(b),
        };
        match base {
            Option::None => m1 == m0 && r == SpecValue::Error(msg_not_integer()),
            Option::Some(b) => {
                if i64::MIN <= b + delta <= i64::MAX {
                    &&& m1 == m0.insert(
                        k,
                        (
                            int_bytes(b + delta),
                            (if cur is Some {
                                m0[k].1
                            } else {
                                Option::None
                            }),
                        ),
                    )
                    &&& r == SpecValue::Integer(b + delta)
                } else {
                    m1 == m0 && r == SpecValue::Error(msg_not_integer())
                }
            },
        }
    }
}

/// An unknown command leaves the store alone and reports itself.
pub open spec fn unknown_post(m0: StoreModel, m1: StoreModel, r: SpecValue) -> bool {
    m1 == m0 && r == SpecValue::Error(msg_unknown())
}

/// The one transition a request makes: which reply each command gives,
/// and how the store moves.
pub open spec fn dispatch_post(
    cmd: Command,
    args: Seq<Seq<u8>>,
    m0: StoreModel,
    m1: StoreModel,
    now: int,
    r: SpecValue,
) -> bool {
    &&& frame_safe(r)
    &&& match cmd {
        Command::Ping => ping_post(m0, m1, r),
        Command::Get => get_post(args, m0, m1, now, r),
        Command::Echo => m1 == m0 && echo_post(args, r),
        Command::SetCmd => set_post(args, m0, m1, now, r),
        Command::Keys => keys_post(args, m0, m1, now, r),
        Command::Delete => del_post(args, m0, m1, now, r),
        Command::Exists => exists_post(args, m0, m1, now, r),
        Command::Incr => incr_post(args, m0, m1, now, 1, r),
        Command::Decr => incr_post(args, m0, m1, now, -1, r),
        Command::Unknown => unknown_post(m0, m1, r),
    }
}

/// Answers `ECHO`.
pub fn handle_echo(query: &Query) -> (r: Value)
    ensures
        echo_post(views_of(query.args@), r@),
        frame_safe(r@),
{
    if query.args.len() == 1 {
        let v = vstd::slice::slice_to_vec(query.args[0].as_slice());
        proof {
            assert(views_of(query.args@)[0] == query.args@[0]@);
        }
        Value::BulkString(v)
    } else {
        wrong_args_value()
    }
}

/// Answers `GET`.
pub fn handle_get(query: &Query, db: &DatabaseOps, now_ms: i64) -> (r: Value)
    requires
        db.wf(),
    ensures
        get_post(views_of(query.args@), db@, db@, now_ms as int, r@),
        frame_safe(r@),
{
    if query.args.len() != 1 {
        return wrong_args_value();
    }
    proof {
        assert(views_of(query.args@)[0] == query.args@[0]@);
    }
    match db.get(query.args[0].as_slice(), now_ms) {
        Some(v) => {
            match v {
                DataTypes::Str(b) => Value::BulkString(b),
            }
        },
        None => Value::Null,
    }
}

/// Answers `SET`, the whole gate-and-write against the store in one
/// engine call, so no other mutation can come between check and write.
pub fn handle_set(query: &Query, db: &mut DatabaseOps, now_ms: i64) -> (r: Value)
    requires
        old(db).wf(),
    ensures
        final(db).wf(),
        set_post(views_of(query.args@), old(db)@, final(db)@, now_ms as int, r@),
        frame_safe(r@),
{
    let ghost margs = views_of(query.args@);
    if query.args.len() < 2 {
        return wrong_args_value();
    }
    proof {
        assert(margs[0] == query.args@[0]@);
        assert(margs[1] == query.args@[1]@);
    }
    match parse_set_args(&query.args, 2) {
        Err(e) => set_err_value(&e, &query.args),
        Ok(o) => {
            let exp = expiry_ms(&o, now_ms);
            let key = vstd::slice::slice_to_vec(query.args[0].as_slice());
            let val = DataTypes::Str(vstd::slice::slice_to_vec(query.args[1].as_slice()));
            let written = db.set(key, val, exp, o.nx.is_some(), o.xx.is_some(), now_ms);
            if written {
                ok_value()
            } else {
                Value::Null
            }
        },
    }
}

/// Answers `DEL`.
pub fn handle_delete(query: &Query, db: &mut DatabaseOps, now_ms: i64) -> (r: Value)
    requires
        old(db).wf(),
        query.args@.len() <= i64::MAX,
    ensures
        final(db).wf(),
        del_post(views_of(query.args@), old(db)@, final(db)@, now_ms as int, r@),
        frame_safe(r@),
{
    let ghost margs = views_of(query.args@);
    let ghost m0 = db@;
    if query.args.len() == 0 {
        return wrong_args_value();
    }
    let mut count: i64 = 0;
    let mut i: usize = 0;
    proof {
        assert(margs.skip(0) =~= margs);
    }
    while i < query.args.len()
        invariant
            db.wf(),
            i <= query.args@.len(),
            query.args@.len() <= i64::MAX,
            0 <= count <= i,
            margs == views_of(query.args@),
            margs.len() == query.args@.len(),
            m0 == old(db)@,
            spec_del_many(m0, margs, now_ms as int).0 == spec_del_many(
                db@,
                margs.skip(i as int),
                now_ms as int,
            ).0,
            spec_del_many(m0, margs, now_ms as int).1 == count + spec_del_many(
                db@,
                margs.skip(i as int),
                now_ms as int,
            ).1,
        decreases query.args@.len() - i,
    {
        proof {
            assert(margs[i as int] == query.args@[i as int]@);
            assert(margs.skip(i as int)[0] == margs[i as int]);
            assert(margs.skip(i as int).drop_first() =~= margs.skip(i as int + 1));
        }
        match db.del(query.args[i].as_slice(), now_ms) {
            Some(_) => {
                count = count + 1;
            },
            None => {
            },
        }
        i += 1;
    }
    proof {
        assert(margs.skip(margs.len() as int).len() == 0);
    }
    Value::Integer(count)
}

/// Answers `EXISTS`.
pub fn handle_exists(query: &Query, db: &DatabaseOps, now_ms: i64) -> (r: Value)
    requires
        db.wf(),
        query.args@.len() <= i64::MAX,
    ensures
        exists_post(views_of(query.args@), db@, db@, now_ms as int, r@),
        frame_safe(r@),
{
    let ghost margs = views_of(query.args@);
    if query.args.len() == 0 {
        return wrong_args_value();
    }
    let mut count: i64 = 0;
    let mut i: usize = 0;
    proof {
        assert(margs.skip(0) =~= margs);
    }
    while i < query.args.len()
        invariant
            db.wf(),
            i <= query.args@.len(),
            query.args@.len() <= i64::MAX,
            0 <= count <= i,
            margs == views_of(query.args@),
            margs.len() == query.args@.len(),
            spec_exists_count(db@, margs, now_ms as int) == count + spec_exists_count(
                db@,
                margs.skip(i as int),
                now_ms as int,
            ),
        decreases query.args@.len() - i,
    {
        proof {
            assert(margs[i as int] == query.args@[i as int]@);
            assert(margs.skip(i as int)[0] == margs[i as int]);
            assert(margs.skip(i as int).drop_first() =~= margs.skip(i as int + 1));
        }
        match db.get(query.args[i].as_slice(), now_ms) {
            Some(_) => {
                count = count + 1;
            },
            None => {
            },
        }
        i += 1;
    }
    proof {
        assert(margs.skip(margs.len() as int).len() == 0);
    }
    Value::Integer(count)
}

/// Answers `KEYS`.
#[verifier::rlimit(60)]
pub fn handle_keys(query: &Query, db: &DatabaseOps, now_ms: i64) -> (r: Value)
    requires
        db.wf(),
    ensures
        keys_post(views_of(query.args@), db@, db@, now_ms as int, r@),
        frame_safe(r@),
{
    let ghost margs = views_of(query.args@);
    if query.args.len() != 1 {
        return wrong_args_value();
    }
    proof {
        assert(margs[0] == query.args@[0]@);
    }
    let pattern = query.args[0].as_slice();
    if pattern.len() == 0 {
        return wrong_args_value();
    }
    match glob_match(pattern, pattern) {
        None => {
            return bad_pattern_value();
        },
        Some(_) => {
        },
    }
    let keys = db.keys(now_ms);
    let ghost p = query.args@[0]@;
    let mut out: Vec<Value> = Vec::new();
    let ghost mut w: Seq<int> = Seq::empty();
    let mut i: usize = 0;
    while i < keys.len()
        invariant
            i <= keys@.len(),
            query.args@.len() == 1,
            p == query.args@[0]@,
            pattern@ == p,
            glob_acceptable(p),
            forall|t: int|
                0 <= t < keys@.len() ==> spec_get(db@, (#[trigger] keys@[t])@, now_ms as int)
                    is Some,
            forall|k: Seq<u8>|
                spec_get(db@, k, now_ms as int) is Some ==> exists|t: int|
                    0 <= t < keys@.len() && (#[trigger] keys@[t])@ == k,
            forall|t: int, u: int|
                0 <= t < u < keys@.len() ==> (#[trigger] keys@[t])@ != (#[trigger] keys@[u])@,
            w.len() == out@.len(),
            forall|x: int|
                0 <= x < w.len() ==> 0 <= (#[trigger] w[x]) < i && crate::value::view_list(out@)[x]
                    == SpecValue::BulkString(keys@[w[x]]@) && glob_matches(p, keys@[w[x]]@),
            forall|x: int, y: int| 0 <= x < y < w.len() ==> (#[trigger] w[x]) < (#[trigger] w[y]),
            forall|t: int|
                0 <= t < i && glob_matches(p, (#[trigger] keys@[t])@) ==> exists|x: int|
                    0 <= x < out@.len() && crate::value::view_list(out@)[x]
                        == SpecValue::BulkString(keys@[t]@),
        decreases keys@.len() - i,
    {
        let ghost old_out = out@;
        let ghost old_w = w;
        match glob_match(pattern, keys[i].as_slice()) {
            Some(true) => {
                let item = Value::BulkString(vstd::slice::slice_to_vec(keys[i].as_slice()));
                proof {
                    assert(item@ == SpecValue::BulkString(keys@[i as int]@));
                }
                out.push(item);
                proof {
                    w = old_w.push(i as int);
                    crate::value::lemma_view_list_push(old_out, item);
                    crate::value::lemma_view_list_index(old_out);
                    crate::value::lemma_view_list_index(out@);
                    assert(out@ == old_out.push(item));
                    assert(forall|x: int|
                        0 <= x < old_w.len() ==> w[x] == old_w[x]
                            && crate::value::view_list(out@)[x] == crate::value::view_list(
                            old_out,
                        )[x]);
                    assert(w[w.len() - 1] == i as int);
                    assert(crate::value::view_list(out@)[out@.len() - 1]
                        == SpecValue::BulkString(keys@[i as int]@));
                    assert forall|t: int|
                        0 <= t < i + 1 && glob_matches(
                            p,
                            (#[trigger] keys@[t])@,
                        ) implies exists|x: int|
                        0 <= x < out@.len() && crate::value::view_list(out@)[x]
                            == SpecValue::BulkString(keys@[t]@) by {
                        if t == i as int {
                            assert(crate::value::view_list(out@)[out@.len() - 1]
                                == SpecValue::BulkString(keys@[t]@));
                        } else {
                            let x = choose|x: int|
                                0 <= x < old_out.len() && crate::value::view_list(old_out)[x]
                                    == SpecValue::BulkString(keys@[t]@);
                            assert(crate::value::view_list(out@)[x] == SpecValue::BulkString(
                                keys@[t]@,
                            ));
                        }
                    }
                }
            },
            Some(false) => {
                proof {
                    assert(!glob_matches(p, keys@[i as int]@));
                    assert forall|t: int|
                        0 <= t < i + 1 && glob_matches(
                            p,
                            (#[trigger] keys@[t])@,
                        ) implies exists|x: int|
                        0 <= x < out@.len() && crate::value::view_list(out@)[x]
                            == SpecValue::BulkString(keys@[t]@) by {
                        assert(0 <= t < i);
                    }
                }
            },
            None => {
                proof {
                    assert(false);
                }
            },
        }
        i += 1;
    }
    let r = Value::Array(out);
    proof {
        assert(r@ == SpecValue::Array(crate::value::view_list(out@)));
        crate::value::lemma_view_list_index(out@);
        let items = r@->Array_0;
        assert forall|x: int| 0 <= x < items.len() implies (#[trigger] items[x]) is BulkString
            && spec_get(db@, items[x]->BulkString_0, now_ms as int) is Some && glob_matches(
            p,
            items[x]->BulkString_0,
        ) by {
            assert(items[x] == SpecValue::BulkString(keys@[w[x]]@));
        }
        assert forall|k: Seq<u8>|
            spec_get(db@, k, now_ms as int) is Some && glob_matches(p, k) implies exists|x: int|
            0 <= x < items.len() && (#[trigger] items[x])->BulkString_0 == k by {
            let t = choose|t: int| 0 <= t < keys@.len() && (#[trigger] keys@[t])@ == k;
            assert(glob_matches(p, keys@[t]@));
            let x = choose|x: int|
                0 <= x < out@.len() && crate::value::view_list(out@)[x] == SpecValue::BulkString(
                    keys@[t]@,
                );
            assert(items[x]->BulkString_0 == k);
        }
        assert forall|x: int, y: int| 0 <= x < y < items.len() implies (#[trigger] items[x])
            ->BulkString_0 != (#[trigger] items[y])->BulkString_0 by {
            assert(w[x] != w[y]);
            assert(keys@[w[x]]@ != keys@[w[y]]@);
            assert(items[x] == SpecValue::BulkString(keys@[w[x]]@));
            assert(items[y] == SpecValue::BulkString(keys@[w[y]]@));
        }
        assert forall|x: int| 0 <= x < items.len() implies frame_safe(#[trigger] items[x]) by {
            assert(items[x] == SpecValue::BulkString(keys@[w[x]]@));
        }
    }
    r
}

/// Which way `INCR`/`DECR` steps the counter.
#[derive(Debug, Clone, Copy, PartialEq, Eq, Structural)]
pub enum IncrDecrOpts {
    Incr,
    Decr,
}

/// Answers `INCR` or `DECR`.
pub fn handle_incr_decr(query: &Query, db: &mut DatabaseOps, ops: IncrDecrOpts, now_ms: i64) -> (r:
    Value)
    requires
        old(db).wf(),
    ensures
        final(db).wf(),
        incr_post(
            views_of(query.args@),
            old(db)@,
            final(db)@,
            now_ms as int,
            (if ops is Incr {
                1int
            } else {
                -1int
            }),
            r@,
        ),
        frame_safe(r@),
{
    if query.args.len() != 1 {
        return wrong_args_value();
    }
    proof {
        assert(views_of(query.args@)[0] == query.args@[0]@);
    }
    let delta: i64 = match ops {
        IncrDecrOpts::Incr => 1,
        IncrDecrOpts::Decr => -1,
    };
    match db.incr_by(query.args[0].as_slice(), delta, now_ms) {
        Some(nv) => Value::Integer(nv),
        None => not_integer_value(),
    }
}

impl Command {
    /// Routes one parsed request to its handler and yields the reply.
    pub fn create_response(&self, query: &Query, db: &mut DatabaseOps, now_ms: i64) -> (r: Value)
        requires
            old(db).wf(),
            query.args@.len() <= i64::MAX,
        ensures
            final(db).wf(),
            dispatch_post(
                *self,
                views_of(query.args@),
                old(db)@,
                final(db)@,
                now_ms as int,
                r@,
            ),
    {
        match self {
            Command::Ping => pong_value(),
            Command::Get => handle_get(query, db, now_ms),
            Command::Echo => handle_echo(query),
            Command::SetCmd => handle_set(query, db, now_ms),
            Command::Keys => handle_keys(query, db, now_ms),
            Command::Delete => handle_delete(query, db, now_ms),
            Command::Exists => handle_exists(query, db, now_ms),
            Command::Incr => handle_incr_decr(query, db, IncrDecrOpts::Incr, now_ms),
            Command::Decr => handle_incr_decr(query, db, IncrDecrOpts::Decr, now_ms),
            Command::Unknown => unknown_value(),
        }
    }
}

} // verus!
