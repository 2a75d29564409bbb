//! The command dispatcher: a parsed request (an array of bulk
//! strings) becomes one store operation and one response, plus the
//! expiry the caller must schedule when SET carried a deadline.
use vstd::prelude::*;

use crate::database::Db;
use crate::database::EntryModel;
use crate::database::bytes_eq;
use crate::database::clone_bytes;
use crate::num::dec_val;
use crate::num::is_digits;
use crate::num::parse_u64;
use crate::resp::RespError;
use crate::resp::RespModel;
use crate::resp::RespValue;
use crate::resp::array_model;
use crate::resp::lemma_array_model;
use crate::resp::resp_model;

verus! {

broadcast use vstd::std_specs::vec::group_vec_axioms, vstd::seq::group_seq_axioms;

/// Uppercases one ASCII letter.
pub open spec fn upper_byte(b: u8) -> u8 {
    if 97 <= b <= 122 {
        (b - 32) as u8
    } else {
        b
    }
}

/// ASCII-uppercases a byte string: command names match
/// case-insensitively.
pub open spec fn upper(s: Seq<u8>) -> Seq<u8> {
    s.map_values(|b: u8| upper_byte(b))
}

/// The command name PING.
pub open spec fn cmd_ping() -> Seq<u8> {
    seq![80u8, 73u8, 78u8, 71u8]
}

/// The command name ECHO.
pub open spec fn cmd_echo() -> Seq<u8> {
    seq![69u8, 67u8, 72u8, 79u8]
}

/// The command name GET.
pub open spec fn cmd_get() -> Seq<u8> {
    seq![71u8, 69u8, 84u8]
}

/// The command name SET.
pub open spec fn cmd_set() -> Seq<u8> {
    seq![83u8, 69u8, 84u8]
}

/// The SET option PX, a millisecond expiry.
pub open spec fn opt_px() -> Seq<u8> {
    seq![80u8, 88u8]
}

/// The reply PONG.
pub open spec fn msg_pong() -> Seq<u8> {
    seq![80u8, 79u8, 78u8, 71u8]
}

/// The reply OK.
pub open spec fn msg_ok() -> Seq<u8> {
    seq![79u8, 75u8]
}

/// The reply `ERR unknown command`: an unknown name, a wrong argument
/// count, or a malformed option.
pub open spec fn msg_unknown() -> Seq<u8> {
    seq![
        69u8, 82u8, 82u8, 32u8, 117u8, 110u8, 107u8, 110u8, 111u8, 119u8, 110u8, 32u8, 99u8,
        111u8, 109u8, 109u8, 97u8, 110u8, 100u8,
    ]
}

/// The reply `ERR expiry unavailable`: every expiry token is spent.
pub open spec fn msg_no_expiry() -> Seq<u8> {
    seq![
        69u8, 82u8, 82u8, 32u8, 101u8, 120u8, 112u8, 105u8, 114u8, 121u8, 32u8, 117u8, 110u8,
        97u8, 118u8, 97u8, 105u8, 108u8, 97u8, 98u8, 108u8, 101u8,
    ]
}

/// Every element is a bulk string, as the protocol demands of
/// requests.
pub open spec fn all_bulk(items: Seq<RespModel>) -> bool {
    forall|i: int| 0 <= i < items.len() ==> (#[trigger] items[i]) is Bulk
}

/// What a request asks for.
pub enum Request {
    Ping,
    Echo(Seq<u8>),
    Get(Seq<u8>),
    /// The SET command without an expiry.
    Put(Seq<u8>, Seq<u8>),
    /// The SET command with a PX millisecond expiry.
    PutPx(Seq<u8>, Seq<u8>, u64),
    /// A well-shaped request that no supported command answers: the
    /// client is told so in an error reply and the connection lives on.
    Bad,
    /// Not an array of bulk strings: a protocol violation that ends
    /// the connection.
    Invalid,
}

/// The meaning of the arguments after the name SET.
pub open spec fn parse_set(args: Seq<RespModel>) -> Request {
    if !all_bulk(args) {
        Request::Invalid
    } else if args.len() == 2 {
        Request::Put(args[0]->Bulk_0, args[1]->Bulk_0)
    } else if args.len() == 4 && upper(args[2]->Bulk_0) == opt_px() && is_digits(args[3]->Bulk_0)
        && dec_val(args[3]->Bulk_0) <= u64::MAX {
        Request::PutPx(args[0]->Bulk_0, args[1]->Bulk_0, dec_val(args[3]->Bulk_0) as u64)
    } else {
        Request::Bad
    }
}

/// The meaning of a whole request.
pub open spec fn parse_cmd(m: RespModel) -> Request {
    match m {
        RespModel::Array(items) => {
            if items.len() == 0 || !all_bulk(items) {
                Request::Invalid
            } else {
                let name = upper(items[0]->Bulk_0);
                if name == cmd_ping() {
                    if items.len() == 1 {
                        Request::Ping
                    } else {
                        Request::Bad
                    }
                } else if name == cmd_echo() {
                    if items.len() == 2 {
                        Request::Echo(items[1]->Bulk_0)
                    } else {
                        Request::Bad
                    }
                } else if name == cmd_get() {
                    if items.len() == 2 {
                        Request::Get(items[1]->Bulk_0)
                    } else {
                        Request::Bad
                    }
                } else if name == cmd_set() {
                    parse_set(items.skip(1))
                } else {
                    Request::Bad
                }
            }
        },
        _ => Request::Invalid,
    }
}

/// An expiry the caller must schedule: after `ms` milliseconds, call
/// `Db::expire` with this key and token.
#[derive(Debug)]
pub struct Expiry {
    pub key: Vec<u8>,
    pub token: u64,
    pub ms: u64,
}

/// What dispatching a request does: the store's new state, the reply,
/// and the expiry handed back, pinned down for every kind of request.
pub open spec fn dispatched(
    c: Request,
    pre: Db,
    post: Db,
    r: Result<(RespValue, Option<Expiry>), RespError>,
) -> bool {
    match c {
        Request::Invalid => post == pre && (r matches Err(e) && e is WrongKind),
        Request::Bad => post == pre && (r matches Ok(p) && p.1 is None && resp_model(p.0)
            == RespModel::Error(msg_unknown())),
        Request::Ping => post == pre && (r matches Ok(p) && p.1 is None && resp_model(p.0)
            == RespModel::Simple(msg_pong())),
        Request::Echo(x) => post == pre && (r matches Ok(p) && p.1 is None && resp_model(p.0)
            == RespModel::Bulk(x)),
        Request::Get(k) => post == pre && (r matches Ok(p) && p.1 is None && resp_model(p.0) == (
        if pre@.contains_key(k) {
            RespModel::Simple(pre@[k].value)
        } else {
            RespModel::Null
        })),
        Request::Put(k, v) => (r matches Ok(p) && p.1 is None && resp_model(p.0)
            == RespModel::Simple(msg_ok())) && post@ == pre@.insert(
            k,
            EntryModel { value: v, timeout_token: None::<u64> },
        ),
        Request::PutPx(k, v, ms) => {
            if pre.tokens_exhausted() {
                post == pre && (r matches Ok(p) && p.1 is None && resp_model(p.0)
                    == RespModel::Error(msg_no_expiry()))
            } else {
                r matches Ok(p) && (p.1 matches Some(x) && x.key@ == k && x.ms == ms
                    && resp_model(p.0) == RespModel::Simple(msg_ok()) && post@ == pre@.insert(
                    k,
                    EntryModel { value: v, timeout_token: Some(x.token) },
                ) && (forall|k2: Seq<u8>| k2 != k && pre@.contains_key(k2)
                    ==> (#[trigger] pre@[k2]).timeout_token != Some(x.token)))
            }
        },
    }
}

/// Builds PING.
fn word_ping() -> (r: Vec<u8>)
    ensures
        r@ == cmd_ping(),
{
    let mut v: Vec<u8> = Vec::new();
    v.push(80);
    v.push(73);
    v.push(78);
    v.push(71);
    proof {
        assert(v@ =~= cmd_ping());
    }
    v
}

/// Builds ECHO.
fn word_echo() -> (r: Vec<u8>)
    ensures
        r@ == cmd_echo(),
{
    let mut v: Vec<u8> = Vec::new();
    v.push(69);
    v.push(67);
    v.push(72);
    v.push(79);
    proof {
        assert(v@ =~= cmd_echo());
    }
    v
}

/// Builds GET.
fn word_get() -> (r: Vec<u8>)
    ensures
        r@ == cmd_get(),
{
    let mut v: Vec<u8> = Vec::new();
    v.push(71);
    v.push(69);
    v.push(84);
    proof {
        assert(v@ =~= cmd_get());
    }
    v
}

/// Builds SET.
fn word_set() -> (r: Vec<u8>)
    ensures
        r@ == cmd_set(),
{
    let mut v: Vec<u8> = Vec::new();
    v.push(83);
    v.push(69);
    v.push(84);
    proof {
        assert(v@ =~= cmd_set());
    }
    v
}

/// Builds PX.
fn word_px() -> (r: Vec<u8>)
    ensures
        r@ == opt_px(),
{
    let mut v: Vec<u8> = Vec::new();
    v.push(80);
    v.push(88);
    proof {
        assert(v@ =~= opt_px());
    }
    v
}

/// Builds PONG.
fn word_pong() -> (r: Vec<u8>)
    ensures
        r@ == msg_pong(),
{
    let mut v: Vec<u8> = Vec::new();
    v.push(80);
    v.push(79);
    v.push(78);
    v.push(71);
    proof {
        assert(v@ =~= msg_pong());
    }
    v
}

/// Builds OK.
fn word_ok() -> (r: Vec<u8>)
    ensures
        r@ == msg_ok(),
{
    let mut v: Vec<u8> = Vec::new();
    v.push(79);
    v.push(75);
    proof {
        assert(v@ =~= msg_ok());
    }
    v
}

/// Builds `ERR unknown command`.
fn unknown_reply() -> (r: Vec<u8>)
    ensures
        r@ == msg_unknown(),
{
    let mut v: Vec<u8> = Vec::new();
    v.push(69);
    v.push(82);
    v.push(82);
    v.push(32);
    v.push(117);
    v.push(110);
    v.push(107);
    v.push(110);
    v.push(111);
    v.push(119);
    v.push(110);
    v.push(32);
    v.push(99);
    v.push(111);
    v.push(109);
    v.push(109);
    v.push(97);
    v.push(110);
    v.push(100);
    proof {
        assert(v@ =~= msg_unknown());
    }
    v
}

/// Builds `ERR expiry unavailable`.
fn no_expiry_reply() -> (r: Vec<u8>)
    ensures
        r@ == msg_no_expiry(),
{
    let mut v: Vec<u8> = Vec::new();
    v.push(69);
    v.push(82);
    v.push(82);
    v.push(32);
    v.push(101);
    v.push(120);
    v.push(112);
    v.push(105);
    v.push(114);
    v.push(121);
    v.push(32);
    v.push(117);
    v.push(110);
    v.push(97);
    v.push(118);
    v.push(97);
    v.push(105);
    v.push(108);
    v.push(97);
    v.push(98);
    v.push(108);
    v.push(101);
    proof {
        assert(v@ =~= msg_no_expiry());
    }
    v
}

/// ASCII-uppercases a byte string.
fn to_upper(s: &Vec<u8>) -> (r: Vec<u8>)
    ensures
        r@ == upper(s@),
{
    let mut out: Vec<u8> = Vec::new();
    let mut i: usize = 0;
    while i < s.len()
        invariant
            0 <= i <= s@.len(),
            out@.len() == i,
            forall|j: int| 0 <= j < i ==> out@[j] == upper_byte(s@[j]),
        decreases s@.len() - i,
    {
        let b = s[i];
        if 97 <= b && b <= 122 {
            out.push(b - 32);
        } else {
            out.push(b);
        }
        i = i + 1;
    }
    proof {
        assert(out@ =~= upper(s@));
    }
    out
}

/// Handles the arguments of SET: key and value, optionally followed by
/// `PX <milliseconds>`; installs the entry and reports the expiry to
/// schedule, if any.
pub fn handle_set_command(args: Vec<RespValue>, db: &mut Db) -> (r: Result<
    (RespValue, Option<Expiry>),
    RespError,
>)
    requires
        old(db).wf(),
    ensures
        final(db).wf(),
        dispatched(parse_set(array_model(args@)), *old(db), *final(db), r),
{
    let ghost models = array_model(args@);
    let mut j: usize = 0;
    while j < args.len()
        invariant
            old(db).wf(),
            *db == *old(db),
            models == array_model(args@),
            0 <= j <= args@.len(),
            forall|i: int| 0 <= i < j ==> (#[trigger] models[i]) is Bulk,
        decreases args@.len() - j,
    {
        match &args[j] {
            RespValue::Bulk(_) => {},
            other => {
                proof {
                    assert(!(array_model(args@)[j as int] is Bulk));
                    assert(!all_bulk(array_model(args@)));
                }
                return Err(RespError::WrongKind { expected: "bulk string", got: other.kind() });
            },
        }
        j = j + 1;
    }
    if args.len() == 2 {
        match (&args[0], &args[1]) {
            (RespValue::Bulk(k), RespValue::Bulk(v)) => {
                let _prev = db.set(clone_bytes(k), clone_bytes(v));
                Ok((RespValue::Simple(word_ok()), None))
            },
            _ => unreached(),
        }
    } else if args.len() == 4 {
        match (&args[0], &args[1], &args[2], &args[3]) {
            (
                RespValue::Bulk(k),
                RespValue::Bulk(v),
                RespValue::Bulk(w),
                RespValue::Bulk(msv),
            ) => {
                let wu = to_upper(w);
                if !bytes_eq(&wu, &word_px()) {
                    return Ok((RespValue::Error(unknown_reply()), None));
                }
                match parse_u64(msv) {
                    None => Ok((RespValue::Error(unknown_reply()), None)),
                    Some(ms) => {
                        match db.set_px(clone_bytes(k), clone_bytes(v)) {
                            None => Ok((RespValue::Error(no_expiry_reply()), None)),
                            Some((_prev, tok)) => Ok(
                                (
                                    RespValue::Simple(word_ok()),
                                    Some(Expiry { key: clone_bytes(k), token: tok, ms }),
                                ),
                            ),
                        }
                    },
                }
            },
            _ => unreached(),
        }
    } else {
        Ok((RespValue::Error(unknown_reply()), None))
    }
}

/// Dispatches one decoded request against the store. The reply is
/// always a single value; a request that is not an array of bulk
/// strings is refused as a protocol violation instead.
pub fn handle_command(req: RespValue, db: &mut Db) -> (r: Result<
    (RespValue, Option<Expiry>),
    RespError,
>)
    requires
        old(db).wf(),
    ensures
        final(db).wf(),
        dispatched(parse_cmd(resp_model(req)), *old(db), *final(db), r),
{
    let ghost m = resp_model(req);
    let mut items = match req {
        RespValue::Array(v) => v,
        other => {
            return Err(RespError::WrongKind { expected: "array", got: other.kind() });
        },
    };
    proof {
        lemma_array_model(items@);
        assert(m == RespModel::Array(array_model(items@)));
    }
    let ghost models = array_model(items@);
    if items.len() == 0 {
        return Err(RespError::WrongKind { expected: "bulk string", got: "array" });
    }
    let mut j: usize = 0;
    while j < items.len()
        invariant
            old(db).wf(),
            *db == *old(db),
            m == resp_model(req),
            m == RespModel::Array(models),
            models == array_model(items@),
            0 < items@.len(),
            0 <= j <= items@.len(),
            forall|i: int| 0 <= i < j ==> (#[trigger] models[i]) is Bulk,
        decreases items@.len() - j,
    {
        match &items[j] {
            RespValue::Bulk(_) => {},
            other => {
                proof {
                    assert(!(models[j as int] is Bulk));
                    assert(!all_bulk(models));
                }
                return Err(RespError::WrongKind { expected: "bulk string", got: other.kind() });
            },
        }
        j = j + 1;
    }
    let up = match &items[0] {
        RespValue::Bulk(name) => to_upper(name),
        _ => unreached(),
    };
    if bytes_eq(&up, &word_ping()) {
        if items.len() == 1 {
            Ok((RespValue::Simple(word_pong()), None))
        } else {
            Ok((RespValue::Error(unknown_reply()), None))
        }
    } else if bytes_eq(&up, &word_echo()) {
        if items.len() == 2 {
            match &items[1] {
                RespValue::Bulk(x) => Ok((RespValue::Bulk(clone_bytes(x)), None)),
                _ => unreached(),
            }
        } else {
            Ok((RespValue::Error(unknown_reply()), None))
        }
    } else if bytes_eq(&up, &word_get()) {
        if items.len() == 2 {
            match &items[1] {
                RespValue::Bulk(key) => {
                    match db.get(key) {
                        Some(v) => Ok((RespValue::Simple(v), None)),
                        None => Ok((RespValue::Null, None)),
                    }
                },
                _ => unreached(),
            }
        } else {
            Ok((RespValue::Error(unknown_reply()), None))
        }
    } else if bytes_eq(&up, &word_set()) {
        let ghost pre_items = items@;
        items.remove(0);
        proof {
            assert(items@ =~= pre_items.skip(1));
            assert forall|i: int| 0 <= i < items@.len() implies array_model(items@)[i]
                == models.skip(1)[i] by {
                assert(items@[i] == pre_items[i + 1]);
            }
            assert(array_model(items@) =~= models.skip(1));
        }
        handle_set_command(items, db)
    } else {
        Ok((RespValue::Error(unknown_reply()), None))
    }
}

} // verus!
