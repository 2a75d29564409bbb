//! The per-connection decision step: what to do with the bytes read so
//! far. The caller loops: it reads into the buffer when more data is
//! needed, writes the reply and schedules the expiry when one request
//! was answered, and closes the connection on a protocol violation.
use vstd::prelude::*;
use bytes::BytesMut;

use crate::buffer::bm_bytes;
use crate::command::Expiry;
use crate::command::dispatched;
use crate::command::handle_command;
use crate::command::parse_cmd;
use crate::database::Db;
use crate::decode::Parsed;
use crate::decode::spec_decode;
use crate::resp::RespError;
use crate::resp::RespValue;

verus! {

/// What the connection loop must do next.
pub enum ConnAction {
    /// One whole request was decoded and answered: write the reply
    /// fully, and schedule the expiry if one is handed back.
    Reply(RespValue, Option<Expiry>),
    /// The buffer holds no whole message yet: read more bytes into it
    /// and step again.
    NeedMore,
    /// A protocol violation: close the connection. The store is left
    /// exactly as it was — one bad client harms no other.
    Close,
}

/// Decodes at most one request from the buffer and dispatches it
/// against the store.
pub fn connection_step(data: &mut BytesMut, db: &mut Db) -> (r: ConnAction)
    requires
        old(db).wf(),
    ensures
        final(db).wf(),
        r is NeedMore ==> spec_decode(bm_bytes(*old(data))) is Incomplete && bm_bytes(
            *final(data),
        ) == bm_bytes(*old(data)) && *final(db) == *old(db),
        r matches ConnAction::Reply(resp, ex) ==> (spec_decode(bm_bytes(*old(data)))
            matches Parsed::Value { v: m, used } && bm_bytes(*final(data)) == bm_bytes(
            *old(data),
        ).skip(used) && !(parse_cmd(m) is Invalid) && dispatched(
            parse_cmd(m),
            *old(db),
            *final(db),
            Ok((resp, ex)),
        )),
        r is Close ==> *final(db) == *old(db) && (spec_decode(bm_bytes(*old(data))) is Malformed
            || (spec_decode(bm_bytes(*old(data))) matches Parsed::Value { v: m, .. }
            && parse_cmd(m) is Invalid)),
{
    match RespValue::try_from_bytes(data) {
        Ok(v) => {
            match handle_command(v, db) {
                Ok((resp, ex)) => ConnAction::Reply(resp, ex),
                Err(_) => ConnAction::Close,
            }
        },
        Err(e) => {
            match e {
                RespError::Incomplete => ConnAction::NeedMore,
                _ => ConnAction::Close,
            }
        },
    }
}

} // verus!
