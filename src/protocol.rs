//! The wire protocol: one encoded command per connection, one reply.
//!
//! The server replies with nothing to a successful `Set` or `Rm`, with the
//! value's bytes to a `Get` of a bound key, and with `Key not found` to a
//! `Get` or an `Rm` of an unbound key.
use vstd::prelude::*;
use vstd::utf8::{decode_utf8, encode_utf8, valid_utf8};
use crate::codec::{decode, decode_body, Command, Record, NEWLINE};
use crate::engine::KvsEngine;
use crate::errors::{ErrKeyNotFound, KvsError};
use crate::codec::utf8_to_string;

verus! {

/// `Key not found`
pub open spec fn key_not_found_text() -> Seq<u8> {
    seq![75u8, 101u8, 121u8, 32u8, 110u8, 111u8, 116u8, 32u8, 102u8, 111u8, 117u8, 110u8, 100u8]
}

/// The reply to a `Get` or `Rm` of an unbound key: `Key not found`.
pub fn key_not_found() -> (r: Vec<u8>)
    ensures
        r@ == key_not_found_text(),
{
    vec![75u8, 101u8, 121u8, 32u8, 110u8, 111u8, 116u8, 32u8, 102u8, 111u8, 117u8, 110u8, 100u8]
}

/// A request's record body: the payload without the line feed that ends it.
pub open spec fn request_body(p: Seq<u8>) -> Seq<u8> {
    if p.len() > 0 && p.last() == NEWLINE {
        p.drop_last()
    } else {
        p
    }
}

/// Serves one request against an engine and returns the reply's bytes.
/// A request that does not decode fails with `Decode` and changes nothing;
/// an engine failure on I/O is passed on.
pub fn handle_request<E: KvsEngine>(engine: &mut E, request: &[u8]) -> (r: Result<Vec<u8>, KvsError>)
    requires
        old(engine).ready(),
    ensures
        final(engine).ready(),
        old(engine).infallible() && decode_body(request_body(request@)) is Some ==> r is Ok,
        match decode_body(request_body(request@)) {
            None => r == Err::<Vec<u8>, KvsError>(KvsError::Decode)
                && final(engine).contents() == old(engine).contents(),
            Some(Record::Get(k)) => final(engine).contents() == old(engine).contents() && match r {
                Ok(reply) => reply@ == if old(engine).contents().contains_key(k) {
                    encode_utf8(old(engine).contents()[k])
                } else {
                    key_not_found_text()
                },
                Err(e) => e is Io,
            },
            Some(Record::Put(k, v)) => match r {
                Ok(reply) => reply@.len() == 0 && final(engine).contents() == old(
                    engine,
                ).contents().insert(k, v),
                Err(e) => e is Io && final(engine).contents() == old(engine).contents(),
            },
            Some(Record::Rm(k)) => {
                &&& !old(engine).contents().contains_key(k) ==> (r matches Ok(reply) && reply@
                    == key_not_found_text() && final(engine).contents() == old(engine).contents())
                &&& old(engine).contents().contains_key(k) ==> match r {
                    Ok(reply) => reply@.len() == 0 && final(engine).contents() == old(
                        engine,
                    ).contents().remove(k),
                    Err(e) => e is Io && final(engine).contents() == old(engine).contents(),
                }
            },
        },
{
    let n = request.len();
    let body = if n > 0 && request[n - 1] == NEWLINE {
        &request[0..n - 1]
    } else {
        request
    };
    proof {
        if n > 0 && request@[n - 1] == NEWLINE {
            assert(body@ =~= request@.drop_last());
        }
    }
    match decode(body) {
        Err(_) => Err(KvsError::Decode),
        Ok(Command::Get { key }) => get_reply(engine.get(key)),
        Ok(Command::Put { key, value }) => set_reply(engine.set(key, value)),
        Ok(Command::Rm { key }) => rm_reply(engine.remove(key)),
    }
}

/// The reply to a `Get`, from what the engine answered: the value's bytes,
/// `Key not found`, or the engine's error.
pub fn get_reply(found: Result<Option<String>, KvsError>) -> (r: Result<Vec<u8>, KvsError>)
    ensures
        match found {
            Ok(Some(v)) => r matches Ok(reply) && reply@ == encode_utf8(v@),
            Ok(None) => r matches Ok(reply) && reply@ == key_not_found_text(),
            Err(e) => r == Err::<Vec<u8>, KvsError>(e),
        },
{
    match found {
        Ok(Some(value)) => {
            let mut out: Vec<u8> = Vec::new();
            out.extend_from_slice(value.as_str().as_bytes());
            proof {
                assert(out@ =~= encode_utf8(value@));
            }
            Ok(out)
        },
        Ok(None) => Ok(key_not_found()),
        Err(e) => Err(e),
    }
}

/// The reply to a `Set`, from what the engine answered: nothing, or the
/// engine's error.
pub fn set_reply(done: Result<(), KvsError>) -> (r: Result<Vec<u8>, KvsError>)
    ensures
        match done {
            Ok(()) => r matches Ok(reply) && reply@.len() == 0,
            Err(e) => r == Err::<Vec<u8>, KvsError>(e),
        },
{
    match done {
        Ok(()) => Ok(Vec::new()),
        Err(e) => Err(e),
    }
}

/// The reply to an `Rm`, from what the engine answered: nothing, `Key not
/// found` where the key was not bound, or the engine's other error.
pub fn rm_reply(done: Result<(), KvsError>) -> (r: Result<Vec<u8>, KvsError>)
    ensures
        match done {
            Ok(()) => r matches Ok(reply) && reply@.len() == 0,
            Err(KvsError::KeyNotFound(_)) => r matches Ok(reply) && reply@ == key_not_found_text(),
            Err(e) => r == Err::<Vec<u8>, KvsError>(e),
        },
{
    match done {
        Ok(()) => Ok(Vec::new()),
        Err(KvsError::KeyNotFound(_)) => Ok(key_not_found()),
        Err(e) => Err(e),
    }
}

/// How far a request has been received.
#[derive(Debug, Clone, Copy, PartialEq, Eq, Structural)]
pub enum Framing {
    /// More bytes may follow: keep reading.
    Incomplete,
    /// The request is whole: it holds its line feed, or the peer closed.
    Complete,
    /// The request is longer than the server accepts: reject the connection.
    TooLarge,
}

/// Whether the bytes received so far make a whole request. A request ends at
/// its line feed or where the peer stops sending; one longer than `max_len`
/// bytes is rejected.
pub fn frame_request(received: &[u8], peer_closed: bool, max_len: usize) -> (r: Framing)
    ensures
        received@.len() > max_len ==> r == Framing::TooLarge,
        received@.len() <= max_len ==> (r == Framing::Complete <==> (peer_closed
            || received@.contains(NEWLINE))),
        received@.len() <= max_len ==> r != Framing::TooLarge,
{
    if received.len() > max_len {
        return Framing::TooLarge;
    }
    if peer_closed {
        return Framing::Complete;
    }
    let mut i: usize = 0;
    while i < received.len()
        invariant
            i <= received@.len() <= max_len,
            !peer_closed,
            forall|t: int| 0 <= t < i ==> received@[t] != NEWLINE,
        decreases received@.len() - i,
    {
        if received[i] == NEWLINE {
            proof {
                assert(received@[i as int] == NEWLINE);
            }
            return Framing::Complete;
        }
        i = i + 1;
    }
    Framing::Incomplete
}

/// What a client makes of the server's reply to its command: the text to
/// show for a `Get`, nothing for a `Set`, and for an `Rm` an error where the
/// server did not find the key.
pub fn reply_outcome(cmd: &Command, reply: Vec<u8>) -> (r: Result<Option<String>, KvsError>)
    ensures
        match cmd@ {
            Record::Get(_) => if valid_utf8(reply@) {
                r matches Ok(Some(s)) && s@ == decode_utf8(reply@)
            } else {
                r == Err::<Option<String>, KvsError>(KvsError::Decode)
            },
            Record::Put(_, _) => r == Ok::<Option<String>, KvsError>(None),
            Record::Rm(k) => if reply@.len() == 0 {
                r == Ok::<Option<String>, KvsError>(None)
            } else {
                r matches Err(KvsError::KeyNotFound(e)) && e.key@ == k
            },
        },
{
    match cmd {
        Command::Get { key: _ } => match utf8_to_string(reply) {
            Some(s) => Ok(Some(s)),
            None => Err(KvsError::Decode),
        },
        Command::Put { key: _, value: _ } => Ok(None),
        Command::Rm { key } => {
            if reply.len() == 0 {
                Ok(None)
            } else {
                Err(KvsError::KeyNotFound(ErrKeyNotFound { key: key.clone() }))
            }
        },
    }
}

} // verus!
