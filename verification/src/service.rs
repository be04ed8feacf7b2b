//! What the service answers to a read and to a write, decided from plain
//! values: the store or its absence, the body or its failure, and whether
//! the bytes of a record were kept.

use crate::files::{lemma_total_len_take, total_len, Log, State, Written};
use crate::links::Link;
use crate::query::{holds, querify, querified};
use crate::uri::Target;
use vstd::prelude::*;

verus! {

/// The largest body a write may carry, in bytes.
pub const MAX_SIZE: usize = 262_144_000;

/// Why no body came out of a request.
#[derive(Debug, Clone, Copy, PartialEq, Eq, Structural)]
pub enum PayloadError {
    /// The body is larger than `MAX_SIZE`.
    Overflow,
    /// The body broke off before its end.
    Broken,
}

/// Adds one chunk to a body under assembly, unless that takes the body
/// past `MAX_SIZE`.
pub fn take_chunk(body: &mut Vec<u8>, chunk: &[u8]) -> (r: Result<(), PayloadError>)
    ensures
        match r {
            Ok(_) => {
                &&& old(body)@.len() + chunk@.len() <= MAX_SIZE
                &&& final(body)@ == old(body)@ + chunk@
            },
            Err(e) => {
                &&& e == PayloadError::Overflow
                &&& old(body)@.len() + chunk@.len() > MAX_SIZE
                &&& final(body)@ == old(body)@
            },
        },
{
    if chunk.len() > MAX_SIZE || body.len() > MAX_SIZE - chunk.len() {
        return Err(PayloadError::Overflow);
    }
    body.extend_from_slice(chunk);
    Ok(())
}

/// The body that a list of chunks makes up: the chunks end to end, or an
/// overflow where together they are longer than `MAX_SIZE`.
pub open spec fn extracted(chunks: Seq<Seq<u8>>) -> Result<Seq<u8>, PayloadError> {
    if total_len(chunks) <= MAX_SIZE {
        Ok(chunks.flatten())
    } else {
        Err(PayloadError::Overflow)
    }
}

/// Assembles a body from its chunks.
pub fn extract_payload(chunks: &Vec<Vec<u8>>) -> (r: Result<Vec<u8>, PayloadError>)
    ensures
        match r {
            Ok(body) => {
                &&& extracted(chunks.deep_view()) == Ok::<Seq<u8>, PayloadError>(body@)
                &&& body@.len() <= MAX_SIZE
            },
            Err(e) => extracted(chunks.deep_view()) == Err::<Seq<u8>, PayloadError>(e),
        },
{
    let mut body: Vec<u8> = Vec::new();
    let ghost all = chunks.deep_view();
    let mut i: usize = 0;
    assert(all.take(0) =~= Seq::empty());
    assert(body@ =~= all.take(0).flatten());
    while i < chunks.len()
        invariant
            i <= chunks.len(),
            all == chunks.deep_view(),
            body@ == all.take(i as int).flatten(),
            body@.len() == total_len(all.take(i as int)),
            body@.len() <= MAX_SIZE,
        decreases chunks.len() - i,
    {
        assert(all[i as int] == chunks@[i as int]@);
        assert(all.take(i as int + 1) =~= all.take(i as int).push(all[i as int]));
        assert(all.take(i as int + 1).drop_last() =~= all.take(i as int));
        proof {
            all.take(i as int).lemma_flatten_push(all[i as int]);
        }
        match take_chunk(&mut body, chunks[i].as_slice()) {
            Ok(_) => {},
            Err(e) => {
                proof {
                    lemma_total_len_take(all, i as int + 1);
                }
                return Err(e);
            },
        }
        i += 1;
    }
    assert(all.take(i as int) =~= all);
    Ok(body)
}

/// What the service answers.
#[derive(Debug)]
pub enum Reply {
    /// Success: the bytes of a record, and the value of the `Link` header
    /// where one could be made.
    Record { body: Vec<u8>, link: Option<String> },
    /// Success: what an append reported.
    Written(Written),
    /// The body of a write could not be taken in.
    BadRequest,
    /// The store gave no record, or took none, or the record could not
    /// be kept.
    NotFound,
    /// The store could not be had.
    LockFailed,
}

impl Reply {
    /// The status code that goes with a reply.
    pub open spec fn code(self) -> u16 {
        match self {
            Reply::Record { .. } => 200,
            Reply::Written(_) => 200,
            Reply::BadRequest => 400,
            Reply::NotFound => 404,
            Reply::LockFailed => 500,
        }
    }

    /// The status code to answer with.
    pub fn status(&self) -> (code: u16)
        ensures
            code == self.code(),
    {
        match self {
            Reply::Record { .. } => 200,
            Reply::Written(_) => 200,
            Reply::BadRequest => 400,
            Reply::NotFound => 404,
            Reply::LockFailed => 500,
        }
    }
}

/// Answers a read of the record filed under `index`, asked for at `uri`.
/// `store` is `None` where the store could not be had. From the count of
/// records on the answer is not found; a well-formed store answers with a
/// record for every number below it.
pub fn read_msg(store: Option<&mut State>, index: u64, uri: &Target) -> (reply: Reply)
    ensures
        match store {
            None => reply is LockFailed,
            Some(st) => {
                &&& *final(st) == *st
                &&& match st@.fetch(index as nat) {
                    None => reply is NotFound,
                    Some((bytes, entry)) => {
                        &&& reply matches Reply::Record { body, link }
                        &&& body@ == bytes
                        &&& link.deep_view() == (Link {
                            current: entry.index,
                            last: st@.index as u64,
                        }).header_text(*uri)
                    },
                }
                &&& index >= st@.index ==> reply is NotFound
                &&& st@.wf() && index < st@.index ==> reply is Record
            },
        },
{
    match store {
        None => Reply::LockFailed,
        Some(st) => match st.read(index) {
            Ok((body, entry)) => {
                let link = Link::new(entry.index, st.last()).header(uri);
                Reply::Record { body, link }
            },
            Err(_) => Reply::NotFound,
        },
    }
}

/// A body, or the reason why there is none, with the body as a sequence.
pub open spec fn body_of(payload: Result<Vec<u8>, PayloadError>) -> Result<Seq<u8>, PayloadError> {
    match payload {
        Ok(body) => Ok(body@),
        Err(e) => Err(e),
    }
}

/// Whether a write goes into the store: there is a body within the cap,
/// the store takes it, and its bytes were kept.
pub open spec fn goes_in(log: Log, payload: Result<Seq<u8>, PayloadError>, kept: bool) -> bool {
    payload matches Ok(body) && body.len() <= MAX_SIZE && log.takes(body.len()) && kept
}

/// The store after a write was answered: with the body appended where it
/// goes in, else as it was.
pub open spec fn written_to(log: Log, payload: Result<Seq<u8>, PayloadError>, kept: bool) -> Log {
    if goes_in(log, payload, kept) {
        log.append(payload->Ok_0)
    } else {
        log
    }
}

/// The answer to a write. No body, or one beyond the cap, is a bad
/// request, whatever the store; a store that could not be had is a failed
/// lock; a body that goes in is reported with its size and sequence number;
/// one that the store does not take, or whose bytes were not kept, is
/// answered as not found.
pub open spec fn write_reply(
    store: Option<Log>,
    payload: Result<Seq<u8>, PayloadError>,
    kept: bool,
) -> Reply {
    match (payload, store) {
        (Err(_), _) => Reply::BadRequest,
        (Ok(body), None) => if body.len() > MAX_SIZE {
            Reply::BadRequest
        } else {
            Reply::LockFailed
        },
        (Ok(body), Some(log)) => if body.len() > MAX_SIZE {
            Reply::BadRequest
        } else if goes_in(log, payload, kept) {
            Reply::Written(Written { size: body.len() as usize, index: log.index as u64 })
        } else {
            Reply::NotFound
        },
    }
}

/// A write whose chunks together exceed `MAX_SIZE` is answered as a bad
/// request and leaves both streams of the store as they were.
pub proof fn lemma_oversized_write(log: Log, chunks: Seq<Seq<u8>>, kept: bool)
    requires
        total_len(chunks) > MAX_SIZE,
    ensures
        write_reply(Some(log), extracted(chunks), kept) == Reply::BadRequest,
        write_reply(None, extracted(chunks), kept) == Reply::BadRequest,
        written_to(log, extracted(chunks), kept) == log,
{
}

/// So is a write whose body exceeds `MAX_SIZE`, however the body came
/// about.
pub proof fn lemma_oversized_body(log: Log, body: Seq<u8>, kept: bool)
    requires
        body.len() > MAX_SIZE,
    ensures
        write_reply(Some(log), Ok(body), kept) == Reply::BadRequest,
        write_reply(None, Ok(body), kept) == Reply::BadRequest,
        written_to(log, Ok(body), kept) == log,
{
}

/// Answers a write. `payload` is the body, or the reason why there is
/// none; `store` is `None` where the store could not be had; `kept` says
/// whether the bytes of the record were put where they are to stay, which
/// is asked only of a body that the store takes. The store advances only
/// where the write is answered as written.
pub fn write_msg(
    store: Option<&mut State>,
    payload: Result<Vec<u8>, PayloadError>,
    kept: bool,
) -> (reply: Reply)
    ensures
        match store {
            Some(st) => {
                &&& reply == write_reply(Some(st@), body_of(payload), kept)
                &&& final(st)@ == written_to(st@, body_of(payload), kept)
                &&& st@.wf() ==> final(st)@.wf()
                &&& reply is Written ==> final(st)@.fetch(st@.index) == Some(
                    (payload->Ok_0@, st@.next_entry(payload->Ok_0@.len())),
                )
            },
            None => reply == write_reply(None, body_of(payload), kept),
        },
{
    let body = match payload {
        Ok(body) => body,
        Err(_) => {
            return Reply::BadRequest;
        },
    };
    if body.len() > MAX_SIZE {
        return Reply::BadRequest;
    }
    match store {
        None => Reply::LockFailed,
        Some(st) => {
            if !kept {
                return Reply::NotFound;
            }
            match st.write(body.as_slice()) {
                Ok(written) => Reply::Written(written),
                Err(_) => Reply::NotFound,
            }
        },
    }
}

/// Lets a request pass that carries the secret, where one is set.
#[derive(Debug, Clone)]
pub struct QueryGuard {
    pub value: Option<String>,
}

impl QueryGuard {
    /// Whether a request with this query passes: always where no secret is
    /// set; otherwise where one of the pairs of the query is `key` with the
    /// secret as its value.
    pub open spec fn admits(self, query: Option<Seq<char>>) -> bool {
        match (self.value, query) {
            (None, _) => true,
            (Some(_), None) => false,
            (Some(secret), Some(q)) => querified(q).contains(("key"@, secret@)),
        }
    }

    /// Decides whether a request passes, from its query.
    pub fn check(&self, query: Option<&str>) -> (pass: bool)
        ensures
            pass == self.admits(query.deep_view()),
    {
        match (&self.value, query) {
            (None, _) => true,
            (Some(_), None) => false,
            (Some(secret), Some(query)) => holds(&querify(query), "key", secret.as_str()),
        }
    }
}

} // verus!
