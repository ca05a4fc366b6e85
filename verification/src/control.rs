//! The HTTP front door's connection state machine: one request per
//! connection, then close. The sockets and the poll loop belong to the
//! program; these are its decisions over the bytes read so far.
//!
//! States: reading headers, reading the body, writing, closing. A
//! connection holding 1024 bytes or more without a single CRLF is dropped
//! (slowloris); the header block ends at the first CRLFCRLF.

use vstd::prelude::*;
use crate::control_api::{dec_chars, push_decimal};
use crate::http_parse::{find, find_subslice, lemma_find_from_bounds};

verus! {

pub const CONN_TIMEOUT_MS: u64 = 5000;
pub const SLOWLORIS_SIZE: usize = 1024;
pub const MAX_CLIENTS: usize = 8;

#[derive(Debug, Clone, Copy, PartialEq, Eq, Structural)]
pub enum ConnState {
    ReadingHeaders,
    ReadingBody,
    Writing,
    Closing,
}

/// What the bytes read so far call for.
#[derive(Debug, Clone, Copy, PartialEq, Eq, Structural)]
pub enum ReadStep {
    /// Too many bytes without a line break: drop the connection.
    Slowloris,
    /// The header block is complete and ends before this offset.
    HeadersEnd(usize),
    /// Keep reading.
    Wait,
}

pub open spec fn crlf() -> Seq<u8> {
    seq![13u8, 10u8]
}

pub open spec fn crlfcrlf() -> Seq<u8> {
    seq![13u8, 10u8, 13u8, 10u8]
}

/// The step for a connection in `state` whose buffer is `buf`: only while
/// reading headers do the slowloris guard and the terminator search apply.
pub open spec fn read_step_spec(state: ConnState, buf: Seq<u8>) -> ReadStep {
    if state != ConnState::ReadingHeaders {
        ReadStep::Wait
    } else if buf.len() >= SLOWLORIS_SIZE && find(buf, crlf()) is None {
        ReadStep::Slowloris
    } else {
        match find(buf, crlfcrlf()) {
            Some(pos) => ReadStep::HeadersEnd((pos + 4) as usize),
            None => ReadStep::Wait,
        }
    }
}

pub fn read_step(state: ConnState, buf: &[u8]) -> (r: ReadStep)
    ensures
        r == read_step_spec(state, buf@),
{
    if state != ConnState::ReadingHeaders {
        return ReadStep::Wait;
    }
    let nl: Vec<u8> = vec![13u8, 10u8];
    assert(nl@ =~= crlf());
    if buf.len() >= SLOWLORIS_SIZE && find_subslice(buf, nl.as_slice()).is_none() {
        return ReadStep::Slowloris;
    }
    let term: Vec<u8> = vec![13u8, 10u8, 13u8, 10u8];
    assert(term@ =~= crlfcrlf());
    proof {
        lemma_find_from_bounds(buf@, crlfcrlf(), 0);
    }
    match find_subslice(buf, term.as_slice()) {
        Some(pos) => ReadStep::HeadersEnd(pos + 4),
        None => ReadStep::Wait,
    }
}

/// The state once the headers are in: reading the body while fewer bytes
/// than the declared length follow them, writing otherwise.
pub fn state_after_headers(buf_len: usize, headers_end: usize, content_length: Option<usize>) -> (s: ConnState)
    ensures
        s == match content_length {
            Some(len) => if buf_len < headers_end + len {
                ConnState::ReadingBody
            } else {
                ConnState::Writing
            },
            None => ConnState::Writing,
        },
{
    match content_length {
        Some(len) => if len > buf_len || buf_len - len < headers_end {
            ConnState::ReadingBody
        } else {
            ConnState::Writing
        },
        None => ConnState::Writing,
    }
}

/// The reason phrase of a status code.
pub open spec fn status_text_spec(status: u16) -> Seq<char> {
    if status == 200 {
        "OK"@
    } else if status == 400 {
        "Bad Request"@
    } else if status == 403 {
        "Forbidden"@
    } else if status == 404 {
        "Not Found"@
    } else if status == 500 {
        "Internal Server Error"@
    } else if status == 501 {
        "Not Implemented"@
    } else if status == 503 {
        "Service Unavailable"@
    } else {
        "Unknown"@
    }
}

pub fn status_text(status: u16) -> (t: &'static str)
    ensures
        t@ == status_text_spec(status),
{
    if status == 200 {
        "OK"
    } else if status == 400 {
        "Bad Request"
    } else if status == 403 {
        "Forbidden"
    } else if status == 404 {
        "Not Found"
    } else if status == 500 {
        "Internal Server Error"
    } else if status == 501 {
        "Not Implemented"
    } else if status == 503 {
        "Service Unavailable"
    } else {
        "Unknown"
    }
}

/// The response head: status line, length, and `Connection: close`.
pub open spec fn response_head_spec(status: u16, body_len: u64) -> Seq<char> {
    "HTTP/1.1 "@ + dec_chars(status as nat) + " "@ + status_text_spec(status) + "\r\nContent-Length: "@
        + dec_chars(body_len as nat) + "\r\nConnection: close\r\n\r\n"@
}

pub fn response_head(status: u16, body_len: u64) -> (s: String)
    ensures
        s@ == response_head_spec(status, body_len),
{
    let mut out = String::new();
    out.append("HTTP/1.1 ");
    push_decimal(&mut out, status as u64);
    out.append(" ");
    out.append(status_text(status));
    out.append("\r\nContent-Length: ");
    push_decimal(&mut out, body_len);
    out.append("\r\nConnection: close\r\n\r\n");
    assert(out@ =~= response_head_spec(status, body_len));
    out
}

} // verus!
