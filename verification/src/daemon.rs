//! The node core's decisions over the bytes it receives: the transport
//! header, the binding frame, the envelope's parents and ledger identity,
//! the event each dispatch outcome publishes, and the control plane's
//! routing and bearer-token gate. Sockets, the clock and the poll loop
//! belong to the program.

use vstd::prelude::*;
use vstd::string::StringSliceAdditionalSpecFns;
use crate::codec::{be16, be32, be64, copy_into, read_u32be, read_u64be};
use crate::control::crlfcrlf;
use crate::control_api::{parse_since_bytes, spec_parse_since, spec_status, ApiError, EventTag, IntentOutcome};
use crate::crypto;
use crate::http_parse::{find, find_subslice, lemma_find_from_bounds, Method};
use crate::transport::dispatch::Outcome;
use crate::transport::token;

verus! {

/// The ledger identity of an envelope: BLAKE2s-256 over its full wire form.
pub fn envelope_hash(wire: &[u8]) -> (h: [u8; 32])
    ensures
        h@ == crypto::blake2s256_spec(wire@),
{
    crypto::blake2s256(wire)
}

/// The receiver index and counter of a transport packet, when it is long
/// enough to hold a header and a tag.
pub fn transport_header(pkt: &[u8]) -> (r: Option<(u32, u64)>)
    ensures
        pkt@.len() < 32 ==> r is None,
        pkt@.len() >= 32 ==> r == Some((be32(pkt@.subrange(4, 8)), be64(pkt@.subrange(8, 16)))),
{
    if pkt.len() < 32 {
        return None;
    }
    let idx = read_u32be(&pkt[4..8]);
    let counter = read_u64be(&pkt[8..16]);
    assert(pkt@.subrange(4, 8).subrange(0, 4) =~= pkt@.subrange(4, 8));
    assert(pkt@.subrange(8, 16).subrange(0, 8) =~= pkt@.subrange(8, 16));
    Some((idx, counter))
}

/// A binding frame is `u16be(cert_len) || cert || signature (64)`: the
/// certificate and the signature, when the frame holds them.
pub fn split_binding(plain: &[u8]) -> (r: Option<(&[u8], &[u8])>)
    ensures
        ({
            let n = plain@.len();
            let cl = if n >= 2 { be16(plain@.subrange(0, 2)) as int } else { 0 };
            if n < 66 || n < 2 + cl + 64 {
                r is None
            } else {
                r matches Some((c, s)) && c@ == plain@.subrange(2, 2 + cl) && s@ == plain@.subrange(
                    2 + cl,
                    2 + cl + 64,
                )
            }
        }),
{
    if plain.len() < 2 + 64 {
        return None;
    }
    let cert_len = ((plain[0] as u16) << 8u16 | plain[1] as u16) as usize;
    assert(cert_len == be16(plain@.subrange(0, 2)));
    if plain.len() < 2 + cert_len + 64 {
        return None;
    }
    Some((&plain[2..2 + cert_len], &plain[2 + cert_len..2 + cert_len + 64]))
}

/// The parents of an envelope as 32-byte hashes; a parents field that is
/// not exactly `count` hashes long is refused.
pub fn parents_of(parents: &[u8], count: u8) -> (r: Option<Vec<[u8; 32]>>)
    ensures
        parents@.len() != count as int * 32 ==> r is None,
        parents@.len() == count as int * 32 ==> (r matches Some(v) && v@.len() == count && forall|i: int|
            0 <= i < count ==> (#[trigger] v@[i])@ == parents@.subrange(32 * i, 32 * i + 32)),
{
    if parents.len() != count as usize * 32 {
        return None;
    }
    let mut out: Vec<[u8; 32]> = Vec::new();
    let mut i: usize = 0;
    while i < count as usize
        invariant
            parents@.len() == count as int * 32,
            i <= count,
            out@.len() == i,
            forall|k: int| 0 <= k < i ==> (#[trigger] out@[k])@ == parents@.subrange(32 * k, 32 * k + 32),
        decreases count - i,
    {
        let h: [u8; 32] = copy_into(&parents[32 * i..32 * i + 32]);
        out.push(h);
        i = i + 1;
    }
    Some(out)
}

/// The event a dispatch outcome publishes; effects and utterances have no
/// event.
pub open spec fn outcome_tag_spec(o: Outcome) -> Option<EventTag> {
    match o {
        Outcome::IntentAdmitted => Some(EventTag::IntentAdmitted),
        Outcome::GrantExecuted => Some(EventTag::GrantExecuted),
        Outcome::EffectRefused => Some(EventTag::EffectRefused),
        Outcome::RefusalApplied => Some(EventTag::RefusalApplied),
        Outcome::Control => Some(EventTag::ControlApplied),
        Outcome::Effect => None,
        Outcome::Utterance => None,
    }
}

pub fn outcome_tag(o: Outcome) -> (t: Option<EventTag>)
    ensures
        t == outcome_tag_spec(o),
{
    match o {
        Outcome::IntentAdmitted => Some(EventTag::IntentAdmitted),
        Outcome::GrantExecuted => Some(EventTag::GrantExecuted),
        Outcome::EffectRefused => Some(EventTag::EffectRefused),
        Outcome::RefusalApplied => Some(EventTag::RefusalApplied),
        Outcome::Control => Some(EventTag::ControlApplied),
        Outcome::Effect => None,
        Outcome::Utterance => None,
    }
}

// --- the control plane --------------------------------------------------------

pub open spec fn ascii_lower(b: u8) -> u8 {
    if 65 <= b <= 90 {
        (b + 32) as u8
    } else {
        b
    }
}

/// "authorization: bearer " in ASCII.
pub open spec fn bearer_needle() -> Seq<u8> {
    seq![
        97u8, 117, 116, 104, 111, 114, 105, 122, 97, 116, 105, 111, 110, 58, 32, 98, 101, 97, 114,
        101, 114, 32,
    ]
}

/// The needle occurs at `i`, ignoring ASCII case.
pub open spec fn bearer_at(h: Seq<u8>, i: int) -> bool {
    0 <= i && i + 22 <= h.len() && forall|k: int| 0 <= k < 22 ==> ascii_lower(#[trigger] h[i + k]) == bearer_needle()[k]
}

pub open spec fn first_bearer_from(h: Seq<u8>, i: int) -> Option<int>
    decreases h.len() - i,
{
    if i < 0 || i + 22 > h.len() {
        None
    } else if bearer_at(h, i) {
        Some(i)
    } else {
        first_bearer_from(h, i + 1)
    }
}

/// The header block: up to the first CRLFCRLF, or everything.
pub open spec fn header_block(buf: Seq<u8>) -> Seq<u8> {
    match find(buf, crlfcrlf()) {
        Some(p) => buf.subrange(0, p),
        None => buf,
    }
}

/// The first offset of a byte, or the length.
pub open spec fn pos_or_len(s: Seq<u8>, c: u8, i: int) -> int
    decreases s.len() - i,
{
    if i < 0 || i >= s.len() {
        s.len() as int
    } else if s[i] == c {
        i
    } else {
        pos_or_len(s, c, i + 1)
    }
}

/// The bearer credential of a request: after the first "authorization:
/// bearer " (any ASCII case) in the header block, up to the line's CR.
pub open spec fn bearer_token(buf: Seq<u8>) -> Option<Seq<u8>> {
    let h = header_block(buf);
    match first_bearer_from(h, 0) {
        None => None,
        Some(i) => {
            let rest = h.subrange(i + 22, h.len() as int);
            Some(rest.subrange(0, pos_or_len(rest, 13u8, 0)))
        },
    }
}

proof fn lemma_pos_or_len(s: Seq<u8>, c: u8, i: int)
    requires
        0 <= i <= s.len(),
    ensures
        i <= pos_or_len(s, c, i) <= s.len(),
    decreases s.len() - i,
{
    if i < s.len() && s[i] != c {
        lemma_pos_or_len(s, c, i + 1);
    }
}

proof fn lemma_first_bearer(h: Seq<u8>, i: int)
    ensures
        first_bearer_from(h, i) matches Some(k) ==> i <= k && bearer_at(h, k),
    decreases h.len() - i,
{
    if !(i < 0 || i + 22 > h.len()) && !bearer_at(h, i) {
        lemma_first_bearer(h, i + 1);
    }
}

fn lower(b: u8) -> (r: u8)
    ensures
        r == ascii_lower(b),
{
    if 65 <= b && b <= 90 {
        b + 32
    } else {
        b
    }
}

/// Whether the request carries the control token as its bearer
/// credential, compared in constant time.
pub fn bearer_ok(buf: &[u8], expected: &[u8; token::TOKEN_HEX_LEN]) -> (ok: bool)
    ensures
        ok == (bearer_token(buf@) matches Some(t) && t == expected@),
{
    let term: Vec<u8> = vec![13u8, 10u8, 13u8, 10u8];
    assert(term@ =~= crlfcrlf());
    proof {
        lemma_find_from_bounds(buf@, crlfcrlf(), 0);
    }
    let headers_end = match find_subslice(buf, term.as_slice()) {
        Some(p) => p,
        None => buf.len(),
    };
    let headers = &buf[0..headers_end];
    assert(headers@ =~= header_block(buf@));
    let needle: Vec<u8> = vec![
        97u8, 117, 116, 104, 111, 114, 105, 122, 97, 116, 105, 111, 110, 58, 32, 98, 101, 97, 114,
        101, 114, 32,
    ];
    assert(needle@ =~= bearer_needle());
    let hl: usize = headers.len();
    let mut i: usize = 0;
    while i <= hl && hl - i >= 22
        invariant
            hl == headers@.len(),
            headers@ == header_block(buf@),
            needle@ == bearer_needle(),
            first_bearer_from(headers@, 0) == first_bearer_from(headers@, i as int),
        decreases headers@.len() - i,
    {
        let mut k: usize = 0;
        let mut hit = true;
        while k < 22
            invariant
                i + 22 <= headers@.len(),
                hl == headers@.len(),
                needle@ == bearer_needle(),
                k <= 22,
                hit == (forall|j: int| 0 <= j < k ==> ascii_lower(#[trigger] headers@[i + j]) == bearer_needle()[j]),
            decreases 22 - k,
        {
            if lower(headers[i + k]) != needle[k] {
                hit = false;
            }
            k = k + 1;
        }
        if hit {
            assert(bearer_at(headers@, i as int));
            let rest = &headers[i + 22..headers.len()];
            let mut e: usize = 0;
            while e < rest.len() && rest[e] != 13u8
                invariant
                    e <= rest@.len(),
                    pos_or_len(rest@, 13u8, 0) == pos_or_len(rest@, 13u8, e as int),
                decreases rest@.len() - e,
            {
                e = e + 1;
            }
            proof {
                lemma_pos_or_len(rest@, 13u8, 0);
            }
            assert(pos_or_len(rest@, 13u8, e as int) == e);
            assert(first_bearer_from(headers@, i as int) == Some(i as int));
            assert(rest@ == headers@.subrange(i + 22, headers@.len() as int));
            return token::verify(&rest[0..e], expected);
        }
        assert(!bearer_at(headers@, i as int));
        i = i + 1;
    }
    false
}

/// The event cursor of a request: the bytes after `?` up to the next space,
/// read as decimal digits; anything else is no cursor.
pub fn extract_since(buf: &[u8], query_start: Option<usize>) -> (r: Option<u64>)
    requires
        query_start matches Some(q) ==> q < buf@.len(),
    ensures
        match query_start {
            None => r is None,
            Some(q) => {
                let rest = buf@.subrange(q + 1, buf@.len() as int);
                r == match spec_parse_since(rest.subrange(0, pos_or_len(rest, 32u8, 0))) {
                    Ok(v) => Some(v),
                    Err(_) => None,
                }
            },
        },
{
    let qs = match query_start {
        Some(q) => q,
        None => return None,
    };
    let _n: usize = buf.len();
    let rest = &buf[qs + 1..buf.len()];
    let mut e: usize = 0;
    while e < rest.len() && rest[e] != 32u8
        invariant
            e <= rest@.len(),
            pos_or_len(rest@, 32u8, 0) == pos_or_len(rest@, 32u8, e as int),
        decreases rest@.len() - e,
    {
        e = e + 1;
    }
    proof {
        lemma_pos_or_len(rest@, 32u8, 0);
    }
    assert(pos_or_len(rest@, 32u8, e as int) == e);
    match parse_since_bytes(&rest[0..e]) {
        Ok(v) => Some(v),
        Err(_) => None,
    }
}

/// The routes of the control plane.
#[derive(Debug, Clone, Copy, PartialEq, Eq, Structural)]
pub enum Route {
    Healthz,
    PostIntent,
    /// `GET /v1/intents/<id>`: the id starts after this many bytes.
    GetIntent,
    Events,
    Metrics,
    NotFound,
}

pub open spec fn lit_healthz() -> Seq<u8> {
    seq![47u8, 104, 101, 97, 108, 116, 104, 122]
}

pub open spec fn lit_intents() -> Seq<u8> {
    seq![47u8, 118, 49, 47, 105, 110, 116, 101, 110, 116, 115]
}

pub open spec fn lit_intents_slash() -> Seq<u8> {
    lit_intents() + seq![47u8]
}

pub open spec fn lit_events() -> Seq<u8> {
    seq![47u8, 118, 49, 47, 101, 118, 101, 110, 116, 115]
}

pub open spec fn lit_metrics() -> Seq<u8> {
    seq![47u8, 109, 101, 116, 114, 105, 99, 115]
}

pub open spec fn starts_with(s: Seq<u8>, p: Seq<u8>) -> bool {
    p.len() <= s.len() && s.subrange(0, p.len() as int) == p
}

/// Which route a request takes, in the order the routes are tried.
pub open spec fn route_spec(method: Method, target: Seq<u8>) -> Route {
    if method == Method::Get && target == lit_healthz() {
        Route::Healthz
    } else if method == Method::Post && target == lit_intents() {
        Route::PostIntent
    } else if method == Method::Get && starts_with(target, lit_intents_slash()) {
        Route::GetIntent
    } else if method == Method::Get && starts_with(target, lit_events()) {
        Route::Events
    } else if method == Method::Get && target == lit_metrics() {
        Route::Metrics
    } else {
        Route::NotFound
    }
}

fn has_prefix(s: &[u8], p: &[u8]) -> (b: bool)
    ensures
        b == starts_with(s@, p@),
{
    if p.len() > s.len() {
        return false;
    }
    crate::codec::bytes_eq(&s[0..p.len()], p)
}

pub fn route_of(method: Method, target: &[u8]) -> (r: Route)
    ensures
        r == route_spec(method, target@),
{
    let healthz: Vec<u8> = vec![47u8, 104, 101, 97, 108, 116, 104, 122];
    let intents: Vec<u8> = vec![47u8, 118, 49, 47, 105, 110, 116, 101, 110, 116, 115];
    let intents_slash: Vec<u8> = vec![47u8, 118, 49, 47, 105, 110, 116, 101, 110, 116, 115, 47];
    let events: Vec<u8> = vec![47u8, 118, 49, 47, 101, 118, 101, 110, 116, 115];
    let metrics: Vec<u8> = vec![47u8, 109, 101, 116, 114, 105, 99, 115];
    assert(healthz@ =~= lit_healthz());
    assert(intents@ =~= lit_intents());
    assert(intents_slash@ =~= lit_intents_slash());
    assert(events@ =~= lit_events());
    assert(metrics@ =~= lit_metrics());
    let get = method == Method::Get;
    let post = method == Method::Post;
    if get && crate::codec::bytes_eq(target, healthz.as_slice()) {
        Route::Healthz
    } else if post && crate::codec::bytes_eq(target, intents.as_slice()) {
        Route::PostIntent
    } else if get && has_prefix(target, intents_slash.as_slice()) {
        Route::GetIntent
    } else if get && has_prefix(target, events.as_slice()) {
        Route::Events
    } else if get && crate::codec::bytes_eq(target, metrics.as_slice()) {
        Route::Metrics
    } else {
        Route::NotFound
    }
}

/// The bearer gate of a request.
#[derive(Debug, Clone, Copy, PartialEq, Eq, Structural)]
pub enum AuthVerdict {
    Allowed,
    /// Refused with 403; counted as an auth refusal when a token exists.
    Refused { counted: bool },
}

/// The health check is always open. Every other route needs the minted
/// token as the bearer credential (refusals counted); without a minted
/// token, every other route is refused.
pub fn auth_gate(token: Option<&[u8; token::TOKEN_HEX_LEN]>, buf: &[u8], healthz: bool) -> (v: AuthVerdict)
    ensures
        v == if healthz {
            AuthVerdict::Allowed
        } else {
            match token {
                Some(t) => if (bearer_token(buf@) matches Some(b) && b == t@) {
                    AuthVerdict::Allowed
                } else {
                    AuthVerdict::Refused { counted: true }
                },
                None => AuthVerdict::Refused { counted: false },
            }
        },
{
    if healthz {
        return AuthVerdict::Allowed;
    }
    match token {
        Some(expected) => if bearer_ok(buf, expected) {
            AuthVerdict::Allowed
        } else {
            AuthVerdict::Refused { counted: true }
        },
        None => AuthVerdict::Refused { counted: false },
    }
}

pub open spec fn lit_accepted() -> Seq<u8> {
    seq![97u8, 99, 99, 101, 112, 116, 101, 100, 10]
}

pub open spec fn lit_idempotent() -> Seq<u8> {
    seq![105u8, 100, 101, 109, 112, 111, 116, 101, 110, 116, 10]
}

pub open spec fn lit_error() -> Seq<u8> {
    seq![101u8, 114, 114, 111, 114, 10]
}

/// The reply to a posted intent: 202 with "accepted" or "idempotent", or
/// the error's status with "error".
pub fn post_reply(r: Result<IntentOutcome, ApiError>) -> (rep: (u16, Vec<u8>))
    ensures
        rep.0 == match r {
            Ok(_) => 202u16,
            Err(e) => spec_status(e),
        },
        rep.1@ == match r {
            Ok(IntentOutcome::Accepted) => lit_accepted(),
            Ok(IntentOutcome::AcceptedIdempotent) => lit_idempotent(),
            Err(_) => lit_error(),
        },
{
    match r {
        Ok(IntentOutcome::Accepted) => {
            let b: Vec<u8> = vec![97u8, 99, 99, 101, 112, 116, 101, 100, 10];
            assert(b@ =~= lit_accepted());
            (202, b)
        },
        Ok(IntentOutcome::AcceptedIdempotent) => {
            let b: Vec<u8> = vec![105u8, 100, 101, 109, 112, 111, 116, 101, 110, 116, 10];
            assert(b@ =~= lit_idempotent());
            (202, b)
        },
        Err(e) => {
            let b: Vec<u8> = vec![101u8, 114, 114, 111, 114, 10];
            assert(b@ =~= lit_error());
            (e.status(), b)
        },
    }
}

/// The reply to an intent-state query: 200 with the state's name and a
/// newline, or the error's status with "error".
pub fn state_reply(r: Result<&str, ApiError>) -> (rep: (u16, Vec<u8>))
    ensures
        rep.0 == match r {
            Ok(_) => 200u16,
            Err(e) => spec_status(e),
        },
        rep.1@ == match r {
            Ok(s) => s.spec_bytes().push(10u8),
            Err(_) => lit_error(),
        },
{
    match r {
        Ok(s) => {
            let bytes = s.as_bytes();
            let mut b: Vec<u8> = Vec::new();
            let mut i: usize = 0;
            while i < bytes.len()
                invariant
                    i <= bytes@.len(),
                    b@ == bytes@.subrange(0, i as int),
                decreases bytes@.len() - i,
            {
                b.push(bytes[i]);
                i = i + 1;
                assert(b@ =~= bytes@.subrange(0, i as int));
            }
            b.push(10u8);
            assert(b@ =~= s.spec_bytes().push(10u8));
            (200, b)
        },
        Err(e) => {
            let b: Vec<u8> = vec![101u8, 114, 114, 111, 114, 10];
            assert(b@ =~= lit_error());
            (e.status(), b)
        },
    }
}

} // verus!
