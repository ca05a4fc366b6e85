//! The /v1 control facade over the dispatch internals.
//!
//! No direct ledger writes and no grant mutation: `post_intent` routes
//! through the same `resolve_and_admit` the wire path uses. The subject is
//! required (64 hex characters); a missing one is a 400.

use vstd::prelude::*;
use vstd::string::{StringExecFns, StringSliceAdditionalSpecFns};
use crate::codec::MAX_ACTION;
use crate::http_parse::{find, find_subslice};
use crate::state::intent::{self, IntentError, State as IntentState};
use crate::transport::resolver::{ResolveError, Resolver};

verus! {

pub const RING_CAP: usize = 256;
pub const ID_HEX_LEN: usize = 64;  // 32 bytes, hex
pub const BODY_MAX: usize = 4096;
pub const SUBJ_HEX_LEN: usize = 64;

// --- event tags: the SSE tag strings are wire-visible ------------------------------

#[derive(Debug, Clone, Copy, PartialEq, Eq, Structural)]
pub enum EventTag {
    IntentAdmitted,
    IntentExpired,
    GrantExecuted,
    EffectRefused,
    RefusalApplied,
    ControlApplied,
}

pub open spec fn tag_name(t: EventTag) -> Seq<char> {
    match t {
        EventTag::IntentAdmitted => "intent_admitted"@,
        EventTag::IntentExpired => "intent_expired"@,
        EventTag::GrantExecuted => "grant_executed"@,
        EventTag::EffectRefused => "effect_refused"@,
        EventTag::RefusalApplied => "refusal_applied"@,
        EventTag::ControlApplied => "control_applied"@,
    }
}

impl EventTag {
    pub fn name(self) -> (s: &'static str)
        ensures
            s@ == tag_name(self),
    {
        match self {
            EventTag::IntentAdmitted => "intent_admitted",
            EventTag::IntentExpired => "intent_expired",
            EventTag::GrantExecuted => "grant_executed",
            EventTag::EffectRefused => "effect_refused",
            EventTag::RefusalApplied => "refusal_applied",
            EventTag::ControlApplied => "control_applied",
        }
    }
}

// --- the event ring ---------------------------------------------------------------------

/// Drop-oldest-when-full ring of (seq, tag), oldest first. Sequence numbers
/// start at 1 and survive eviction: after n publishes the ring holds the
/// last min(n, RING_CAP) of them, numbered consecutively up to n.
pub struct EventRing {
    pub events: Vec<(u64, EventTag)>,
    next_seq: u64,
}

impl EventRing {
    /// The sequence number the next publish takes.
    pub closed spec fn next(&self) -> u64 {
        self.next_seq
    }

    /// The events held, oldest first.
    pub closed spec fn log(&self) -> Seq<(u64, EventTag)> {
        self.events@
    }

    /// At most RING_CAP events, numbered consecutively and ending just
    /// before the next sequence number.
    pub closed spec fn wf(&self) -> bool {
        &&& self.events@.len() <= RING_CAP
        &&& self.next() >= 1 + self.events@.len()
        &&& forall|i: int|
            0 <= i < self.events@.len() ==> (#[trigger] self.events@[i]).0 == self.next()
                - self.events@.len() + i
    }

    pub fn new() -> (r: Self)
        ensures
            r.wf(),
            r.log() == Seq::<(u64, EventTag)>::empty(),
            r.next() == 1,
    {
        Self { events: Vec::new(), next_seq: 1 }
    }

    /// The sequence number the next publish takes.
    pub fn next_seq(&self) -> (n: u64)
        ensures
            n == self.next(),
    {
        self.next_seq
    }

    /// Appends an event with the next sequence number, dropping the oldest
    /// when the ring is full.
    pub fn publish(&mut self, tag: EventTag)
        requires
            old(self).wf(),
            old(self).next() < u64::MAX,
        ensures
            final(self).wf(),
            final(self).next() == old(self).next() + 1,
            old(self).log().len() < RING_CAP ==> final(self).log() == old(self).log().push(
                (old(self).next(), tag),
            ),
            old(self).log().len() == RING_CAP ==> final(self).log() == old(self).log().drop_first().push(
                (old(self).next(), tag),
            ),
    {
        let seq = self.next_seq;
        self.next_seq = self.next_seq + 1;
        if self.events.len() == RING_CAP {
            self.events.remove(0);
            assert(self.events@ =~= old(self).events@.drop_first());
        }
        self.events.push((seq, tag));
    }

    /// The events with seq > `since`, oldest first.
    pub fn since(&self, since: u64) -> (r: &[(u64, EventTag)])
        requires
            self.wf(),
        ensures
            r@ == self.log().filter(|e: (u64, EventTag)| e.0 > since),
    {
        let mut n: usize = 0;
        while n < self.events.len() && self.events[n].0 <= since
            invariant
                self.wf(),
                n <= self.events@.len(),
                forall|i: int| 0 <= i < n ==> (#[trigger] self.events@[i]).0 <= since,
            decreases self.events@.len() - n,
        {
            n = n + 1;
        }
        let r = &self.events.as_slice()[n..self.events.len()];
        proof {
            lemma_filter_suffix(self.events@, since, n as int);
        }
        r
    }
}

impl Default for EventRing {
    fn default() -> (r: Self)
        ensures
            r.wf(),
            r.log() == Seq::<(u64, EventTag)>::empty(),
            r.next() == 1,
    {
        Self::new()
    }
}

/// In a ring numbered consecutively, the events after `since` are a suffix.
proof fn lemma_filter_suffix(s: Seq<(u64, EventTag)>, since: u64, n: int)
    requires
        0 <= n <= s.len(),
        forall|i: int| 0 <= i < n ==> (#[trigger] s[i]).0 <= since,
        n < s.len() ==> s[n].0 > since,
        forall|i: int, j: int| 0 <= i < j < s.len() ==> (#[trigger] s[i]).0 < (#[trigger] s[j]).0,
    ensures
        s.subrange(n, s.len() as int) == s.filter(|e: (u64, EventTag)| e.0 > since),
    decreases s.len(),
{
    let p = |e: (u64, EventTag)| e.0 > since;
    reveal_with_fuel(Seq::filter, 1);
    if s.len() > 0 {
        if n < s.len() {
            lemma_filter_suffix(s.drop_last(), since, n);
            assert(s.drop_last().subrange(n, s.len() - 1) =~= s.subrange(n, s.len() as int).drop_last());
            if n < s.len() - 1 {
                assert(s[n] == s.drop_last()[n]);
                assert(s[s.len() - 1].0 > s[n].0);
            }
            assert(s.subrange(n, s.len() as int) =~= s.subrange(n, s.len() - 1).push(s.last()));
        } else {
            lemma_filter_suffix(s.drop_last(), since, n - 1);
            assert(s.subrange(n, s.len() as int) =~= Seq::<(u64, EventTag)>::empty());
            assert(s.drop_last().subrange(n - 1, s.len() - 1) =~= Seq::<(u64, EventTag)>::empty());
        }
    } else {
        assert(s.subrange(n, s.len() as int) =~= Seq::<(u64, EventTag)>::empty());
    }
}

// --- errors ----------------------------------------------------------------------------------

/// A closed set of refusals, with no text payloads.
#[derive(Debug, Clone, Copy, PartialEq, Eq, Structural)]
pub enum ApiError {
    BadRequest,
    NotFound,
    MethodNotAllowed,
    UnsupportedMediaType,
    UnprocessableIntent,
    Resolve(ResolveError),
    Intent(IntentError),
}

/// The resolver carries admission errors inside; the status table needs
/// them exposed again.
pub open spec fn api_error_of(e: ResolveError) -> ApiError {
    match e {
        ResolveError::Intent(ie) => ApiError::Intent(ie),
        other => ApiError::Resolve(other),
    }
}

impl From<ResolveError> for ApiError {
    fn from(e: ResolveError) -> (r: Self) {
        match e {
            ResolveError::Intent(ie) => ApiError::Intent(ie),
            other => ApiError::Resolve(other),
        }
    }
}

impl vstd::std_specs::convert::FromSpecImpl<ResolveError> for ApiError {
    open spec fn obeys_from_spec() -> bool {
        true
    }

    open spec fn from_spec(e: ResolveError) -> ApiError {
        api_error_of(e)
    }
}

impl From<IntentError> for ApiError {
    fn from(e: IntentError) -> (r: Self) {
        ApiError::Intent(e)
    }
}

impl vstd::std_specs::convert::FromSpecImpl<IntentError> for ApiError {
    open spec fn obeys_from_spec() -> bool {
        true
    }

    open spec fn from_spec(e: IntentError) -> ApiError {
        ApiError::Intent(e)
    }
}

pub open spec fn spec_status(e: ApiError) -> u16 {
    match e {
        ApiError::BadRequest => 400,
        ApiError::Intent(IntentError::NotPending) => 400,
        ApiError::NotFound => 404,
        ApiError::MethodNotAllowed => 405,
        ApiError::UnsupportedMediaType => 415,
        ApiError::UnprocessableIntent => 422,
        ApiError::Resolve(_) => 422,
        ApiError::Intent(IntentError::ResourceHeld) => 409,
        ApiError::Intent(IntentError::TableFull) => 503,
        ApiError::Intent(IntentError::DuplicateIntentId) => 202,
    }
}

impl ApiError {
    /// The HTTP status of a refusal.
    pub fn status(self) -> (s: u16)
        ensures
            s == spec_status(self),
    {
        match self {
            ApiError::BadRequest => 400,
            ApiError::Intent(IntentError::NotPending) => 400,
            ApiError::NotFound => 404,
            ApiError::MethodNotAllowed => 405,
            ApiError::UnsupportedMediaType => 415,
            ApiError::UnprocessableIntent => 422,
            ApiError::Resolve(_) => 422,
            ApiError::Intent(IntentError::ResourceHeld) => 409,
            ApiError::Intent(IntentError::TableFull) => 503,
            ApiError::Intent(IntentError::DuplicateIntentId) => 202,  // retry-safe
        }
    }
}

#[derive(Debug, Clone, Copy, PartialEq, Eq, Structural)]
pub enum IntentOutcome {
    Accepted,  // 202, admitted_total++
    AcceptedIdempotent,  // 202 on DuplicateIntentId, counter unchanged
}

pub struct Metrics {
    pub admitted_total: u64,
}

// --- the flat JSON field extractor ----------------------------------------------------------

/// The byte length of the White_Space character encoded at `b[i..]`, or 0.
pub open spec fn ws_len(b: Seq<u8>, i: int) -> int {
    if 0 <= i < b.len() && ((9 <= b[i] <= 13) || b[i] == 32) {
        1
    } else if 0 <= i && i + 1 < b.len() && b[i] == 0xc2 && (b[i + 1] == 0x85 || b[i + 1] == 0xa0) {
        2
    } else if 0 <= i && i + 2 < b.len() && ((b[i] == 0xe1 && b[i + 1] == 0x9a && b[i + 2] == 0x80) || (
    b[i] == 0xe2 && b[i + 1] == 0x80 && ((0x80 <= b[i + 2] <= 0x8a) || b[i + 2] == 0xa8 || b[i + 2]
        == 0xa9 || b[i + 2] == 0xaf)) || (b[i] == 0xe2 && b[i + 1] == 0x81 && b[i + 2] == 0x9f) || (
    b[i] == 0xe3 && b[i + 1] == 0x80 && b[i + 2] == 0x80)) {
        3
    } else {
        0
    }
}

/// The first index at or after `i` past any whitespace.
pub open spec fn skip_ws(b: Seq<u8>, i: int) -> int
    decreases b.len() - i,
{
    if i < 0 || i >= b.len() || ws_len(b, i) == 0 {
        i
    } else {
        skip_ws(b, i + ws_len(b, i))
    }
}

fn ws_len_at(b: &[u8], i: usize) -> (n: usize)
    ensures
        n == ws_len(b@, i as int),
{
    let len = b.len();
    if i < len && ((9 <= b[i] && b[i] <= 13) || b[i] == 32) {
        1
    } else if i < len && len - i > 1 && b[i] == 0xc2 && (b[i + 1] == 0x85 || b[i + 1] == 0xa0) {
        2
    } else if i < len && len - i > 2 && ((b[i] == 0xe1 && b[i + 1] == 0x9a && b[i + 2] == 0x80) || (
    b[i] == 0xe2 && b[i + 1] == 0x80 && ((0x80 <= b[i + 2] && b[i + 2] <= 0x8a) || b[i + 2] == 0xa8
        || b[i + 2] == 0xa9 || b[i + 2] == 0xaf)) || (b[i] == 0xe2 && b[i + 1] == 0x81 && b[i + 2]
        == 0x9f) || (b[i] == 0xe3 && b[i + 1] == 0x80 && b[i + 2] == 0x80)) {
        3
    } else {
        0
    }
}

fn skip_ws_from(b: &[u8], i: usize) -> (j: usize)
    requires
        i <= b@.len(),
    ensures
        j == skip_ws(b@, i as int),
        i <= j <= b@.len(),
{
    let blen = b.len();
    let mut j = i;
    loop
        invariant
            blen == b@.len(),
            i <= j <= b@.len(),
            skip_ws(b@, i as int) == skip_ws(b@, j as int),
        decreases b@.len() - j,
    {
        let n = ws_len_at(b, j);
        if n == 0 {
            return j;
        }
        assert(j + n <= blen);
        j = j + n;
    }
}

/// The first index at or after `i` holding a `"`.
pub open spec fn quote_from(b: Seq<u8>, i: int) -> Option<int>
    decreases b.len() - i,
{
    if i < 0 || i >= b.len() {
        None
    } else if b[i] == 34 {
        Some(i)
    } else {
        quote_from(b, i + 1)
    }
}

fn quote_at_or_after(b: &[u8], i: usize) -> (r: Option<usize>)
    requires
        i <= b@.len(),
    ensures
        match quote_from(b@, i as int) {
            Some(k) => r == Some(k as usize),
            None => r is None,
        },
{
    let mut k = i;
    while k < b.len()
        invariant
            i <= k <= b@.len(),
            quote_from(b@, i as int) == quote_from(b@, k as int),
        decreases b@.len() - k,
    {
        if b[k] == 34 {
            return Some(k);
        }
        k = k + 1;
    }
    None
}

proof fn lemma_quote_bounds(b: Seq<u8>, i: int)
    ensures
        quote_from(b, i) matches Some(k) ==> 0 <= i <= k < b.len(),
    decreases b.len() - i,
{
    if !(i < 0 || i >= b.len()) && b[i] != 34 {
        lemma_quote_bounds(b, i + 1);
    }
}

/// `"key"`, then optional whitespace, a colon, optional whitespace and a
/// string: the bounds of that string's contents. The first occurrence of
/// `"key"` decides; no escapes are understood.
pub open spec fn json_get(b: Seq<u8>, key: Seq<u8>) -> Option<(int, int)> {
    let needle = seq![34u8] + key + seq![34u8];
    match find(b, needle) {
        None => None,
        Some(i) => {
            let j = skip_ws(b, i + needle.len());
            if j < b.len() && b[j] == 58 {
                let k = skip_ws(b, j + 1);
                if k < b.len() && b[k] == 34 {
                    match quote_from(b, k + 1) {
                        Some(e) => Some((k + 1, e)),
                        None => None,
                    }
                } else {
                    None
                }
            } else {
                None
            }
        },
    }
}

/// The flat JSON value of `key`, by first match; a known, accepted
/// limitation (the caller is trusted, loopback and bearer): not a JSON
/// parser.
fn flat_json_get<'a>(body: &'a [u8], key: &[u8]) -> (r: Option<&'a [u8]>)
    ensures
        match json_get(body@, key@) {
            Some((s, e)) => r is Some && r->Some_0@ == body@.subrange(s, e),
            None => r is None,
        },
{
    let mut needle: Vec<u8> = Vec::new();
    needle.push(34);
    crate::codec::push_bytes(&mut needle, key);
    needle.push(34);
    assert(needle@ =~= seq![34u8] + key@ + seq![34u8]);
    let i = match find_subslice(body, needle.as_slice()) {
        Some(i) => i,
        None => return None,
    };
    proof {
        crate::http_parse::lemma_find_from_bounds(body@, needle@, 0);
    }
    let blen = body.len();
    assert(i + needle@.len() <= blen);
    let j = skip_ws_from(body, i + needle.len());
    if !(j < body.len() && body[j] == 58) {
        return None;
    }
    let k = skip_ws_from(body, j + 1);
    if !(k < body.len() && body[k] == 34) {
        return None;
    }
    proof {
        lemma_quote_bounds(body@, k + 1);
    }
    match quote_at_or_after(body, k + 1) {
        Some(e) => Some(&body[k + 1..e]),
        None => None,
    }
}

// --- hex and decimal ----------------------------------------------------------------------------

pub open spec fn is_hex_byte(c: u8) -> bool {
    (48 <= c <= 57) || (97 <= c <= 102) || (65 <= c <= 70)
}

pub open spec fn is_hex(s: Seq<u8>) -> bool {
    s.len() > 0 && forall|i: int| 0 <= i < s.len() ==> is_hex_byte(#[trigger] s[i])
}

fn all_hex(s: &[u8]) -> (r: bool)
    ensures
        r == is_hex(s@),
{
    if s.len() == 0 {
        return false;
    }
    let mut i: usize = 0;
    while i < s.len()
        invariant
            i <= s@.len(),
            forall|k: int| 0 <= k < i ==> is_hex_byte(#[trigger] s@[k]),
        decreases s@.len() - i,
    {
        let c = s[i];
        if !((48 <= c && c <= 57) || (97 <= c && c <= 102) || (65 <= c && c <= 70)) {
            return false;
        }
        i = i + 1;
    }
    true
}

pub open spec fn hex_val(c: u8) -> u8 {
    if 48 <= c <= 57 {
        (c - 48) as u8
    } else if 97 <= c <= 102 {
        (c - 87) as u8
    } else {
        (c - 55) as u8
    }
}

/// Pairs of hex digits, most significant first.
pub open spec fn hex_decode(s: Seq<u8>) -> Seq<u8> {
    Seq::new(s.len() / 2, |i: int| (hex_val(s[2 * i]) * 16 + hex_val(s[2 * i + 1])) as u8)
}

/// Exactly 64 hex digits (either case) give 32 bytes; anything else is a
/// bad request.
pub fn parse_id_hex(hex: &str) -> (r: Result<[u8; 32], ApiError>)
    ensures
        (hex.spec_bytes().len() == ID_HEX_LEN && is_hex(hex.spec_bytes())) ==> r is Ok && r->Ok_0@
            == hex_decode(hex.spec_bytes()),
        !(hex.spec_bytes().len() == ID_HEX_LEN && is_hex(hex.spec_bytes())) ==> r == Err::<
            [u8; 32],
            ApiError,
        >(ApiError::BadRequest),
{
    parse_id_hex_bytes(hex.as_bytes())
}

pub(crate) fn parse_id_hex_bytes(b: &[u8]) -> (r: Result<[u8; 32], ApiError>)
    ensures
        (b@.len() == ID_HEX_LEN && is_hex(b@)) ==> r is Ok && r->Ok_0@ == hex_decode(b@),
        !(b@.len() == ID_HEX_LEN && is_hex(b@)) ==> r == Err::<[u8; 32], ApiError>(ApiError::BadRequest),
{
    if b.len() != ID_HEX_LEN || !all_hex(b) {
        return Err(ApiError::BadRequest);
    }
    let mut out = [0u8;32];
    let mut i: usize = 0;
    while i < 32
        invariant
            b@.len() == ID_HEX_LEN,
            is_hex(b@),
            i <= 32,
            forall|k: int| 0 <= k < i ==> out@[k] == hex_decode(b@)[k],
        decreases 32 - i,
    {
        let hi = b[2 * i];
        let lo = b[2 * i + 1];
        assert(is_hex_byte(b@[2 * i as int]) && is_hex_byte(b@[2 * i + 1]));
        let h = if hi <= 57 { hi - 48 } else if hi >= 97 { hi - 87 } else { hi - 55 };
        let l = if lo <= 57 { lo - 48 } else if lo >= 97 { lo - 87 } else { lo - 55 };
        out[i] = h * 16 + l;
        i = i + 1;
    }
    assert(out@ =~= hex_decode(b@));
    Ok(out)
}

pub open spec fn is_digit_byte(c: u8) -> bool {
    48 <= c <= 57
}

/// The value of a string of decimal digits.
pub open spec fn digits_value(s: Seq<u8>) -> nat
    decreases s.len(),
{
    if s.len() == 0 {
        0
    } else {
        digits_value(s.drop_last()) * 10 + (s.last() - 48) as nat
    }
}

/// A cursor: one or more decimal digits, and nothing else, whose value fits
/// a u64.
pub open spec fn spec_parse_since(s: Seq<u8>) -> Result<u64, ApiError> {
    if s.len() == 0 || !(forall|i: int| 0 <= i < s.len() ==> is_digit_byte(#[trigger] s[i])) {
        Err(ApiError::BadRequest)
    } else if digits_value(s) > u64::MAX {
        Err(ApiError::BadRequest)
    } else {
        Ok(digits_value(s) as u64)
    }
}

proof fn lemma_digits_grow(s: Seq<u8>, k: int)
    requires
        0 <= k <= s.len(),
        forall|i: int| 0 <= i < s.len() ==> is_digit_byte(#[trigger] s[i]),
    ensures
        digits_value(s.subrange(0, k)) <= digits_value(s),
    decreases s.len() - k,
{
    if k < s.len() {
        lemma_digits_grow(s, k + 1);
        assert(s.subrange(0, k + 1).drop_last() =~= s.subrange(0, k));
    } else {
        assert(s.subrange(0, k) =~= s);
    }
}

/// Strict digits-or-error: an empty cursor, a sign, any other character or
/// a value past u64::MAX is a bad request.
pub fn parse_since(target: &str) -> (r: Result<u64, ApiError>)
    ensures
        r == spec_parse_since(target.spec_bytes()),
{
    parse_since_bytes(target.as_bytes())
}

/// `parse_since` over the cursor's bytes.
pub(crate) fn parse_since_bytes(b: &[u8]) -> (r: Result<u64, ApiError>)
    ensures
        r == spec_parse_since(b@),
{
    if b.len() == 0 {
        return Err(ApiError::BadRequest);
    }
    let mut i: usize = 0;
    while i < b.len()
        invariant
            b@.len() > 0,
            i <= b@.len(),
            forall|k: int| 0 <= k < i ==> is_digit_byte(#[trigger] b@[k]),
        decreases b@.len() - i,
    {
        if !(48 <= b[i] && b[i] <= 57) {
            assert(!is_digit_byte(b@[i as int]));
            return Err(ApiError::BadRequest);
        }
        i = i + 1;
    }
    let mut v: u64 = 0;
    let mut j: usize = 0;
    while j < b.len()
        invariant
            b@.len() > 0,
            j <= b@.len(),
            forall|k: int| 0 <= k < b@.len() ==> is_digit_byte(#[trigger] b@[k]),
            v == digits_value(b@.subrange(0, j as int)),
        decreases b@.len() - j,
    {
        assert(b@.subrange(0, j + 1).drop_last() =~= b@.subrange(0, j as int));
        let d = (b[j] - 48) as u64;
        if v > (u64::MAX - d) / 10 {
            proof {
                lemma_digits_grow(b@, j + 1);
                assert(v * 10 + d > u64::MAX) by (nonlinear_arith)
                    requires
                        v > (u64::MAX - d) / 10,
                        d < 10,
                ;
                assert(digits_value(b@.subrange(0, j + 1)) == v * 10 + d);
            }
            return Err(ApiError::BadRequest);
        }
        assert(v * 10 + d <= u64::MAX) by (nonlinear_arith)
            requires
                v <= (u64::MAX - d) / 10,
                d < 10,
        ;
        v = v * 10 + d;
        j = j + 1;
    }
    assert(b@.subrange(0, b@.len() as int) =~= b@);
    Ok(v)
}

// --- posting an intent -----------------------------------------------------------------------------

pub open spec fn key_id() -> Seq<u8> {
    seq![105u8, 100u8]
}

pub open spec fn key_resource() -> Seq<u8> {
    seq![114u8, 101u8, 115u8, 111u8, 117u8, 114u8, 99u8, 101u8]
}

pub open spec fn key_action() -> Seq<u8> {
    seq![97u8, 99u8, 116u8, 105u8, 111u8, 110u8]
}

pub open spec fn key_rationale() -> Seq<u8> {
    seq![114u8, 97u8, 116u8, 105u8, 111u8, 110u8, 97u8, 108u8, 101u8]
}

pub open spec fn key_subject() -> Seq<u8> {
    seq![115u8, 117u8, 98u8, 106u8, 101u8, 99u8, 116u8]
}

/// The contents of a field's string value.
pub open spec fn field(b: Seq<u8>, key: Seq<u8>) -> Option<Seq<u8>> {
    match json_get(b, key) {
        Some((s, e)) => Some(b.subrange(s, e)),
        None => None,
    }
}

/// The fields a well-formed request carries: the intent id (the first 16 of
/// the 32 bytes the id field encodes) and the resource. None when the body
/// is too long, a field is missing, the action is empty or longer than
/// MAX_ACTION, or the subject or the id is not 64 hex digits.
pub open spec fn request_fields(b: Seq<u8>) -> Option<(Seq<u8>, Seq<u8>)> {
    if b.len() > BODY_MAX {
        None
    } else if field(b, key_id()) is None || field(b, key_resource()) is None || field(b, key_action()) is None {
        None
    } else if field(b, key_action())->Some_0.len() == 0 || field(b, key_action())->Some_0.len() > MAX_ACTION {
        None
    } else if field(b, key_rationale()) is None || field(b, key_subject()) is None {
        None
    } else if field(b, key_subject())->Some_0.len() != SUBJ_HEX_LEN || !is_hex(field(b, key_subject())->Some_0) {
        None
    } else if field(b, key_id())->Some_0.len() != ID_HEX_LEN || !is_hex(field(b, key_id())->Some_0) {
        None
    } else {
        Some((hex_decode(field(b, key_id())->Some_0).subrange(0, 16), field(b, key_resource())->Some_0))
    }
}

fn require_field<'a>(body: &'a [u8], key: &[u8]) -> (r: Result<&'a [u8], ApiError>)
    ensures
        match field(body@, key@) {
            Some(v) => r is Ok && r->Ok_0@ == v,
            None => r == Err::<&'a [u8], ApiError>(ApiError::BadRequest),
        },
{
    match flat_json_get(body, key) {
        Some(v) => Ok(v),
        None => Err(ApiError::BadRequest),
    }
}

fn request_of(b: &[u8]) -> (r: Result<([u8; intent::LEN_INTENT_ID], &[u8]), ApiError>)
    ensures
        match request_fields(b@) {
            Some((id, res)) => r is Ok && r->Ok_0.0@ == id && r->Ok_0.1@ == res,
            None => r == Err::<([u8; intent::LEN_INTENT_ID], &[u8]), ApiError>(ApiError::BadRequest),
        },
{
    if b.len() > BODY_MAX {
        return Err(ApiError::BadRequest);
    }
    let k_id: [u8; 2] = [105, 100];
    let k_resource: [u8; 8] = [114, 101, 115, 111, 117, 114, 99, 101];
    let k_action: [u8; 6] = [97, 99, 116, 105, 111, 110];
    let k_rationale: [u8; 9] = [114, 97, 116, 105, 111, 110, 97, 108, 101];
    let k_subject: [u8; 7] = [115, 117, 98, 106, 101, 99, 116];
    assert(k_id@ =~= key_id());
    assert(k_resource@ =~= key_resource());
    assert(k_action@ =~= key_action());
    assert(k_rationale@ =~= key_rationale());
    assert(k_subject@ =~= key_subject());
    let id = require_field(b, &k_id)?;
    let resource = require_field(b, &k_resource)?;
    let action = require_field(b, &k_action)?;
    if action.len() == 0 || action.len() > MAX_ACTION as usize {
        return Err(ApiError::BadRequest);
    }
    let _rationale = require_field(b, &k_rationale)?;
    // The subject is required; a forged one dies later at the wire checks,
    // never silently.
    let subject = require_field(b, &k_subject)?;
    if subject.len() != SUBJ_HEX_LEN || !all_hex(subject) {
        return Err(ApiError::BadRequest);
    }
    let id_bytes = parse_id_hex_bytes(id)?;
    let mut intent_id = [0u8;16];
    let mut i: usize = 0;
    while i < intent::LEN_INTENT_ID
        invariant
            i <= 16,
            id_bytes@.len() == 32,
            forall|k: int| 0 <= k < i ==> intent_id@[k] == id_bytes@[k],
        decreases 16 - i,
    {
        intent_id[i] = id_bytes[i];
        i = i + 1;
    }
    assert(intent_id@ =~= id_bytes@.subrange(0, 16));
    Ok((intent_id, resource))
}

/// Whether posting `body` admits a new intent: its fields parse, the
/// resource resolves, and the table admits it.
pub open spec fn post_admits(body: Seq<u8>, resolver: Resolver, entries: Seq<intent::Entry>) -> bool {
    match request_fields(body) {
        None => false,
        Some((id, res)) => match resolver.spec_resolve(res) {
            Err(_) => false,
            Ok(c) => intent::spec_admit(entries, id, c) is Ok,
        },
    }
}

/// Posts an intent: the request's fields, then the same resolve-and-admit
/// the wire path uses. Only this path counts admissions in the metrics and
/// publishes `IntentAdmitted`. A duplicate intent id is an idempotent accept.
pub fn post_intent(
    body: &str,
    resolver: &mut Resolver,
    intent_table: &mut intent::Table,
    metrics: &mut Metrics,
    ring: &mut EventRing,
    now_ms: u64,
) -> (r: Result<IntentOutcome, ApiError>)
    requires
        old(resolver).wf(),
        old(intent_table).lengths_ok(),
        old(ring).wf(),
        post_admits(body.spec_bytes(), *old(resolver), old(intent_table).entries@) ==> old(ring).next()
            < u64::MAX && old(metrics).admitted_total < u64::MAX,
    ensures
        *final(resolver) == *old(resolver),
        final(ring).wf(),
        old(intent_table).wf() ==> final(intent_table).wf(),
        match request_fields(body.spec_bytes()) {
            None => r == Err::<IntentOutcome, ApiError>(ApiError::BadRequest)
                && final(intent_table).entries@ == old(intent_table).entries@ && final(metrics).admitted_total
                == old(metrics).admitted_total && final(ring).log() == old(ring).log(),
            Some((id, res)) => match old(resolver).spec_resolve(res) {
                Err(e) => r == Err::<IntentOutcome, ApiError>(api_error_of(e))
                    && final(intent_table).entries@ == old(intent_table).entries@
                    && final(metrics).admitted_total == old(metrics).admitted_total
                    && final(ring).log() == old(ring).log(),
                Ok(c) => match intent::spec_admit(old(intent_table).entries@, id, c) {
                    Err(IntentError::DuplicateIntentId) => r == Ok::<IntentOutcome, ApiError>(
                        IntentOutcome::AcceptedIdempotent,
                    ) && final(intent_table).entries@ == old(intent_table).entries@
                        && final(metrics).admitted_total == old(metrics).admitted_total
                        && final(ring).log() == old(ring).log(),
                    Err(ie) => r == Err::<IntentOutcome, ApiError>(ApiError::Intent(ie))
                        && final(intent_table).entries@ == old(intent_table).entries@
                        && final(metrics).admitted_total == old(metrics).admitted_total
                        && final(ring).log() == old(ring).log(),
                    Ok(()) => r == Ok::<IntentOutcome, ApiError>(IntentOutcome::Accepted)
                        && final(intent_table).entries@.drop_last() == old(intent_table).entries@
                        && final(intent_table).entries@.last().resource() == c
                        && final(intent_table).entries@.last().intent_id@ == id
                        && final(intent_table).entries@.last().state == IntentState::Pending
                        && final(intent_table).entries@.last().admitted_ms == now_ms
                        && final(metrics).admitted_total == old(metrics).admitted_total + 1
                        && final(ring).next() == old(ring).next() + 1
                        && final(ring).log().last() == (old(ring).next(), EventTag::IntentAdmitted),
                },
            },
        },
{
    let (intent_id, resource) = request_of(body.as_bytes())?;
    match resolver.resolve_and_admit(intent_table, &intent_id, resource, now_ms) {
        Ok(()) => {
            metrics.admitted_total = metrics.admitted_total + 1;
            ring.publish(EventTag::IntentAdmitted);
            Ok(IntentOutcome::Accepted)
        },
        Err(ResolveError::Intent(IntentError::DuplicateIntentId)) => {
            // retry-safe: an idempotent accept, the counter unchanged
            Ok(IntentOutcome::AcceptedIdempotent)
        },
        Err(e) => Err(ApiError::from(e)),
    }
}

/// The first entry at or after `i` with this id (whatever its state).
pub open spec fn entry_from(s: Seq<intent::Entry>, id16: Seq<u8>, i: int) -> Option<int>
    decreases s.len() - i,
{
    if i < 0 || i >= s.len() {
        None
    } else if s[i].intent_id@ == id16 {
        Some(i)
    } else {
        entry_from(s, id16, i + 1)
    }
}

pub open spec fn entry_for(s: Seq<intent::Entry>, id16: Seq<u8>) -> Option<int> {
    entry_from(s, id16, 0)
}

proof fn lemma_entry_from_bounds(s: Seq<intent::Entry>, id16: Seq<u8>, i: int)
    ensures
        entry_from(s, id16, i) matches Some(k) ==> 0 <= i <= k < s.len(),
    decreases s.len() - i,
{
    if !(i < 0 || i >= s.len()) && s[i].intent_id@ != id16 {
        lemma_entry_from_bounds(s, id16, i + 1);
    }
}

pub open spec fn state_name(st: IntentState) -> Seq<char> {
    match st {
        IntentState::Pending => "pending"@,
        IntentState::Executing => "executing"@,
        IntentState::Rejected => "rejected"@,
        IntentState::Expired => "expired"@,
    }
}

/// The state of the intent whose id is the first 16 of these 32 bytes.
pub fn get_intent_state(id_bytes: &[u8; 32], intent_table: &intent::Table) -> (r: Result<&'static str, ApiError>)
    ensures
        match entry_for(intent_table.entries@, id_bytes@.subrange(0, 16)) {
            Some(i) => r is Ok && r->Ok_0@ == state_name(intent_table.entries@[i].state),
            None => r == Err::<&'static str, ApiError>(ApiError::NotFound),
        },
{
    let id16 = &id_bytes[0..16];
    assert(id16@ =~= id_bytes@.subrange(0, 16));
    proof {
        lemma_entry_from_bounds(intent_table.entries@, id16@, 0);
    }
    match find_entry(intent_table, id16) {
        Some(i) => {
            let st = intent_table.entries[i].state;
            let name: &'static str = match st {
                IntentState::Pending => "pending",
                IntentState::Executing => "executing",
                IntentState::Rejected => "rejected",
                IntentState::Expired => "expired",
            };
            assert(name@ == state_name(st));
            Ok(name)
        },
        None => Err(ApiError::NotFound),
    }
}

fn find_entry(intent_table: &intent::Table, id16: &[u8]) -> (r: Option<usize>)
    ensures
        r matches Some(k) ==> entry_for(intent_table.entries@, id16@) == Some(k as int) && k
            < intent_table.entries@.len(),
        r is None ==> entry_for(intent_table.entries@, id16@) is None,
{
    let mut i: usize = 0;
    while i < intent_table.entries.len()
        invariant
            i <= intent_table.entries@.len(),
            entry_for(intent_table.entries@, id16@) == entry_from(intent_table.entries@, id16@, i as int),
        decreases intent_table.entries@.len() - i,
    {
        if crate::codec::bytes_eq(intent_table.entries[i].intent_id.as_slice(), id16) {
            return Some(i);
        }
        i = i + 1;
    }
    None
}

// --- response bodies ----------------------------------------------------------------------------------

/// The decimal digits of `v`.
pub open spec fn dec_chars(v: nat) -> Seq<char>
    decreases v,
{
    if v < 10 {
        seq![(48 + v) as char]
    } else {
        dec_chars(v / 10).push((48 + v % 10) as char)
    }
}

fn digit_str(d: u64) -> (s: &'static str)
    requires
        d < 10,
    ensures
        s@ == seq![(48 + d) as char],
{
    proof {
        reveal_strlit("0");
        reveal_strlit("1");
        reveal_strlit("2");
        reveal_strlit("3");
        reveal_strlit("4");
        reveal_strlit("5");
        reveal_strlit("6");
        reveal_strlit("7");
        reveal_strlit("8");
        reveal_strlit("9");
    }
    if d == 0 {
        "0"
    } else if d == 1 {
        "1"
    } else if d == 2 {
        "2"
    } else if d == 3 {
        "3"
    } else if d == 4 {
        "4"
    } else if d == 5 {
        "5"
    } else if d == 6 {
        "6"
    } else if d == 7 {
        "7"
    } else if d == 8 {
        "8"
    } else {
        "9"
    }
}

pub(crate) fn push_decimal(out: &mut String, v: u64)
    ensures
        final(out)@ == old(out)@ + dec_chars(v as nat),
    decreases v,
{
    if v >= 10 {
        push_decimal(out, v / 10);
    }
    out.append(digit_str(v % 10));
    assert(final(out)@ =~= old(out)@ + dec_chars(v as nat));
}

/// One metrics line: `name value\n`.
pub open spec fn metric_line(name: Seq<char>, v: u64) -> Seq<char> {
    name + " "@ + dec_chars(v as nat) + "\n"@
}

pub open spec fn spec_metrics_body(admitted_total: u64, ctl_requests: u64, ctl_auth_refused: u64, ctl_timeouts: u64) -> Seq<char> {
    metric_line("bolina_intents_admitted_total"@, admitted_total) + metric_line(
        "bolina_ctl_requests_total"@,
        ctl_requests,
    ) + metric_line("bolina_ctl_auth_refused_total"@, ctl_auth_refused) + metric_line(
        "bolina_ctl_timeouts_total"@,
        ctl_timeouts,
    )
}

fn push_metric(out: &mut String, name: &str, v: u64)
    ensures
        final(out)@ == old(out)@ + metric_line(name@, v),
{
    out.append(name);
    out.append(" ");
    push_decimal(out, v);
    out.append("\n");
    assert(final(out)@ =~= old(out)@ + metric_line(name@, v));
}

/// The Prometheus text body. The counter names are fixed; the control-plane
/// counters come from the arguments, since the wire path passes real totals.
pub fn metrics_body(admitted_total: u64, ctl_requests: u64, ctl_auth_refused: u64, ctl_timeouts: u64) -> (s: String)
    ensures
        s@ == spec_metrics_body(admitted_total, ctl_requests, ctl_auth_refused, ctl_timeouts),
{
    let mut out = String::new();
    push_metric(&mut out, "bolina_intents_admitted_total", admitted_total);
    push_metric(&mut out, "bolina_ctl_requests_total", ctl_requests);
    push_metric(&mut out, "bolina_ctl_auth_refused_total", ctl_auth_refused);
    push_metric(&mut out, "bolina_ctl_timeouts_total", ctl_timeouts);
    assert(out@ =~= spec_metrics_body(admitted_total, ctl_requests, ctl_auth_refused, ctl_timeouts));
    out
}

/// One SSE event: `event: tag\ndata: seq\n\n`.
pub open spec fn sse_event(e: (u64, EventTag)) -> Seq<char> {
    "event: "@ + tag_name(e.1) + "\ndata: "@ + dec_chars(e.0 as nat) + "\n\n"@
}

pub open spec fn sse_text(s: Seq<(u64, EventTag)>) -> Seq<char>
    decreases s.len(),
{
    if s.len() == 0 {
        Seq::empty()
    } else {
        sse_text(s.drop_last()) + sse_event(s.last())
    }
}

/// The events after the cursor, as server-sent events; each ends in a
/// blank line.
pub fn events_sse_body(ring: &EventRing, since: u64) -> (s: String)
    requires
        ring.wf(),
    ensures
        s@ == sse_text(ring.log().filter(|e: (u64, EventTag)| e.0 > since)),
{
    let evs = ring.since(since);
    let mut out = String::new();
    let mut i: usize = 0;
    while i < evs.len()
        invariant
            i <= evs@.len(),
            out@ == sse_text(evs@.subrange(0, i as int)),
        decreases evs@.len() - i,
    {
        let (seq, tag) = evs[i];
        out.append("event: ");
        out.append(tag.name());
        out.append("\ndata: ");
        push_decimal(&mut out, seq);
        out.append("\n\n");
        proof {
            assert(evs@.subrange(0, i + 1).drop_last() =~= evs@.subrange(0, i as int));
        }
        i = i + 1;
    }
    assert(evs@.subrange(0, evs@.len() as int) =~= evs@);
    out
}

/// A post repeated while the intent it admitted is still PENDING is an
/// idempotent accept: it admits nothing (so `post_intent` needs no room in
/// its counters for it), and when the resource resolves, `post_intent`
/// answers `AcceptedIdempotent` and leaves the table, the metrics and the
/// event log as they were.
pub proof fn lemma_repeat_post_is_idempotent(body: Seq<u8>, resolver: Resolver, entries: Seq<intent::Entry>, k: int)
    requires
        request_fields(body) is Some,
        0 <= k < entries.len(),
        entries[k].intent_id@ == request_fields(body)->Some_0.0,
        entries[k].state == IntentState::Pending,
    ensures
        !post_admits(body, resolver, entries),
        forall|res: Seq<u8>| intent::spec_admit(entries, request_fields(body)->Some_0.0, res) == Err::<(), IntentError>(
            IntentError::DuplicateIntentId,
        ),
{
    assert(entries[k].is_pending_for(request_fields(body)->Some_0.0));
}

} // verus!
