//! Mesh relay registration, route frames and the routing table.
//! The table dedups by overlay address first.

use vstd::prelude::*;
use crate::codec::{be32, be64, bytes_eq, copy_into, read_u32be, read_u64be, u32_bytes, u64_bytes, lemma_be32_u32_bytes, lemma_be64_u64_bytes, lemma_u32_bytes_be32, lemma_u64_bytes_be64};

verus! {

pub const MSG_RELAY_ROUTE: u8 = 5;
pub const MSG_RELAY_REGISTRATION: u8 = 6;
pub const DOMAIN_RELAY_REGISTRATION: u8 = 0x07;

pub const LEN_RELAY_ROUTE: usize = 20;
pub const LEN_RELAY_REGISTRATION: usize = 124;
pub const LEN_RESERVED: usize = 3;
pub const LEN_OVERLAY_ADDR: usize = 16;
pub const LEN_SIG: usize = 64;
pub const LEN_PADDING: usize = 16;

pub const MAX_RELAY_TABLE: usize = 4096;
pub const TIMESTAMP_SKEW: u64 = 300;
pub const MAX_EXPIRY: u64 = 86400;

#[derive(Debug, Clone, Copy, PartialEq, Eq, Structural)]
pub enum RelayError {
    WrongType,
    NonZeroReserved,
    TrailingBytes,
    Truncated,
    ExpiryTooLong,
    StaleRoute,
    UnknownRecipient,
}

// --- RelayRoute (type 5, 20 bytes) ----------------------------------------------

#[derive(Debug, Clone, Copy, PartialEq, Eq, Structural)]
pub struct RelayRoute {
    pub sender_index: u32,
    pub recipient_index: u32,
    pub timestamp: u64,
}

/// Route grammar: u8 type=5 | [3] zero | u32 sender | u32 recipient | u64 ts.
pub open spec fn spec_parse_route(b: Seq<u8>) -> Result<RelayRoute, RelayError> {
    if b.len() != LEN_RELAY_ROUTE {
        Err(RelayError::Truncated)
    } else if b[0] != MSG_RELAY_ROUTE {
        Err(RelayError::WrongType)
    } else if b[1] != 0 || b[2] != 0 || b[3] != 0 {
        Err(RelayError::NonZeroReserved)
    } else {
        Ok(
            RelayRoute {
                sender_index: be32(b.subrange(4, 8)),
                recipient_index: be32(b.subrange(8, 12)),
                timestamp: be64(b.subrange(12, 20)),
            },
        )
    }
}

pub open spec fn spec_encode_route(r: RelayRoute) -> Seq<u8> {
    seq![MSG_RELAY_ROUTE, 0u8, 0u8, 0u8] + u32_bytes(r.sender_index) + u32_bytes(r.recipient_index)
        + u64_bytes(r.timestamp)
}

fn put(out: &mut [u8], at: usize, src: &[u8])
    requires
        at + src@.len() <= old(out)@.len(),
    ensures
        final(out)@.len() == old(out)@.len(),
        forall|i: int|
            0 <= i < final(out)@.len() ==> #[trigger] final(out)@[i] == if at <= i < at + src@.len() {
                src@[i - at]
            } else {
                old(out)@[i]
            },
{
    let n = out.len();
    let mut k: usize = 0;
    while k < src.len()
        invariant
            at + src@.len() <= n,
            n == out@.len(),
            out@.len() == old(out)@.len(),
            k <= src@.len(),
            forall|i: int|
                0 <= i < out@.len() ==> #[trigger] out@[i] == if at <= i < at + k {
                    src@[i - at]
                } else {
                    old(out)@[i]
                },
        decreases src@.len() - k,
    {
        out[at + k] = src[k];
        k = k + 1;
    }
}

impl RelayRoute {
    pub fn parse(buf: &[u8]) -> (r: Result<Self, RelayError>)
        ensures
            r == spec_parse_route(buf@),
    {
        if buf.len() != LEN_RELAY_ROUTE {
            return Err(RelayError::Truncated);
        }
        if buf[0] != MSG_RELAY_ROUTE {
            return Err(RelayError::WrongType);
        }
        if buf[1] != 0 || buf[2] != 0 || buf[3] != 0 {
            return Err(RelayError::NonZeroReserved);
        }
        let s1 = &buf[4..8];
        let s2 = &buf[8..12];
        let s3 = &buf[12..20];
        assert(s1@ =~= buf@.subrange(4, 8));
        assert(s2@ =~= buf@.subrange(8, 12));
        assert(s3@ =~= buf@.subrange(12, 20));
        let sender_index = read_u32be(s1);
        let recipient_index = read_u32be(s2);
        let timestamp = read_u64be(s3);
        assert(s1@.subrange(0, 4) =~= s1@);
        assert(s2@.subrange(0, 4) =~= s2@);
        assert(s3@.subrange(0, 8) =~= s3@);
        Ok(Self { sender_index, recipient_index, timestamp })
    }

    /// Writes the 20-byte route frame at the start of `out`.
    pub fn encode(&self, out: &mut [u8])
        requires
            old(out)@.len() >= LEN_RELAY_ROUTE,
        ensures
            final(out)@ == spec_encode_route(*self) + old(out)@.subrange(
                LEN_RELAY_ROUTE as int,
                old(out)@.len() as int,
            ),
    {
        let hdr: [u8; 4] = [MSG_RELAY_ROUTE, 0, 0, 0];
        let x = self.sender_index;
        let y = self.recipient_index;
        let t = self.timestamp;
        let a: [u8; 4] = [(x >> 24u32) as u8, (x >> 16u32) as u8, (x >> 8u32) as u8, x as u8];
        let b: [u8; 4] = [(y >> 24u32) as u8, (y >> 16u32) as u8, (y >> 8u32) as u8, y as u8];
        let c: [u8; 8] = [
            (t >> 56u64) as u8,
            (t >> 48u64) as u8,
            (t >> 40u64) as u8,
            (t >> 32u64) as u8,
            (t >> 24u64) as u8,
            (t >> 16u64) as u8,
            (t >> 8u64) as u8,
            t as u8,
        ];
        assert(a@ =~= u32_bytes(x));
        assert(b@ =~= u32_bytes(y));
        assert(c@ =~= u64_bytes(t));
        put(out, 0, &hdr);
        put(out, 4, &a);
        put(out, 8, &b);
        put(out, 12, &c);
        assert(out@ =~= spec_encode_route(*self) + old(out)@.subrange(
            LEN_RELAY_ROUTE as int,
            old(out)@.len() as int,
        ));
    }
}

/// Encoding a route and parsing the frame gives the route back.
pub proof fn lemma_route_encode_parse(r: RelayRoute)
    ensures
        spec_parse_route(spec_encode_route(r)) == Ok::<RelayRoute, RelayError>(r),
{
    let b = spec_encode_route(r);
    assert(b.subrange(4, 8) =~= u32_bytes(r.sender_index));
    assert(b.subrange(8, 12) =~= u32_bytes(r.recipient_index));
    assert(b.subrange(12, 20) =~= u64_bytes(r.timestamp));
    lemma_be32_u32_bytes(r.sender_index);
    lemma_be32_u32_bytes(r.recipient_index);
    lemma_be64_u64_bytes(r.timestamp);
}

/// A frame that parses is exactly the encoding of what it parses to.
pub proof fn lemma_route_parse_encode(b: Seq<u8>)
    requires
        spec_parse_route(b) is Ok,
    ensures
        spec_encode_route(spec_parse_route(b)->Ok_0) == b,
{
    lemma_u32_bytes_be32(b.subrange(4, 8));
    lemma_u32_bytes_be32(b.subrange(8, 12));
    lemma_u64_bytes_be64(b.subrange(12, 20));
    assert(spec_encode_route(spec_parse_route(b)->Ok_0) =~= b);
}

// --- RelayRegistration (type 6, 124 bytes) -------------------------------------------

#[derive(Debug, Clone, PartialEq)]
pub struct RelayRegistration {
    pub relay_index: u32,
    pub client_index: u32,
    pub timestamp: u64,
    pub overlay_addr: [u8; LEN_OVERLAY_ADDR],
    pub expiry: u64,
    pub sig: [u8; LEN_SIG],
    pub tbs_len: usize,
}

/// Registration grammar: u8 type=6 | [3] zero | u32 relay | u32 client |
/// u64 ts | [16] overlay addr | u64 expiry (<= MAX_EXPIRY) | [64] sig |
/// [16] padding. The signed part is the first 44 bytes.
pub open spec fn registration_ok(b: Seq<u8>, r: RelayRegistration) -> bool {
    &&& r.relay_index == be32(b.subrange(4, 8))
    &&& r.client_index == be32(b.subrange(8, 12))
    &&& r.timestamp == be64(b.subrange(12, 20))
    &&& r.overlay_addr@ == b.subrange(20, 36)
    &&& r.expiry == be64(b.subrange(36, 44))
    &&& r.sig@ == b.subrange(44, 108)
    &&& r.tbs_len == 44
}

pub open spec fn registration_error(b: Seq<u8>) -> Option<RelayError> {
    if b.len() != LEN_RELAY_REGISTRATION {
        Some(RelayError::Truncated)
    } else if b[0] != MSG_RELAY_REGISTRATION {
        Some(RelayError::WrongType)
    } else if b[1] != 0 || b[2] != 0 || b[3] != 0 {
        Some(RelayError::NonZeroReserved)
    } else if be64(b.subrange(36, 44)) > MAX_EXPIRY {
        Some(RelayError::ExpiryTooLong)
    } else {
        None
    }
}

impl RelayRegistration {
    pub fn parse(buf: &[u8]) -> (r: Result<Self, RelayError>)
        ensures
            match registration_error(buf@) {
                Some(e) => r == Err::<Self, RelayError>(e),
                None => r is Ok && registration_ok(buf@, r->Ok_0),
            },
    {
        if buf.len() != LEN_RELAY_REGISTRATION {
            return Err(RelayError::Truncated);
        }
        if buf[0] != MSG_RELAY_REGISTRATION {
            return Err(RelayError::WrongType);
        }
        if buf[1] != 0 || buf[2] != 0 || buf[3] != 0 {
            return Err(RelayError::NonZeroReserved);
        }
        let s1 = &buf[4..8];
        let s2 = &buf[8..12];
        let s3 = &buf[12..20];
        let s5 = &buf[36..44];
        assert(s1@.subrange(0, 4) =~= buf@.subrange(4, 8));
        assert(s2@.subrange(0, 4) =~= buf@.subrange(8, 12));
        assert(s3@.subrange(0, 8) =~= buf@.subrange(12, 20));
        assert(s5@.subrange(0, 8) =~= buf@.subrange(36, 44));
        let relay_index = read_u32be(s1);
        let client_index = read_u32be(s2);
        let timestamp = read_u64be(s3);
        let overlay_addr: [u8; LEN_OVERLAY_ADDR] = copy_into(&buf[20..36]);
        let expiry = read_u64be(s5);
        if expiry > MAX_EXPIRY {
            return Err(RelayError::ExpiryTooLong);
        }
        let sig: [u8; LEN_SIG] = copy_into(&buf[44..108]);
        // padding at 108..124, ignored
        let tbs_len = LEN_RELAY_REGISTRATION - LEN_SIG - LEN_PADDING;  // = 44
        Ok(Self { relay_index, client_index, timestamp, overlay_addr, expiry, sig, tbs_len })
    }

    /// The signed part of the frame.
    pub fn tbs<'a>(&self, buf: &'a [u8]) -> (t: &'a [u8])
        requires
            self.tbs_len <= buf@.len(),
        ensures
            t@ == buf@.subrange(0, self.tbs_len as int),
    {
        &buf[0..self.tbs_len]
    }
}

// --- the routing table ---------------------------------------------------------------

#[derive(Debug, Clone, Copy)]
pub struct RelayEntry {
    pub overlay_addr: [u8; LEN_OVERLAY_ADDR],
    pub relay_index: u32,
    pub client_index: u32,
    pub expiry: u64,
}

pub struct RelayTable {
    entries: Vec<RelayEntry>,
}

impl RelayTable {
    pub closed spec fn entries(&self) -> Seq<RelayEntry> {
        self.entries@
    }

    /// At most MAX_RELAY_TABLE entries, one per overlay address.
    pub closed spec fn wf(&self) -> bool {
        &&& self.entries@.len() <= MAX_RELAY_TABLE
        &&& forall|i: int, j: int|
            0 <= i < j < self.entries@.len() ==> (#[trigger] self.entries@[i]).overlay_addr@ != (
            #[trigger] self.entries@[j]).overlay_addr@
    }

    pub fn new() -> (t: Self)
        ensures
            t.wf(),
            t.entries() == Seq::<RelayEntry>::empty(),
    {
        Self { entries: Vec::new() }
    }

    /// Dedup by overlay address first: the same address is refreshed in
    /// place (true); a new address at capacity is refused (false).
    pub fn insert(&mut self, entry: RelayEntry) -> (ok: bool)
        requires
            old(self).wf(),
        ensures
            final(self).wf(),
            (exists|i: int|
                0 <= i < old(self).entries().len() && (#[trigger] old(self).entries()[i]).overlay_addr@
                    == entry.overlay_addr@) ==> ok && exists|i: int|
                0 <= i < old(self).entries().len() && (#[trigger] old(self).entries()[i]).overlay_addr@
                    == entry.overlay_addr@ && final(self).entries() == old(self).entries().update(
                    i,
                    entry,
                ),
            (forall|i: int|
                0 <= i < old(self).entries().len() ==> (#[trigger] old(self).entries()[i]).overlay_addr@
                    != entry.overlay_addr@) ==> if old(self).entries().len() >= MAX_RELAY_TABLE {
                !ok && final(self).entries() == old(self).entries()
            } else {
                ok && final(self).entries() == old(self).entries().push(entry)
            },
    {
        let mut i: usize = 0;
        while i < self.entries.len()
            invariant
                self.wf(),
                *self == *old(self),
                i <= self.entries@.len(),
                forall|k: int| 0 <= k < i ==> (#[trigger] self.entries@[k]).overlay_addr@ != entry.overlay_addr@,
            decreases self.entries@.len() - i,
        {
            if bytes_eq(self.entries[i].overlay_addr.as_slice(), entry.overlay_addr.as_slice()) {
                self.entries.set(i, entry);
                proof {
                    assert forall|a: int, b: int|
                        0 <= a < b < self.entries@.len() implies (#[trigger] self.entries@[a]).overlay_addr@ != (
                        #[trigger] self.entries@[b]).overlay_addr@ by {
                        assert(old(self).entries@[a].overlay_addr@ != old(self).entries@[b].overlay_addr@);
                    }
                }
                return true;
            }
            i = i + 1;
        }
        if self.entries.len() >= MAX_RELAY_TABLE {
            return false;
        }
        self.entries.push(entry);
        true
    }

    /// The entry for an overlay address, if any.
    pub fn lookup(&self, overlay_addr: &[u8]) -> (r: Option<&RelayEntry>)
        ensures
            match r {
                Some(e) => exists|i: int|
                    0 <= i < self.entries().len() && self.entries()[i] == *e && e.overlay_addr@
                        == overlay_addr@ && forall|k: int|
                        0 <= k < i ==> (#[trigger] self.entries()[k]).overlay_addr@ != overlay_addr@,
                None => forall|k: int|
                    0 <= k < self.entries().len() ==> (#[trigger] self.entries()[k]).overlay_addr@
                        != overlay_addr@,
            },
    {
        let mut i: usize = 0;
        while i < self.entries.len()
            invariant
                i <= self.entries@.len(),
                forall|k: int| 0 <= k < i ==> (#[trigger] self.entries@[k]).overlay_addr@ != overlay_addr@,
            decreases self.entries@.len() - i,
        {
            if bytes_eq(self.entries[i].overlay_addr.as_slice(), overlay_addr) {
                assert(self.entries()[i as int] == self.entries@[i as int]);
                return Some(&self.entries[i]);
            }
            i = i + 1;
        }
        None
    }

    /// Drops every entry whose expiry is not after `now`.
    pub fn prune(&mut self, now: u64)
        requires
            old(self).wf(),
        ensures
            final(self).wf(),
            final(self).entries() == old(self).entries().filter(live_after(now)),
    {
        let mut kept: Vec<RelayEntry> = Vec::new();
        let mut i: usize = 0;
        while i < self.entries.len()
            invariant
                *self == *old(self),
                i <= self.entries@.len(),
                kept@ == self.entries@.subrange(0, i as int).filter(live_after(now)),
            decreases self.entries@.len() - i,
        {
            let e = self.entries[i];
            proof {
                reveal_with_fuel(Seq::filter, 1);
                assert(self.entries@.subrange(0, i + 1).drop_last() =~= self.entries@.subrange(0, i as int));
            }
            if e.expiry > now {
                kept.push(e);
            }
            i = i + 1;
        }
        assert(self.entries@.subrange(0, self.entries@.len() as int) =~= self.entries@);
        proof {
            lemma_filter_distinct(self.entries@, now);
        }
        self.entries = kept;
    }

    pub fn count(&self) -> (n: usize)
        ensures
            n == self.entries().len(),
    {
        self.entries.len()
    }
}

/// An entry is kept while its expiry is after `now`.
pub open spec fn live_after(now: u64) -> spec_fn(RelayEntry) -> bool {
    |e: RelayEntry| e.expiry > now
}

/// Filtering keeps the table's invariant.
proof fn lemma_filter_distinct(s: Seq<RelayEntry>, now: u64)
    requires
        s.len() <= MAX_RELAY_TABLE,
        forall|i: int, j: int| 0 <= i < j < s.len() ==> (#[trigger] s[i]).overlay_addr@ != (#[trigger] s[j]).overlay_addr@,
    ensures
        ({
            let f = s.filter(live_after(now));
            &&& f.len() <= MAX_RELAY_TABLE
            &&& forall|i: int, j: int|
                0 <= i < j < f.len() ==> (#[trigger] f[i]).overlay_addr@ != (#[trigger] f[j]).overlay_addr@
        }),
    decreases s.len(),
{
    let p = live_after(now);
    reveal_with_fuel(Seq::filter, 1);
    s.lemma_filter_len(p);
    if s.len() > 0 {
        let sd = s.drop_last();
        lemma_filter_distinct(sd, now);
        let f0 = sd.filter(p);
        if p(s.last()) {
            assert(s.filter(p) == f0.push(s.last()));
            assert forall|i: int| 0 <= i < f0.len() implies (#[trigger] f0[i]).overlay_addr@ != s.last().overlay_addr@ by {
                assert(f0.contains(f0[i]));
                sd.lemma_filter_contains_rev(p, f0[i]);
                let k = choose|k: int| 0 <= k < sd.len() && sd[k] == f0[i];
                assert(s[k].overlay_addr@ != s[s.len() - 1].overlay_addr@);
            }
        } else {
            assert(s.filter(p) == f0);
        }
    }
}

// --- forwarding -----------------------------------------------------------------------

/// What `forward_packet` answers: a stale route (timestamp more than the
/// skew away from `now`) is refused; otherwise the packet is forwarded when
/// some entry has the route's recipient as its client.
pub open spec fn spec_forward(entries: Seq<RelayEntry>, route: RelayRoute, now: u64) -> Result<(), RelayError> {
    if route.timestamp > now + TIMESTAMP_SKEW || route.timestamp + TIMESTAMP_SKEW < now {
        Err(RelayError::StaleRoute)
    } else if exists|i: int|
        0 <= i < entries.len() && (#[trigger] entries[i]).client_index == route.recipient_index {
        Ok(())
    } else {
        Err(RelayError::UnknownRecipient)
    }
}

pub fn forward_packet<'a>(table: &RelayTable, route: &RelayRoute, packet: &'a [u8], now: u64) -> (r: Result<&'a [u8], RelayError>)
    ensures
        match spec_forward(table.entries(), *route, now) {
            Ok(()) => r == Ok::<&'a [u8], RelayError>(packet),
            Err(e) => r == Err::<&'a [u8], RelayError>(e),
        },
{
    let ts = route.timestamp;
    if (ts >= TIMESTAMP_SKEW && ts - TIMESTAMP_SKEW > now) || (now >= TIMESTAMP_SKEW && ts < now
        - TIMESTAMP_SKEW) {
        return Err(RelayError::StaleRoute);
    }
    let mut i: usize = 0;
    while i < table.entries.len()
        invariant
            !(route.timestamp > now + TIMESTAMP_SKEW || route.timestamp + TIMESTAMP_SKEW < now),
            i <= table.entries@.len(),
            forall|k: int| 0 <= k < i ==> (#[trigger] table.entries@[k]).client_index != route.recipient_index,
        decreases table.entries@.len() - i,
    {
        if table.entries[i].client_index == route.recipient_index {
            assert(table.entries()[i as int].client_index == route.recipient_index);
            return Ok(packet);
        }
        i = i + 1;
    }
    Err(RelayError::UnknownRecipient)
}

/// Forwarding within the timestamp skew succeeds exactly when some entry of
/// the table, at any position, is registered for the route's recipient;
/// otherwise the recipient is unknown.
pub proof fn lemma_forward_finds_any_entry(entries: Seq<RelayEntry>, route: RelayRoute, now: u64, j: int)
    requires
        !(route.timestamp > now + TIMESTAMP_SKEW || route.timestamp + TIMESTAMP_SKEW < now),
    ensures
        0 <= j < entries.len() && entries[j].client_index == route.recipient_index ==> spec_forward(
            entries,
            route,
            now,
        ) == Ok::<(), RelayError>(()),
        spec_forward(entries, route, now) is Ok || spec_forward(entries, route, now) == Err::<
            (),
            RelayError,
        >(RelayError::UnknownRecipient),
        spec_forward(entries, route, now) == Err::<(), RelayError>(RelayError::UnknownRecipient) ==> forall|
            k: int,
        |
            0 <= k < entries.len() ==> entries[k].client_index != route.recipient_index,
{
    if 0 <= j < entries.len() && entries[j].client_index == route.recipient_index {
        assert(entries[j].client_index == route.recipient_index);
    }
}

/// A route whose timestamp is more than the skew away from `now`, on
/// either side, is stale whatever the table holds.
pub proof fn lemma_forward_stale(entries: Seq<RelayEntry>, route: RelayRoute, now: u64)
    requires
        route.timestamp > now + TIMESTAMP_SKEW || route.timestamp + TIMESTAMP_SKEW < now,
    ensures
        spec_forward(entries, route, now) == Err::<(), RelayError>(RelayError::StaleRoute),
{
}

} // verus!
