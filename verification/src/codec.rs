//! codec: post-authentication channel wire formats.
//!
//! Zero-copy parsers: every returned slice aliases the caller buffer, and
//! every truncation exits through one place (`Cursor::need`). Big-endian
//! everywhere; the version byte is parsed, never rejected.
//!
//! - `Oversize` is checked BEFORE any large read.
//! - Trailing-bytes totality: exactly one message per buffer.
//! - CA keys strictly ascending: a PARSE failure, not policy.
//!
//! Each parser is specified by a `spec_parse_*` function over the input
//! bytes, each encoder by a `spec_encode_*` function over the parsed model,
//! and `lemma_*_roundtrip` proves that re-encoding a parsed message gives the
//! input back byte for byte.

use vstd::prelude::*;
use crate::crypto;

verus! {

// --- limits ---------------------------------------------------------------

pub const MAX_MESSAGE: usize = 1048576;
pub const LEN_PUBKEY: usize = 32;
pub const LEN_SIG: usize = 64;
pub const MAX_HEADER: usize = 512;
pub const MAX_BODY: u32 = 1048064;
pub const MAX_PARENTS: u8 = 4;
pub const MAX_RESOURCE: usize = 256;
pub const MAX_ACTION: u32 = 262144;
pub const MAX_RATIONALE: usize = 4096;
pub const MAX_NOTE: usize = 1024;
pub const MAX_NAME: usize = 64;
pub const MAX_SCOPE: u8 = 8;
pub const MAX_CA_SIGS: u8 = 4;

pub const LEN_CHANNEL_ID: usize = 32;
pub const LEN_PARENT: usize = 32;
pub const LEN_INTENT_ID: usize = 16;
pub const LEN_GRANT_ID: usize = 16;
pub const LEN_ACTION_DIGEST: usize = 32;
pub const LEN_SCOPE_ID: usize = 8;
pub const LEN_SPAN_REF: usize = 16;
pub const LEN_CA_KEY: usize = 32;

pub const LEN_SPAN_ID: usize = 16;
pub const LEN_TRACE_ID: usize = 16;
pub const LEN_ORIGIN: usize = 32;
pub const LEN_DIGEST: usize = 32;

// Domain tags. The verifier prefixes tag || tbs.
pub const DOMAIN_CERT: u8 = 0x01;
pub const DOMAIN_ENVELOPE: u8 = 0x02;
pub const DOMAIN_SPAN: u8 = 0x03;
pub const DOMAIN_GRANT: u8 = 0x04;
pub const DOMAIN_REFUSAL: u8 = 0x06;

// Envelope body types.
pub const BODY_UTTERANCE: u8 = 1;
pub const BODY_INTENT: u8 = 2;
pub const BODY_GRANT: u8 = 3;
pub const BODY_EFFECT: u8 = 4;
pub const BODY_REFUSAL: u8 = 6;
pub const BODY_CONTROL: u8 = 7;

// Certificate role bits.
pub const ROLE_AGENT: u8 = 2;
pub const ROLE_EXECUTOR: u8 = 4;
pub const ROLE_APPROVER: u8 = 8;

// --- errors ---------------------------------------------------------------

#[derive(Debug, Clone, Copy, PartialEq, Eq, Structural)]
pub enum ParseError {
    /// Buffer ended before a fixed field completed.
    Truncated,
    /// An attacker-influenced length exceeded its declared bound, checked
    /// BEFORE the payload read.
    Oversize,
    /// Totality: bytes after the one expected message.
    TrailingBytes,
    /// Structural canonicity failure: CA keys not strictly ascending, or
    /// ca_sig_count zero.
    Malformed,
}

// --- big-endian integers --------------------------------------------------

pub open spec fn be16(s: Seq<u8>) -> u16 {
    ((s[0] as u16) << 8u16) | (s[1] as u16)
}

pub open spec fn be32(s: Seq<u8>) -> u32 {
    ((s[0] as u32) << 24u32) | ((s[1] as u32) << 16u32) | ((s[2] as u32) << 8u32) | (s[3] as u32)
}

pub open spec fn be64(s: Seq<u8>) -> u64 {
    ((s[0] as u64) << 56u64) | ((s[1] as u64) << 48u64) | ((s[2] as u64) << 40u64) | ((s[3] as u64)
        << 32u64) | ((s[4] as u64) << 24u64) | ((s[5] as u64) << 16u64) | ((s[6] as u64) << 8u64)
        | (s[7] as u64)
}

pub open spec fn u16_bytes(v: u16) -> Seq<u8> {
    seq![(v >> 8u16) as u8, v as u8]
}

pub open spec fn u32_bytes(v: u32) -> Seq<u8> {
    seq![(v >> 24u32) as u8, (v >> 16u32) as u8, (v >> 8u32) as u8, v as u8]
}

pub open spec fn u64_bytes(v: u64) -> Seq<u8> {
    seq![
        (v >> 56u64) as u8,
        (v >> 48u64) as u8,
        (v >> 40u64) as u8,
        (v >> 32u64) as u8,
        (v >> 24u64) as u8,
        (v >> 16u64) as u8,
        (v >> 8u64) as u8,
        v as u8,
    ]
}

pub proof fn lemma_u16_bytes_be16(s: Seq<u8>)
    requires
        s.len() == 2,
    ensures
        u16_bytes(be16(s)) == s,
        be16(u16_bytes(be16(s))) == be16(s),
{
    let b0 = s[0];
    let b1 = s[1];
    assert((((((b0 as u16) << 8u16) | (b1 as u16)) >> 8u16) as u8) == b0 && ((((b0 as u16)
        << 8u16) | (b1 as u16)) as u8) == b1) by (bit_vector);
    assert(u16_bytes(be16(s)) =~= s);
}

pub proof fn lemma_u32_bytes_be32(s: Seq<u8>)
    requires
        s.len() == 4,
    ensures
        u32_bytes(be32(s)) == s,
{
    let b0 = s[0];
    let b1 = s[1];
    let b2 = s[2];
    let b3 = s[3];
    let v = ((b0 as u32) << 24u32) | ((b1 as u32) << 16u32) | ((b2 as u32) << 8u32) | (b3 as u32);
    assert(v == be32(s));
    assert(((v >> 24u32) as u8) == b0 && ((v >> 16u32) as u8) == b1 && ((v >> 8u32) as u8) == b2
        && (v as u8) == b3) by (bit_vector)
        requires
            v == ((b0 as u32) << 24u32) | ((b1 as u32) << 16u32) | ((b2 as u32) << 8u32) | (
            b3 as u32),
    ;
    assert(u32_bytes(be32(s)) =~= s);
}

pub proof fn lemma_u64_bytes_be64(s: Seq<u8>)
    requires
        s.len() == 8,
    ensures
        u64_bytes(be64(s)) == s,
{
    let b0 = s[0];
    let b1 = s[1];
    let b2 = s[2];
    let b3 = s[3];
    let b4 = s[4];
    let b5 = s[5];
    let b6 = s[6];
    let b7 = s[7];
    let v = ((b0 as u64) << 56u64) | ((b1 as u64) << 48u64) | ((b2 as u64) << 40u64) | ((
    b3 as u64) << 32u64) | ((b4 as u64) << 24u64) | ((b5 as u64) << 16u64) | ((b6 as u64)
        << 8u64) | (b7 as u64);
    assert(v == be64(s));
    assert(((v >> 56u64) as u8) == b0 && ((v >> 48u64) as u8) == b1 && ((v >> 40u64) as u8) == b2
        && ((v >> 32u64) as u8) == b3 && ((v >> 24u64) as u8) == b4 && ((v >> 16u64) as u8) == b5
        && ((v >> 8u64) as u8) == b6 && (v as u8) == b7) by (bit_vector)
        requires
            v == ((b0 as u64) << 56u64) | ((b1 as u64) << 48u64) | ((b2 as u64) << 40u64) | ((
            b3 as u64) << 32u64) | ((b4 as u64) << 24u64) | ((b5 as u64) << 16u64) | ((
            b6 as u64) << 8u64) | (b7 as u64),
    ;
    assert(u64_bytes(be64(s)) =~= s);
}

pub proof fn lemma_be16_u16_bytes(v: u16)
    ensures
        be16(u16_bytes(v)) == v,
{
    let s = u16_bytes(v);
    assert(s[0] == (v >> 8u16) as u8 && s[1] == v as u8);
    assert(((((v >> 8u16) as u8) as u16) << 8u16) | (((v as u8) as u16)) == v) by (bit_vector);
}

pub proof fn lemma_be32_u32_bytes(v: u32)
    ensures
        be32(u32_bytes(v)) == v,
{
    let s = u32_bytes(v);
    assert(s[0] == (v >> 24u32) as u8 && s[1] == (v >> 16u32) as u8 && s[2] == (v >> 8u32) as u8
        && s[3] == v as u8);
    assert(((((v >> 24u32) as u8) as u32) << 24u32) | ((((v >> 16u32) as u8) as u32) << 16u32) | ((
    ((v >> 8u32) as u8) as u32) << 8u32) | (((v as u8) as u32)) == v) by (bit_vector);
}

pub proof fn lemma_be64_u64_bytes(v: u64)
    ensures
        be64(u64_bytes(v)) == v,
{
    let s = u64_bytes(v);
    assert(s[0] == (v >> 56u64) as u8 && s[1] == (v >> 48u64) as u8 && s[2] == (v >> 40u64) as u8
        && s[3] == (v >> 32u64) as u8 && s[4] == (v >> 24u64) as u8 && s[5] == (v >> 16u64) as u8
        && s[6] == (v >> 8u64) as u8 && s[7] == v as u8);
    assert(((((v >> 56u64) as u8) as u64) << 56u64) | ((((v >> 48u64) as u8) as u64) << 48u64) | (
    (((v >> 40u64) as u8) as u64) << 40u64) | ((((v >> 32u64) as u8) as u64) << 32u64) | ((((v
        >> 24u64) as u8) as u64) << 24u64) | ((((v >> 16u64) as u8) as u64) << 16u64) | ((((v
        >> 8u64) as u8) as u64) << 8u64) | (((v as u8) as u64)) == v) by (bit_vector);
}

/// The lowercase hex digit of a nibble.
pub open spec fn hex_digit(v: u8) -> u8 {
    if v < 10 {
        (48 + v) as u8
    } else {
        (87 + v) as u8
    }
}

/// Lowercase hex rendering: two digits per byte, high nibble first.
pub open spec fn hex_encode(b: Seq<u8>) -> Seq<u8> {
    Seq::new(
        2 * b.len(),
        |i: int|
            if i % 2 == 0 {
                hex_digit(b[i / 2] / 16)
            } else {
                hex_digit(b[i / 2] % 16)
            },
    )
}

/// The lowercase hex digit of a nibble.
pub fn hex_digit_of(v: u8) -> (d: u8)
    requires
        v < 16,
    ensures
        d == hex_digit(v),
{
    if v < 10 {
        48 + v
    } else {
        87 + v
    }
}

/// Byte-string equality.
pub fn bytes_eq(a: &[u8], b: &[u8]) -> (r: bool)
    ensures
        r == (a@ == b@),
{
    if a.len() != b.len() {
        return false;
    }
    let mut i: usize = 0;
    while i < a.len()
        invariant
            a@.len() == b@.len(),
            i <= a@.len(),
            forall|k: int| 0 <= k < i ==> a@[k] == b@[k],
        decreases a@.len() - i,
    {
        if a[i] != b[i] {
            return false;
        }
        i = i + 1;
    }
    assert(a@ =~= b@);
    true
}

/// Appends `s` to `out`.
pub fn push_bytes(out: &mut Vec<u8>, s: &[u8])
    ensures
        final(out)@ == old(out)@ + s@,
{
    let mut i: usize = 0;
    while i < s.len()
        invariant
            i <= s@.len(),
            out@ == old(out)@ + s@.subrange(0, i as int),
        decreases s@.len() - i,
    {
        out.push(s[i]);
        i = i + 1;
        assert(s@.subrange(0, i as int) =~= s@.subrange(0, i - 1) + seq![s@[i - 1]]);
    }
    assert(s@.subrange(0, s@.len() as int) =~= s@);
}

pub fn push_u16be(out: &mut Vec<u8>, v: u16)
    ensures
        final(out)@ == old(out)@ + u16_bytes(v),
{
    out.push((v >> 8u16) as u8);
    out.push(v as u8);
    assert(out@ =~= old(out)@ + u16_bytes(v));
}

pub fn push_u32be(out: &mut Vec<u8>, v: u32)
    ensures
        final(out)@ == old(out)@ + u32_bytes(v),
{
    out.push((v >> 24u32) as u8);
    out.push((v >> 16u32) as u8);
    out.push((v >> 8u32) as u8);
    out.push(v as u8);
    assert(out@ =~= old(out)@ + u32_bytes(v));
}

pub fn push_u64be(out: &mut Vec<u8>, v: u64)
    ensures
        final(out)@ == old(out)@ + u64_bytes(v),
{
    out.push((v >> 56u64) as u8);
    out.push((v >> 48u64) as u8);
    out.push((v >> 40u64) as u8);
    out.push((v >> 32u64) as u8);
    out.push((v >> 24u64) as u8);
    out.push((v >> 16u64) as u8);
    out.push((v >> 8u64) as u8);
    out.push(v as u8);
    assert(out@ =~= old(out)@ + u64_bytes(v));
}

/// Copies a slice of exactly `N` bytes into an array.
pub fn copy_into<const N: usize>(src: &[u8]) -> (out: [u8; N])
    requires
        src@.len() == N,
    ensures
        out@ == src@,
{
    let mut out = [0u8; N];
    let mut i: usize = 0;
    while i < N
        invariant
            src@.len() == N,
            out@.len() == N,
            i <= N,
            forall|j: int| 0 <= j < i ==> out@[j] == src@[j],
        decreases N - i,
    {
        out[i] = src[i];
        i = i + 1;
    }
    assert(out@ =~= src@);
    out
}

/// Overwrites the front of `out` with `src`.
pub fn copy_prefix(out: &mut [u8], src: &[u8])
    requires
        src@.len() <= old(out)@.len(),
    ensures
        final(out)@ == src@ + old(out)@.subrange(src@.len() as int, old(out)@.len() as int),
{
    let mut i: usize = 0;
    while i < src.len()
        invariant
            src@.len() <= out@.len(),
            out@.len() == old(out)@.len(),
            i <= src@.len(),
            forall|j: int| 0 <= j < i ==> out@[j] == src@[j],
            forall|j: int| i <= j < out@.len() ==> out@[j] == old(out)@[j],
        decreases src@.len() - i,
    {
        out[i] = src[i];
        i = i + 1;
    }
    assert(out@ =~= src@ + old(out)@.subrange(src@.len() as int, old(out)@.len() as int));
}

/// Overwrites `out[off..off + src.len()]` with `src`.
pub fn write_at(out: &mut [u8], off: usize, src: &[u8])
    requires
        off + src@.len() <= old(out)@.len(),
    ensures
        final(out)@ == old(out)@.subrange(0, off as int) + src@ + old(out)@.subrange(
            off + src@.len(),
            old(out)@.len() as int,
        ),
{
    let mut i: usize = 0;
    while i < src.len()
        invariant
            off + src@.len() <= out@.len(),
            out@.len() == old(out)@.len(),
            i <= src@.len(),
            forall|j: int| 0 <= j < off ==> out@[j] == old(out)@[j],
            forall|j: int| 0 <= j < i ==> out@[off + j] == src@[j],
            forall|j: int| off + i <= j < out@.len() ==> out@[j] == old(out)@[j],
        decreases src@.len() - i,
    {
        let _n: usize = out.len();
        out[off + i] = src[i];
        i = i + 1;
    }
    assert(out@ =~= old(out)@.subrange(0, off as int) + src@ + old(out)@.subrange(
        off + src@.len(),
        old(out)@.len() as int,
    ));
}

/// Reads a big-endian u64 from the first eight bytes of `s`.
pub fn read_u64be(s: &[u8]) -> (v: u64)
    requires
        s@.len() >= 8,
    ensures
        v == be64(s@.subrange(0, 8)),
{
    ((s[0] as u64) << 56u64) | ((s[1] as u64) << 48u64) | ((s[2] as u64) << 40u64) | ((
    s[3] as u64) << 32u64) | ((s[4] as u64) << 24u64) | ((s[5] as u64) << 16u64) | ((s[6] as u64)
        << 8u64) | (s[7] as u64)
}

/// Reads a big-endian u32 from the first four bytes of `s`.
pub fn read_u32be(s: &[u8]) -> (v: u32)
    requires
        s@.len() >= 4,
    ensures
        v == be32(s@.subrange(0, 4)),
{
    ((s[0] as u32) << 24u32) | ((s[1] as u32) << 16u32) | ((s[2] as u32) << 8u32) | (s[3] as u32)
}

// --- cursor: every truncation exits through need() ------------------------

struct Cursor<'a> {
    buf: &'a [u8],
    pos: usize,
}

impl<'a> Cursor<'a> {
    spec fn wf(&self) -> bool {
        self.pos <= self.buf@.len() && self.buf@.len() <= usize::MAX
    }

    fn new(buf: &'a [u8]) -> (c: Self)
        ensures
            c.buf@ == buf@,
            c.pos == 0,
            c.wf(),
    {
        let _ = buf.len();
        Cursor { buf, pos: 0 }
    }

    /// The ONE truncation exit point.
    fn need(&self, n: usize) -> (r: Result<(), ParseError>)
        requires
            self.wf(),
        ensures
            r is Ok <==> self.pos + n <= self.buf@.len(),
            r is Err ==> r == Err::<(), ParseError>(ParseError::Truncated),
    {
        if self.buf.len() - self.pos >= n {
            Ok(())
        } else {
            Err(ParseError::Truncated)
        }
    }

    fn u8r(&mut self) -> (r: Result<u8, ParseError>)
        requires
            old(self).wf(),
        ensures
            final(self).buf@ == old(self).buf@,
            final(self).wf(),
            match r {
                Ok(v) => old(self).pos + 1 <= old(self).buf@.len() && v == old(self).buf@[old(self).pos as int] && final(self).pos == old(self).pos + 1,
                Err(e) => e == ParseError::Truncated && old(self).pos + 1 > old(self).buf@.len(),
            },
    {
        self.need(1)?;
        let v = self.buf[self.pos];
        self.pos = self.pos + 1;
        Ok(v)
    }

    fn u16be(&mut self) -> (r: Result<u16, ParseError>)
        requires
            old(self).wf(),
        ensures
            final(self).buf@ == old(self).buf@,
            final(self).wf(),
            match r {
                Ok(v) => old(self).pos + 2 <= old(self).buf@.len() && v == be16(
                    old(self).buf@.subrange(old(self).pos as int, old(self).pos + 2),
                ) && final(self).pos == old(self).pos + 2,
                Err(e) => e == ParseError::Truncated && old(self).pos + 2 > old(self).buf@.len(),
            },
    {
        self.need(2)?;
        let v = ((self.buf[self.pos] as u16) << 8u16) | (self.buf[self.pos + 1] as u16);
        self.pos = self.pos + 2;
        Ok(v)
    }

    fn u32be(&mut self) -> (r: Result<u32, ParseError>)
        requires
            old(self).wf(),
        ensures
            final(self).buf@ == old(self).buf@,
            final(self).wf(),
            match r {
                Ok(v) => old(self).pos + 4 <= old(self).buf@.len() && v == be32(
                    old(self).buf@.subrange(old(self).pos as int, old(self).pos + 4),
                ) && final(self).pos == old(self).pos + 4,
                Err(e) => e == ParseError::Truncated && old(self).pos + 4 > old(self).buf@.len(),
            },
    {
        self.need(4)?;
        let p = self.pos;
        let v = ((self.buf[p] as u32) << 24u32) | ((self.buf[p + 1] as u32) << 16u32) | ((
        self.buf[p + 2] as u32) << 8u32) | (self.buf[p + 3] as u32);
        self.pos = p + 4;
        Ok(v)
    }

    fn u64be(&mut self) -> (r: Result<u64, ParseError>)
        requires
            old(self).wf(),
        ensures
            final(self).buf@ == old(self).buf@,
            final(self).wf(),
            match r {
                Ok(v) => old(self).pos + 8 <= old(self).buf@.len() && v == be64(
                    old(self).buf@.subrange(old(self).pos as int, old(self).pos + 8),
                ) && final(self).pos == old(self).pos + 8,
                Err(e) => e == ParseError::Truncated && old(self).pos + 8 > old(self).buf@.len(),
            },
    {
        self.need(8)?;
        let p = self.pos;
        let v = read_u64be(&self.buf[p..p + 8]);
        self.pos = p + 8;
        Ok(v)
    }

    fn take(&mut self, n: usize) -> (r: Result<&'a [u8], ParseError>)
        requires
            old(self).wf(),
        ensures
            final(self).buf@ == old(self).buf@,
            final(self).wf(),
            match r {
                Ok(s) => old(self).pos + n <= old(self).buf@.len() && s@ == old(self).buf@.subrange(old(self).pos as int, old(self).pos + n) && final(self).pos == old(self).pos + n,
                Err(e) => e == ParseError::Truncated && old(self).pos + n > old(self).buf@.len(),
            },
    {
        self.need(n)?;
        let p = self.pos;
        let s = &self.buf[p..p + n];
        self.pos = p + n;
        Ok(s)
    }

    /// Length-prefixed field with u16 length, bound checked first.
    fn field16(&mut self, max: usize) -> (r: Result<&'a [u8], ParseError>)
        requires
            old(self).wf(),
        ensures
            final(self).buf@ == old(self).buf@,
            final(self).wf(),
            ({
                let b = old(self).buf@;
                let p = old(self).pos as int;
                match r {
                    Ok(s) => p + 2 <= b.len() && be16(b.subrange(p, p + 2)) <= max && p + 2 + be16(
                        b.subrange(p, p + 2),
                    ) <= b.len() && s@ == b.subrange(p + 2, p + 2 + be16(b.subrange(p, p + 2)))
                        && final(self).pos == p + 2 + be16(b.subrange(p, p + 2)),
                    Err(e) => if p + 2 > b.len() {
                        e == ParseError::Truncated
                    } else if be16(b.subrange(p, p + 2)) > max {
                        e == ParseError::Oversize
                    } else {
                        e == ParseError::Truncated && p + 2 + be16(b.subrange(p, p + 2)) > b.len()
                    },
                }
            }),
    {
        let len = self.u16be()? as usize;
        if len > max {
            return Err(ParseError::Oversize);
        }
        self.take(len)
    }

    /// Length-prefixed field with u32 length, bound checked first.
    fn field32(&mut self, max: u32) -> (r: Result<&'a [u8], ParseError>)
        requires
            old(self).wf(),
        ensures
            final(self).buf@ == old(self).buf@,
            final(self).wf(),
            ({
                let b = old(self).buf@;
                let p = old(self).pos as int;
                match r {
                    Ok(s) => p + 4 <= b.len() && be32(b.subrange(p, p + 4)) <= max && p + 4 + be32(
                        b.subrange(p, p + 4),
                    ) <= b.len() && s@ == b.subrange(p + 4, p + 4 + be32(b.subrange(p, p + 4)))
                        && final(self).pos == p + 4 + be32(b.subrange(p, p + 4)),
                    Err(e) => if p + 4 > b.len() {
                        e == ParseError::Truncated
                    } else if be32(b.subrange(p, p + 4)) > max {
                        e == ParseError::Oversize
                    } else {
                        e == ParseError::Truncated && p + 4 + be32(b.subrange(p, p + 4)) > b.len()
                    },
                }
            }),
    {
        let len = self.u32be()?;
        if len > max {
            return Err(ParseError::Oversize);
        }
        self.take(len as usize)
    }

    fn rest(&self) -> (s: &'a [u8])
        requires
            self.wf(),
        ensures
            s@ == self.buf@.subrange(self.pos as int, self.buf@.len() as int),
    {
        &self.buf[self.pos..self.buf.len()]
    }
}

// --- structures (all borrow the input; zero allocation) -------------------

#[derive(Debug)]
pub struct Envelope<'a> {
    pub version: u8,
    pub channel_id: &'a [u8],
    pub sender: &'a [u8],
    pub seq: u64,
    pub parent_count: u8,
    pub parents: &'a [u8],
    pub ts: u64,
    pub body_type: u8,
    pub body: &'a [u8],
    pub tbs: &'a [u8],
    pub sig: &'a [u8],
}

/// The mathematical content of an `Envelope`.
pub struct EnvelopeModel {
    pub version: u8,
    pub channel_id: Seq<u8>,
    pub sender: Seq<u8>,
    pub seq: u64,
    pub parent_count: u8,
    pub parents: Seq<u8>,
    pub ts: u64,
    pub body_type: u8,
    pub body: Seq<u8>,
    pub tbs: Seq<u8>,
    pub sig: Seq<u8>,
}

impl<'a> View for Envelope<'a> {
    type V = EnvelopeModel;

    open spec fn view(&self) -> EnvelopeModel {
        EnvelopeModel {
            version: self.version,
            channel_id: self.channel_id@,
            sender: self.sender@,
            seq: self.seq,
            parent_count: self.parent_count,
            parents: self.parents@,
            ts: self.ts,
            body_type: self.body_type,
            body: self.body@,
            tbs: self.tbs@,
            sig: self.sig@,
        }
    }
}

/// A parse result seen through the view of its value.
pub open spec fn view_result<T: View>(r: Result<T, ParseError>) -> Result<T::V, ParseError> {
    match r {
        Ok(t) => Ok(t@),
        Err(e) => Err(e),
    }
}

/// Envelope grammar:
/// u8 version | [32] channel_id | [32] sender | u64 seq | u8 parent_count(<=4)
/// parents | u64 ts | u8 body_type | u32 body_len(<=MAX_BODY) body | [64] sig
pub open spec fn spec_parse_envelope(b: Seq<u8>) -> Result<EnvelopeModel, ParseError> {
    if b.len() < 74 {
        Err(ParseError::Truncated)
    } else if b[73] > MAX_PARENTS {
        Err(ParseError::Oversize)
    } else {
        let p = 74 + 32 * (b[73] as int);
        if b.len() < p + 13 {
            Err(ParseError::Truncated)
        } else if be32(b.subrange(p + 9, p + 13)) > MAX_BODY {
            Err(ParseError::Oversize)
        } else {
            let q = p + 13 + be32(b.subrange(p + 9, p + 13)) as int;
            if b.len() < q + 64 {
                Err(ParseError::Truncated)
            } else if b.len() > q + 64 {
                Err(ParseError::TrailingBytes)
            } else {
                Ok(
                    EnvelopeModel {
                        version: b[0],
                        channel_id: b.subrange(1, 33),
                        sender: b.subrange(33, 65),
                        seq: be64(b.subrange(65, 73)),
                        parent_count: b[73],
                        parents: b.subrange(74, p),
                        ts: be64(b.subrange(p, p + 8)),
                        body_type: b[p + 8],
                        body: b.subrange(p + 13, q),
                        tbs: b.subrange(0, q),
                        sig: b.subrange(q, q + 64),
                    },
                )
            }
        }
    }
}

pub fn parse_envelope(buf: &[u8]) -> (r: Result<Envelope<'_>, ParseError>)
    ensures
        view_result(r) == spec_parse_envelope(buf@),
{
    let mut c = Cursor::new(buf);
    let version = c.u8r()?;
    let channel_id = c.take(LEN_CHANNEL_ID)?;
    let sender = c.take(LEN_PUBKEY)?;
    let seq = c.u64be()?;
    let parent_count = c.u8r()?;
    if parent_count > MAX_PARENTS {
        return Err(ParseError::Oversize);
    }
    let parents = c.take(parent_count as usize * LEN_PARENT)?;
    let ts = c.u64be()?;
    let body_type = c.u8r()?;
    let body_len = c.u32be()?;
    if body_len > MAX_BODY {
        return Err(ParseError::Oversize);
    }
    let body = c.take(body_len as usize)?;
    let tbs = &buf[0..c.pos];
    let sig = c.take(LEN_SIG)?;
    if c.rest().len() != 0 {
        return Err(ParseError::TrailingBytes);
    }
    let e = Envelope {
        version,
        channel_id,
        sender,
        seq,
        parent_count,
        parents,
        ts,
        body_type,
        body,
        tbs,
        sig,
    };
    assert(e@ =~= spec_parse_envelope(buf@)->Ok_0);
    Ok(e)
}

pub open spec fn spec_encode_envelope(e: EnvelopeModel) -> Seq<u8> {
    seq![e.version] + e.channel_id + e.sender + u64_bytes(e.seq) + seq![e.parent_count] + e.parents
        + u64_bytes(e.ts) + seq![e.body_type] + u32_bytes(e.body.len() as u32) + e.body + e.sig
}

pub fn encode_envelope(e: &Envelope<'_>) -> (out: Vec<u8>)
    ensures
        out@ == spec_encode_envelope(e@),
{
    let mut out: Vec<u8> = Vec::with_capacity(MAX_HEADER);
    out.push(e.version);
    push_bytes(&mut out, e.channel_id);
    push_bytes(&mut out, e.sender);
    push_u64be(&mut out, e.seq);
    out.push(e.parent_count);
    push_bytes(&mut out, e.parents);
    push_u64be(&mut out, e.ts);
    out.push(e.body_type);
    push_u32be(&mut out, e.body.len() as u32);
    push_bytes(&mut out, e.body);
    push_bytes(&mut out, e.sig);
    assert(out@ =~= spec_encode_envelope(e@));
    out
}

/// Re-encoding a parsed envelope gives back the exact input bytes.
pub proof fn lemma_envelope_roundtrip(b: Seq<u8>)
    requires
        spec_parse_envelope(b) is Ok,
    ensures
        spec_encode_envelope(spec_parse_envelope(b)->Ok_0) == b,
{
    let m = spec_parse_envelope(b)->Ok_0;
    let p = 74 + 32 * (b[73] as int);
    let q = p + 13 + be32(b.subrange(p + 9, p + 13)) as int;
    lemma_u64_bytes_be64(b.subrange(65, 73));
    lemma_u64_bytes_be64(b.subrange(p, p + 8));
    lemma_u32_bytes_be32(b.subrange(p + 9, p + 13));
    assert(m.body.len() == q - (p + 13));
    assert(spec_encode_envelope(m) =~= b);
}


// --- intent ---------------------------------------------------------------

#[derive(Debug)]
pub struct Intent<'a> {
    pub intent_id: &'a [u8],
    pub resource_id: &'a [u8],
    pub action: &'a [u8],
    pub rationale: &'a [u8],
}

pub struct IntentModel {
    pub intent_id: Seq<u8>,
    pub resource_id: Seq<u8>,
    pub action: Seq<u8>,
    pub rationale: Seq<u8>,
}

impl<'a> View for Intent<'a> {
    type V = IntentModel;

    open spec fn view(&self) -> IntentModel {
        IntentModel {
            intent_id: self.intent_id@,
            resource_id: self.resource_id@,
            action: self.action@,
            rationale: self.rationale@,
        }
    }
}

/// Intent body grammar:
/// [16] intent_id | u16 resource_len resource(<=256)
/// u32 action_len action(<=256KiB, opaque) | u16 rationale_len rationale(<=4KiB)
pub open spec fn spec_parse_intent(b: Seq<u8>) -> Result<IntentModel, ParseError> {
    if b.len() < 18 {
        Err(ParseError::Truncated)
    } else if be16(b.subrange(16, 18)) > MAX_RESOURCE {
        Err(ParseError::Oversize)
    } else {
        let r = 18 + be16(b.subrange(16, 18)) as int;
        if b.len() < r + 4 {
            Err(ParseError::Truncated)
        } else if be32(b.subrange(r, r + 4)) > MAX_ACTION {
            Err(ParseError::Oversize)
        } else {
            let a = r + 4 + be32(b.subrange(r, r + 4)) as int;
            if b.len() < a + 2 {
                Err(ParseError::Truncated)
            } else if be16(b.subrange(a, a + 2)) > MAX_RATIONALE {
                Err(ParseError::Oversize)
            } else {
                let e = a + 2 + be16(b.subrange(a, a + 2)) as int;
                if b.len() < e {
                    Err(ParseError::Truncated)
                } else if b.len() > e {
                    Err(ParseError::TrailingBytes)
                } else {
                    Ok(
                        IntentModel {
                            intent_id: b.subrange(0, 16),
                            resource_id: b.subrange(18, r),
                            action: b.subrange(r + 4, a),
                            rationale: b.subrange(a + 2, e),
                        },
                    )
                }
            }
        }
    }
}

pub fn parse_intent(buf: &[u8]) -> (r: Result<Intent<'_>, ParseError>)
    ensures
        view_result(r) == spec_parse_intent(buf@),
{
    let mut c = Cursor::new(buf);
    let intent_id = c.take(LEN_INTENT_ID)?;
    let resource_id = c.field16(MAX_RESOURCE)?;
    let action = c.field32(MAX_ACTION)?;
    let rationale = c.field16(MAX_RATIONALE)?;
    if c.rest().len() != 0 {
        return Err(ParseError::TrailingBytes);
    }
    let i = Intent { intent_id, resource_id, action, rationale };
    assert(i@ =~= spec_parse_intent(buf@)->Ok_0);
    Ok(i)
}

pub open spec fn spec_field16(v: Seq<u8>) -> Seq<u8> {
    u16_bytes(v.len() as u16) + v
}

pub open spec fn spec_field32(v: Seq<u8>) -> Seq<u8> {
    u32_bytes(v.len() as u32) + v
}

/// Writes a u16 length prefix, then the bytes.
fn push_field16(out: &mut Vec<u8>, v: &[u8])
    ensures
        final(out)@ == old(out)@ + spec_field16(v@),
{
    push_u16be(out, v.len() as u16);
    push_bytes(out, v);
    assert(out@ =~= old(out)@ + spec_field16(v@));
}

/// Writes a u32 length prefix, then the bytes.
fn push_field32(out: &mut Vec<u8>, v: &[u8])
    ensures
        final(out)@ == old(out)@ + spec_field32(v@),
{
    push_u32be(out, v.len() as u32);
    push_bytes(out, v);
    assert(out@ =~= old(out)@ + spec_field32(v@));
}

pub open spec fn spec_encode_intent(i: IntentModel) -> Seq<u8> {
    i.intent_id + spec_field16(i.resource_id) + spec_field32(i.action) + spec_field16(i.rationale)
}

pub fn encode_intent(i: &Intent<'_>) -> (out: Vec<u8>)
    ensures
        out@ == spec_encode_intent(i@),
{
    let mut out: Vec<u8> = Vec::new();
    push_bytes(&mut out, i.intent_id);
    push_field16(&mut out, i.resource_id);
    push_field32(&mut out, i.action);
    push_field16(&mut out, i.rationale);
    assert(out@ =~= spec_encode_intent(i@));
    out
}

/// Re-encoding a parsed intent gives back the exact input bytes.
pub proof fn lemma_intent_roundtrip(b: Seq<u8>)
    requires
        spec_parse_intent(b) is Ok,
    ensures
        spec_encode_intent(spec_parse_intent(b)->Ok_0) == b,
{
    let m = spec_parse_intent(b)->Ok_0;
    let r = 18 + be16(b.subrange(16, 18)) as int;
    let a = r + 4 + be32(b.subrange(r, r + 4)) as int;
    lemma_u16_bytes_be16(b.subrange(16, 18));
    lemma_u32_bytes_be32(b.subrange(r, r + 4));
    lemma_u16_bytes_be16(b.subrange(a, a + 2));
    assert(spec_encode_intent(m) =~= b);
}

// --- grant ----------------------------------------------------------------

#[derive(Debug)]
pub struct Grant<'a> {
    pub version: u8,
    pub grant_id: &'a [u8],
    pub intent_id: &'a [u8],
    pub approver: &'a [u8],
    pub subject: &'a [u8],
    pub executor: &'a [u8],
    pub resource_id: &'a [u8],
    pub action_digest: &'a [u8],
    pub not_after: u64,
    pub tbs: &'a [u8],
    pub sig: &'a [u8],
}

pub struct GrantModel {
    pub version: u8,
    pub grant_id: Seq<u8>,
    pub intent_id: Seq<u8>,
    pub approver: Seq<u8>,
    pub subject: Seq<u8>,
    pub executor: Seq<u8>,
    pub resource_id: Seq<u8>,
    pub action_digest: Seq<u8>,
    pub not_after: u64,
    pub tbs: Seq<u8>,
    pub sig: Seq<u8>,
}

impl<'a> View for Grant<'a> {
    type V = GrantModel;

    open spec fn view(&self) -> GrantModel {
        GrantModel {
            version: self.version,
            grant_id: self.grant_id@,
            intent_id: self.intent_id@,
            approver: self.approver@,
            subject: self.subject@,
            executor: self.executor@,
            resource_id: self.resource_id@,
            action_digest: self.action_digest@,
            not_after: self.not_after,
            tbs: self.tbs@,
            sig: self.sig@,
        }
    }
}

/// Grant grammar:
/// u8 version | [16] grant_id | [16] intent_id | [32] approver | [32] subject
/// [32] executor | u16 resource_len resource | [32] action_digest
/// u64 not_after | [64] sig
pub open spec fn spec_parse_grant(b: Seq<u8>) -> Result<GrantModel, ParseError> {
    if b.len() < 131 {
        Err(ParseError::Truncated)
    } else if be16(b.subrange(129, 131)) > MAX_RESOURCE {
        Err(ParseError::Oversize)
    } else {
        let r = 131 + be16(b.subrange(129, 131)) as int;
        if b.len() < r + 104 {
            Err(ParseError::Truncated)
        } else if b.len() > r + 104 {
            Err(ParseError::TrailingBytes)
        } else {
            Ok(
                GrantModel {
                    version: b[0],
                    grant_id: b.subrange(1, 17),
                    intent_id: b.subrange(17, 33),
                    approver: b.subrange(33, 65),
                    subject: b.subrange(65, 97),
                    executor: b.subrange(97, 129),
                    resource_id: b.subrange(131, r),
                    action_digest: b.subrange(r, r + 32),
                    not_after: be64(b.subrange(r + 32, r + 40)),
                    tbs: b.subrange(0, r + 40),
                    sig: b.subrange(r + 40, r + 104),
                },
            )
        }
    }
}

pub fn parse_grant(buf: &[u8]) -> (r: Result<Grant<'_>, ParseError>)
    ensures
        view_result(r) == spec_parse_grant(buf@),
{
    let mut c = Cursor::new(buf);
    let version = c.u8r()?;
    let grant_id = c.take(LEN_GRANT_ID)?;
    let intent_id = c.take(LEN_INTENT_ID)?;
    let approver = c.take(LEN_PUBKEY)?;
    let subject = c.take(LEN_PUBKEY)?;
    let executor = c.take(LEN_PUBKEY)?;
    let resource_id = c.field16(MAX_RESOURCE)?;
    let action_digest = c.take(LEN_ACTION_DIGEST)?;
    let not_after = c.u64be()?;
    let tbs = &buf[0..c.pos];
    let sig = c.take(LEN_SIG)?;
    if c.rest().len() != 0 {
        return Err(ParseError::TrailingBytes);
    }
    let g = Grant {
        version,
        grant_id,
        intent_id,
        approver,
        subject,
        executor,
        resource_id,
        action_digest,
        not_after,
        tbs,
        sig,
    };
    assert(g@ =~= spec_parse_grant(buf@)->Ok_0);
    Ok(g)
}

pub open spec fn spec_encode_grant(g: GrantModel) -> Seq<u8> {
    seq![g.version] + g.grant_id + g.intent_id + g.approver + g.subject + g.executor
        + spec_field16(g.resource_id) + g.action_digest + u64_bytes(g.not_after) + g.sig
}

pub fn encode_grant(g: &Grant<'_>) -> (out: Vec<u8>)
    ensures
        out@ == spec_encode_grant(g@),
{
    let mut out: Vec<u8> = Vec::new();
    out.push(g.version);
    push_bytes(&mut out, g.grant_id);
    push_bytes(&mut out, g.intent_id);
    push_bytes(&mut out, g.approver);
    push_bytes(&mut out, g.subject);
    push_bytes(&mut out, g.executor);
    push_field16(&mut out, g.resource_id);
    push_bytes(&mut out, g.action_digest);
    push_u64be(&mut out, g.not_after);
    push_bytes(&mut out, g.sig);
    assert(out@ =~= spec_encode_grant(g@));
    out
}

/// Re-encoding a parsed grant gives back the exact input bytes.
pub proof fn lemma_grant_roundtrip(b: Seq<u8>)
    requires
        spec_parse_grant(b) is Ok,
    ensures
        spec_encode_grant(spec_parse_grant(b)->Ok_0) == b,
{
    let m = spec_parse_grant(b)->Ok_0;
    let r = 131 + be16(b.subrange(129, 131)) as int;
    lemma_u16_bytes_be16(b.subrange(129, 131));
    lemma_u64_bytes_be64(b.subrange(r + 32, r + 40));
    assert(spec_encode_grant(m) =~= b);
}

// --- refusal --------------------------------------------------------------

#[derive(Debug)]
pub struct Refusal<'a> {
    pub intent_id: &'a [u8],
    pub note: &'a [u8],
    pub tbs: &'a [u8],
    pub sig: &'a [u8],
}

pub struct RefusalModel {
    pub intent_id: Seq<u8>,
    pub note: Seq<u8>,
    pub tbs: Seq<u8>,
    pub sig: Seq<u8>,
}

impl<'a> View for Refusal<'a> {
    type V = RefusalModel;

    open spec fn view(&self) -> RefusalModel {
        RefusalModel {
            intent_id: self.intent_id@,
            note: self.note@,
            tbs: self.tbs@,
            sig: self.sig@,
        }
    }
}

/// Refusal grammar: [16] intent_id | u16 note_len note(<=1KiB) | [64] sig.
/// No version field; the binding content is intent_id alone.
pub open spec fn spec_parse_refusal(b: Seq<u8>) -> Result<RefusalModel, ParseError> {
    if b.len() < 18 {
        Err(ParseError::Truncated)
    } else if be16(b.subrange(16, 18)) > MAX_NOTE {
        Err(ParseError::Oversize)
    } else {
        let n = 18 + be16(b.subrange(16, 18)) as int;
        if b.len() < n + 64 {
            Err(ParseError::Truncated)
        } else if b.len() > n + 64 {
            Err(ParseError::TrailingBytes)
        } else {
            Ok(
                RefusalModel {
                    intent_id: b.subrange(0, 16),
                    note: b.subrange(18, n),
                    tbs: b.subrange(0, n),
                    sig: b.subrange(n, n + 64),
                },
            )
        }
    }
}

pub fn parse_refusal(buf: &[u8]) -> (r: Result<Refusal<'_>, ParseError>)
    ensures
        view_result(r) == spec_parse_refusal(buf@),
{
    let mut c = Cursor::new(buf);
    let intent_id = c.take(LEN_INTENT_ID)?;
    let note = c.field16(MAX_NOTE)?;
    let tbs = &buf[0..c.pos];
    let sig = c.take(LEN_SIG)?;
    if c.rest().len() != 0 {
        return Err(ParseError::TrailingBytes);
    }
    let f = Refusal { intent_id, note, tbs, sig };
    assert(f@ =~= spec_parse_refusal(buf@)->Ok_0);
    Ok(f)
}

pub open spec fn spec_encode_refusal(r: RefusalModel) -> Seq<u8> {
    r.intent_id + spec_field16(r.note) + r.sig
}

pub fn encode_refusal(r: &Refusal<'_>) -> (out: Vec<u8>)
    ensures
        out@ == spec_encode_refusal(r@),
{
    let mut out: Vec<u8> = Vec::new();
    push_bytes(&mut out, r.intent_id);
    push_field16(&mut out, r.note);
    push_bytes(&mut out, r.sig);
    assert(out@ =~= spec_encode_refusal(r@));
    out
}

/// Re-encoding a parsed refusal gives back the exact input bytes.
pub proof fn lemma_refusal_roundtrip(b: Seq<u8>)
    requires
        spec_parse_refusal(b) is Ok,
    ensures
        spec_encode_refusal(spec_parse_refusal(b)->Ok_0) == b,
{
    let m = spec_parse_refusal(b)->Ok_0;
    lemma_u16_bytes_be16(b.subrange(16, 18));
    assert(spec_encode_refusal(m) =~= b);
}

// --- span -----------------------------------------------------------------

#[derive(Debug)]
pub struct Span<'a> {
    pub version: u8,
    pub span_id: &'a [u8],
    pub trace_id: &'a [u8],
    pub resource_id: &'a [u8],
    pub method_id: u8,
    pub volatility: u8,
    pub origin: &'a [u8],
    pub observed_at: u64,
    pub digest: &'a [u8],
    pub executor: &'a [u8],
    pub tbs: &'a [u8],
    pub sig: &'a [u8],
}

pub struct SpanModel {
    pub version: u8,
    pub span_id: Seq<u8>,
    pub trace_id: Seq<u8>,
    pub resource_id: Seq<u8>,
    pub method_id: u8,
    pub volatility: u8,
    pub origin: Seq<u8>,
    pub observed_at: u64,
    pub digest: Seq<u8>,
    pub executor: Seq<u8>,
    pub tbs: Seq<u8>,
    pub sig: Seq<u8>,
}

impl<'a> View for Span<'a> {
    type V = SpanModel;

    open spec fn view(&self) -> SpanModel {
        SpanModel {
            version: self.version,
            span_id: self.span_id@,
            trace_id: self.trace_id@,
            resource_id: self.resource_id@,
            method_id: self.method_id,
            volatility: self.volatility,
            origin: self.origin@,
            observed_at: self.observed_at,
            digest: self.digest@,
            executor: self.executor@,
            tbs: self.tbs@,
            sig: self.sig@,
        }
    }
}

/// Span grammar:
/// u8 version | [16] span_id | [16] trace_id | u16 resource_len resource
/// u8 method_id | u8 volatility | [32] origin | u64 observed_at
/// [32] digest | [32] executor | [64] sig
pub open spec fn spec_parse_span(b: Seq<u8>) -> Result<SpanModel, ParseError> {
    if b.len() < 35 {
        Err(ParseError::Truncated)
    } else if be16(b.subrange(33, 35)) > MAX_RESOURCE {
        Err(ParseError::Oversize)
    } else {
        let r = 35 + be16(b.subrange(33, 35)) as int;
        if b.len() < r + 170 {
            Err(ParseError::Truncated)
        } else if b.len() > r + 170 {
            Err(ParseError::TrailingBytes)
        } else {
            Ok(
                SpanModel {
                    version: b[0],
                    span_id: b.subrange(1, 17),
                    trace_id: b.subrange(17, 33),
                    resource_id: b.subrange(35, r),
                    method_id: b[r],
                    volatility: b[r + 1],
                    origin: b.subrange(r + 2, r + 34),
                    observed_at: be64(b.subrange(r + 34, r + 42)),
                    digest: b.subrange(r + 42, r + 74),
                    executor: b.subrange(r + 74, r + 106),
                    tbs: b.subrange(0, r + 106),
                    sig: b.subrange(r + 106, r + 170),
                },
            )
        }
    }
}

pub fn parse_span(buf: &[u8]) -> (r: Result<Span<'_>, ParseError>)
    ensures
        view_result(r) == spec_parse_span(buf@),
{
    let mut c = Cursor::new(buf);
    let version = c.u8r()?;
    let span_id = c.take(LEN_SPAN_ID)?;
    let trace_id = c.take(LEN_TRACE_ID)?;
    let resource_id = c.field16(MAX_RESOURCE)?;
    let method_id = c.u8r()?;
    let volatility = c.u8r()?;
    let origin = c.take(LEN_ORIGIN)?;
    let observed_at = c.u64be()?;
    let digest = c.take(LEN_DIGEST)?;
    let executor = c.take(LEN_PUBKEY)?;
    let tbs = &buf[0..c.pos];
    let sig = c.take(LEN_SIG)?;
    if c.rest().len() != 0 {
        return Err(ParseError::TrailingBytes);
    }
    let s = Span {
        version,
        span_id,
        trace_id,
        resource_id,
        method_id,
        volatility,
        origin,
        observed_at,
        digest,
        executor,
        tbs,
        sig,
    };
    assert(s@ =~= spec_parse_span(buf@)->Ok_0);
    Ok(s)
}

pub open spec fn spec_encode_span(s: SpanModel) -> Seq<u8> {
    seq![s.version] + s.span_id + s.trace_id + spec_field16(s.resource_id) + seq![s.method_id]
        + seq![s.volatility] + s.origin + u64_bytes(s.observed_at) + s.digest + s.executor + s.sig
}

pub fn encode_span(s: &Span<'_>) -> (out: Vec<u8>)
    ensures
        out@ == spec_encode_span(s@),
{
    let mut out: Vec<u8> = Vec::new();
    out.push(s.version);
    push_bytes(&mut out, s.span_id);
    push_bytes(&mut out, s.trace_id);
    push_field16(&mut out, s.resource_id);
    out.push(s.method_id);
    out.push(s.volatility);
    push_bytes(&mut out, s.origin);
    push_u64be(&mut out, s.observed_at);
    push_bytes(&mut out, s.digest);
    push_bytes(&mut out, s.executor);
    push_bytes(&mut out, s.sig);
    assert(out@ =~= spec_encode_span(s@));
    out
}

/// Re-encoding a parsed span gives back the exact input bytes.
pub proof fn lemma_span_roundtrip(b: Seq<u8>)
    requires
        spec_parse_span(b) is Ok,
    ensures
        spec_encode_span(spec_parse_span(b)->Ok_0) == b,
{
    let m = spec_parse_span(b)->Ok_0;
    let r = 35 + be16(b.subrange(33, 35)) as int;
    lemma_u16_bytes_be16(b.subrange(33, 35));
    lemma_u64_bytes_be64(b.subrange(r + 34, r + 42));
    assert(spec_encode_span(m) =~= b);
}


// --- certificate ----------------------------------------------------------

#[derive(Debug, Clone, Copy)]
pub struct Cert<'a> {
    pub version: u8,
    pub role_bits: u8,
    pub sig_pubkey: &'a [u8],
    pub kex_pubkey: &'a [u8],
    pub not_before: u64,
    pub not_after: u64,
    pub name: &'a [u8],
    pub scope_count: u8,
    pub scope_ids: &'a [u8],
    pub ca_sig_count: u8,
    pub ca_sigs: &'a [u8],
    pub tbs: &'a [u8],
}

pub struct CertModel {
    pub version: u8,
    pub role_bits: u8,
    pub sig_pubkey: Seq<u8>,
    pub kex_pubkey: Seq<u8>,
    pub not_before: u64,
    pub not_after: u64,
    pub name: Seq<u8>,
    pub scope_count: u8,
    pub scope_ids: Seq<u8>,
    pub ca_sig_count: u8,
    pub ca_sigs: Seq<u8>,
    pub tbs: Seq<u8>,
}

impl<'a> View for Cert<'a> {
    type V = CertModel;

    open spec fn view(&self) -> CertModel {
        CertModel {
            version: self.version,
            role_bits: self.role_bits,
            sig_pubkey: self.sig_pubkey@,
            kex_pubkey: self.kex_pubkey@,
            not_before: self.not_before,
            not_after: self.not_after,
            name: self.name@,
            scope_count: self.scope_count,
            scope_ids: self.scope_ids@,
            ca_sig_count: self.ca_sig_count,
            ca_sigs: self.ca_sigs@,
            tbs: self.tbs@,
        }
    }
}

/// Lexicographic strict order on byte strings of equal length.
pub open spec fn bytes_lt(a: Seq<u8>, b: Seq<u8>) -> bool {
    exists|i: int|
        0 <= i < a.len() && i < b.len() && a[i] < b[i] && (forall|j: int|
            0 <= j < i ==> a[j] == b[j])
}

/// `a < b` in lexicographic order, for byte strings of equal length.
fn lex_less(a: &[u8], b: &[u8]) -> (lt: bool)
    requires
        a@.len() == b@.len(),
    ensures
        lt == bytes_lt(a@, b@),
{
    let mut j: usize = 0;
    while j < a.len()
        invariant
            a@.len() == b@.len(),
            j <= a@.len(),
            forall|k: int| 0 <= k < j ==> a@[k] == b@[k],
        decreases a@.len() - j,
    {
        if a[j] != b[j] {
            if a[j] < b[j] {
                return true;
            } else {
                assert forall|i: int|
                    0 <= i < a@.len() && i < b@.len() && a@[i] < b@[i] implies !(forall|k: int|
                    0 <= k < i ==> a@[k] == b@[k]) by {
                    if i > j {
                        assert(0 <= j < i && a@[j as int] != b@[j as int]);
                    }
                }
                return false;
            }
        }
        j = j + 1;
    }
    false
}

/// The first refusal among the CA (key, signature) pairs that start at
/// `start`, from pair `i` onward: a truncated key, a key not strictly above
/// the previous one, or a truncated signature.
pub open spec fn ca_pairs_error(b: Seq<u8>, start: int, count: int, i: int) -> Option<ParseError>
    decreases count - i,
{
    if i >= count || i < 0 {
        None
    } else {
        let k = start + 96 * i;
        if b.len() < k + 32 {
            Some(ParseError::Truncated)
        } else if i > 0 && !bytes_lt(b.subrange(k - 96, k - 64), b.subrange(k, k + 32)) {
            Some(ParseError::Malformed)
        } else if b.len() < k + 96 {
            Some(ParseError::Truncated)
        } else {
            ca_pairs_error(b, start, count, i + 1)
        }
    }
}

/// Certificate grammar:
/// u8 version | u8 role | [32] sig_pub | [32] kex_pub | u64 not_before
/// u64 not_after | u16 name_len name(<=64) | u8 scope_count(<=8) scopes
/// u8 ca_sig_count(1..4) | ([32] ca_key + [64] ca_sig)*, keys STRICTLY
/// ascending. tbs = the bytes before ca_sig_count.
pub open spec fn spec_parse_cert(b: Seq<u8>) -> Result<CertModel, ParseError> {
    if b.len() < 84 {
        Err(ParseError::Truncated)
    } else if be16(b.subrange(82, 84)) > MAX_NAME {
        Err(ParseError::Oversize)
    } else {
        let n = 84 + be16(b.subrange(82, 84)) as int;
        if b.len() < n + 1 {
            Err(ParseError::Truncated)
        } else if b[n] > MAX_SCOPE {
            Err(ParseError::Oversize)
        } else {
            let t = n + 1 + 8 * (b[n] as int);
            if b.len() < t + 1 {
                Err(ParseError::Truncated)
            } else if b[t] == 0 {
                Err(ParseError::Malformed)
            } else if b[t] > MAX_CA_SIGS {
                Err(ParseError::Oversize)
            } else {
                let e = t + 1 + 96 * (b[t] as int);
                match ca_pairs_error(b, t + 1, b[t] as int, 0) {
                    Some(err) => Err(err),
                    None => if b.len() > e {
                        Err(ParseError::TrailingBytes)
                    } else {
                        Ok(
                            CertModel {
                                version: b[0],
                                role_bits: b[1],
                                sig_pubkey: b.subrange(2, 34),
                                kex_pubkey: b.subrange(34, 66),
                                not_before: be64(b.subrange(66, 74)),
                                not_after: be64(b.subrange(74, 82)),
                                name: b.subrange(84, n),
                                scope_count: b[n],
                                scope_ids: b.subrange(n + 1, t),
                                ca_sig_count: b[t],
                                ca_sigs: b.subrange(t + 1, e),
                                tbs: b.subrange(0, t),
                            },
                        )
                    },
                }
            }
        }
    }
}

/// When no pair refuses, every pair lies inside the buffer.
proof fn lemma_ca_pairs_fit(b: Seq<u8>, start: int, count: int, i: int)
    requires
        0 <= i < count,
        ca_pairs_error(b, start, count, i) is None,
    ensures
        b.len() >= start + 96 * count,
    decreases count - i,
{
    if i + 1 < count {
        lemma_ca_pairs_fit(b, start, count, i + 1);
    }
}

#[verifier::loop_isolation(false)]
pub fn parse_cert(buf: &[u8]) -> (r: Result<Cert<'_>, ParseError>)
    ensures
        view_result(r) == spec_parse_cert(buf@),
{
    let ghost b = buf@;
    let mut c = Cursor::new(buf);
    let version = c.u8r()?;
    let role_bits = c.u8r()?;
    let sig_pubkey = c.take(LEN_PUBKEY)?;
    let kex_pubkey = c.take(LEN_PUBKEY)?;
    let not_before = c.u64be()?;
    let not_after = c.u64be()?;
    let name = c.field16(MAX_NAME)?;
    let scope_count = c.u8r()?;
    if scope_count > MAX_SCOPE {
        return Err(ParseError::Oversize);
    }
    let scope_ids = c.take(scope_count as usize * LEN_SCOPE_ID)?;
    let tbs = &buf[0..c.pos];
    let ghost t = c.pos as int;
    let ca_sig_count = c.u8r()?;
    if ca_sig_count == 0 {
        return Err(ParseError::Malformed);
    }
    if ca_sig_count > MAX_CA_SIGS {
        return Err(ParseError::Oversize);
    }
    let ca_start = c.pos;
    let mut prev_key: &[u8] = &[];
    let mut i: u8 = 0;
    while i < ca_sig_count
        invariant
            c.wf(),
            c.buf@ == b,
            b.len() == buf@.len(),
            ca_start == t + 1,
            1 <= ca_sig_count <= MAX_CA_SIGS,
            b[t] == ca_sig_count,
            0 <= i <= ca_sig_count,
            c.pos == ca_start + 96 * (i as int),
            ca_pairs_error(b, t + 1, ca_sig_count as int, 0) == ca_pairs_error(
                b,
                t + 1,
                ca_sig_count as int,
                i as int,
            ),
            i > 0 ==> prev_key@ == b.subrange(c.pos - 96, c.pos - 64),
        decreases ca_sig_count - i,
    {
        let ghost k = c.pos as int;
        let ca_key = match c.take(LEN_CA_KEY) {
            Ok(k) => k,
            Err(e) => {
                assert(ca_pairs_error(b, t + 1, ca_sig_count as int, i as int) == Some(
                    ParseError::Truncated,
                ));
                return Err(e);
            },
        };
        if i > 0 && !lex_less(prev_key, ca_key) {
            assert(ca_pairs_error(b, t + 1, ca_sig_count as int, i as int) == Some(
                ParseError::Malformed,
            ));
            return Err(ParseError::Malformed);
        }
        prev_key = ca_key;
        match c.take(LEN_SIG) {
            Ok(_) => {},
            Err(e) => {
                assert(ca_pairs_error(b, t + 1, ca_sig_count as int, i as int) == Some(
                    ParseError::Truncated,
                ));
                return Err(e);
            },
        }
        assert(ca_pairs_error(b, t + 1, ca_sig_count as int, i as int) == ca_pairs_error(
            b,
            t + 1,
            ca_sig_count as int,
            i + 1,
        ));
        i = i + 1;
    }
    let ca_sigs = &buf[ca_start..c.pos];
    if c.rest().len() != 0 {
        return Err(ParseError::TrailingBytes);
    }
    let cert = Cert {
        version,
        role_bits,
        sig_pubkey,
        kex_pubkey,
        not_before,
        not_after,
        name,
        scope_count,
        scope_ids,
        ca_sig_count,
        ca_sigs,
        tbs,
    };
    assert(cert@ =~= spec_parse_cert(buf@)->Ok_0);
    Ok(cert)
}

pub open spec fn spec_encode_cert(c: CertModel) -> Seq<u8> {
    seq![c.version] + seq![c.role_bits] + c.sig_pubkey + c.kex_pubkey + u64_bytes(c.not_before)
        + u64_bytes(c.not_after) + spec_field16(c.name) + seq![c.scope_count] + c.scope_ids
        + seq![c.ca_sig_count] + c.ca_sigs
}

pub fn encode_cert(c: &Cert<'_>) -> (out: Vec<u8>)
    ensures
        out@ == spec_encode_cert(c@),
{
    let mut out: Vec<u8> = Vec::new();
    out.push(c.version);
    out.push(c.role_bits);
    push_bytes(&mut out, c.sig_pubkey);
    push_bytes(&mut out, c.kex_pubkey);
    push_u64be(&mut out, c.not_before);
    push_u64be(&mut out, c.not_after);
    push_field16(&mut out, c.name);
    out.push(c.scope_count);
    push_bytes(&mut out, c.scope_ids);
    out.push(c.ca_sig_count);
    push_bytes(&mut out, c.ca_sigs);
    assert(out@ =~= spec_encode_cert(c@));
    out
}

/// Re-encoding a parsed certificate gives back the exact input bytes.
pub proof fn lemma_cert_roundtrip(b: Seq<u8>)
    requires
        spec_parse_cert(b) is Ok,
    ensures
        spec_encode_cert(spec_parse_cert(b)->Ok_0) == b,
{
    let m = spec_parse_cert(b)->Ok_0;
    let n = 84 + be16(b.subrange(82, 84)) as int;
    let t = n + 1 + 8 * (b[n] as int);
    lemma_ca_pairs_fit(b, t + 1, b[t] as int, 0);
    lemma_u64_bytes_be64(b.subrange(66, 74));
    lemma_u64_bytes_be64(b.subrange(74, 82));
    lemma_u16_bytes_be16(b.subrange(82, 84));
    assert(spec_encode_cert(m) =~= b);
}

// --- verification: Ed25519 over domain_tag || tbs -------------------------

/// Whether `sig` is a valid signature by `signer` over `domain_tag || tbs`.
pub open spec fn spec_verify_signed(domain_tag: u8, tbs: Seq<u8>, sig: Seq<u8>, signer: Seq<u8>) -> bool {
    signer.len() == 32 && crypto::ed25519_verify_spec(signer, seq![domain_tag] + tbs, sig)
}

/// Verify `sig` over `domain_tag || tbs` with `signer`. Returns false on any
/// failure (bad key length, bad key, bad signature); never panics.
pub fn verify_signed(domain_tag: u8, tbs: &[u8], sig: &[u8], signer: &[u8]) -> (ok: bool)
    ensures
        ok == spec_verify_signed(domain_tag, tbs@, sig@, signer@),
{
    if signer.len() != LEN_PUBKEY {
        return false;
    }
    let mut input: Vec<u8> = Vec::new();
    input.push(domain_tag);
    push_bytes(&mut input, tbs);
    assert(input@ =~= seq![domain_tag] + tbs@);
    crypto::ed25519_verify(signer, input.as_slice(), sig)
}

} // verus!
