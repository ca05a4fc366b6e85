//! The control plane's bearer token: 32 random bytes made at first boot,
//! kept as 64 lowercase hex digits, compared without early exit. An absent,
//! short or corrupt token refuses every request but the health check.

use vstd::prelude::*;
use crate::codec::{hex_digit, hex_digit_of, hex_encode};
use crate::control_api::{hex_decode, hex_val, is_hex, is_hex_byte, parse_id_hex_bytes};
use crate::crypto;

verus! {

pub const TOKEN_BYTES: usize = 32;
pub const TOKEN_HEX_LEN: usize = 64;

#[derive(Debug, Clone, Copy, PartialEq, Eq, Structural)]
pub enum TokenError {
    DiskError,
}

/// 32 fresh random bytes from the operating system.
pub fn generate() -> (t: [u8; TOKEN_BYTES]) {
    crypto::random_32()
}

/// Lowercase hex, two digits per byte, high nibble first.
pub fn hex(token: &[u8; TOKEN_BYTES]) -> (out: [u8; TOKEN_HEX_LEN])
    ensures
        out@ == hex_encode(token@),
{
    let mut out: [u8; TOKEN_HEX_LEN] = [0u8; 64];
    let mut i: usize = 0;
    while i < TOKEN_BYTES
        invariant
            i <= TOKEN_BYTES,
            out@.len() == TOKEN_HEX_LEN,
            token@.len() == TOKEN_BYTES,
            forall|k: int| 0 <= k < 2 * i ==> out@[k] == hex_encode(token@)[k],
        decreases TOKEN_BYTES - i,
    {
        let b = token[i];
        out[2 * i] = hex_digit_of(b / 16);
        out[2 * i + 1] = hex_digit_of(b % 16);
        proof {
            assert((2 * i as int) / 2 == i && (2 * i as int) % 2 == 0);
            assert((2 * i as int + 1) / 2 == i && (2 * i as int + 1) % 2 == 1);
        }
        i = i + 1;
    }
    assert(out@ =~= hex_encode(token@));
    out
}

/// Whether `provided` is exactly the expected hex token. Every byte is
/// compared, whatever the first difference.
pub fn verify(provided: &[u8], expected: &[u8; TOKEN_HEX_LEN]) -> (ok: bool)
    ensures
        ok == (provided@ == expected@),
{
    if provided.len() != TOKEN_HEX_LEN {
        return false;
    }
    let mut diff: u8 = 0;
    let mut i: usize = 0;
    while i < TOKEN_HEX_LEN
        invariant
            provided@.len() == TOKEN_HEX_LEN,
            expected@.len() == TOKEN_HEX_LEN,
            i <= TOKEN_HEX_LEN,
            (diff == 0) == (forall|k: int| 0 <= k < i ==> provided@[k] == expected@[k]),
        decreases TOKEN_HEX_LEN - i,
    {
        let a = provided[i];
        let b = expected[i];
        assert(((diff | (a ^ b)) == 0u8) == (diff == 0u8 && a == b)) by (bit_vector);
        diff = diff | (a ^ b);
        i = i + 1;
    }
    assert((diff == 0) ==> provided@ =~= expected@);
    diff == 0
}

/// The token stored as `data`: exactly 64 hex digits (either case) give
/// the 32 bytes; anything else is no token.
pub fn decode(data: &[u8]) -> (r: Option<[u8; TOKEN_BYTES]>)
    ensures
        (data@.len() == TOKEN_HEX_LEN && is_hex(data@)) ==> r is Some && r->Some_0@ == hex_decode(data@),
        !(data@.len() == TOKEN_HEX_LEN && is_hex(data@)) ==> r is None,
{
    match parse_id_hex_bytes(data) {
        Ok(t) => Some(t),
        Err(_) => None,
    }
}

/// What is stored is what is read back: decoding the hex of a token gives
/// the token.
pub proof fn lemma_hex_decode_roundtrip(token: Seq<u8>)
    requires
        token.len() == TOKEN_BYTES,
    ensures
        hex_encode(token).len() == TOKEN_HEX_LEN,
        is_hex(hex_encode(token)),
        hex_decode(hex_encode(token)) == token,
{
    let h = hex_encode(token);
    assert forall|v: u8| v < 16 implies is_hex_byte(#[trigger] hex_digit(v)) && hex_val(hex_digit(v)) == v by {}
    assert forall|i: int| 0 <= i < h.len() implies is_hex_byte(#[trigger] h[i]) by {
        assert(token[i / 2] / 16 < 16 && token[i / 2] % 16 < 16);
    }
    assert forall|i: int| 0 <= i < TOKEN_BYTES implies #[trigger] hex_decode(h)[i] == token[i] by {
        assert((2 * i) / 2 == i && (2 * i) % 2 == 0);
        assert((2 * i + 1) / 2 == i && (2 * i + 1) % 2 == 1);
        assert(token[i] / 16 < 16 && token[i] % 16 < 16);
        assert(hex_val(h[2 * i]) == token[i] / 16);
        assert(hex_val(h[2 * i + 1]) == token[i] % 16);
    }
    assert(hex_decode(h) =~= token);
}

} // verus!
