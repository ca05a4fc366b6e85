//! http_parse: control-plane HTTP/1.1 strict-subset parser.
//!
//! Incremental PURE parser: no allocation, no sockets, zero-copy via indices
//! into the caller's buffer. Strict grammar: single-SP request line, no
//! obs-fold, no space-before-colon, Content-Length framing ONLY
//! (Transfer-Encoding is a hard refuse). Each smuggling guard has its own
//! error. `spec_parse` states the grammar over the buffer's bytes.

use vstd::prelude::*;
use vstd::utf8::*;
use vstd::string::*;
use crate::codec::bytes_eq;

verus! {

pub const HEADER_CAP: usize = 8192;
pub const BODY_CAP: usize = 65536;

#[derive(Debug, Clone, Copy, PartialEq, Eq, Structural)]
pub enum Bad {
    MalformedLine,
    BadVersion,
    BadMethod,
    TransferEncoding,
    LengthRequired,
    ConflictingLength,
    ObsFold,
    SpaceBeforeColon,
    DoubleSP,
    ControlInTarget,
}

#[derive(Debug, Clone, Copy, PartialEq, Eq, Structural)]
pub enum ParseError {
    Incomplete,
    HeadersTooLarge,
    BodyTooLarge,
    BadRequest(Bad),
}

#[derive(Debug, Clone, Copy, PartialEq, Eq, Structural)]
pub enum Method {
    Get,
    Post,
}

/// Zero-copy request: offsets into the caller's buffer (token/auth checks
/// compare raw bytes, never &str).
#[derive(Debug, Clone, Copy, PartialEq, Eq, Structural)]
pub struct Request {
    pub method: Method,
    pub target_start: usize,
    pub target_end: usize,  // target excludes ?query
    pub query_start: Option<usize>,
    pub content_length: usize,
    pub body_start: usize,
}

// --- byte-string search ---------------------------------------------------

/// `needle` occurs in `hay` at offset `i`.
pub open spec fn occurs_at(hay: Seq<u8>, needle: Seq<u8>, i: int) -> bool {
    0 <= i && i + needle.len() <= hay.len() && hay.subrange(i, i + needle.len()) == needle
}

/// The first offset at or after `i` where `needle` occurs in `hay`.
pub open spec fn find_from(hay: Seq<u8>, needle: Seq<u8>, i: int) -> Option<int>
    decreases hay.len() + 1 - i,
{
    if i < 0 || i + needle.len() > hay.len() {
        None
    } else if occurs_at(hay, needle, i) {
        Some(i)
    } else {
        find_from(hay, needle, i + 1)
    }
}

/// The first offset where `needle` occurs in `hay`.
pub open spec fn find(hay: Seq<u8>, needle: Seq<u8>) -> Option<int> {
    find_from(hay, needle, 0)
}

/// The first offset at or after `i` holding the byte `c`.
pub open spec fn byte_pos_from(s: Seq<u8>, c: u8, i: int) -> Option<int>
    decreases s.len() - i,
{
    if i < 0 || i >= s.len() {
        None
    } else if s[i] == c {
        Some(i)
    } else {
        byte_pos_from(s, c, i + 1)
    }
}

pub open spec fn byte_pos(s: Seq<u8>, c: u8) -> Option<int> {
    byte_pos_from(s, c, 0)
}

/// How many bytes of `s` equal `c`.
pub open spec fn count_byte(s: Seq<u8>, c: u8) -> nat
    decreases s.len(),
{
    if s.len() == 0 {
        0
    } else {
        count_byte(s.drop_last(), c) + if s.last() == c {
            1nat
        } else {
            0nat
        }
    }
}

pub(crate) proof fn lemma_find_from_bounds(hay: Seq<u8>, needle: Seq<u8>, i: int)
    ensures
        find_from(hay, needle, i) matches Some(k) ==> i <= k && occurs_at(hay, needle, k) && (
        forall|j: int| i <= j < k ==> !occurs_at(hay, needle, j)),
    decreases hay.len() + 1 - i,
{
    if !(i < 0 || i + needle.len() > hay.len()) && !occurs_at(hay, needle, i) {
        lemma_find_from_bounds(hay, needle, i + 1);
    }
}

proof fn lemma_byte_pos_from_bounds(s: Seq<u8>, c: u8, i: int)
    ensures
        byte_pos_from(s, c, i) matches Some(k) ==> 0 <= i <= k < s.len() && s[k] == c && (forall|
            j: int,
        |
            i <= j < k ==> s[j] != c),
    decreases s.len() - i,
{
    if !(i < 0 || i >= s.len()) && s[i] != c {
        lemma_byte_pos_from_bounds(s, c, i + 1);
    }
}

/// The first offset where `needle` occurs in `hay`.
pub(crate) fn find_subslice(hay: &[u8], needle: &[u8]) -> (r: Option<usize>)
    requires
        needle@.len() > 0,
    ensures
        r matches Some(i) ==> find(hay@, needle@) == Some(i as int),
        r is None ==> find(hay@, needle@) is None,
{
    let n = needle.len();
    if n > hay.len() {
        return None;
    }
    let mut i: usize = 0;
    while i <= hay.len() - n
        invariant
            n == needle@.len(),
            n > 0,
            n <= hay@.len(),
            hay@.len() <= usize::MAX,
            i <= hay@.len() - n + 1,
            find(hay@, needle@) == find_from(hay@, needle@, i as int),
        decreases hay@.len() - i,
    {
        let mut j: usize = 0;
        let mut same = true;
        while j < n
            invariant
                n == needle@.len(),
                i + n <= hay@.len(),
                hay@.len() <= usize::MAX,
                j <= n,
                same <==> forall|k: int| 0 <= k < j ==> hay@[i + k] == needle@[k],
            decreases n - j,
        {
            if hay[i + j] != needle[j] {
                same = false;
            }
            j = j + 1;
        }
        if same {
            assert(hay@.subrange(i as int, i + n) =~= needle@);
            return Some(i);
        }
        assert(!occurs_at(hay@, needle@, i as int)) by {
            if occurs_at(hay@, needle@, i as int) {
                assert forall|k: int| 0 <= k < n implies hay@[i + k] == needle@[k] by {
                    assert(hay@.subrange(i as int, i + n)[k] == needle@[k]);
                }
            }
        }
        i = i + 1;
    }
    None
}

/// The first offset holding the byte `c`.
fn position_byte(s: &[u8], c: u8) -> (r: Option<usize>)
    ensures
        r matches Some(i) ==> byte_pos(s@, c) == Some(i as int),
        r is None ==> byte_pos(s@, c) is None,
{
    let mut i: usize = 0;
    while i < s.len()
        invariant
            i <= s@.len(),
            byte_pos(s@, c) == byte_pos_from(s@, c, i as int),
        decreases s@.len() - i,
    {
        if s[i] == c {
            return Some(i);
        }
        i = i + 1;
    }
    None
}

/// How many bytes of `s` equal `c`.
fn count_bytes(s: &[u8], c: u8) -> (n: usize)
    ensures
        n == count_byte(s@, c),
{
    let mut n: usize = 0;
    let mut i: usize = 0;
    while i < s.len()
        invariant
            i <= s@.len(),
            n == count_byte(s@.subrange(0, i as int), c),
            n <= i,
        decreases s@.len() - i,
    {
        assert(s@.subrange(0, i + 1).drop_last() =~= s@.subrange(0, i as int));
        if s[i] == c {
            n = n + 1;
        }
        i = i + 1;
    }
    assert(s@.subrange(0, s@.len() as int) =~= s@);
    n
}

/// Whether some byte of `s` is below 0x21 (a control byte or space).
fn has_control(s: &[u8]) -> (r: bool)
    ensures
        r == exists|i: int| 0 <= i < s@.len() && s@[i] < 0x21,
{
    let mut i: usize = 0;
    while i < s.len()
        invariant
            i <= s@.len(),
            forall|k: int| 0 <= k < i ==> s@[k] >= 0x21,
        decreases s@.len() - i,
    {
        if s[i] < 0x21 {
            return true;
        }
        i = i + 1;
    }
    false
}

// --- the text of Content-Length -------------------------------------------

/// Rust's `char::is_whitespace`: the code points with the Unicode
/// White_Space property.
pub open spec fn is_unicode_whitespace(c: char) -> bool {
    let u = c as u32;
    (0x09 <= u && u <= 0x0d) || u == 0x20 || u == 0x85 || u == 0xa0 || u == 0x1680 || (0x2000
        <= u && u <= 0x200a) || u == 0x2028 || u == 0x2029 || u == 0x202f || u == 0x205f || u
        == 0x3000
}

pub open spec fn trim_start_ws(s: Seq<char>) -> Seq<char>
    decreases s.len(),
{
    if s.len() > 0 && is_unicode_whitespace(s[0]) {
        trim_start_ws(s.drop_first())
    } else {
        s
    }
}

pub open spec fn trim_end_ws(s: Seq<char>) -> Seq<char>
    decreases s.len(),
{
    if s.len() > 0 && is_unicode_whitespace(s.last()) {
        trim_end_ws(s.drop_last())
    } else {
        s
    }
}

/// `str::trim`: leading and trailing whitespace removed.
pub open spec fn trim_ws(s: Seq<char>) -> Seq<char> {
    trim_end_ws(trim_start_ws(s))
}

pub open spec fn is_digit_char(c: char) -> bool {
    '0' <= c && c <= '9'
}

/// The value of a string of decimal digits.
pub open spec fn decimal_value(s: Seq<char>) -> nat
    decreases s.len(),
{
    if s.len() == 0 {
        0
    } else {
        decimal_value(s.drop_last()) * 10 + ((s.last() as u32) - ('0' as u32)) as nat
    }
}

/// `usize::from_str`: an optional `+` followed by one or more decimal
/// digits, whose value fits in a usize.
pub open spec fn parse_usize_text(s: Seq<char>) -> Option<usize> {
    let digits = if s.len() > 0 && s[0] == '+' {
        s.drop_first()
    } else {
        s
    };
    if digits.len() == 0 || !(forall|i: int| 0 <= i < digits.len() ==> is_digit_char(digits[i])) {
        None
    } else if decimal_value(digits) > usize::MAX {
        None
    } else {
        Some(decimal_value(digits) as usize)
    }
}

/// The Content-Length a header value declares: the value is UTF-8, and its
/// trimmed text is a decimal usize.
pub open spec fn content_length_value(value: Seq<u8>) -> Option<usize> {
    if valid_utf8(value) {
        parse_usize_text(trim_ws(decode_utf8(value)))
    } else {
        None
    }
}

/// Calls `std::str::from_utf8`. Trusted, per its documentation: it succeeds
/// exactly when the bytes are valid UTF-8, and the string holds those bytes.
#[verifier::external_body]
fn str_from_utf8(v: &[u8]) -> (r: Option<&str>)
    ensures
        r is Some <==> valid_utf8(v@),
        r matches Some(s) ==> s.spec_bytes() == v@,
{
    std::str::from_utf8(v).ok()
}

/// Calls `str::trim`. Trusted, per its documentation: leading and trailing
/// characters with the White_Space property are removed.
#[verifier::external_body]
fn str_trim(s: &str) -> (r: &str)
    ensures
        r@ == trim_ws(s@),
{
    s.trim()
}

/// Calls `<usize as FromStr>::from_str`. Trusted, per its documentation: an
/// optional `+` then decimal digits, refused when empty, on any other
/// character, or when the value does not fit.
#[verifier::external_body]
fn str_parse_usize(s: &str) -> (r: Option<usize>)
    ensures
        r == parse_usize_text(s@),
{
    s.parse::<usize>().ok()
}

fn content_length_of(value: &[u8]) -> (r: Option<usize>)
    ensures
        r == content_length_value(value@),
{
    match str_from_utf8(value) {
        None => None,
        Some(s) => {
            proof {
                encode_utf8_decode_utf8(s@);
            }
            str_parse_usize(str_trim(s))
        },
    }
}

// --- the grammar ----------------------------------------------------------

pub open spec fn crlf() -> Seq<u8> {
    seq![13u8, 10u8]
}

pub open spec fn crlfcrlf() -> Seq<u8> {
    seq![13u8, 10u8, 13u8, 10u8]
}

pub open spec fn http11() -> Seq<u8> {
    seq![72u8, 84u8, 84u8, 80u8, 47u8, 49u8, 46u8, 49u8]
}

pub open spec fn get_word() -> Seq<u8> {
    seq![71u8, 69u8, 84u8]
}

pub open spec fn post_word() -> Seq<u8> {
    seq![80u8, 79u8, 83u8, 84u8]
}

pub open spec fn content_length_name() -> Seq<u8> {
    seq![
        67u8, 111u8, 110u8, 116u8, 101u8, 110u8, 116u8, 45u8, 76u8, 101u8, 110u8, 103u8, 116u8,
        104u8,
    ]
}

pub open spec fn transfer_encoding_name() -> Seq<u8> {
    seq![
        84u8, 114u8, 97u8, 110u8, 115u8, 102u8, 101u8, 114u8, 45u8, 69u8, 110u8, 99u8, 111u8,
        100u8, 105u8, 110u8, 103u8,
    ]
}

/// The end of the header field that starts at `h`: the next CRLF, else the
/// end of the header block.
pub open spec fn field_end(raw: Seq<u8>, h: int) -> int {
    match find(raw.subrange(h, raw.len() as int), crlf()) {
        Some(i) => h + i,
        None => raw.len() as int,
    }
}

/// The length a declaration carries.
pub open spec fn declared_length(cl: Option<(usize, Seq<u8>)>) -> Option<usize> {
    match cl {
        Some(p) => Some(p.0),
        None => None,
    }
}

/// The declaration held as a length and the bytes that declared it.
pub open spec fn declaration(cl: Option<usize>, value: Seq<u8>) -> Option<(usize, Seq<u8>)> {
    match cl {
        Some(v) => Some((v, value)),
        None => None,
    }
}

/// The header fields from offset `h` on, with the Content-Length declared so
/// far (its value and the raw bytes that declared it): the one Content-Length
/// they declare, or the first refusal. A repeated Content-Length is accepted
/// only when its raw value bytes equal those of the first.
pub open spec fn scan_headers(raw: Seq<u8>, h: int, cl: Option<(usize, Seq<u8>)>) -> Result<Option<usize>, ParseError>
    decreases raw.len() + 2 - h,
{
    if h < 0 || h >= raw.len() {
        Ok(declared_length(cl))
    } else {
        let e = field_end(raw, h);
        let field = raw.subrange(h, e);
        if e <= h || e > raw.len() {
            Ok(declared_length(cl))
        } else if field[0] == 32 || field[0] == 9 {
            Err(ParseError::BadRequest(Bad::ObsFold))
        } else {
            match byte_pos(field, 58) {
                None => Err(ParseError::BadRequest(Bad::MalformedLine)),
                Some(colon) => if colon > 0 && field[colon - 1] == 32 {
                    Err(ParseError::BadRequest(Bad::SpaceBeforeColon))
                } else {
                    let name = field.subrange(0, colon);
                    let value = field.subrange(colon + 1, field.len() as int);
                    if name == content_length_name() {
                        match content_length_value(value) {
                            None => Err(ParseError::BadRequest(Bad::LengthRequired)),
                            Some(v) => match cl {
                                Some(prev) => if prev.1 != value {
                                    Err(ParseError::BadRequest(Bad::ConflictingLength))
                                } else {
                                    scan_headers(raw, e + 2, cl)
                                },
                                None => scan_headers(raw, e + 2, Some((v, value))),
                            },
                        }
                    } else if name == transfer_encoding_name() {
                        Err(ParseError::BadRequest(Bad::TransferEncoding))
                    } else {
                        scan_headers(raw, e + 2, cl)
                    }
                },
            }
        }
    }
}

/// The request line: the method, and the offsets of its two spaces (the
/// second relative to the byte after the first).
pub open spec fn spec_request_line(line: Seq<u8>) -> Result<(Method, int, int), ParseError> {
    match byte_pos(line, 32) {
        None => Err(ParseError::BadRequest(Bad::MalformedLine)),
        Some(sp1) => if count_byte(line, 32) != 2 {
            Err(ParseError::BadRequest(Bad::DoubleSP))
        } else {
            let rest = line.subrange(sp1 + 1, line.len() as int);
            match byte_pos(rest, 32) {
                None => Err(ParseError::BadRequest(Bad::MalformedLine)),
                Some(sp2) => {
                    let target = line.subrange(sp1 + 1, sp1 + 1 + sp2);
                    let version = rest.subrange(sp2 + 1, rest.len() as int);
                    let word = line.subrange(0, sp1);
                    if version != http11() {
                        Err(ParseError::BadRequest(Bad::BadVersion))
                    } else if word != get_word() && word != post_word() {
                        Err(ParseError::BadRequest(Bad::BadMethod))
                    } else if exists|i: int| 0 <= i < target.len() && target[i] < 0x21 {
                        Err(ParseError::BadRequest(Bad::ControlInTarget))
                    } else if word == get_word() {
                        Ok((Method::Get, sp1, sp2))
                    } else {
                        Ok((Method::Post, sp1, sp2))
                    }
                },
            }
        },
    }
}

/// The header fields of a head whose request line ends at `line_end`.
pub open spec fn headers_of(head: Seq<u8>, line_end: int) -> Seq<u8> {
    if line_end + 2 <= head.len() {
        head.subrange(line_end + 2, head.len() as int)
    } else {
        Seq::<u8>::empty()
    }
}

/// The request a buffer holds, or why it does not hold one yet or at all.
pub open spec fn spec_parse(buf: Seq<u8>) -> Result<Request, ParseError> {
    match find(buf, crlfcrlf()) {
        None => if buf.len() > HEADER_CAP {
            Err(ParseError::HeadersTooLarge)
        } else {
            Err(ParseError::Incomplete)
        },
        Some(head_end) => {
            let head = buf.subrange(0, head_end);
            let line_end = match find(head, crlf()) {
                Some(i) => i,
                None => head.len() as int,
            };
            let line = head.subrange(0, line_end);
            match spec_request_line(line) {
                Err(e) => Err(e),
                Ok((method, sp1, sp2)) => match scan_headers(headers_of(head, line_end), 0, None::<(usize, Seq<u8>)>) {
                    Err(e) => Err(e),
                    Ok(declared) => {
                        let cl = match declared {
                            Some(v) => v,
                            None => 0usize,
                        };
                        let target = line.subrange(sp1 + 1, sp1 + 1 + sp2);
                        if method == Method::Post && cl == 0 {
                            Err(ParseError::BadRequest(Bad::LengthRequired))
                        } else if cl > BODY_CAP {
                            Err(ParseError::BodyTooLarge)
                        } else {
                            let target_abs = sp1 + 1;
                            let (tgt_end, query) = match byte_pos(target, 63) {
                                Some(q) => (q, Some((target_abs + q + 1) as usize)),
                                None => (target.len() as int, None),
                            };
                            Ok(
                                Request {
                                    method,
                                    target_start: target_abs as usize,
                                    target_end: (target_abs + tgt_end) as usize,
                                    query_start: query,
                                    content_length: cl,
                                    body_start: (head_end + 4) as usize,
                                },
                            )
                        }
                    },
                },
            }
        },
    }
}

/// Request line: exactly two SPs, a known method, HTTP/1.1, no control bytes
/// in the target.
fn parse_request_line(line: &[u8]) -> (r: Result<(Method, usize, usize), ParseError>)
    ensures
        match r {
            Ok((m, a, b)) => spec_request_line(line@) == Ok::<(Method, int, int), ParseError>(
                (m, a as int, b as int),
            ),
            Err(e) => spec_request_line(line@) == Err::<(Method, int, int), ParseError>(e),
        },
{
    let sp1 = match position_byte(line, 32) {
        Some(i) => i,
        None => return Err(ParseError::BadRequest(Bad::MalformedLine)),
    };
    proof {
        lemma_byte_pos_from_bounds(line@, 32, 0);
    }
    // Strict grammar: EXACTLY two SPs; a third means a spaced target.
    if count_bytes(line, 32) != 2 {
        return Err(ParseError::BadRequest(Bad::DoubleSP));
    }
    let n = line.len();
    let rest = &line[sp1 + 1..n];
    let sp2 = match position_byte(rest, 32) {
        Some(i) => i,
        None => return Err(ParseError::BadRequest(Bad::MalformedLine)),
    };
    proof {
        lemma_byte_pos_from_bounds(rest@, 32, 0);
    }
    let target = &line[sp1 + 1..sp1 + 1 + sp2];
    let version = &rest[sp2 + 1..rest.len()];
    let http11_bytes: [u8; 8] = [72, 84, 84, 80, 47, 49, 46, 49];
    assert(http11_bytes@ =~= http11());
    if !bytes_eq(version, http11_bytes.as_slice()) {
        return Err(ParseError::BadRequest(Bad::BadVersion));
    }
    let get_bytes: [u8; 3] = [71, 69, 84];
    let post_bytes: [u8; 4] = [80, 79, 83, 84];
    assert(get_bytes@ =~= get_word());
    assert(post_bytes@ =~= post_word());
    let word = &line[0..sp1];
    let method = if bytes_eq(word, get_bytes.as_slice()) {
        Method::Get
    } else if bytes_eq(word, post_bytes.as_slice()) {
        Method::Post
    } else {
        return Err(ParseError::BadRequest(Bad::BadMethod));
    };
    if has_control(target) {
        return Err(ParseError::BadRequest(Bad::ControlInTarget));
    }
    Ok((method, sp1, sp2))
}

/// Header fields: no obs-fold, no space-before-colon, one Content-Length
/// (repeats must agree), no Transfer-Encoding.
fn scan_header_fields(headers_raw: &[u8]) -> (r: Result<Option<usize>, ParseError>)
    ensures
        r == scan_headers(headers_raw@, 0, None::<(usize, Seq<u8>)>),
{
    let crlf_bytes: [u8; 2] = [13, 10];
    assert(crlf_bytes@ =~= crlf());
    let cl_bytes: [u8; 14] = [67, 111, 110, 116, 101, 110, 116, 45, 76, 101, 110, 103, 116, 104];
    let te_bytes: [u8; 17] = [
        84,
        114,
        97,
        110,
        115,
        102,
        101,
        114,
        45,
        69,
        110,
        99,
        111,
        100,
        105,
        110,
        103,
    ];
    assert(cl_bytes@ =~= content_length_name());
    assert(te_bytes@ =~= transfer_encoding_name());
    let mut content_length: Option<usize> = None;
    let mut first_value: &[u8] = &headers_raw[0..0];
    let mut h: usize = 0;
    let ghost raw = headers_raw@;
    while h < headers_raw.len()
        invariant_except_break
            raw == headers_raw@,
            crlf_bytes@ == crlf(),
            cl_bytes@ == content_length_name(),
            te_bytes@ == transfer_encoding_name(),
            scan_headers(raw, 0, None::<(usize, Seq<u8>)>) == scan_headers(
                raw,
                h as int,
                declaration(content_length, first_value@),
            ),
        ensures
            scan_headers(raw, 0, None::<(usize, Seq<u8>)>) == Ok::<Option<usize>, ParseError>(content_length),
        decreases raw.len() + 2 - h,
    {
        // The LAST field ends at the terminator boundary, so a missing inner
        // CRLF means: field = rest.
        let ghost h_old = h as int;
        let ghost cl_old = declaration(content_length, first_value@);
        let tail = &headers_raw[h..headers_raw.len()];
        let found = find_subslice(tail, crlf_bytes.as_slice());
        proof {
            lemma_find_from_bounds(tail@, crlf(), 0);
        }
        let e = match found {
            Some(i) => h + i,
            None => headers_raw.len(),
        };
        assert(e as int == field_end(raw, h as int));
        let field = &headers_raw[h..e];
        if field.len() == 0 {
            break;
        }
        if field[0] == 32 || field[0] == 9 {
            return Err(ParseError::BadRequest(Bad::ObsFold));
        }
        let colon = match position_byte(field, 58) {
            Some(i) => i,
            None => return Err(ParseError::BadRequest(Bad::MalformedLine)),
        };
        proof {
            lemma_byte_pos_from_bounds(field@, 58, 0);
        }
        if colon > 0 && field[colon - 1] == 32 {
            return Err(ParseError::BadRequest(Bad::SpaceBeforeColon));
        }
        let name = &field[0..colon];
        let value = &field[colon + 1..field.len()];
        if bytes_eq(name, cl_bytes.as_slice()) {
            let v = match content_length_of(value) {
                Some(v) => v,
                None => return Err(ParseError::BadRequest(Bad::LengthRequired)),
            };
            match content_length {
                Some(_) => {
                    if !bytes_eq(first_value, value) {
                        return Err(ParseError::BadRequest(Bad::ConflictingLength));
                    }
                },
                None => {
                    content_length = Some(v);
                    first_value = value;
                },
            }
        } else if bytes_eq(name, te_bytes.as_slice()) {
            return Err(ParseError::BadRequest(Bad::TransferEncoding));
        }
        assert(scan_headers(raw, h_old, cl_old) == scan_headers(
            raw,
            e + 2,
            declaration(content_length, first_value@),
        ));
        if e >= headers_raw.len() {
            h = headers_raw.len();
            assert(scan_headers(raw, e + 2, declaration(content_length, first_value@)) == scan_headers(
                raw,
                h as int,
                declaration(content_length, first_value@),
            ));
        } else {
            h = e + 2;
        }
    }
    Ok(content_length)
}

/// parse(buf): pure, zero-copy; offsets index the caller's buffer.
pub fn parse(buf: &[u8]) -> (r: Result<Request, ParseError>)
    ensures
        r == spec_parse(buf@),
{
    let crlfcrlf_bytes: [u8; 4] = [13, 10, 13, 10];
    let crlf_bytes: [u8; 2] = [13, 10];
    assert(crlfcrlf_bytes@ =~= crlfcrlf());
    assert(crlf_bytes@ =~= crlf());
    // Terminator present? Growth past HEADER_CAP dies even without the
    // terminator (slowloris size guard).
    let _ = buf.len();
    let found = find_subslice(buf, crlfcrlf_bytes.as_slice());
    proof {
        lemma_find_from_bounds(buf@, crlfcrlf(), 0);
    }
    let head_end = match found {
        Some(i) => i,
        None => {
            if buf.len() > HEADER_CAP {
                return Err(ParseError::HeadersTooLarge);
            }
            return Err(ParseError::Incomplete);
        },
    };
    let head = &buf[0..head_end];
    // With zero headers the line's CRLF IS the head_end boundary.
    let found_line = find_subslice(head, crlf_bytes.as_slice());
    proof {
        lemma_find_from_bounds(head@, crlf(), 0);
    }
    let line_end = match found_line {
        Some(i) => i,
        None => head.len(),
    };
    let line = &head[0..line_end];
    let (method, sp1, sp2) = parse_request_line(line)?;
    proof {
        lemma_byte_pos_from_bounds(line@, 32, 0);
        lemma_byte_pos_from_bounds(line@.subrange(sp1 + 1, line@.len() as int), 32, 0);
    }
    let headers_raw: &[u8] = if head.len() >= 2 && line_end <= head.len() - 2 {
        &head[line_end + 2..head.len()]
    } else {
        &head[head.len()..head.len()]
    };
    assert(headers_raw@ =~= headers_of(head@, line_end as int));
    let declared = scan_header_fields(headers_raw)?;
    let content_length = match declared {
        Some(v) => v,
        None => 0,
    };
    if method == Method::Post && content_length == 0 {
        return Err(ParseError::BadRequest(Bad::LengthRequired));
    }
    // Body cap enforced AT DECLARATION TIME, before any body bytes arrive.
    if content_length > BODY_CAP {
        return Err(ParseError::BodyTooLarge);
    }
    // query split (absolute offsets into buf)
    let target = &line[sp1 + 1..sp1 + 1 + sp2];
    let target_abs = sp1 + 1;
    let q_rel = position_byte(target, 63);
    proof {
        lemma_byte_pos_from_bounds(target@, 63, 0);
    }
    let (tgt_end_rel, query_abs) = match q_rel {
        Some(q) => (q, Some(target_abs + q + 1)),
        None => (target.len(), None),
    };
    Ok(
        Request {
            method,
            target_start: target_abs,
            target_end: target_abs + tgt_end_rel,
            query_start: query_abs,
            content_length,
            body_start: head_end + 4,
        },
    )
}

proof fn lemma_byte_pos_from_none(s: Seq<u8>, c: u8, i: int)
    requires
        0 <= i,
        byte_pos_from(s, c, i) is None,
    ensures
        forall|j: int| i <= j < s.len() ==> s[j] != c,
    decreases s.len() - i,
{
    if i < s.len() {
        lemma_byte_pos_from_none(s, c, i + 1);
    }
}

/// Where a parsed request's target lies: it starts just after the first
/// space of the buffer, holds neither a space nor a '?', and ends at the
/// byte that ends the request-target's path: the second space of the
/// request line, or the first '?' of the target, which starts the query.
pub proof fn lemma_parse_target(buf: Seq<u8>)
    requires
        spec_parse(buf) is Ok,
        buf.len() <= usize::MAX,
    ensures
        ({
            let r = spec_parse(buf)->Ok_0;
            &&& 1 <= r.target_start <= r.target_end < buf.len()
            &&& buf[r.target_start - 1] == 32
            &&& forall|i: int| 0 <= i < r.target_start - 1 ==> buf[i] != 32
            &&& forall|i: int| r.target_start <= i < r.target_end ==> buf[i] != 32 && buf[i] != 63
            &&& buf[r.target_end as int] == 32 || buf[r.target_end as int] == 63
            &&& (r.query_start is Some <==> buf[r.target_end as int] == 63)
            &&& r.query_start is Some ==> r.query_start->Some_0 == r.target_end + 1
            &&& r.method == Method::Get <==> buf.subrange(0, r.target_start - 1) == get_word()
            &&& r.method == Method::Post <==> buf.subrange(0, r.target_start - 1) == post_word()
            &&& 4 <= r.body_start <= buf.len()
            &&& buf.subrange(r.body_start - 4, r.body_start as int) == crlfcrlf()
            &&& forall|j: int| 0 <= j < r.body_start - 4 ==> !occurs_at(buf, crlfcrlf(), j)
        }),
{
    let head_end = find(buf, crlfcrlf())->Some_0;
    lemma_find_from_bounds(buf, crlfcrlf(), 0);
    let head = buf.subrange(0, head_end);
    lemma_find_from_bounds(head, crlf(), 0);
    let line_end = match find(head, crlf()) {
        Some(i) => i,
        None => head.len() as int,
    };
    let line = head.subrange(0, line_end);
    let (m, sp1, sp2) = spec_request_line(line)->Ok_0;
    lemma_byte_pos_from_bounds(line, 32, 0);
    let rest = line.subrange(sp1 + 1, line.len() as int);
    lemma_byte_pos_from_bounds(rest, 32, 0);
    let target = line.subrange(sp1 + 1, sp1 + 1 + sp2);
    lemma_byte_pos_from_bounds(target, 63, 0);
    if byte_pos(target, 63) is None {
        lemma_byte_pos_from_none(target, 63, 0);
    }
    assert(forall|i: int| 0 <= i < line.len() ==> line[i] == buf[i]);
    assert(forall|i: int| 0 <= i < target.len() ==> target[i] == buf[sp1 + 1 + i]);
    assert(forall|i: int| 0 <= i < rest.len() ==> rest[i] == buf[sp1 + 1 + i]);
    let r = spec_parse(buf)->Ok_0;
    assert(0 <= sp1 < line.len());
    assert(0 <= sp2 < rest.len());
    assert(line.len() <= buf.len());
    assert(r.target_start == sp1 + 1);
    let tgt_end = match byte_pos(target, 63) {
        Some(q) => q,
        None => target.len() as int,
    };
    assert(r.target_end == sp1 + 1 + tgt_end);
    assert(buf[sp1] == 32);
    assert(rest[sp2] == 32);
    assert(forall|i: int| 0 <= i < sp2 ==> rest[i] != 32);
    assert forall|i: int| r.target_start <= i < r.target_end implies buf[i] != 32 && buf[i] != 63 by {
        assert(target[i - sp1 - 1] == buf[i]);
        assert(rest[i - sp1 - 1] == buf[i]);
    }
    assert forall|i: int| 0 <= i < r.target_start - 1 implies buf[i] != 32 by {
        assert(line[i] == buf[i]);
    }
    assert(buf.subrange(0, r.target_start - 1) == line.subrange(0, sp1));
    assert(get_word() != post_word());
    assert(buf.subrange(r.body_start - 4, r.body_start as int) =~= crlfcrlf());
    if byte_pos(target, 63) is None {
        assert(buf[r.target_end as int] == rest[sp2]);
    } else {
        let q = byte_pos(target, 63)->Some_0;
        assert(buf[r.target_end as int] == target[q]);
    }
}

} // verus!
