use bolina::http_parse::{parse, Bad, Method, ParseError, BODY_CAP, HEADER_CAP};

#[test]
fn body_exact_content_length() {
    let r = parse("POST /x HTTP/1.1\r\nContent-Length: 4\r\n\r\nBODYTRAILING".as_bytes()).unwrap();
    assert_eq!(r.content_length, 4);
    assert_eq!(r.body_start, "POST /x HTTP/1.1\r\nContent-Length: 4\r\n\r\n".len());
    let buf = b"POST /x HTTP/1.1\r\nContent-Length: 4\r\n\r\nBODYTRAILING";
    assert_eq!(&buf[r.body_start..r.body_start + r.content_length], b"BODY");
}

#[test]
fn incomplete_and_headers_too_large() {
    assert_eq!(parse("GET /x HTTP/1.1\r\n".as_bytes()), Err(ParseError::Incomplete));
    let big = vec![b'a'; HEADER_CAP + 1];
    assert_eq!(parse(&big), Err(ParseError::HeadersTooLarge));
}

#[test]
fn duplicate_content_length_rules() {
    assert!(parse("POST / HTTP/1.1\r\nContent-Length: 3\r\nContent-Length: 3\r\n\r\nabc".as_bytes()).is_ok());
    assert_eq!(
        parse("POST / HTTP/1.1\r\nContent-Length: 3\r\nContent-Length: 4\r\n\r\nabcd".as_bytes()),
        Err(ParseError::BadRequest(Bad::ConflictingLength))
    );
}

#[test]
fn repeated_content_length_must_match_bytes() {
    assert_eq!(
        parse("POST / HTTP/1.1\r\nContent-Length: 3\r\nContent-Length: 03\r\n\r\nabc".as_bytes()),
        Err(ParseError::BadRequest(Bad::ConflictingLength))
    );
}

#[test]
fn smuggling_guards() {
    assert_eq!(
        parse("GET /x HTTP/1.1\r\nX-A: 1\r\n  folded\r\n\r\n".as_bytes()),
        Err(ParseError::BadRequest(Bad::ObsFold))
    );
    assert_eq!(
        parse("GET /x HTTP/1.1\r\nX-A : 1\r\n\r\n".as_bytes()),
        Err(ParseError::BadRequest(Bad::SpaceBeforeColon))
    );
    assert_eq!(
        parse("GET  /x HTTP/1.1\r\n\r\n".as_bytes()),
        Err(ParseError::BadRequest(Bad::DoubleSP))
    );
}

#[test]
fn pinned_rejections() {
    assert_eq!(
        parse("GET /x HTTP/1.0\r\n\r\n".as_bytes()),
        Err(ParseError::BadRequest(Bad::BadVersion))
    );
    assert_eq!(
        parse("PUT /x HTTP/1.1\r\n\r\n".as_bytes()),
        Err(ParseError::BadRequest(Bad::BadMethod))
    );
    assert_eq!(
        parse("GET /x HTTP/1.1\r\nTransfer-Encoding: chunked\r\n\r\n".as_bytes()),
        Err(ParseError::BadRequest(Bad::TransferEncoding))
    );
    assert_eq!(
        parse("POST /x HTTP/1.1\r\n\r\n".as_bytes()),
        Err(ParseError::BadRequest(Bad::LengthRequired))
    );
}

#[test]
fn body_too_large_at_declaration() {
    let m = format!("POST /x HTTP/1.1\r\nContent-Length: {}\r\n\r\n", BODY_CAP + 1);
    assert_eq!(parse(m.as_bytes()), Err(ParseError::BodyTooLarge));
}

#[test]
fn target_query_and_controls() {
    let buf = b"GET /a/b?k=v HTTP/1.1\r\n\r\n";
    let r = parse(buf).unwrap();
    assert_eq!(&buf[r.target_start..r.target_end], b"/a/b");
    assert_eq!(r.query_start.unwrap(), 9);
    assert_eq!(r.method, Method::Get);
    assert_eq!(
        parse("GET /a b HTTP/1.1\r\n\r\n".as_bytes()),
        Err(ParseError::BadRequest(Bad::DoubleSP))
    );
    assert_eq!(
        parse("GET /a\tb HTTP/1.1\r\n\r\n".as_bytes()),
        Err(ParseError::BadRequest(Bad::ControlInTarget))
    );
}

#[test]
fn content_length_with_unicode_padding_is_trimmed() {
    // U+00A0 around the value is White_Space and is trimmed away.
    let m = "POST /x HTTP/1.1\r\nContent-Length:\u{a0}2\u{a0}\r\n\r\nab";
    let r = parse(m.as_bytes()).unwrap();
    assert_eq!(r.content_length, 2);
}
