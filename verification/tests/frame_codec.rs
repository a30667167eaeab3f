use resp_codec::decode::FrameError;
use resp_codec::frame::Frame;

fn parse_ok(bytes: &[u8]) -> Frame {
    let end = Frame::check(bytes).expect("check should find a complete frame");
    assert!(end <= bytes.len());
    Frame::parse(bytes).expect("parse should succeed after check")
}

#[test]
fn simple_ok() {
    let f = parse_ok(b"+OK\r\n");
    assert_eq!(f, Frame::Simple(b"OK".to_vec()));
    assert_eq!(Frame::check(b"+OK\r\n"), Ok(5));
}

#[test]
fn simple_empty_line() {
    assert_eq!(parse_ok(b"+\r\n"), Frame::Simple(Vec::new()));
}

#[test]
fn error_frame() {
    assert_eq!(
        parse_ok(b"-ERR unknown command\r\n"),
        Frame::Error(b"ERR unknown command".to_vec())
    );
}

#[test]
fn bulk_hello() {
    let f = parse_ok(b"$5\r\nhello\r\n");
    assert_eq!(f, Frame::Bulk(vec![b'h', b'e', b'l', b'l', b'o']));
}

#[test]
fn bulk_empty() {
    assert_eq!(parse_ok(b"$0\r\n\r\n"), Frame::Bulk(Vec::new()));
}

#[test]
fn bulk_body_may_hold_delimiters() {
    assert_eq!(parse_ok(b"$4\r\na\r\nb\r\n"), Frame::Bulk(b"a\r\nb".to_vec()));
}

#[test]
fn null_frame() {
    assert_eq!(parse_ok(b"$-1\r\n"), Frame::Null);
    assert_eq!(Frame::check(b"$-1\r\n"), Ok(5));
}

#[test]
fn integer_frames() {
    assert_eq!(parse_ok(b":0\r\n"), Frame::Integer(0));
    assert_eq!(parse_ok(b":1234\r\n"), Frame::Integer(1234));
    assert_eq!(
        parse_ok(b":18446744073709551615\r\n"),
        Frame::Integer(u64::MAX)
    );
    // leading zeros are read, the value is unchanged
    assert_eq!(parse_ok(b":007\r\n"), Frame::Integer(7));
}

#[test]
fn integer_overflow_is_protocol_error() {
    assert_eq!(
        Frame::check(b":18446744073709551616\r\n"),
        Err(FrameError::Protocol)
    );
    assert_eq!(
        Frame::parse(b":18446744073709551616\r\n"),
        Err(FrameError::Protocol)
    );
}

#[test]
fn integer_non_digit_is_protocol_error() {
    assert_eq!(Frame::check(b":12a\r\n"), Err(FrameError::Protocol));
    assert_eq!(Frame::parse(b":12a\r\n"), Err(FrameError::Protocol));
}

#[test]
fn integer_sign_and_empty_are_protocol_errors() {
    assert_eq!(Frame::check(b":+1\r\n"), Err(FrameError::Protocol));
    assert_eq!(Frame::check(b":-1\r\n"), Err(FrameError::Protocol));
    assert_eq!(Frame::check(b":\r\n"), Err(FrameError::Protocol));
}

#[test]
fn negative_bulk_length_is_protocol_error() {
    assert_eq!(Frame::check(b"$-2\r\n"), Err(FrameError::Protocol));
}

#[test]
fn bulk_without_trailing_crlf_is_protocol_error() {
    assert_eq!(Frame::check(b"$2\r\nabXY"), Err(FrameError::Protocol));
}

#[test]
fn unknown_sigil_is_protocol_error() {
    assert_eq!(Frame::check(b"hello"), Err(FrameError::Protocol));
}

#[test]
fn lone_delimiters_are_protocol_errors() {
    // a lone LF before any CR LF pair
    assert_eq!(Frame::check(b"+a\nb\r\n"), Err(FrameError::Protocol));
    // a CR not followed by LF
    assert_eq!(Frame::check(b"+a\rb\r\n"), Err(FrameError::Protocol));
}

#[test]
fn incomplete_spans() {
    assert_eq!(Frame::check(b""), Err(FrameError::Incomplete));
    assert_eq!(Frame::check(b"+"), Err(FrameError::Incomplete));
    assert_eq!(Frame::check(b"+OK"), Err(FrameError::Incomplete));
    assert_eq!(Frame::check(b"+OK\r"), Err(FrameError::Incomplete));
    assert_eq!(Frame::check(b"$5\r\nhel"), Err(FrameError::Incomplete));
    assert_eq!(Frame::check(b"*2\r\n$3\r\nfoo\r\n"), Err(FrameError::Incomplete));
}

#[test]
fn array_two_bulks() {
    let f = parse_ok(b"*2\r\n$3\r\nfoo\r\n$3\r\nbar\r\n");
    assert_eq!(
        f,
        Frame::Array(vec![
            Frame::Bulk(b"foo".to_vec()),
            Frame::Bulk(b"bar".to_vec())
        ])
    );
}

#[test]
fn array_empty() {
    assert_eq!(parse_ok(b"*0\r\n"), Frame::Array(Vec::new()));
}

#[test]
fn array_nested() {
    let f = parse_ok(b"*2\r\n*1\r\n+a\r\n:7\r\n");
    assert_eq!(
        f,
        Frame::Array(vec![
            Frame::Array(vec![Frame::Simple(b"a".to_vec())]),
            Frame::Integer(7)
        ])
    );
}

#[test]
fn check_reports_exact_end_with_trailing_bytes() {
    assert_eq!(Frame::check(b"+OK\r\n+NEXT\r\n"), Ok(5));
    assert_eq!(Frame::check(b"$3\r\nfoo\r\nrest"), Ok(9));
}

#[test]
fn check_is_repeatable_on_an_unmodified_span() {
    let bytes: &[u8] = b"*2\r\n$3\r\nfoo\r\n$3\r\nbar\r\n";
    let first = Frame::check(bytes);
    let second = Frame::check(bytes);
    assert_eq!(first, second);
    assert_eq!(first, Ok(bytes.len()));
    let partial: &[u8] = b"$5\r\nhel";
    assert_eq!(Frame::check(partial), Frame::check(partial));
}

#[test]
fn encode_exact_bytes() {
    assert_eq!(Frame::Simple(b"OK".to_vec()).encode(), b"+OK\r\n".to_vec());
    assert_eq!(Frame::Error(b"ERR".to_vec()).encode(), b"-ERR\r\n".to_vec());
    assert_eq!(Frame::Integer(0).encode(), b":0\r\n".to_vec());
    assert_eq!(Frame::Integer(1234).encode(), b":1234\r\n".to_vec());
    assert_eq!(
        Frame::Integer(u64::MAX).encode(),
        b":18446744073709551615\r\n".to_vec()
    );
    assert_eq!(Frame::Null.encode(), b"$-1\r\n".to_vec());
    assert_eq!(
        Frame::Bulk(b"hello".to_vec()).encode(),
        b"$5\r\nhello\r\n".to_vec()
    );
    assert_eq!(
        Frame::Array(vec![
            Frame::Bulk(b"foo".to_vec()),
            Frame::Bulk(b"bar".to_vec())
        ])
        .encode(),
        b"*2\r\n$3\r\nfoo\r\n$3\r\nbar\r\n".to_vec()
    );
}

#[test]
fn round_trip_every_variant() {
    let frames = vec![
        Frame::Simple(b"PONG".to_vec()),
        Frame::Error(b"ERR oops".to_vec()),
        Frame::Integer(42),
        Frame::Bulk(b"payload with \r\n inside".to_vec()),
        Frame::Null,
        Frame::Array(vec![
            Frame::Simple(b"set".to_vec()),
            Frame::Bulk(b"key".to_vec()),
            Frame::Integer(9),
            Frame::Null,
            Frame::Array(vec![Frame::Error(b"nested".to_vec())]),
        ]),
        Frame::Array(Vec::new()),
    ];
    for f in frames {
        assert!(f.is_well_formed());
        let wire = f.encode();
        assert_eq!(Frame::check(&wire), Ok(wire.len()));
        assert_eq!(Frame::parse(&wire), Ok(f));
    }
}

#[test]
fn non_utf8_text_is_protocol_error() {
    assert_eq!(Frame::check(b"+\xff\r\n"), Err(FrameError::Protocol));
    assert_eq!(Frame::parse(b"+\xff\r\n"), Err(FrameError::Protocol));
    // a continuation byte where none may stand
    assert_eq!(Frame::check(b"-\xc3\x28\r\n"), Err(FrameError::Protocol));
    // overlong two-byte form
    assert_eq!(Frame::check(b"+\xc0\xaf\r\n"), Err(FrameError::Protocol));
    // surrogate
    assert_eq!(Frame::check(b"+\xed\xa0\x80\r\n"), Err(FrameError::Protocol));
    // beyond the last scalar value
    assert_eq!(Frame::check(b"+\xf5\x80\x80\x80\r\n"), Err(FrameError::Protocol));
    // a multi-byte sequence cut off by the line terminator
    assert_eq!(Frame::check(b"+\xc3\r\n"), Err(FrameError::Protocol));
}

#[test]
fn multibyte_utf8_text_is_accepted() {
    let text: &[u8] = b"caf\xc3\xa9 \xe2\x8c\x98 \xf0\x9f\x98\x80";
    assert!(std::str::from_utf8(text).is_ok());
    let mut wire = vec![b'+'];
    wire.extend_from_slice(text);
    wire.extend_from_slice(b"\r\n");
    let f = parse_ok(&wire);
    assert_eq!(f, Frame::Simple(text.to_vec()));
    assert!(f.is_well_formed());
}

#[test]
fn utf8_acceptance_matches_std_on_two_byte_sequences() {
    for b0 in 0x80u8..=0xff {
        for b1 in 0u8..=0xff {
            if b0 == 0x0d || b0 == 0x0a || b1 == 0x0d || b1 == 0x0a {
                continue;
            }
            let wire = vec![b'+', b0, b1, 0x0d, 0x0a];
            let accepted = Frame::check(&wire).is_ok();
            let std_ok = std::str::from_utf8(&[b0, b1]).is_ok();
            assert_eq!(accepted, std_ok, "bytes {:02x} {:02x}", b0, b1);
        }
    }
}

#[test]
fn utf8_boundary_cases_match_std() {
    let cases: Vec<Vec<u8>> = vec![
        vec![0xe0, 0xa0, 0x80],
        vec![0xe0, 0x9f, 0x80],
        vec![0xed, 0x9f, 0xbf],
        vec![0xed, 0xa0, 0x80],
        vec![0xee, 0x80, 0x80],
        vec![0xf0, 0x90, 0x80, 0x80],
        vec![0xf0, 0x8f, 0x80, 0x80],
        vec![0xf4, 0x8f, 0xbf, 0xbf],
        vec![0xf4, 0x90, 0x80, 0x80],
        vec![0xc2, 0x80],
        vec![0xc1, 0xbf],
        vec![0xdf, 0xbf],
    ];
    for c in cases {
        let mut wire = vec![b'-'];
        wire.extend_from_slice(&c);
        wire.extend_from_slice(b"\r\n");
        assert_eq!(
            Frame::check(&wire).is_ok(),
            std::str::from_utf8(&c).is_ok(),
            "{:02x?}",
            c
        );
    }
}

#[test]
fn parsed_frames_are_well_formed() {
    let wires: Vec<&[u8]> = vec![
        b"+OK\r\n",
        b"-ERR\r\n",
        b":7\r\n",
        b"$-1\r\n",
        b"$4\r\na\r\nb\r\n",
        b"*2\r\n*1\r\n+a\r\n:7\r\n",
    ];
    for wire in wires {
        assert!(parse_ok(wire).is_well_formed());
    }
}

#[test]
fn well_formedness_rejects_delimiters_and_non_text() {
    assert!(Frame::Simple(b"OK".to_vec()).is_well_formed());
    assert!(!Frame::Simple(b"O\rK".to_vec()).is_well_formed());
    assert!(!Frame::Error(b"O\nK".to_vec()).is_well_formed());
    assert!(!Frame::Simple(vec![0xff]).is_well_formed());
    assert!(!Frame::Array(vec![Frame::Simple(b"\r".to_vec())]).is_well_formed());
    assert!(!Frame::Array(vec![Frame::Error(vec![0xed, 0xa0, 0x80])]).is_well_formed());
    assert!(Frame::Simple(b"caf\xc3\xa9".to_vec()).is_well_formed());
    // bulk payloads are raw bytes: delimiters and non-text are fine
    assert!(Frame::Bulk(b"\r\n\xff".to_vec()).is_well_formed());
}
