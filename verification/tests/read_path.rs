use resp_codec::buffer::{FrameBuffer, PeerClose};
use resp_codec::decode::FrameError;
use resp_codec::frame::Frame;

#[test]
fn whole_frame_in_one_read() {
    let mut buf = FrameBuffer::new();
    buf.feed(b"+OK\r\n");
    assert_eq!(buf.parse_frame(), Ok(Some(Frame::Simple(b"OK".to_vec()))));
    assert_eq!(buf.len(), 0);
}

#[test]
fn frame_split_across_two_reads() {
    let mut buf = FrameBuffer::new();
    buf.feed(b"+OK\r");
    assert_eq!(buf.parse_frame(), Ok(None));
    assert_eq!(buf.len(), 4);
    buf.feed(b"\n");
    assert_eq!(buf.parse_frame(), Ok(Some(Frame::Simple(b"OK".to_vec()))));
    assert_eq!(buf.len(), 0);
}

#[test]
fn fragmentation_independence_byte_by_byte() {
    let wire = Frame::Array(vec![
        Frame::Bulk(b"foo".to_vec()),
        Frame::Integer(12),
        Frame::Null,
    ])
    .encode();
    let mut buf = FrameBuffer::new();
    let mut yielded = Vec::new();
    for (i, b) in wire.iter().enumerate() {
        buf.feed(&[*b]);
        match buf.parse_frame() {
            Ok(Some(f)) => {
                // only the very last byte completes the frame
                assert_eq!(i, wire.len() - 1);
                yielded.push(f);
            }
            Ok(None) => assert!(i < wire.len() - 1),
            Err(_) => panic!("a prefix of a valid frame must never be an error"),
        }
    }
    assert_eq!(
        yielded,
        vec![Frame::Array(vec![
            Frame::Bulk(b"foo".to_vec()),
            Frame::Integer(12),
            Frame::Null,
        ])]
    );
    assert_eq!(buf.len(), 0);
}

fn split_point_frame() -> Frame {
    Frame::Array(vec![
        Frame::Simple(b"get".to_vec()),
        Frame::Bulk(b"key\r\nwith delimiters".to_vec()),
    ])
}

#[test]
fn fragmentation_independence_every_split_point() {
    let wire = split_point_frame().encode();
    for cut in 0..=wire.len() {
        let mut buf = FrameBuffer::new();
        buf.feed(&wire[..cut]);
        if cut < wire.len() {
            assert_eq!(buf.parse_frame(), Ok(None));
        }
        buf.feed(&wire[cut..]);
        assert_eq!(buf.parse_frame(), Ok(Some(split_point_frame())));
        assert_eq!(buf.len(), 0);
    }
}

#[test]
fn two_pipelined_frames_come_out_in_order() {
    let mut buf = FrameBuffer::new();
    buf.feed(b"+one\r\n:2\r\ntrailing");
    assert_eq!(buf.parse_frame(), Ok(Some(Frame::Simple(b"one".to_vec()))));
    assert_eq!(buf.parse_frame(), Ok(Some(Frame::Integer(2))));
    // the malformed trailer is only reached once the frames before it are out
    assert_eq!(buf.parse_frame(), Err(FrameError::Protocol));
}

#[test]
fn incomplete_leaves_buffer_unchanged() {
    let mut buf = FrameBuffer::new();
    buf.feed(b"$5\r\nhel");
    assert_eq!(buf.parse_frame(), Ok(None));
    assert_eq!(buf.len(), 7);
    assert_eq!(buf.parse_frame(), Ok(None));
    assert_eq!(buf.len(), 7);
}

#[test]
fn clean_end_of_stream() {
    let buf = FrameBuffer::new();
    assert_eq!(buf.peer_closed(), PeerClose::Clean);
}

#[test]
fn reset_when_closed_mid_frame() {
    let mut buf = FrameBuffer::new();
    buf.feed(b"$5\r\nhel");
    assert_eq!(buf.parse_frame(), Ok(None));
    assert_eq!(buf.peer_closed(), PeerClose::Reset);
}

#[test]
fn non_utf8_text_is_rejected_by_the_read_path() {
    let mut buf = FrameBuffer::new();
    // the line is read first: nothing is condemned before its CR LF arrives
    buf.feed(b"+\xff");
    assert_eq!(buf.parse_frame(), Ok(None));
    buf.feed(b"\r\n");
    assert_eq!(buf.parse_frame(), Err(FrameError::Protocol));
}

#[test]
fn protocol_error_is_reported_to_the_caller() {
    let mut buf = FrameBuffer::new();
    buf.feed(b":12a\r\n");
    assert_eq!(buf.parse_frame(), Err(FrameError::Protocol));
}

#[test]
fn exactly_the_frame_bytes_are_consumed() {
    let mut buf = FrameBuffer::new();
    buf.feed(b"$3\r\nfoo\r\n$3\r\nba");
    assert_eq!(buf.parse_frame(), Ok(Some(Frame::Bulk(b"foo".to_vec()))));
    assert_eq!(buf.len(), 6);
    assert_eq!(buf.parse_frame(), Ok(None));
    buf.feed(b"r\r\n");
    assert_eq!(buf.parse_frame(), Ok(Some(Frame::Bulk(b"bar".to_vec()))));
    assert_eq!(buf.len(), 0);
}
