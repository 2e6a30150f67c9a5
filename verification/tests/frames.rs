//! Frames between clients and nodes.

use aster::protocol::{
    encode, ClientOperation, ClientRequest, DecodeError, FrameDecoder, WireMessage, HEADER_BYTES,
    VERSION,
};

fn ping(id: u64) -> WireMessage {
    WireMessage::Request(ClientRequest {
        request_id: id,
        session: None,
        operation: ClientOperation::Ping,
    })
}

/// What a message says, as text.
fn payload_of(message: &WireMessage) -> Vec<u8> {
    format!("{message:?}").into_bytes()
}

fn sent(message: &WireMessage, max_frame_bytes: usize) -> Result<Vec<u8>, DecodeError> {
    encode(message, &payload_of(message), max_frame_bytes)
}

fn received(decoder: &mut FrameDecoder) -> Result<Option<WireMessage>, DecodeError> {
    let decoded = match decoder.frame() {
        Ok(Some(frame)) => (0..10)
            .map(ping)
            .find(|message| payload_of(message) == frame.payload)
            .ok_or("unknown payload".to_string()),
        _ => Err("no payload".to_string()),
    };
    decoder.decode(decoded)
}

#[test]
fn fragmented_and_coalesced_frames_decode() {
    let first = sent(&ping(1), 1024).unwrap();
    let second = sent(&ping(2), 1024).unwrap();
    let mut decoder = FrameDecoder::new(1024);
    for byte in &first[..first.len() - 1] {
        decoder.feed(&[*byte]);
        assert!(received(&mut decoder).unwrap().is_none());
    }
    decoder.feed(&first[first.len() - 1..]);
    decoder.feed(&second);
    assert_eq!(received(&mut decoder).unwrap(), Some(ping(1)));
    assert_eq!(received(&mut decoder).unwrap(), Some(ping(2)));
    assert_eq!(received(&mut decoder).unwrap(), None);
}

#[test]
fn corruption_and_oversize_are_rejected_before_payload_allocation() {
    let mut frame = sent(&ping(1), 1024).unwrap();
    *frame.last_mut().unwrap() ^= 0xff;
    let mut decoder = FrameDecoder::new(1024);
    decoder.feed(&frame);
    assert!(matches!(received(&mut decoder), Err(DecodeError::Checksum)));

    let mut header = [0_u8; HEADER_BYTES];
    header[..4].copy_from_slice(b"ASDB");
    header[4..6].copy_from_slice(&VERSION.to_be_bytes());
    header[6] = 1;
    header[8..12].copy_from_slice(&u32::MAX.to_be_bytes());
    let mut decoder = FrameDecoder::new(1024);
    decoder.feed(&header);
    assert!(matches!(received(&mut decoder), Err(DecodeError::Limit(_))));
}

#[test]
fn frames_carry_the_checksum_of_their_payload() {
    let frame = encode(&ping(1), &b"123456789".to_vec(), 1024).unwrap();
    assert_eq!(frame[..4], *b"ASDB");
    assert_eq!(frame[8..12], 9_u32.to_be_bytes());
    assert_eq!(frame[12..16], 0xcbf4_3926_u32.to_be_bytes());
    assert_eq!(frame[16..], *b"123456789");
    assert!(matches!(
        encode(&ping(1), &vec![0; 1025], 1024),
        Err(DecodeError::Limit(_))
    ));
}
