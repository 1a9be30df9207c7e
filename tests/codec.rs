use bittorrent_peer::error::{PeerError, Violation};
use bittorrent_peer::peer::PeerMessage;

fn round_trip(m: &PeerMessage) -> PeerMessage {
    let frame = m.encode();
    PeerMessage::decode_frame(&frame).unwrap().unwrap()
}

#[test]
fn choke_family_round_trips() {
    assert!(matches!(round_trip(&PeerMessage::Choke), PeerMessage::Choke));
    assert!(matches!(round_trip(&PeerMessage::Unchoke), PeerMessage::Unchoke));
    assert!(matches!(round_trip(&PeerMessage::Interested), PeerMessage::Interested));
    assert!(matches!(round_trip(&PeerMessage::NotInterested), PeerMessage::NotInterested));
}

#[test]
fn choke_frame_bytes() {
    assert_eq!(PeerMessage::Choke.encode(), vec![0, 0, 0, 1, 0]);
    assert_eq!(PeerMessage::Interested.encode(), vec![0, 0, 0, 1, 2]);
}

#[test]
fn have_round_trips_and_bytes() {
    let m = PeerMessage::Have(0x01020304);
    assert_eq!(m.encode(), vec![0, 0, 0, 5, 4, 1, 2, 3, 4]);
    assert!(matches!(round_trip(&m), PeerMessage::Have(0x01020304)));
}

#[test]
fn bitfield_round_trips_bit_exact() {
    let m = PeerMessage::Bitfield(vec![0b1010_0000, 0xff, 0x01]);
    assert_eq!(m.encode(), vec![0, 0, 0, 4, 5, 0b1010_0000, 0xff, 0x01]);
    match round_trip(&m) {
        PeerMessage::Bitfield(b) => assert_eq!(b, vec![0b1010_0000, 0xff, 0x01]),
        other => panic!("unexpected {:?}", other),
    }
}

#[test]
fn request_round_trips_and_bytes() {
    let m = PeerMessage::Request { index: 1, begin: 16384, length: 16384 };
    assert_eq!(
        m.encode(),
        vec![0, 0, 0, 13, 6, 0, 0, 0, 1, 0, 0, 0x40, 0, 0, 0, 0x40, 0]
    );
    match round_trip(&m) {
        PeerMessage::Request { index, begin, length } => {
            assert_eq!((index, begin, length), (1, 16384, 16384))
        }
        other => panic!("unexpected {:?}", other),
    }
}

#[test]
fn piece_round_trips_bit_exact() {
    let block: Vec<u8> = (0..=255u8).collect();
    let m = PeerMessage::Piece { index: 7, begin: 32768, block: block.clone() };
    let frame = m.encode();
    assert_eq!(&frame[..4], &[0, 0, 1, 9]);
    assert_eq!(frame[4], 7);
    match round_trip(&m) {
        PeerMessage::Piece { index, begin, block: b } => {
            assert_eq!((index, begin), (7, 32768));
            assert_eq!(b, block);
        }
        other => panic!("unexpected {:?}", other),
    }
}

#[test]
fn cancel_round_trips() {
    let m = PeerMessage::Cancel { index: 3, begin: 0, length: 100 };
    assert_eq!(m.encode()[4], 8);
    match round_trip(&m) {
        PeerMessage::Cancel { index, begin, length } => {
            assert_eq!((index, begin, length), (3, 0, 100))
        }
        other => panic!("unexpected {:?}", other),
    }
}

#[test]
fn keep_alive_is_no_message() {
    assert!(matches!(PeerMessage::decode_frame(&[0, 0, 0, 0]), Ok(None)));
    assert!(matches!(PeerMessage::decode(&[]), Ok(None)));
}

#[test]
fn unknown_id_is_protocol_violation() {
    let r = PeerMessage::decode_frame(&[0, 0, 0, 1, 9]);
    assert_eq!(
        r.unwrap_err(),
        PeerError::ProtocolViolation(Violation::UnsupportedMessageId(9))
    );
}

#[test]
fn have_with_wrong_length_is_framing_error() {
    let r = PeerMessage::decode_frame(&[0, 0, 0, 6, 4, 0, 0, 0, 1, 2]);
    assert_eq!(r.unwrap_err(), PeerError::FramingError);
    let r = PeerMessage::decode(&[0, 1]);
    assert_eq!(r.unwrap_err(), PeerError::FramingError);
    let r = PeerMessage::decode(&[6, 0, 0, 0, 1]);
    assert_eq!(r.unwrap_err(), PeerError::FramingError);
    let r = PeerMessage::decode(&[7, 0, 0, 0, 1]);
    assert_eq!(r.unwrap_err(), PeerError::FramingError);
}

#[test]
fn prefix_must_count_following_bytes() {
    assert_eq!(
        PeerMessage::decode_frame(&[0, 0, 0, 2, 0]).unwrap_err(),
        PeerError::FramingError
    );
    assert_eq!(
        PeerMessage::decode_frame(&[0, 0, 1]).unwrap_err(),
        PeerError::FramingError
    );
}

#[test]
fn body_length_reads_big_endian() {
    assert_eq!(PeerMessage::body_length(&[0, 0, 0x40, 0x09]), 16393);
    assert_eq!(PeerMessage::body_length(&[1, 2, 3, 4]), 0x01020304);
}
