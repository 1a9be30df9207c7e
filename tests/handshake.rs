use bittorrent_peer::error::PeerError;
use bittorrent_peer::handshake::Handshake;

#[test]
fn new_handshake_is_68_standard_bytes() {
    let h = Handshake::new([7u8; 20], *b"00112233445566778899");
    let bytes = h.to_bytes_message();
    assert_eq!(bytes.len(), 68);
    assert_eq!(bytes[0], 19);
    assert_eq!(&bytes[1..20], b"BitTorrent protocol");
    assert_eq!(&bytes[20..28], &[0u8; 8]);
    assert_eq!(&bytes[28..48], &[7u8; 20]);
    assert_eq!(&bytes[48..68], b"00112233445566778899");
}

#[test]
fn handshake_round_trips() {
    let mut info_hash = [0u8; 20];
    for (i, b) in info_hash.iter_mut().enumerate() {
        *b = i as u8 * 13;
    }
    let h = Handshake::new(info_hash, *b"-XX0001-abcdefghijkl");
    let back = Handshake::from_bytes(&h.to_bytes_message()).unwrap();
    assert_eq!(back.protocol_str, "BitTorrent protocol");
    assert_eq!(back.reserved, [0u8; 8]);
    assert_eq!(back.info_hash, info_hash);
    assert_eq!(back.peer_id, *b"-XX0001-abcdefghijkl");
}

#[test]
fn handshake_keeps_reserved_bits() {
    let mut h = Handshake::new([1u8; 20], [2u8; 20]);
    h.reserved = [0, 0, 0, 0, 0, 0x10, 0, 1];
    let back = Handshake::from_bytes(&h.to_bytes_message()).unwrap();
    assert_eq!(back.reserved, [0, 0, 0, 0, 0, 0x10, 0, 1]);
}

#[test]
fn short_handshake_is_framing_error() {
    let h = Handshake::new([1u8; 20], [2u8; 20]);
    let bytes = h.to_bytes_message();
    assert_eq!(
        Handshake::from_bytes(&bytes[..67]).unwrap_err(),
        PeerError::FramingError
    );
}

#[test]
fn overlong_name_is_framing_error() {
    let mut bytes = Handshake::new([1u8; 20], [2u8; 20]).to_bytes_message();
    bytes[0] = 20;
    assert_eq!(Handshake::from_bytes(&bytes).unwrap_err(), PeerError::FramingError);
}

#[test]
fn invalid_utf8_name_is_framing_error() {
    let mut bytes = Handshake::new([1u8; 20], [2u8; 20]).to_bytes_message();
    bytes[1] = 0xff;
    assert_eq!(Handshake::from_bytes(&bytes).unwrap_err(), PeerError::FramingError);
}

#[test]
fn longer_reply_is_read_by_its_name_length() {
    let mut bytes = Handshake::new([3u8; 20], [4u8; 20]).to_bytes_message();
    bytes.push(0xaa);
    let back = Handshake::from_bytes(&bytes).unwrap();
    assert_eq!(back.peer_id, [4u8; 20]);
}
