use bittorrent_peer::torrent::{content_identifier, Hashes};
use bittorrent_peer::tracker::Peers;
use bittorrent_peer::url_encode::url_encode;

#[test]
fn hashes_split_into_twenty_byte_chunks() {
    let raw: Vec<u8> = (0..40u8).collect();
    let h = Hashes::from_bytes(&raw).unwrap();
    assert_eq!(h.0.len(), 2);
    assert_eq!(h.0[0].to_vec(), (0..20u8).collect::<Vec<u8>>());
    assert_eq!(h.0[1].to_vec(), (20..40u8).collect::<Vec<u8>>());
    assert_eq!(h.to_bytes(), raw);
}

#[test]
fn hashes_reject_ragged_length() {
    assert!(Hashes::from_bytes(&[0u8; 41]).is_none());
    assert_eq!(Hashes::from_bytes(&[]).unwrap().0.len(), 0);
}

#[test]
fn compact_peers_decode() {
    let raw = [127, 0, 0, 1, 0x1a, 0xe1, 10, 1, 2, 3, 0, 80];
    let p = Peers::from_compact(&raw).unwrap();
    assert_eq!(p.0.len(), 2);
    assert_eq!(p.0[0].ip, [127, 0, 0, 1]);
    assert_eq!(p.0[0].port, 6881);
    assert_eq!(p.0[1].ip, [10, 1, 2, 3]);
    assert_eq!(p.0[1].port, 80);
    assert_eq!(p.to_compact(), raw.to_vec());
}

#[test]
fn compact_peers_reject_ragged_length() {
    assert!(Peers::from_compact(&[1, 2, 3, 4, 5, 6, 7]).is_none());
}

#[test]
fn url_encode_percent_encodes_every_byte() {
    let mut t = [0u8; 20];
    t[0] = 0xd6;
    t[1] = 0x9f;
    t[19] = 0x0a;
    let s = url_encode(&t);
    assert_eq!(s.len(), 60);
    assert!(s.starts_with("%d6%9f%00"));
    assert!(s.ends_with("%00%0a"));
}

#[test]
fn content_identifier_is_sha1() {
    let id = content_identifier(b"abc");
    let hex: String = id.iter().map(|b| format!("{:02x}", b)).collect();
    assert_eq!(hex, "a9993e364706816aba3e25717850c26c9cd0d89d");
}
