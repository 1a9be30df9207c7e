use bittorrent_peer::download::{
    block_plan, check_digest, get_block_sizes, get_piece_size, PieceDownload, Progress, BLOCK_SIZE,
    MAX_OUTSTANDING,
};
use bittorrent_peer::error::{PeerError, Violation};
use bittorrent_peer::peer::PeerMessage;
use bittorrent_peer::torrent::{Hashes, Info, Keys};
use sha1::{Digest, Sha1};

fn sha1_of(data: &[u8]) -> [u8; 20] {
    Sha1::digest(data).into()
}

fn piece_bytes(len: usize) -> Vec<u8> {
    (0..len).map(|i| (i * 7 % 251) as u8).collect()
}

fn block(piece: &[u8], begin: usize, len: usize) -> PeerMessage {
    PeerMessage::Piece { index: 2, begin: begin as u32, block: piece[begin..begin + len].to_vec() }
}

fn info(plength: u32, length: u32) -> Info {
    Info {
        name: String::from("sample.txt"),
        plength,
        pieces: Hashes(vec![]),
        keys: Keys::SingleFile { length },
    }
}

#[test]
fn two_full_blocks_for_32768() {
    assert_eq!(get_block_sizes(32768, 16384), vec![16384, 16384]);
    assert_eq!(block_plan(32768, 16384), vec![(0, 16384), (16384, 16384)]);
}

#[test]
fn last_block_is_shorter() {
    assert_eq!(get_block_sizes(40000, 16384), vec![16384, 16384, 7232]);
    assert_eq!(
        block_plan(40000, 16384),
        vec![(0, 16384), (16384, 16384), (32768, 7232)]
    );
    assert_eq!(get_block_sizes(16385, 16384), vec![16384, 1]);
}

#[test]
fn empty_piece_has_no_blocks() {
    assert!(get_block_sizes(0, 16384).is_empty());
    assert!(block_plan(0, 16384).is_empty());
}

#[test]
fn block_sizes_sum_to_piece_length() {
    for &(p, b) in &[(1u32, 1u32), (100, 7), (262144, 16384), (213568, 16384), (5, 10)] {
        let sizes = get_block_sizes(p, b);
        assert_eq!(sizes.iter().map(|&x| x as u64).sum::<u64>(), p as u64);
        assert_eq!(sizes.len() as u32, (p + b - 1) / b);
        assert!(sizes.iter().all(|&x| x > 0 && x <= b));
    }
}

#[test]
fn last_piece_of_a_million_bytes() {
    let i = info(262144, 1000000);
    assert_eq!(get_piece_size(3, &i), 213568);
    assert_eq!(get_piece_size(0, &i), 262144);
    assert_eq!(get_piece_size(2, &i), 262144);
}

#[test]
fn last_piece_of_an_exact_multiple_is_full() {
    let i = info(262144, 524288);
    assert_eq!(get_piece_size(1, &i), 262144);
}

fn request_fields(m: &PeerMessage) -> (u32, u32, u32) {
    match m {
        PeerMessage::Request { index, begin, length } => (*index, *begin, *length),
        other => panic!("unexpected {:?}", other),
    }
}

#[test]
fn requests_cover_the_plan() {
    let mut d = PieceDownload::new(2, 40000, [0u8; 20]);
    let reqs: Vec<_> = d.next_requests().iter().map(request_fields).collect();
    assert_eq!(reqs, vec![(2, 0, 16384), (2, 16384, 16384), (2, 32768, 7232)]);
    assert!(d.next_requests().is_empty());
}

#[test]
fn request_window_is_bounded() {
    let len = 10 * 16384u32;
    let piece = piece_bytes(len as usize);
    let mut d = PieceDownload::new(2, len, sha1_of(&piece));
    let first: Vec<_> = d.next_requests().iter().map(request_fields).collect();
    assert_eq!(first.len(), MAX_OUTSTANDING);
    assert_eq!(first[0], (2, 0, 16384));
    assert_eq!(first[4], (2, 4 * 16384, 16384));
    assert!(d.next_requests().is_empty());
    d.receive(block(&piece, 16384, 16384)).unwrap();
    d.receive(block(&piece, 0, 16384)).unwrap();
    let refill: Vec<_> = d.next_requests().iter().map(request_fields).collect();
    assert_eq!(refill, vec![(2, 5 * 16384, 16384), (2, 6 * 16384, 16384)]);
}

#[test]
fn windowed_download_completes() {
    let len = 7 * 16384u32 + 100;
    let piece = piece_bytes(len as usize);
    let mut d = PieceDownload::new(2, len, sha1_of(&piece));
    let mut progress = Progress::Pending;
    while progress == Progress::Pending {
        let reqs = d.next_requests();
        assert!(!reqs.is_empty());
        for r in reqs.iter().rev() {
            let (_, begin, length) = request_fields(r);
            progress = d.receive(block(&piece, begin as usize, length as usize)).unwrap();
        }
    }
    assert_eq!(d.finish().unwrap(), piece);
}

#[test]
fn in_order_download_verifies() {
    let piece = piece_bytes(40000);
    let mut d = PieceDownload::new(2, 40000, sha1_of(&piece));
    assert_eq!(d.receive(PeerMessage::Unchoke).unwrap(), Progress::Pending);
    assert_eq!(d.receive(block(&piece, 0, 16384)).unwrap(), Progress::Pending);
    assert_eq!(d.receive(PeerMessage::Have(5)).unwrap(), Progress::Pending);
    assert_eq!(d.receive(block(&piece, 16384, 16384)).unwrap(), Progress::Pending);
    assert_eq!(d.receive(block(&piece, 32768, 7232)).unwrap(), Progress::Complete);
    assert!(d.is_complete());
    assert_eq!(d.finish().unwrap(), piece);
}

#[test]
fn out_of_order_download_gives_same_piece() {
    let piece = piece_bytes(40000);
    let mut d = PieceDownload::new(2, 40000, sha1_of(&piece));
    assert_eq!(d.receive(block(&piece, 32768, 7232)).unwrap(), Progress::Pending);
    assert_eq!(d.receive(block(&piece, 0, 16384)).unwrap(), Progress::Pending);
    assert_eq!(d.receive(block(&piece, 16384, 16384)).unwrap(), Progress::Complete);
    assert_eq!(d.assemble(), piece);
    assert_eq!(sha1_of(&d.assemble()), sha1_of(&piece));
    assert_eq!(d.finish().unwrap(), piece);
}

#[test]
fn corrupted_byte_fails_verification() {
    let piece = piece_bytes(32768);
    let mut corrupted = piece.clone();
    corrupted[20000] ^= 0x01;
    let mut d = PieceDownload::new(2, 32768, sha1_of(&piece));
    d.receive(block(&corrupted, 0, 16384)).unwrap();
    d.receive(block(&corrupted, 16384, 16384)).unwrap();
    assert_eq!(d.finish().unwrap_err(), PeerError::HashMismatch { index: 2 });
    assert_eq!(d.finish().unwrap_err(), PeerError::HashMismatch { index: 2 });
}

#[test]
fn misaligned_begin_is_protocol_violation() {
    let piece = piece_bytes(32768);
    let mut d = PieceDownload::new(2, 32768, sha1_of(&piece));
    let r = d.receive(block(&piece, 100, 16384));
    assert_eq!(
        r.unwrap_err(),
        PeerError::ProtocolViolation(Violation::BlockOutsidePlan { begin: 100, length: 16384 })
    );
    assert!(!d.is_complete());
}

#[test]
fn begin_past_the_piece_is_protocol_violation() {
    let piece = piece_bytes(65536);
    let mut d = PieceDownload::new(2, 32768, [0u8; 20]);
    let r = d.receive(block(&piece, 32768, 16384));
    assert_eq!(
        r.unwrap_err(),
        PeerError::ProtocolViolation(Violation::BlockOutsidePlan { begin: 32768, length: 16384 })
    );
}

#[test]
fn wrong_block_length_is_protocol_violation() {
    let piece = piece_bytes(32768);
    let mut d = PieceDownload::new(2, 32768, [0u8; 20]);
    let r = d.receive(block(&piece, 0, 100));
    assert_eq!(
        r.unwrap_err(),
        PeerError::ProtocolViolation(Violation::BlockOutsidePlan { begin: 0, length: 100 })
    );
}

#[test]
fn duplicate_block_is_protocol_violation() {
    let piece = piece_bytes(32768);
    let mut d = PieceDownload::new(2, 32768, [0u8; 20]);
    d.receive(block(&piece, 0, 16384)).unwrap();
    let r = d.receive(block(&piece, 0, 16384));
    assert_eq!(
        r.unwrap_err(),
        PeerError::ProtocolViolation(Violation::DuplicateBlock { begin: 0 })
    );
}

#[test]
fn block_of_another_piece_is_protocol_violation() {
    let mut d = PieceDownload::new(2, 32768, [0u8; 20]);
    let r = d.receive(PeerMessage::Piece { index: 3, begin: 0, block: vec![0; 16384] });
    assert_eq!(
        r.unwrap_err(),
        PeerError::ProtocolViolation(Violation::WrongPiece { expected: 2, received: 3 })
    );
}

#[test]
fn choke_before_all_blocks_aborts() {
    let piece = piece_bytes(32768);
    let mut d = PieceDownload::new(2, 32768, sha1_of(&piece));
    d.receive(block(&piece, 0, 16384)).unwrap();
    assert_eq!(
        d.receive(PeerMessage::Choke).unwrap_err(),
        PeerError::ChokedMidTransfer { index: 2 }
    );
}

#[test]
fn check_digest_compares_bytes() {
    let data = vec![1u8, 2, 3];
    let d = sha1_of(&data);
    assert_eq!(check_digest(4, data.clone(), &d, &d).unwrap(), data);
    let mut other = d;
    other[19] ^= 0x80;
    assert_eq!(
        check_digest(4, data, &d, &other).unwrap_err(),
        PeerError::HashMismatch { index: 4 }
    );
}

#[test]
fn block_size_is_16_kib() {
    assert_eq!(BLOCK_SIZE, 16 * 1024);
}
