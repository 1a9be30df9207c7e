//! The fixed-format handshake that opens a peer session.
use vstd::prelude::*;
use vstd::utf8::{decode_utf8, encode_utf8, valid_utf8};

use crate::bytes::{copy_range, push_bytes, take_array};
use crate::error::PeerError;

verus! {

/// The protocol name that this client announces.
pub const PROTOCOL_NAME: &'static str = "BitTorrent protocol";

/// The length of a standard handshake in bytes: the name length byte, the
/// 19-byte name, 8 reserved bytes, the content identifier and the peer id.
pub const HANDSHAKE_LEN: usize = 68;

/// The bytes that follow the protocol name: 8 reserved, 20 + 20 identifiers.
pub const HANDSHAKE_TAIL_LEN: usize = 48;

/// The handshake message that both sides send once, first.
#[derive(Debug, Clone)]
pub struct Handshake {
    pub protocol_str: String,
    pub reserved: [u8; 8],
    pub info_hash: [u8; 20],
    pub peer_id: [u8; 20],
}

/// The value of a [`Handshake`]: its protocol name as characters.
pub struct HandshakeModel {
    pub protocol: Seq<char>,
    pub reserved: [u8; 8],
    pub info_hash: [u8; 20],
    pub peer_id: [u8; 20],
}

impl View for Handshake {
    type V = HandshakeModel;

    open spec fn view(&self) -> HandshakeModel {
        HandshakeModel {
            protocol: self.protocol_str@,
            reserved: self.reserved,
            info_hash: self.info_hash,
            peer_id: self.peer_id,
        }
    }
}

/// The wire form of a handshake: name length (one byte), name (UTF-8),
/// reserved bytes, content identifier, peer id.
pub open spec fn handshake_bytes(h: HandshakeModel) -> Seq<u8> {
    let name = encode_utf8(h.protocol);
    seq![(name.len() % 256) as u8] + name + h.reserved@ + h.info_hash@ + h.peer_id@
}

/// What `bytes` parses to as a handshake: at least 68 bytes, a name that fits
/// with the 48 trailing bytes and is valid UTF-8.
pub open spec fn parse_handshake(bytes: Seq<u8>) -> Result<HandshakeModel, PeerError> {
    if bytes.len() < HANDSHAKE_LEN {
        Err(PeerError::FramingError)
    } else {
        let n = bytes[0] as int;
        if 1 + n + HANDSHAKE_TAIL_LEN > bytes.len() {
            Err(PeerError::FramingError)
        } else if !valid_utf8(bytes.subrange(1, 1 + n)) {
            Err(PeerError::FramingError)
        } else {
            Ok(
                HandshakeModel {
                    protocol: decode_utf8(bytes.subrange(1, 1 + n)),
                    reserved: array_of(bytes.subrange(1 + n, 9 + n)),
                    info_hash: array_of(bytes.subrange(9 + n, 29 + n)),
                    peer_id: array_of(bytes.subrange(29 + n, 49 + n)),
                },
            )
        }
    }
}

/// The array holding the bytes of `s` (which has `N` of them).
pub open spec fn array_of<const N: usize>(s: Seq<u8>) -> [u8; N] {
    choose|a: [u8; N]| a@ == s
}

/// The value of a handshake parse.
pub open spec fn parsed_view(r: Result<Handshake, PeerError>) -> Result<HandshakeModel, PeerError> {
    match r {
        Ok(h) => Ok(h@),
        Err(e) => Err(e),
    }
}

/// Relies on `String::from_utf8`: it succeeds exactly on valid UTF-8 and the
/// string then holds the characters those bytes encode.
#[verifier::external_body]
fn string_from_utf8(v: Vec<u8>) -> (r: Option<String>)
    ensures
        r is Some <==> valid_utf8(v@),
        r matches Some(s) ==> s@ == decode_utf8(v@),
{
    String::from_utf8(v).ok()
}

impl Handshake {
    /// The handshake this client sends: the standard name, zero reserved bytes.
    pub fn new(info_hash: [u8; 20], peer_id: [u8; 20]) -> (r: Handshake)
        ensures
            r.protocol_str@ == PROTOCOL_NAME@,
            r.reserved@ == seq![0u8; 8],
            r.info_hash == info_hash,
            r.peer_id == peer_id,
    {
        let protocol_str = PROTOCOL_NAME.to_owned();
        let reserved = [0u8; 8];
        assert(reserved@ =~= seq![0u8; 8]);
        Handshake { protocol_str, reserved, info_hash, peer_id }
    }

    /// The wire form of this handshake.
    pub fn to_bytes_message(&self) -> (r: Vec<u8>)
        ensures
            r@ == handshake_bytes(self@),
    {
        let name = self.protocol_str.as_str().as_bytes();
        let mut bytes_message: Vec<u8> = Vec::new();
        bytes_message.push((name.len() % 256) as u8);
        push_bytes(&mut bytes_message, name);
        push_bytes(&mut bytes_message, self.reserved.as_slice());
        push_bytes(&mut bytes_message, self.info_hash.as_slice());
        push_bytes(&mut bytes_message, self.peer_id.as_slice());
        assert(bytes_message@ =~= handshake_bytes(self@));
        bytes_message
    }

    /// Parses a peer's handshake reply.
    pub fn from_bytes(bytes: &[u8]) -> (r: Result<Handshake, PeerError>)
        ensures
            parsed_view(r) == parse_handshake(bytes@),
    {
        if bytes.len() < HANDSHAKE_LEN {
            return Err(PeerError::FramingError);
        }
        let protocol_len = bytes[0] as usize;
        if 1 + protocol_len + HANDSHAKE_TAIL_LEN > bytes.len() {
            return Err(PeerError::FramingError);
        }
        let protocol_str = match string_from_utf8(copy_range(bytes, 1, 1 + protocol_len)) {
            Some(s) => s,
            None => return Err(PeerError::FramingError),
        };
        let reserved: [u8; 8] = take_array(bytes, 1 + protocol_len);
        let info_hash: [u8; 20] = take_array(bytes, 9 + protocol_len);
        let peer_id: [u8; 20] = take_array(bytes, 29 + protocol_len);
        let h = Handshake { protocol_str, reserved, info_hash, peer_id };
        proof {
            let n = protocol_len as int;
            assert(h@.reserved == array_of::<8>(bytes@.subrange(1 + n, 9 + n)));
            assert(h@.info_hash == array_of::<20>(bytes@.subrange(9 + n, 29 + n)));
            assert(h@.peer_id == array_of::<20>(bytes@.subrange(29 + n, 49 + n)));
        }
        Ok(h)
    }
}

/// Encoding a handshake and parsing the bytes gives it back, field for field,
/// whenever its name is 19 to 255 bytes long (a shorter one makes a message
/// under the 68 bytes that a reply must have).
pub proof fn lemma_handshake_round_trip(h: HandshakeModel)
    requires
        19 <= encode_utf8(h.protocol).len() <= 255,
    ensures
        parse_handshake(handshake_bytes(h)) == Ok::<HandshakeModel, PeerError>(h),
{
    let name = encode_utf8(h.protocol);
    let bytes = handshake_bytes(h);
    let n = name.len() as int;
    assert(bytes[0] as int == n);
    assert(bytes.subrange(1, 1 + n) =~= name);
    vstd::utf8::encode_utf8_valid_utf8(h.protocol);
    vstd::utf8::encode_utf8_decode_utf8(h.protocol);
    assert(bytes.subrange(1 + n, 9 + n) =~= h.reserved@);
    assert(bytes.subrange(9 + n, 29 + n) =~= h.info_hash@);
    assert(bytes.subrange(29 + n, 49 + n) =~= h.peer_id@);
    lemma_array_of::<8>(h.reserved);
    lemma_array_of::<20>(h.info_hash);
    lemma_array_of::<20>(h.peer_id);
}

proof fn lemma_array_of<const N: usize>(a: [u8; N])
    ensures
        array_of::<N>(a@) == a,
{
    let b = array_of::<N>(a@);
    assert(b@ == a@);
    assert(b =~= a);
}

} // verus!
