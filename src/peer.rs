//! The length-prefixed, type-tagged messages exchanged after the handshake.
use vstd::prelude::*;

use crate::bytes::{be_at, copy_range, lemma_u32_be_round_trip, push_bytes, push_u32_be, read_u32_be, u32_be};
use crate::error::{PeerError, Violation};
pub use crate::handshake::Handshake;

verus! {

pub const MSG_ID_CHOKE: u8 = 0;
pub const MSG_ID_UNCHOKE: u8 = 1;
pub const MSG_ID_INTERESTED: u8 = 2;
pub const MSG_ID_NOT_INTERESTED: u8 = 3;
pub const MSG_ID_HAVE: u8 = 4;
pub const MSG_ID_BIT_FIELD: u8 = 5;
pub const MSG_ID_REQUEST: u8 = 6;
pub const MSG_ID_PIECE: u8 = 7;
pub const MSG_ID_CANCEL: u8 = 8;

/// One message of the peer wire protocol.
#[derive(Debug, Clone)]
pub enum PeerMessage {
    Choke,
    Unchoke,
    Interested,
    NotInterested,
    Have(u32),
    Bitfield(Vec<u8>),
    Request { index: u32, begin: u32, length: u32 },
    Piece { index: u32, begin: u32, block: Vec<u8> },
    Cancel { index: u32, begin: u32, length: u32 },
}

/// The mathematical value of a [`PeerMessage`]: its byte payloads as sequences.
pub enum MessageModel {
    Choke,
    Unchoke,
    Interested,
    NotInterested,
    Have(u32),
    Bitfield(Seq<u8>),
    Request { index: u32, begin: u32, length: u32 },
    Piece { index: u32, begin: u32, block: Seq<u8> },
    Cancel { index: u32, begin: u32, length: u32 },
}

impl View for PeerMessage {
    type V = MessageModel;

    open spec fn view(&self) -> MessageModel {
        match self {
            PeerMessage::Choke => MessageModel::Choke,
            PeerMessage::Unchoke => MessageModel::Unchoke,
            PeerMessage::Interested => MessageModel::Interested,
            PeerMessage::NotInterested => MessageModel::NotInterested,
            PeerMessage::Have(i) => MessageModel::Have(*i),
            PeerMessage::Bitfield(b) => MessageModel::Bitfield(b@),
            PeerMessage::Request { index, begin, length } => MessageModel::Request {
                index: *index,
                begin: *begin,
                length: *length,
            },
            PeerMessage::Piece { index, begin, block } => MessageModel::Piece {
                index: *index,
                begin: *begin,
                block: block@,
            },
            PeerMessage::Cancel { index, begin, length } => MessageModel::Cancel {
                index: *index,
                begin: *begin,
                length: *length,
            },
        }
    }
}

/// The three numbers of a Request or Cancel payload.
pub open spec fn triple(index: u32, begin: u32, length: u32) -> Seq<u8> {
    u32_be(index) + u32_be(begin) + u32_be(length)
}

/// The message id byte followed by the payload.
pub open spec fn body_of(m: MessageModel) -> Seq<u8> {
    match m {
        MessageModel::Choke => seq![MSG_ID_CHOKE],
        MessageModel::Unchoke => seq![MSG_ID_UNCHOKE],
        MessageModel::Interested => seq![MSG_ID_INTERESTED],
        MessageModel::NotInterested => seq![MSG_ID_NOT_INTERESTED],
        MessageModel::Have(i) => seq![MSG_ID_HAVE] + u32_be(i),
        MessageModel::Bitfield(b) => seq![MSG_ID_BIT_FIELD] + b,
        MessageModel::Request { index, begin, length } => seq![MSG_ID_REQUEST] + triple(
            index,
            begin,
            length,
        ),
        MessageModel::Piece { index, begin, block } => seq![MSG_ID_PIECE] + u32_be(index) + u32_be(
            begin,
        ) + block,
        MessageModel::Cancel { index, begin, length } => seq![MSG_ID_CANCEL] + triple(
            index,
            begin,
            length,
        ),
    }
}

/// Whether the body's length fits the 4-byte length prefix.
pub open spec fn encodable(m: MessageModel) -> bool {
    body_of(m).len() <= u32::MAX
}

/// The full frame: the body's length, big-endian, then the body.
pub open spec fn frame_of(m: MessageModel) -> Seq<u8> {
    u32_be(body_of(m).len() as u32) + body_of(m)
}

/// What a frame body (the bytes after the length prefix) decodes to: `Ok(None)`
/// for the empty keep-alive body.
pub open spec fn decode_body(body: Seq<u8>) -> Result<Option<MessageModel>, PeerError> {
    if body.len() == 0 {
        Ok(None)
    } else {
        let id = body[0];
        let n = body.len() - 1;
        if id <= MSG_ID_NOT_INTERESTED {
            if n == 0 {
                Ok(
                    Some(
                        if id == MSG_ID_CHOKE {
                            MessageModel::Choke
                        } else if id == MSG_ID_UNCHOKE {
                            MessageModel::Unchoke
                        } else if id == MSG_ID_INTERESTED {
                            MessageModel::Interested
                        } else {
                            MessageModel::NotInterested
                        },
                    ),
                )
            } else {
                Err(PeerError::FramingError)
            }
        } else if id == MSG_ID_HAVE {
            if n == 4 {
                Ok(Some(MessageModel::Have(be_at(body, 1))))
            } else {
                Err(PeerError::FramingError)
            }
        } else if id == MSG_ID_BIT_FIELD {
            Ok(Some(MessageModel::Bitfield(body.subrange(1, body.len() as int))))
        } else if id == MSG_ID_REQUEST || id == MSG_ID_CANCEL {
            if n == 12 {
                let index = be_at(body, 1);
                let begin = be_at(body, 5);
                let length = be_at(body, 9);
                if id == MSG_ID_REQUEST {
                    Ok(Some(MessageModel::Request { index, begin, length }))
                } else {
                    Ok(Some(MessageModel::Cancel { index, begin, length }))
                }
            } else {
                Err(PeerError::FramingError)
            }
        } else if id == MSG_ID_PIECE {
            if n >= 8 {
                Ok(
                    Some(
                        MessageModel::Piece {
                            index: be_at(body, 1),
                            begin: be_at(body, 5),
                            block: body.subrange(9, body.len() as int),
                        },
                    ),
                )
            } else {
                Err(PeerError::FramingError)
            }
        } else {
            Err(PeerError::ProtocolViolation(Violation::UnsupportedMessageId(id)))
        }
    }
}

/// What a whole frame decodes to: its length prefix must count exactly the
/// bytes that follow it.
pub open spec fn decode_frame_spec(frame: Seq<u8>) -> Result<Option<MessageModel>, PeerError> {
    if frame.len() < 4 || be_at(frame, 0) as int != frame.len() - 4 {
        Err(PeerError::FramingError)
    } else {
        decode_body(frame.subrange(4, frame.len() as int))
    }
}

/// The value of a decoding result.
pub open spec fn decoded_view(r: Result<Option<PeerMessage>, PeerError>) -> Result<
    Option<MessageModel>,
    PeerError,
> {
    match r {
        Ok(Some(m)) => Ok(Some(m@)),
        Ok(None) => Ok(None),
        Err(e) => Err(e),
    }
}

impl PeerMessage {
    /// Serialises the message as one frame: length prefix, id, payload.
    pub fn encode(&self) -> (r: Vec<u8>)
        requires
            encodable(self@),
        ensures
            r@ == frame_of(self@),
    {
        let mut out: Vec<u8> = Vec::new();
        match self {
            PeerMessage::Choke => {
                push_u32_be(&mut out, 1);
                out.push(MSG_ID_CHOKE);
            },
            PeerMessage::Unchoke => {
                push_u32_be(&mut out, 1);
                out.push(MSG_ID_UNCHOKE);
            },
            PeerMessage::Interested => {
                push_u32_be(&mut out, 1);
                out.push(MSG_ID_INTERESTED);
            },
            PeerMessage::NotInterested => {
                push_u32_be(&mut out, 1);
                out.push(MSG_ID_NOT_INTERESTED);
            },
            PeerMessage::Have(piece_id) => {
                push_u32_be(&mut out, 5);
                out.push(MSG_ID_HAVE);
                push_u32_be(&mut out, *piece_id);
            },
            PeerMessage::Bitfield(block) => {
                push_u32_be(&mut out, (block.len() + 1) as u32);
                out.push(MSG_ID_BIT_FIELD);
                push_bytes(&mut out, block.as_slice());
            },
            PeerMessage::Request { index, begin, length } => {
                push_u32_be(&mut out, 13);
                out.push(MSG_ID_REQUEST);
                push_u32_be(&mut out, *index);
                push_u32_be(&mut out, *begin);
                push_u32_be(&mut out, *length);
            },
            PeerMessage::Piece { index, begin, block } => {
                push_u32_be(&mut out, (block.len() + 9) as u32);
                out.push(MSG_ID_PIECE);
                push_u32_be(&mut out, *index);
                push_u32_be(&mut out, *begin);
                push_bytes(&mut out, block.as_slice());
            },
            PeerMessage::Cancel { index, begin, length } => {
                push_u32_be(&mut out, 13);
                out.push(MSG_ID_CANCEL);
                push_u32_be(&mut out, *index);
                push_u32_be(&mut out, *begin);
                push_u32_be(&mut out, *length);
            },
        }
        assert(out@ =~= frame_of(self@));
        out
    }

    /// The body length that a 4-byte frame prefix announces.
    pub fn body_length(prefix: &[u8; 4]) -> (r: u32)
        ensures
            r == be_at(prefix@, 0),
    {
        read_u32_be(prefix.as_slice(), 0)
    }

    /// Decodes a frame body, the bytes that follow the length prefix.
    pub fn decode(body: &[u8]) -> (r: Result<Option<PeerMessage>, PeerError>)
        ensures
            decoded_view(r) == decode_body(body@),
    {
        let len = body.len();
        if len == 0 {
            return Ok(None);
        }
        let id = body[0];
        let n = len - 1;
        if id <= MSG_ID_NOT_INTERESTED {
            if n != 0 {
                return Err(PeerError::FramingError);
            }
            let m = if id == MSG_ID_CHOKE {
                PeerMessage::Choke
            } else if id == MSG_ID_UNCHOKE {
                PeerMessage::Unchoke
            } else if id == MSG_ID_INTERESTED {
                PeerMessage::Interested
            } else {
                PeerMessage::NotInterested
            };
            Ok(Some(m))
        } else if id == MSG_ID_HAVE {
            if n != 4 {
                return Err(PeerError::FramingError);
            }
            Ok(Some(PeerMessage::Have(read_u32_be(body, 1))))
        } else if id == MSG_ID_BIT_FIELD {
            Ok(Some(PeerMessage::Bitfield(copy_range(body, 1, len))))
        } else if id == MSG_ID_REQUEST || id == MSG_ID_CANCEL {
            if n != 12 {
                return Err(PeerError::FramingError);
            }
            let index = read_u32_be(body, 1);
            let begin = read_u32_be(body, 5);
            let length = read_u32_be(body, 9);
            if id == MSG_ID_REQUEST {
                Ok(Some(PeerMessage::Request { index, begin, length }))
            } else {
                Ok(Some(PeerMessage::Cancel { index, begin, length }))
            }
        } else if id == MSG_ID_PIECE {
            if n < 8 {
                return Err(PeerError::FramingError);
            }
            let index = read_u32_be(body, 1);
            let begin = read_u32_be(body, 5);
            let block = copy_range(body, 9, len);
            Ok(Some(PeerMessage::Piece { index, begin, block }))
        } else {
            Err(PeerError::ProtocolViolation(Violation::UnsupportedMessageId(id)))
        }
    }

    /// Decodes one whole frame, length prefix included.
    pub fn decode_frame(frame: &[u8]) -> (r: Result<Option<PeerMessage>, PeerError>)
        ensures
            decoded_view(r) == decode_frame_spec(frame@),
    {
        if frame.len() < 4 {
            return Err(PeerError::FramingError);
        }
        let declared = read_u32_be(frame, 0);
        if declared as usize != frame.len() - 4 {
            return Err(PeerError::FramingError);
        }
        let body = vstd::slice::slice_subrange(frame, 4, frame.len());
        PeerMessage::decode(body)
    }
}

/// Encoding a message and decoding the frame gives the message back, its byte
/// payloads bit for bit.
pub proof fn lemma_message_round_trip(m: MessageModel)
    requires
        encodable(m),
    ensures
        decode_frame_spec(frame_of(m)) == Ok::<Option<MessageModel>, PeerError>(Some(m)),
{
    let body = body_of(m);
    let frame = frame_of(m);
    lemma_u32_be_round_trip(body.len() as u32);
    assert(frame.subrange(0, 4) =~= u32_be(body.len() as u32));
    assert(be_at(frame, 0) == be_at(u32_be(body.len() as u32), 0));
    assert(frame.subrange(4, frame.len() as int) =~= body);
    match m {
        MessageModel::Have(i) => {
            lemma_u32_be_round_trip(i);
            assert(be_at(body, 1) == be_at(u32_be(i), 0));
        },
        MessageModel::Bitfield(b) => {
            assert(body.subrange(1, body.len() as int) =~= b);
        },
        MessageModel::Request { index, begin, length } => {
            lemma_u32_be_round_trip(index);
            lemma_u32_be_round_trip(begin);
            lemma_u32_be_round_trip(length);
            assert(be_at(body, 1) == be_at(u32_be(index), 0));
            assert(be_at(body, 5) == be_at(u32_be(begin), 0));
            assert(be_at(body, 9) == be_at(u32_be(length), 0));
        },
        MessageModel::Piece { index, begin, block } => {
            lemma_u32_be_round_trip(index);
            lemma_u32_be_round_trip(begin);
            assert(be_at(body, 1) == be_at(u32_be(index), 0));
            assert(be_at(body, 5) == be_at(u32_be(begin), 0));
            assert(body.subrange(9, body.len() as int) =~= block);
        },
        MessageModel::Cancel { index, begin, length } => {
            lemma_u32_be_round_trip(index);
            lemma_u32_be_round_trip(begin);
            lemma_u32_be_round_trip(length);
            assert(be_at(body, 1) == be_at(u32_be(index), 0));
            assert(be_at(body, 5) == be_at(u32_be(begin), 0));
            assert(be_at(body, 9) == be_at(u32_be(length), 0));
        },
        _ => {},
    }
}

} // verus!
