//! What a session learns from a peer before and between piece downloads:
//! whether it is unchoked, and which pieces it has.
use vstd::prelude::*;

use crate::peer::{MessageModel, PeerMessage};

verus! {

/// Whether the peer serves requests.
#[derive(Debug, Clone, Copy, PartialEq, Eq, Structural)]
pub enum ChokeState {
    /// Choked: requests would not be served (the state a session starts in).
    Choked,
    Unchoked,
}

/// The peer's state as seen by this client: choked or not, and its bitfield
/// (empty until the peer sends one: the peer has nothing).
pub struct PeerSession {
    pub choke: ChokeState,
    pub bitfield: Vec<u8>,
}

/// Whether bit `i` of `bits` is set, bits numbered from the most significant
/// bit of the first byte; bits past the end are clear.
pub open spec fn has_bit(bits: Seq<u8>, i: int) -> bool {
    0 <= i && i / 8 < bits.len() && (bits[i / 8] >> (7 - i % 8) as u8) & 1u8 == 1u8
}

/// The bitfield after a Have of piece `i`: that bit set, the others kept.
pub open spec fn bits_with(bits: Seq<u8>, i: int) -> Seq<u8> {
    let padded = if i / 8 < bits.len() {
        bits
    } else {
        bits + Seq::new((i / 8 + 1 - bits.len()) as nat, |k: int| 0u8)
    };
    padded.update(i / 8, padded[i / 8] | (0x80u8 >> (i % 8) as u8))
}

/// The session after message `m`.
pub open spec fn observe(choke: ChokeState, bits: Seq<u8>, m: MessageModel) -> (ChokeState, Seq<u8>) {
    match m {
        MessageModel::Choke => (ChokeState::Choked, bits),
        MessageModel::Unchoke => (ChokeState::Unchoked, bits),
        MessageModel::Bitfield(b) => (choke, b),
        MessageModel::Have(i) => (choke, bits_with(bits, i as int)),
        _ => (choke, bits),
    }
}

proof fn lemma_set_bit(b: u8, r: u8, q: u8)
    requires
        r < 8,
        q < 8,
    ensures
        ((b | (0x80u8 >> r)) >> (7 - q) as u8) & 1u8 == 1u8 <==> (((b >> (7 - q) as u8) & 1u8
            == 1u8) || r == q),
{
    assert(((b | (0x80u8 >> r)) >> (7 - q) as u8) & 1u8 == 1u8 <==> (((b >> (7 - q) as u8) & 1u8
        == 1u8) || r == q)) by (bit_vector)
        requires
            r < 8,
            q < 8,
    ;
}

proof fn lemma_zero_byte(q: u8)
    requires
        q < 8,
    ensures
        (0u8 >> (7 - q) as u8) & 1u8 == 0u8,
{
    assert((0u8 >> (7 - q) as u8) & 1u8 == 0u8) by (bit_vector)
        requires
            q < 8,
    ;
}

/// After a Have of piece `i`, the peer has piece `i` and every piece it had.
proof fn lemma_have_adds_piece(bits: Seq<u8>, i: int, j: int)
    requires
        0 <= i,
        0 <= j,
    ensures
        has_bit(bits_with(bits, i), j) <==> has_bit(bits, j) || j == i,
{
    let padded = if i / 8 < bits.len() {
        bits
    } else {
        bits + Seq::new((i / 8 + 1 - bits.len()) as nat, |k: int| 0u8)
    };
    let nb = bits_with(bits, i);
    assert(nb.len() == padded.len());
    if j / 8 == i / 8 {
        lemma_set_bit(padded[i / 8], (i % 8) as u8, (j % 8) as u8);
        if i / 8 >= bits.len() {
            lemma_zero_byte((j % 8) as u8);
        }
        assert(j % 8 == i % 8 <==> j == i);
    } else if j / 8 < padded.len() {
        assert(nb[j / 8] == padded[j / 8]);
        if j / 8 >= bits.len() {
            lemma_zero_byte((j % 8) as u8);
        }
    }
}

impl PeerSession {
    /// A session right after the handshake: choked, peer holding nothing.
    pub fn new() -> (r: PeerSession)
        ensures
            r.choke == ChokeState::Choked,
            r.bitfield@ == Seq::<u8>::empty(),
    {
        PeerSession { choke: ChokeState::Choked, bitfield: Vec::new() }
    }

    /// Takes note of one message from the peer.
    pub fn observe(&mut self, m: &PeerMessage)
        ensures
            (final(self).choke, final(self).bitfield@) == observe(
                old(self).choke,
                old(self).bitfield@,
                m@,
            ),
            m@ matches MessageModel::Have(i) ==> forall|j: int|
                0 <= j ==> (has_bit(final(self).bitfield@, j) <==> has_bit(old(self).bitfield@, j)
                    || j == i as int),
    {
        match m {
            PeerMessage::Choke => {
                self.choke = ChokeState::Choked;
            },
            PeerMessage::Unchoke => {
                self.choke = ChokeState::Unchoked;
            },
            PeerMessage::Bitfield(b) => {
                self.bitfield = b.clone();
                assert(self.bitfield@ =~= b@);
            },
            PeerMessage::Have(i) => {
                let byte = (*i / 8) as usize;
                let ghost bits = self.bitfield@;
                while self.bitfield.len() <= byte
                    invariant
                        self.choke == old(self).choke,
                        bits == old(self).bitfield@,
                        self.bitfield@.len() >= bits.len(),
                        self.bitfield@.len() <= byte + 1 || self.bitfield@.len() == bits.len(),
                        self.bitfield@.subrange(0, bits.len() as int) == bits,
                        forall|k: int|
                            bits.len() <= k < self.bitfield@.len() ==> #[trigger] self.bitfield@[k]
                                == 0u8,
                    decreases byte + 1 - self.bitfield@.len(),
                {
                    self.bitfield.push(0u8);
                }
                proof {
                    let padded = if byte < bits.len() {
                        bits
                    } else {
                        bits + Seq::new((byte + 1 - bits.len()) as nat, |k: int| 0u8)
                    };
                    assert(self.bitfield@ =~= padded);
                }
                let shift = (*i % 8) as u8;
                let updated = self.bitfield[byte] | (0x80u8 >> shift);
                let ghost before = self.bitfield@;
                self.bitfield.set(byte, updated);
                assert(self.bitfield@ == before.update(byte as int, updated));
                assert(self.bitfield@ =~= bits_with(bits, *i as int));
                assert forall|j: int| 0 <= j implies (has_bit(self.bitfield@, j) <==> has_bit(bits, j)
                    || j == *i as int) by {
                    lemma_have_adds_piece(bits, *i as int, j);
                }
            },
            _ => {},
        }
    }

    /// Whether requests would be served now.
    pub fn is_unchoked(&self) -> (r: bool)
        ensures
            r == (self.choke == ChokeState::Unchoked),
    {
        match self.choke {
            ChokeState::Unchoked => true,
            ChokeState::Choked => false,
        }
    }

    /// Whether the peer has announced piece `index`.
    pub fn has_piece(&self, index: u32) -> (r: bool)
        ensures
            r == has_bit(self.bitfield@, index as int),
    {
        let byte = (index / 8) as usize;
        if byte >= self.bitfield.len() {
            return false;
        }
        let shift = (7 - index % 8) as u8;
        (self.bitfield[byte] >> shift) & 1u8 == 1u8
    }
}

} // verus!
