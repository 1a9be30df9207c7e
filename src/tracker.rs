//! What is sent to a tracker and what comes back: the compact peer list.
use vstd::prelude::*;

use crate::bytes::take_array;

verus! {

/// The length of one peer in the compact list: 4 address bytes, 2 port bytes.
pub const COMPACT_PEER_LEN: usize = 6;

/// The query of a tracker request (the info hash is added to the URL
/// separately, percent-encoded).
#[derive(Debug, Clone)]
pub struct TrackerRequest {
    /// A unique identifier of this client.
    pub peer_id: String,
    /// The port this client listens on.
    pub port: u16,
    /// The total amount uploaded so far.
    pub uploaded: usize,
    /// The total amount downloaded so far.
    pub downloaded: usize,
    /// The number of bytes left to download.
    pub left: usize,
    /// Whether the peer list should use the compact form (1) or not (0).
    pub compact: u8,
}

/// A tracker's answer.
#[derive(Debug, Clone)]
pub struct TrackerResponse {
    /// How often to ask the tracker again, in seconds.
    pub interval: u8,
    /// The peers that this client can connect to.
    pub peers: Peers,
}

/// An IPv4 address and a port: one remote endpoint.
#[derive(Debug, Clone, Copy)]
pub struct PeerAddress {
    pub ip: [u8; 4],
    pub port: u16,
}

/// The peer list of a tracker response.
#[derive(Debug, Clone)]
pub struct Peers(pub Vec<PeerAddress>);

/// The peer written at entry `i` of a compact list: 4 address bytes, then the
/// port, big-endian.
pub open spec fn compact_peer_at(s: Seq<u8>, i: int) -> PeerAddress {
    PeerAddress {
        ip: [s[6 * i], s[6 * i + 1], s[6 * i + 2], s[6 * i + 3]],
        port: (s[6 * i + 4] as int * 256 + s[6 * i + 5] as int) as u16,
    }
}

impl Peers {
    /// Reads a compact peer list; `None` when its length is not a multiple of 6.
    pub fn from_compact(v: &[u8]) -> (r: Option<Peers>)
        ensures
            r is Some <==> v@.len() % 6 == 0,
            r matches Some(p) ==> {
                &&& p.0@.len() == v@.len() / 6
                &&& forall|i: int| 0 <= i < p.0@.len() ==> #[trigger] p.0@[i] == compact_peer_at(v@, i)
            },
    {
        let len = v.len();
        if len % COMPACT_PEER_LEN != 0 {
            return None;
        }
        let count = len / COMPACT_PEER_LEN;
        let mut peers: Vec<PeerAddress> = Vec::new();
        let mut i: usize = 0;
        while i < count
            invariant
                len == v@.len(),
                count == len / 6,
                len % 6 == 0,
                0 <= i <= count,
                peers@.len() == i,
                forall|k: int| 0 <= k < i ==> #[trigger] peers@[k] == compact_peer_at(v@, k),
            decreases count - i,
        {
            assert(i * 6 + 6 <= len) by (nonlinear_arith)
                requires
                    i < count,
                    count == len / 6,
                    len % 6 == 0,
            ;
            let at = i * COMPACT_PEER_LEN;
            let ip: [u8; 4] = take_array(v, at);
            let port = (v[at + 4] as u16) * 256 + (v[at + 5] as u16);
            let peer = PeerAddress { ip, port };
            assert(peer.ip =~= compact_peer_at(v@, i as int).ip);
            peers.push(peer);
            i = i + 1;
        }
        Some(Peers(peers))
    }

    /// Writes the compact form of the list.
    pub fn to_compact(&self) -> (r: Vec<u8>)
        ensures
            r@.len() == 6 * self.0@.len(),
            forall|i: int| 0 <= i < self.0@.len() ==> compact_peer_at(r@, i) == #[trigger] self.0@[i],
    {
        let mut out: Vec<u8> = Vec::new();
        let mut i: usize = 0;
        while i < self.0.len()
            invariant
                0 <= i <= self.0@.len(),
                out@.len() == 6 * i,
                forall|k: int| 0 <= k < i ==> compact_peer_at(out@, k) == #[trigger] self.0@[k],
            decreases self.0@.len() - i,
        {
            let peer = self.0[i];
            let ghost before = out@;
            out.push(peer.ip[0]);
            out.push(peer.ip[1]);
            out.push(peer.ip[2]);
            out.push(peer.ip[3]);
            out.push((peer.port / 256) as u8);
            out.push((peer.port % 256) as u8);
            proof {
                assert forall|k: int| 0 <= k < i + 1 implies compact_peer_at(out@, k)
                    == #[trigger] self.0@[k] by {
                    if k < i {
                        assert(compact_peer_at(out@, k) == compact_peer_at(before, k));
                    } else {
                        assert(compact_peer_at(out@, k).ip =~= peer.ip);
                    }
                }
            }
            i = i + 1;
        }
        out
    }
}

} // verus!
