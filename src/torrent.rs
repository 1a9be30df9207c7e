//! The metadata model: a torrent's layout, piece length and piece hashes.
use vstd::prelude::*;

use crate::bytes::{push_bytes, take_array};
use crate::digest::{sha1_digest, sha1_of};

verus! {

/// The length of one piece hash, a SHA-1 digest.
pub const HASH_LEN: usize = 20;

/// A metainfo (.torrent) file.
#[derive(Debug, Clone)]
pub struct Torrent {
    /// URL of the tracker that keeps track of the peers sharing this torrent.
    pub announce: String,
    pub info: Info,
}

/// The info section of a metainfo file.
#[derive(Debug, Clone)]
pub struct Info {
    /// Suggested name of the file (single file) or directory (several files).
    pub name: String,
    /// Number of bytes in each piece; the last piece may be shorter.
    pub plength: u32,
    /// The SHA-1 hash of each piece, in piece order.
    pub pieces: Hashes,
    pub keys: Keys,
}

/// A single file with its length, or a list of files.
#[derive(Debug, Clone)]
pub enum Keys {
    SingleFile { length: u32 },
    MultiFile { files: Vec<File> },
}

/// One file of a multi-file torrent.
#[derive(Debug, Clone)]
pub struct File {
    /// The length of the file in bytes.
    pub length: u32,
    /// Subdirectory names, then the file name.
    pub path: Vec<String>,
}

/// The per-piece hash list.
#[derive(Debug, Clone)]
pub struct Hashes(pub Vec<[u8; 20]>);

/// The hashes held by `s`, cut into consecutive 20-byte pieces.
pub open spec fn hash_at(s: Seq<u8>, i: int) -> Seq<u8> {
    s.subrange(i * 20, i * 20 + 20)
}

/// The hash list written as one byte string, hash after hash.
pub open spec fn concat_hashes(h: Seq<[u8; 20]>) -> Seq<u8>
    decreases h.len(),
{
    if h.len() == 0 {
        seq![]
    } else {
        concat_hashes(h.drop_last()) + h.last()@
    }
}

impl Hashes {
    /// Splits a byte string into 20-byte hashes; `None` when its length is
    /// not a multiple of 20.
    pub fn from_bytes(v: &[u8]) -> (r: Option<Hashes>)
        ensures
            r is Some <==> v@.len() % 20 == 0,
            r matches Some(h) ==> {
                &&& h.0@.len() == v@.len() / 20
                &&& forall|i: int| 0 <= i < h.0@.len() ==> (#[trigger] h.0@[i])@ == hash_at(v@, i)
            },
    {
        let len = v.len();
        if len % HASH_LEN != 0 {
            return None;
        }
        let count = len / HASH_LEN;
        let mut hashes: Vec<[u8; 20]> = Vec::new();
        let mut i: usize = 0;
        while i < count
            invariant
                len == v@.len(),
                count == len / 20,
                len % 20 == 0,
                0 <= i <= count,
                hashes@.len() == i,
                forall|k: int| 0 <= k < i ==> (#[trigger] hashes@[k])@ == hash_at(v@, k),
            decreases count - i,
        {
            assert(i * 20 + 20 <= len) by (nonlinear_arith)
                requires
                    i < count,
                    count == len / 20,
                    len % 20 == 0,
            ;
            let h: [u8; 20] = take_array(v, i * HASH_LEN);
            hashes.push(h);
            i = i + 1;
        }
        Some(Hashes(hashes))
    }

    /// The hash list as one byte string, hash after hash.
    pub fn to_bytes(&self) -> (r: Vec<u8>)
        ensures
            r@ == concat_hashes(self.0@),
    {
        let mut out: Vec<u8> = Vec::new();
        let mut i: usize = 0;
        while i < self.0.len()
            invariant
                0 <= i <= self.0@.len(),
                out@ == concat_hashes(self.0@.subrange(0, i as int)),
            decreases self.0@.len() - i,
        {
            push_bytes(&mut out, self.0[i].as_slice());
            proof {
                let s = self.0@.subrange(0, i + 1);
                assert(s.drop_last() =~= self.0@.subrange(0, i as int));
            }
            i = i + 1;
        }
        assert(self.0@.subrange(0, i as int) =~= self.0@);
        out
    }
}

/// The content identifier of a torrent: the SHA-1 digest of its bencoded
/// info section.
pub fn content_identifier(encoded_info: &[u8]) -> (r: [u8; 20])
    ensures
        r@ == sha1_of(encoded_info@),
{
    sha1_digest(encoded_info)
}

} // verus!
