//! Splitting a piece into blocks, and the per-piece download engine.
use vstd::prelude::*;

use crate::bytes::push_bytes;
use crate::digest::{sha1_digest, sha1_of};
use crate::error::{PeerError, Violation};
use crate::peer::{MessageModel, PeerMessage};
use crate::torrent::{Info, Keys};

verus! {

/// The largest block requested from a peer, in bytes (16 KiB).
pub const BLOCK_SIZE: u32 = 16384;

/// The number of blocks of at most `b` bytes needed to cover `p` bytes.
pub open spec fn block_count(p: int, b: int) -> int {
    (p + b - 1) / b
}

/// The length of block `i` when `p` bytes are cut into blocks of `b` bytes.
pub open spec fn block_len(p: int, b: int, i: int) -> int {
    if p - i * b < b { p - i * b } else { b }
}

/// The sum of a sequence of lengths.
pub open spec fn total_of(s: Seq<u32>) -> int
    decreases s.len(),
{
    if s.len() == 0 { 0 } else { total_of(s.drop_last()) + s.last() as int }
}

proof fn lemma_count_exact(p: int, b: int, k: int)
    requires
        b > 0,
        k >= 0,
        (k - 1) * b < p <= k * b,
    ensures
        block_count(p, b) == k,
{
    let r = p + b - 1 - k * b;
    assert(0 <= r < b) by (nonlinear_arith)
        requires
            (k - 1) * b < p <= k * b,
            r == p + b - 1 - k * b,
            b > 0,
    ;
    vstd::arithmetic::div_mod::lemma_fundamental_div_mod_converse(p + b - 1, b, k, r);
}

/// Cuts a piece of `piece_length` bytes into blocks of `block_size` bytes,
/// the last one possibly shorter.
pub fn get_block_sizes(piece_length: u32, block_size: u32) -> (r: Vec<u32>)
    requires
        block_size > 0,
    ensures
        r@.len() == block_count(piece_length as int, block_size as int),
        forall|i: int|
            0 <= i < r@.len() ==> #[trigger] r@[i] as int == block_len(
                piece_length as int,
                block_size as int,
                i,
            ),
        forall|i: int| 0 <= i < r@.len() ==> 0 < #[trigger] r@[i] <= block_size,
        total_of(r@) == piece_length,
{
    let mut block_sizes: Vec<u32> = Vec::new();
    let mut remaining_length: u32 = piece_length;
    let ghost p = piece_length as int;
    let ghost b = block_size as int;
    proof {
        assert(0 * b == 0) by (nonlinear_arith);
        if p == 0 {
            assert(block_count(p, b) == 0) by {
                vstd::arithmetic::div_mod::lemma_fundamental_div_mod_converse(b - 1, b, 0, b - 1);
            }
        }
    }
    while remaining_length > 0
        invariant
            b == block_size,
            p == piece_length,
            b > 0,
            0 <= remaining_length <= p,
            remaining_length > 0 ==> remaining_length as int == p - block_sizes@.len() * b,
            forall|i: int|
                0 <= i < block_sizes@.len() ==> #[trigger] block_sizes@[i] as int == block_len(
                    p,
                    b,
                    i,
                ),
            forall|i: int| 0 <= i < block_sizes@.len() ==> 0 < #[trigger] block_sizes@[i] <= b,
            total_of(block_sizes@) == p - remaining_length,
            remaining_length == 0 ==> block_count(p, b) == block_sizes@.len(),
        decreases remaining_length,
    {
        let current_block_size: u32 = if block_size < remaining_length {
            block_size
        } else {
            remaining_length
        };
        let ghost k = block_sizes@.len() as int;
        let ghost old_sizes = block_sizes@;
        assert(current_block_size as int == block_len(p, b, k));
        block_sizes.push(current_block_size);
        remaining_length = remaining_length - current_block_size;
        proof {
            assert(block_sizes@.drop_last() == old_sizes);
            assert((k + 1) * b == k * b + b) by (nonlinear_arith);
            if remaining_length == 0 {
                assert(k * b < p);
                lemma_count_exact(p, b, k + 1);
            }
        }
    }
    block_sizes
}

/// Cuts a piece into its block plan: the offset and length of each block.
pub fn block_plan(piece_length: u32, block_size: u32) -> (r: Vec<(u32, u32)>)
    requires
        block_size > 0,
    ensures
        r@.len() == block_count(piece_length as int, block_size as int),
        forall|i: int|
            0 <= i < r@.len() ==> (#[trigger] r@[i]).0 as int == i * block_size && r@[i].1 as int
                == block_len(piece_length as int, block_size as int, i),
{
    let sizes = get_block_sizes(piece_length, block_size);
    let mut plan: Vec<(u32, u32)> = Vec::new();
    let mut offset: u32 = 0;
    let mut i: usize = 0;
    let ghost p = piece_length as int;
    let ghost b = block_size as int;
    while i < sizes.len()
        invariant
            b == block_size,
            p == piece_length,
            b > 0,
            sizes@.len() == block_count(p, b),
            forall|k: int| 0 <= k < sizes@.len() ==> #[trigger] sizes@[k] as int == block_len(p, b, k),
            0 <= i <= sizes@.len(),
            plan@.len() == i,
            forall|k: int| 0 <= k < sizes@.len() ==> 0 < #[trigger] sizes@[k] <= b,
            i < sizes@.len() ==> offset as int == i * b,
            i < sizes@.len() ==> i * b < p,
            forall|k: int|
                0 <= k < i ==> (#[trigger] plan@[k]).0 as int == k * b && plan@[k].1 as int
                    == block_len(p, b, k),
        decreases sizes@.len() - i,
    {
        let len = sizes[i];
        plan.push((offset, len));
        proof {
            assert((i + 1) * b == i * b + b) by (nonlinear_arith);
            if i + 1 < sizes@.len() {
                // a block that is not the last one is full, so the next one starts inside the piece
                assert(sizes@[i + 1] as int == block_len(p, b, i + 1));
                assert((i + 1) * b < p);
            }
        }
        if i + 1 < sizes.len() {
            offset = offset + len;
        }
        i = i + 1;
    }
    plan
}

/// The length of piece `index` of a file of `total` bytes cut into pieces
/// of `plen` bytes: `plen`, except for the last piece, which holds
/// `total % plen` bytes (or `plen` when that remainder is zero).
pub open spec fn piece_size(index: int, plen: int, total: int) -> int {
    if (index + 1) * plen >= total {
        if total % plen == 0 { plen } else { total % plen }
    } else {
        plen
    }
}

/// The expected length of piece `piece_index` of a single-file torrent.
pub fn get_piece_size(piece_index: u32, meta_info: &Info) -> (r: u32)
    requires
        meta_info.plength > 0,
        meta_info.keys is SingleFile,
        (piece_index as int) * (meta_info.plength as int) < meta_info.keys->SingleFile_length,
    ensures
        r as int == piece_size(
            piece_index as int,
            meta_info.plength as int,
            meta_info.keys->SingleFile_length as int,
        ),
{
    let length = match &meta_info.keys {
        Keys::SingleFile { length } => *length,
        Keys::MultiFile { .. } => 0,
    };
    let piece_length = meta_info.plength;
    assert((piece_index as u64 + 1) * (piece_length as u64) <= u64::MAX) by (nonlinear_arith)
        requires
            piece_index <= u32::MAX,
            piece_length <= u32::MAX,
    ;
    let end = (piece_index as u64 + 1) * (piece_length as u64);
    assert(end == (piece_index as int + 1) * (piece_length as int)) by (nonlinear_arith)
        requires
            end == (piece_index as u64 + 1) * (piece_length as u64),
    ;
    if end >= length as u64 {
        let rem = length % piece_length;
        if rem == 0 {
            piece_length
        } else {
            rem
        }
    } else {
        piece_length
    }
}

/// The most requests left unanswered at once.
pub const MAX_OUTSTANDING: usize = 5;

/// Where a piece download stands: its piece, the expected digest, for each
/// planned block the bytes received for it so far, and how many blocks of
/// the plan (a prefix) have been requested.
pub struct DownloadModel {
    pub index: u32,
    pub length: u32,
    pub expected_hash: [u8; 20],
    pub received: Seq<Option<Seq<u8>>>,
    pub requested: nat,
}

/// The download of one piece: the block plan and a slot per planned block,
/// filled by offset as blocks arrive, in whatever order.
pub struct PieceDownload {
    index: u32,
    length: u32,
    expected_hash: [u8; 20],
    plan: Vec<(u32, u32)>,
    blocks: Vec<Option<Vec<u8>>>,
    requested: usize,
}

/// What a download does after a message: read on, or verify the piece.
#[derive(Debug, Clone, Copy, PartialEq, Eq, Structural)]
pub enum Progress {
    Pending,
    Complete,
}

/// The value of each block slot.
pub open spec fn slots_view(v: Seq<Option<Vec<u8>>>) -> Seq<Option<Seq<u8>>> {
    Seq::new(
        v.len(),
        |k: int|
            match v[k] {
                Some(b) => Some(b@),
                None => None,
            },
    )
}

impl View for PieceDownload {
    type V = DownloadModel;

    closed spec fn view(&self) -> DownloadModel {
        DownloadModel {
            index: self.index,
            length: self.length,
            expected_hash: self.expected_hash,
            received: slots_view(self.blocks@),
            requested: self.requested as nat,
        }
    }
}

/// The state in which a download of a piece starts: nothing received.
pub open spec fn initial(index: u32, length: u32, expected_hash: [u8; 20]) -> DownloadModel {
    DownloadModel {
        index,
        length,
        expected_hash,
        received: Seq::new(
            block_count(length as int, BLOCK_SIZE as int) as nat,
            |k: int| None::<Seq<u8>>,
        ),
        requested: 0,
    }
}

/// The number of empty slots among the first `n`.
pub open spec fn missing_below(received: Seq<Option<Seq<u8>>>, n: int) -> int
    decreases n,
{
    if n <= 0 {
        0
    } else {
        missing_below(received, n - 1) + if received[n - 1] is None {
            1int
        } else {
            0int
        }
    }
}

proof fn lemma_missing_grows_slowly(received: Seq<Option<Seq<u8>>>, n: int, m: int)
    requires
        0 <= n <= m,
    ensures
        missing_below(received, m) <= missing_below(received, n) + (m - n),
    decreases m - n,
{
    if m > n {
        lemma_missing_grows_slowly(received, n, m - 1);
    }
}

proof fn lemma_filling_shrinks_missing(
    received: Seq<Option<Seq<u8>>>,
    k: int,
    block: Seq<u8>,
    n: int,
)
    requires
        0 <= k < received.len(),
        n <= received.len(),
    ensures
        missing_below(received.update(k, Some(block)), n) <= missing_below(received, n),
    decreases n,
{
    if n > 0 {
        lemma_filling_shrinks_missing(received, k, block, n - 1);
    }
}

/// How far the requested prefix reaches once the window is refilled: up to
/// `MAX_OUTSTANDING` requested blocks still missing, and no further than the plan.
pub open spec fn window_end(s: DownloadModel) -> int {
    let room = MAX_OUTSTANDING - missing_below(s.received, s.requested as int);
    if room <= 0 {
        s.requested as int
    } else if s.requested + room > s.received.len() {
        s.received.len() as int
    } else {
        s.requested + room
    }
}

/// Whether every planned block has arrived.
pub open spec fn complete(s: DownloadModel) -> bool {
    forall|k: int| 0 <= k < s.received.len() ==> (#[trigger] s.received[k]) is Some
}

/// Whether a block at `begin` of `len` bytes is one of the plan's blocks.
pub open spec fn planned(s: DownloadModel, begin: u32, len: int) -> bool {
    &&& begin as int % BLOCK_SIZE as int == 0
    &&& begin < s.length
    &&& len == block_len(s.length as int, BLOCK_SIZE as int, begin as int / BLOCK_SIZE as int)
}

/// The next state after message `m`, or the failure it causes. A block is
/// placed by its offset; a block outside the plan, a second block for one
/// offset, a block of another piece and a choke before the piece is complete
/// fail the download; other messages are tolerated.
pub open spec fn step(s: DownloadModel, m: MessageModel) -> Result<DownloadModel, PeerError> {
    match m {
        MessageModel::Choke => {
            if complete(s) {
                Ok(s)
            } else {
                Err(PeerError::ChokedMidTransfer { index: s.index })
            }
        },
        MessageModel::Piece { index, begin, block } => {
            if index != s.index {
                Err(
                    PeerError::ProtocolViolation(
                        Violation::WrongPiece { expected: s.index, received: index },
                    ),
                )
            } else if !planned(s, begin, block.len() as int) {
                Err(
                    PeerError::ProtocolViolation(
                        Violation::BlockOutsidePlan { begin, length: block.len() as usize },
                    ),
                )
            } else if s.received[begin as int / BLOCK_SIZE as int] is Some {
                Err(PeerError::ProtocolViolation(Violation::DuplicateBlock { begin }))
            } else {
                Ok(
                    DownloadModel {
                        received: s.received.update(
                            begin as int / BLOCK_SIZE as int,
                            Some(block),
                        ),
                        ..s
                    },
                )
            }
        },
        _ => Ok(s),
    }
}

/// The piece as the received blocks give it, in plan order.
pub open spec fn assembled(received: Seq<Option<Seq<u8>>>) -> Seq<u8>
    decreases received.len(),
{
    if received.len() == 0 {
        seq![]
    } else {
        assembled(received.drop_last()) + received.last().unwrap()
    }
}

impl PieceDownload {
    /// Whether the slots match the block plan.
    pub closed spec fn wf(&self) -> bool {
        &&& self.plan@.len() == block_count(self.length as int, BLOCK_SIZE as int)
        &&& forall|i: int|
            0 <= i < self.plan@.len() ==> (#[trigger] self.plan@[i]).0 as int == i * BLOCK_SIZE
                && self.plan@[i].1 as int == block_len(self.length as int, BLOCK_SIZE as int, i)
        &&& self.blocks@.len() == self.plan@.len()
        &&& self.requested <= self.plan@.len()
    }

    /// Starts the download of piece `index`, `length` bytes long, whose
    /// SHA-1 digest must be `expected_hash`.
    pub fn new(index: u32, length: u32, expected_hash: [u8; 20]) -> (r: PieceDownload)
        ensures
            r.wf(),
            r@ == initial(index, length, expected_hash),
    {
        let plan = block_plan(length, BLOCK_SIZE);
        let mut blocks: Vec<Option<Vec<u8>>> = Vec::new();
        let mut i: usize = 0;
        while i < plan.len()
            invariant
                0 <= i <= plan@.len(),
                blocks@.len() == i,
                forall|k: int| 0 <= k < i ==> (#[trigger] blocks@[k]) is None,
            decreases plan@.len() - i,
        {
            blocks.push(None);
            i = i + 1;
        }
        let r = PieceDownload { index, length, expected_hash, plan, blocks, requested: 0 };
        assert(r@.received =~= initial(index, length, expected_hash).received);
        r
    }

    /// The Request messages that refill the window: the next planned blocks,
    /// in plan order, until `MAX_OUTSTANDING` requested blocks are missing or
    /// the plan is exhausted.
    pub fn next_requests(&mut self) -> (r: Vec<PeerMessage>)
        requires
            old(self).wf(),
        ensures
            final(self).wf(),
            final(self)@ == (DownloadModel { requested: window_end(old(self)@) as nat, ..old(self)@ }),
            r@.len() == window_end(old(self)@) - old(self)@.requested,
            missing_below(old(self)@.received, old(self)@.requested as int) <= MAX_OUTSTANDING
                ==> missing_below(final(self)@.received, final(self)@.requested as int)
                <= MAX_OUTSTANDING,
            forall|i: int|
                0 <= i < r@.len() ==> (#[trigger] r@[i])@ == (MessageModel::Request {
                    index: old(self)@.index,
                    begin: ((old(self)@.requested + i) * BLOCK_SIZE) as u32,
                    length: block_len(
                        old(self)@.length as int,
                        BLOCK_SIZE as int,
                        old(self)@.requested + i,
                    ) as u32,
                }),
    {
        let start = self.requested;
        let mut missing: usize = 0;
        let mut i: usize = 0;
        while i < start
            invariant
                self.wf(),
                start == self.requested,
                0 <= i <= start,
                missing as int == missing_below(self@.received, i as int),
                missing <= i,
            decreases start - i,
        {
            if self.blocks[i].is_none() {
                missing = missing + 1;
            }
            i = i + 1;
        }
        let count = self.plan.len();
        let end = if missing >= MAX_OUTSTANDING {
            start
        } else if MAX_OUTSTANDING - missing > count - start {
            count
        } else {
            start + (MAX_OUTSTANDING - missing)
        };
        let mut out: Vec<PeerMessage> = Vec::new();
        let mut k: usize = start;
        while k < end
            invariant
                self.wf(),
                start == self.requested,
                start <= k <= end <= self.plan@.len(),
                out@.len() == k - start,
                forall|j: int|
                    0 <= j < k - start ==> (#[trigger] out@[j])@ == (MessageModel::Request {
                        index: self.index,
                        begin: ((start + j) * BLOCK_SIZE) as u32,
                        length: block_len(self.length as int, BLOCK_SIZE as int, start + j) as u32,
                    }),
            decreases end - k,
        {
            let (begin, length) = self.plan[k];
            out.push(PeerMessage::Request { index: self.index, begin, length });
            k = k + 1;
        }
        proof {
            lemma_missing_grows_slowly(self@.received, start as int, end as int);
        }
        self.requested = end;
        out
    }

    /// Whether every planned block has arrived.
    pub fn is_complete(&self) -> (r: bool)
        ensures
            r == complete(self@),
    {
        let mut i: usize = 0;
        while i < self.blocks.len()
            invariant
                0 <= i <= self.blocks@.len(),
                forall|k: int| 0 <= k < i ==> (#[trigger] self.blocks@[k]) is Some,
            decreases self.blocks@.len() - i,
        {
            if self.blocks[i].is_none() {
                assert(self@.received[i as int] is None);
                return false;
            }
            i = i + 1;
        }
        assert forall|k: int| 0 <= k < self@.received.len() implies (
        #[trigger] self@.received[k]) is Some by {
            assert(self.blocks@[k] is Some);
        }
        true
    }

    /// Takes one message from the peer: places a planned block by its offset,
    /// tolerates messages that carry no block, and fails as [`step`] says.
    pub fn receive(&mut self, msg: PeerMessage) -> (r: Result<Progress, PeerError>)
        requires
            old(self).wf(),
        ensures
            final(self).wf(),
            r is Err ==> final(self)@ == old(self)@,
            missing_below(final(self)@.received, final(self)@.requested as int) <= missing_below(
                old(self)@.received,
                old(self)@.requested as int,
            ),
            match r {
                Ok(p) => step(old(self)@, msg@) == Ok::<DownloadModel, PeerError>(final(self)@)
                    && (p == Progress::Complete <==> complete(final(self)@)),
                Err(e) => step(old(self)@, msg@) == Err::<DownloadModel, PeerError>(e),
            },
    {
        match msg {
            PeerMessage::Choke => {
                if self.is_complete() {
                    Ok(Progress::Complete)
                } else {
                    Err(PeerError::ChokedMidTransfer { index: self.index })
                }
            },
            PeerMessage::Piece { index, begin, block } => {
                if index != self.index {
                    return Err(
                        PeerError::ProtocolViolation(
                            Violation::WrongPiece { expected: self.index, received: index },
                        ),
                    );
                }
                let ghost b = block@;
                let outside = PeerError::ProtocolViolation(
                    Violation::BlockOutsidePlan { begin, length: block.len() },
                );
                if begin % BLOCK_SIZE != 0 || begin >= self.length {
                    return Err(outside);
                }
                let slot = (begin / BLOCK_SIZE) as usize;
                assert(slot < self.plan@.len());
                let expected_len = self.plan[slot].1;
                if block.len() != expected_len as usize {
                    return Err(outside);
                }
                if self.blocks[slot].is_some() {
                    return Err(PeerError::ProtocolViolation(Violation::DuplicateBlock { begin }));
                }
                let ghost before = self@;
                self.blocks.set(slot, Some(block));
                assert(self@.received =~= before.received.update(slot as int, Some(b)));
                proof {
                    lemma_filling_shrinks_missing(
                        before.received,
                        slot as int,
                        b,
                        before.requested as int,
                    );
                }
                if self.is_complete() {
                    Ok(Progress::Complete)
                } else {
                    Ok(Progress::Pending)
                }
            },
            _ => {
                if self.is_complete() {
                    Ok(Progress::Complete)
                } else {
                    Ok(Progress::Pending)
                }
            },
        }
    }

    /// The piece: the received blocks concatenated in plan order.
    pub fn assemble(&self) -> (r: Vec<u8>)
        requires
            complete(self@),
        ensures
            r@ == assembled(self@.received),
    {
        let mut piece: Vec<u8> = Vec::new();
        let mut i: usize = 0;
        while i < self.blocks.len()
            invariant
                complete(self@),
                0 <= i <= self.blocks@.len(),
                piece@ == assembled(self@.received.subrange(0, i as int)),
            decreases self.blocks@.len() - i,
        {
            assert(self@.received[i as int] is Some);
            match &self.blocks[i] {
                Some(block) => {
                    push_bytes(&mut piece, block.as_slice());
                },
                None => {},
            }
            proof {
                let s = self@.received.subrange(0, i + 1);
                assert(s.drop_last() =~= self@.received.subrange(0, i as int));
            }
            i = i + 1;
        }
        assert(self@.received.subrange(0, i as int) =~= self@.received);
        piece
    }

    /// Verifies the complete piece: its bytes when their SHA-1 digest is the
    /// expected one, `HashMismatch` otherwise.
    pub fn finish(&self) -> (r: Result<Vec<u8>, PeerError>)
        requires
            complete(self@),
        ensures
            verdict(self@.index, assembled(self@.received), sha1_of(assembled(self@.received)), self@.expected_hash@, r),
    {
        let piece = self.assemble();
        let digest = sha1_digest(piece.as_slice());
        check_digest(self.index, piece, &digest, &self.expected_hash)
    }
}

/// `r` is the verdict on `piece` (of piece `index`) whose digest is `digest`:
/// the piece itself when the digest is the expected one, `HashMismatch` otherwise.
pub open spec fn verdict(
    index: u32,
    piece: Seq<u8>,
    digest: Seq<u8>,
    expected: Seq<u8>,
    r: Result<Vec<u8>, PeerError>,
) -> bool {
    match r {
        Ok(p) => p@ == piece && digest == expected,
        Err(e) => e == PeerError::HashMismatch { index } && digest != expected,
    }
}

/// Compares a piece's digest with the expected one, byte for byte.
pub fn check_digest(index: u32, piece: Vec<u8>, digest: &[u8; 20], expected: &[u8; 20]) -> (r: Result<
    Vec<u8>,
    PeerError,
>)
    ensures
        verdict(index, piece@, digest@, expected@, r),
{
    let mut i: usize = 0;
    while i < 20
        invariant
            0 <= i <= 20,
            digest@.len() == 20,
            expected@.len() == 20,
            forall|k: int| 0 <= k < i ==> digest@[k] == expected@[k],
        decreases 20 - i,
    {
        if digest[i] != expected[i] {
            return Err(PeerError::HashMismatch { index });
        }
        i = i + 1;
    }
    assert(digest@ =~= expected@);
    Ok(piece)
}

/// The state after the messages `ms`, taken in order, or the first failure.
pub open spec fn deliver_all(s: DownloadModel, ms: Seq<MessageModel>) -> Result<
    DownloadModel,
    PeerError,
>
    decreases ms.len(),
{
    if ms.len() == 0 {
        Ok(s)
    } else {
        match step(s, ms[0]) {
            Ok(t) => deliver_all(t, ms.drop_first()),
            Err(e) => Err(e),
        }
    }
}

/// The block slot that a Piece message at `begin` fills.
pub open spec fn slot_of(m: MessageModel) -> int {
    m->Piece_begin as int / BLOCK_SIZE as int
}

/// Whether `s` has one slot per planned block.
pub open spec fn sized(s: DownloadModel) -> bool {
    s.received.len() == block_count(s.length as int, BLOCK_SIZE as int)
}

/// Every message is a planned block of this piece for a slot still empty in
/// `s`, and no two fill the same slot.
spec fn acceptable(s: DownloadModel, ms: Seq<MessageModel>) -> bool {
    &&& forall|i: int|
        0 <= i < ms.len() ==> {
            &&& (#[trigger] ms[i]) is Piece
            &&& ms[i]->Piece_index == s.index
            &&& planned(s, ms[i]->Piece_begin, ms[i]->Piece_block.len() as int)
            &&& s.received[slot_of(ms[i])] is None
        }
    &&& forall|i: int, j: int|
        0 <= i < ms.len() && 0 <= j < ms.len() && i != j ==> slot_of(#[trigger] ms[i])
            != slot_of(#[trigger] ms[j])
}

/// The slots of `s` with the blocks of `ms` placed by offset.
spec fn filled(s: DownloadModel, ms: Seq<MessageModel>) -> DownloadModel {
    DownloadModel {
        received: Seq::new(
            s.received.len(),
            |k: int|
                if exists|i: int| 0 <= i < ms.len() && slot_of(#[trigger] ms[i]) == k {
                    Some(
                        ms[choose|i: int| 0 <= i < ms.len() && slot_of(#[trigger] ms[i]) == k]->Piece_block,
                    )
                } else {
                    s.received[k]
                },
        ),
        ..s
    }
}

proof fn lemma_planned_slot(s: DownloadModel, begin: u32, len: int)
    requires
        sized(s),
        planned(s, begin, len),
    ensures
        0 <= begin as int / (BLOCK_SIZE as int) < s.received.len(),
{
}

proof fn lemma_deliver_accepted(s: DownloadModel, ms: Seq<MessageModel>)
    requires
        sized(s),
        forall|i: int| 0 <= i < ms.len() ==> (#[trigger] ms[i]) is Piece,
        deliver_all(s, ms) is Ok,
    ensures
        acceptable(s, ms),
    decreases ms.len(),
{
    if ms.len() > 0 {
        let m = ms[0];
        let t = step(s, m)->Ok_0;
        let rest = ms.drop_first();
        lemma_planned_slot(s, m->Piece_begin, m->Piece_block.len() as int);
        assert(forall|i: int| 0 <= i < rest.len() ==> rest[i] == ms[i + 1]);
        lemma_deliver_accepted(t, rest);
        assert forall|i: int| 0 <= i < ms.len() implies {
            &&& (#[trigger] ms[i]) is Piece
            &&& ms[i]->Piece_index == s.index
            &&& planned(s, ms[i]->Piece_begin, ms[i]->Piece_block.len() as int)
            &&& s.received[slot_of(ms[i])] is None
        } by {
            if i > 0 {
                assert(rest[i - 1] == ms[i]);
                lemma_planned_slot(t, ms[i]->Piece_begin, ms[i]->Piece_block.len() as int);
            }
        }
        assert forall|i: int, j: int|
            0 <= i < ms.len() && 0 <= j < ms.len() && i != j implies slot_of(#[trigger] ms[i])
            != slot_of(#[trigger] ms[j]) by {
            if i > 0 && j > 0 {
                assert(rest[i - 1] == ms[i]);
                assert(rest[j - 1] == ms[j]);
            } else if i > 0 {
                assert(rest[i - 1] == ms[i]);
                lemma_planned_slot(t, ms[i]->Piece_begin, ms[i]->Piece_block.len() as int);
            } else {
                assert(rest[j - 1] == ms[j]);
                lemma_planned_slot(t, ms[j]->Piece_begin, ms[j]->Piece_block.len() as int);
            }
        }
    }
}

proof fn lemma_deliver_fills(s: DownloadModel, ms: Seq<MessageModel>)
    requires
        sized(s),
        acceptable(s, ms),
    ensures
        deliver_all(s, ms) == Ok::<DownloadModel, PeerError>(filled(s, ms)),
    decreases ms.len(),
{
    if ms.len() == 0 {
        assert(filled(s, ms).received =~= s.received);
    } else {
        let m = ms[0];
        let rest = ms.drop_first();
        assert(m is Piece);
        lemma_planned_slot(s, m->Piece_begin, m->Piece_block.len() as int);
        let t = DownloadModel { received: s.received.update(slot_of(m), Some(m->Piece_block)), ..s };
        assert(step(s, m) == Ok::<DownloadModel, PeerError>(t));
        assert(forall|i: int| 0 <= i < rest.len() ==> rest[i] == ms[i + 1]);
        assert forall|i: int| 0 <= i < rest.len() implies t.received[slot_of(#[trigger] rest[i])] is None by {
            assert(rest[i] == ms[i + 1]);
            assert(slot_of(ms[0]) != slot_of(ms[i + 1]));
        }
        assert forall|i: int, j: int|
            0 <= i < rest.len() && 0 <= j < rest.len() && i != j implies slot_of(#[trigger] rest[i])
            != slot_of(#[trigger] rest[j]) by {
            assert(rest[i] == ms[i + 1]);
            assert(rest[j] == ms[j + 1]);
        }
        lemma_deliver_fills(t, rest);
        let a = filled(t, rest);
        let b = filled(s, ms);
        assert forall|k: int| 0 <= k < s.received.len() implies a.received[k] == b.received[k] by {
            if k == slot_of(m) {
                assert(0 <= 0 < ms.len() && slot_of(ms[0]) == k);
                let c = choose|i: int| 0 <= i < ms.len() && slot_of(#[trigger] ms[i]) == k;
                assert(c == 0);
                assert(!exists|i: int| 0 <= i < rest.len() && slot_of(#[trigger] rest[i]) == k) by {
                    if exists|i: int| 0 <= i < rest.len() && slot_of(#[trigger] rest[i]) == k {
                        let i = choose|i: int| 0 <= i < rest.len() && slot_of(#[trigger] rest[i]) == k;
                        assert(rest[i] == ms[i + 1]);
                    }
                }
            } else {
                if exists|i: int| 0 <= i < ms.len() && slot_of(#[trigger] ms[i]) == k {
                    let c = choose|i: int| 0 <= i < ms.len() && slot_of(#[trigger] ms[i]) == k;
                    assert(c > 0);
                    assert(rest[c - 1] == ms[c]);
                    assert(0 <= c - 1 < rest.len() && slot_of(rest[c - 1]) == k);
                    let d = choose|i: int| 0 <= i < rest.len() && slot_of(#[trigger] rest[i]) == k;
                    assert(rest[d] == ms[d + 1]);
                    assert(d + 1 == c);
                } else {
                    assert(!exists|i: int| 0 <= i < rest.len() && slot_of(#[trigger] rest[i]) == k) by {
                        if exists|i: int| 0 <= i < rest.len() && slot_of(#[trigger] rest[i]) == k {
                            let i = choose|i: int| 0 <= i < rest.len() && slot_of(#[trigger] rest[i]) == k;
                            assert(rest[i] == ms[i + 1]);
                        }
                    }
                }
            }
        }
        assert(a.received =~= b.received);
    }
}

/// Blocks arriving in any order give the same result: when a sequence of
/// Piece messages completes its delivery without failure, every permutation
/// of it ends in the same state, and so in the same reassembled piece and the
/// same digest.
pub proof fn lemma_arrival_order_irrelevant(
    s: DownloadModel,
    ms1: Seq<MessageModel>,
    ms2: Seq<MessageModel>,
)
    requires
        sized(s),
        forall|i: int| 0 <= i < ms1.len() ==> (#[trigger] ms1[i]) is Piece,
        deliver_all(s, ms1) is Ok,
        ms2.to_multiset() == ms1.to_multiset(),
    ensures
        deliver_all(s, ms2) == deliver_all(s, ms1),
        assembled(deliver_all(s, ms2)->Ok_0.received) == assembled(deliver_all(s, ms1)->Ok_0.received),
{
    broadcast use vstd::seq_lib::group_to_multiset_ensures;

    lemma_deliver_accepted(s, ms1);
    // every arrival of one order is an arrival of the other
    assert forall|j: int| 0 <= j < ms2.len() implies exists|i: int|
        0 <= i < ms1.len() && ms1[i] == #[trigger] ms2[j] by {
        assert(ms2.contains(ms2[j]));
        assert(ms2.to_multiset().count(ms2[j]) > 0);
        assert(ms1.contains(ms2[j]));
    }
    assert forall|i: int| 0 <= i < ms1.len() implies exists|j: int|
        0 <= j < ms2.len() && ms2[j] == #[trigger] ms1[i] by {
        assert(ms1.contains(ms1[i]));
        assert(ms1.to_multiset().count(ms1[i]) > 0);
        assert(ms2.contains(ms1[i]));
    }
    // distinct slots make the arrivals distinct, in both orders
    assert(ms1.no_duplicates()) by {
        assert forall|i: int, j: int| 0 <= i < ms1.len() && 0 <= j < ms1.len() && i != j implies ms1[i]
            != ms1[j] by {
            assert(slot_of(ms1[i]) != slot_of(ms1[j]));
        }
    }
    ms1.lemma_multiset_has_no_duplicates();
    ms2.lemma_multiset_has_no_duplicates_conv();
    assert(acceptable(s, ms2)) by {
        assert forall|j: int| 0 <= j < ms2.len() implies {
            &&& (#[trigger] ms2[j]) is Piece
            &&& ms2[j]->Piece_index == s.index
            &&& planned(s, ms2[j]->Piece_begin, ms2[j]->Piece_block.len() as int)
            &&& s.received[slot_of(ms2[j])] is None
        } by {
            let i = choose|i: int| 0 <= i < ms1.len() && ms1[i] == ms2[j];
            assert(ms1[i] == ms2[j]);
        }
        assert forall|a: int, b: int|
            0 <= a < ms2.len() && 0 <= b < ms2.len() && a != b implies slot_of(#[trigger] ms2[a])
            != slot_of(#[trigger] ms2[b]) by {
            let i = choose|i: int| 0 <= i < ms1.len() && ms1[i] == ms2[a];
            let j = choose|j: int| 0 <= j < ms1.len() && ms1[j] == ms2[b];
            assert(ms1[i] == ms2[a]);
            assert(ms1[j] == ms2[b]);
            assert(ms2[a] != ms2[b]);
        }
    }
    lemma_deliver_fills(s, ms1);
    lemma_deliver_fills(s, ms2);
    let f1 = filled(s, ms1);
    let f2 = filled(s, ms2);
    assert forall|k: int| 0 <= k < s.received.len() implies f1.received[k] == f2.received[k] by {
        if exists|i: int| 0 <= i < ms1.len() && slot_of(#[trigger] ms1[i]) == k {
            let c = choose|i: int| 0 <= i < ms1.len() && slot_of(#[trigger] ms1[i]) == k;
            let j = choose|j: int| 0 <= j < ms2.len() && ms2[j] == ms1[c];
            assert(ms2[j] == ms1[c]);
            assert(0 <= j < ms2.len() && slot_of(ms2[j]) == k);
            let d = choose|j: int| 0 <= j < ms2.len() && slot_of(#[trigger] ms2[j]) == k;
            let e = choose|i: int| 0 <= i < ms1.len() && ms1[i] == ms2[d];
            assert(ms1[e] == ms2[d]);
            assert(slot_of(ms1[e]) == k);
            assert(e == c);
        } else {
            assert(!exists|j: int| 0 <= j < ms2.len() && slot_of(#[trigger] ms2[j]) == k) by {
                if exists|j: int| 0 <= j < ms2.len() && slot_of(#[trigger] ms2[j]) == k {
                    let d = choose|j: int| 0 <= j < ms2.len() && slot_of(#[trigger] ms2[j]) == k;
                    let e = choose|i: int| 0 <= i < ms1.len() && ms1[i] == ms2[d];
                    assert(ms1[e] == ms2[d]);
                    assert(slot_of(ms1[e]) == k);
                }
            }
        }
    }
    assert(f1.received =~= f2.received);
}

} // verus!
