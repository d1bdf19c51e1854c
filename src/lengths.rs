//! Piece and chunk geometry of a torrent.

use vstd::arithmetic::div_mod::{
    lemma_div_is_ordered, lemma_fundamental_div_mod, lemma_fundamental_div_mod_converse,
};
use vstd::prelude::*;

verus! {

/// Size of one request unit; the last chunk of a piece may be shorter.
pub const CHUNK_LENGTH: u32 = 16384;

pub open spec fn ceil_div(a: nat, b: nat) -> nat
    recommends
        b > 0,
{
    ((a + b - 1) as nat) / b
}

/// A piece index that has been checked against the torrent's piece count.
#[derive(Clone, Copy, Debug, PartialEq, Eq, Hash, Structural)]
pub struct ValidPieceIndex(pub u32);

impl ValidPieceIndex {
    pub fn get(&self) -> (r: u32)
        ensures
            r == self.0,
    {
        self.0
    }
}

/// One request unit: which piece, which chunk in it, where it lies and how long it is.
#[derive(Clone, Copy, Debug, PartialEq, Eq, Hash, Structural)]
pub struct ChunkInfo {
    pub piece_index: ValidPieceIndex,
    pub chunk_index: u32,
    /// Offset of the chunk inside its piece.
    pub offset: u32,
    /// Offset of the chunk in the concatenation of all files.
    pub absolute_offset: u64,
    pub size: u32,
}

/// Geometry derived once from the metainfo.
#[derive(Clone, Copy, Debug)]
pub struct Lengths {
    pub total_length: u64,
    pub piece_length: u32,
    pub total_pieces: u32,
    /// Chunks in a piece of full length.
    pub chunks_per_piece: u32,
}

impl Lengths {
    pub open spec fn wf(&self) -> bool {
        &&& self.piece_length > 0
        &&& self.total_length > 0
        &&& self.total_pieces == ceil_div(self.total_length as nat, self.piece_length as nat)
        &&& self.chunks_per_piece == ceil_div(self.piece_length as nat, CHUNK_LENGTH as nat)
        &&& self.total_pieces * self.chunks_per_piece <= u32::MAX
    }

    pub open spec fn valid_piece(&self, p: int) -> bool {
        0 <= p < self.total_pieces
    }

    pub open spec fn spec_piece_offset(&self, p: int) -> int {
        p * self.piece_length
    }

    pub open spec fn spec_piece_length(&self, p: int) -> int {
        if p == self.total_pieces - 1 {
            self.total_length - p * self.piece_length
        } else {
            self.piece_length as int
        }
    }

    pub open spec fn spec_chunks_in_piece(&self, p: int) -> int {
        ceil_div(self.spec_piece_length(p) as nat, CHUNK_LENGTH as nat) as int
    }

    pub open spec fn spec_chunk_size(&self, p: int, c: int) -> int {
        if c == self.spec_chunks_in_piece(p) - 1 {
            self.spec_piece_length(p) - c * CHUNK_LENGTH
        } else {
            CHUNK_LENGTH as int
        }
    }

    /// Index of a chunk among all chunks of the torrent.
    pub open spec fn spec_chunk_id(&self, p: int, c: int) -> int {
        p * self.chunks_per_piece + c
    }

    pub open spec fn spec_chunk_info(&self, p: int, c: int) -> ChunkInfo {
        ChunkInfo {
            piece_index: ValidPieceIndex(p as u32),
            chunk_index: c as u32,
            offset: (c * CHUNK_LENGTH) as u32,
            absolute_offset: (p * self.piece_length + c * CHUNK_LENGTH) as u64,
            size: self.spec_chunk_size(p, c) as u32,
        }
    }

    /// The chunk info describes chunk `c` of a valid piece `p` of this torrent.
    pub open spec fn valid_chunk(&self, ci: ChunkInfo) -> bool {
        &&& self.valid_piece(ci.piece_index.0 as int)
        &&& ci.chunk_index < self.spec_chunks_in_piece(ci.piece_index.0 as int)
        &&& ci == self.spec_chunk_info(ci.piece_index.0 as int, ci.chunk_index as int)
    }

    pub fn new(total_length: u64, piece_length: u32) -> (r: Option<Lengths>)
        ensures
            r.is_some() <==> (piece_length > 0 && total_length > 0 && ceil_div(
                total_length as nat,
                piece_length as nat,
            ) * ceil_div(piece_length as nat, CHUNK_LENGTH as nat) <= u32::MAX),
            r matches Some(l) ==> l.wf() && l.total_length == total_length && l.piece_length
                == piece_length,
    {
        if piece_length == 0 || total_length == 0 {
            return None;
        }
        let pl = piece_length as u64;
        let full = total_length / pl;
        proof {
            lemma_ceil_div_exec(total_length as nat, pl as nat);
        }
        if full > u32::MAX as u64 {
            proof {
                let c = ceil_div(piece_length as nat, CHUNK_LENGTH as nat);
                assert(c >= 1);
                assert(ceil_div(total_length as nat, pl as nat) * c >= full) by (nonlinear_arith)
                    requires c >= 1, ceil_div(total_length as nat, pl as nat) >= full;
            }
            return None;
        }
        let pieces: u64 = if total_length % pl != 0 { full + 1 } else { full };
        let cpp: u64 = (pl + (CHUNK_LENGTH as u64 - 1)) / CHUNK_LENGTH as u64;
        assert(cpp <= 262144);
        assert(pieces * cpp <= 0x1_0000_0001 * 262144) by (nonlinear_arith)
            requires pieces <= 0x1_0000_0001, cpp <= 262144;
        if pieces * cpp > u32::MAX as u64 {
            return None;
        }
        assert(cpp == ceil_div(piece_length as nat, CHUNK_LENGTH as nat));
        assert(cpp >= 1);
        assert(pieces <= pieces * cpp) by (nonlinear_arith)
            requires cpp >= 1;
        Some(Lengths {
            total_length,
            piece_length,
            total_pieces: pieces as u32,
            chunks_per_piece: cpp as u32,
        })
    }

    pub fn validate_piece_index(&self, index: u32) -> (r: Option<ValidPieceIndex>)
        requires
            self.wf(),
        ensures
            r.is_some() <==> self.valid_piece(index as int),
            r matches Some(v) ==> v.0 == index,
    {
        if index < self.total_pieces {
            Some(ValidPieceIndex(index))
        } else {
            None
        }
    }

    pub fn piece_length(&self, piece: ValidPieceIndex) -> (r: u32)
        requires
            self.wf(),
            self.valid_piece(piece.0 as int),
        ensures
            r == self.spec_piece_length(piece.0 as int),
    {
        proof {
            lemma_piece_facts(*self, piece.0 as int);
        }
        if piece.0 == self.total_pieces - 1 {
            (self.total_length - piece.0 as u64 * self.piece_length as u64) as u32
        } else {
            self.piece_length
        }
    }

    pub fn piece_offset(&self, piece: ValidPieceIndex) -> (r: u64)
        requires
            self.wf(),
            self.valid_piece(piece.0 as int),
        ensures
            r == self.spec_piece_offset(piece.0 as int),
    {
        proof {
            lemma_piece_facts(*self, piece.0 as int);
        }
        piece.0 as u64 * self.piece_length as u64
    }

    pub fn chunks_per_piece(&self, piece: ValidPieceIndex) -> (r: u32)
        requires
            self.wf(),
            self.valid_piece(piece.0 as int),
        ensures
            r == self.spec_chunks_in_piece(piece.0 as int),
    {
        proof {
            lemma_piece_facts(*self, piece.0 as int);
        }
        let len = self.piece_length(piece);
        ((len as u64 + (CHUNK_LENGTH as u64 - 1)) / CHUNK_LENGTH as u64) as u32
    }

    /// Describes chunk `chunk` of `piece`.
    pub fn chunk_info(&self, piece: ValidPieceIndex, chunk: u32) -> (r: ChunkInfo)
        requires
            self.wf(),
            self.valid_piece(piece.0 as int),
            chunk < self.spec_chunks_in_piece(piece.0 as int),
        ensures
            r == self.spec_chunk_info(piece.0 as int, chunk as int),
            self.valid_chunk(r),
    {
        proof {
            lemma_piece_facts(*self, piece.0 as int);
            lemma_chunk_facts(*self, piece.0 as int, chunk as int);
        }
        let len = self.piece_length(piece);
        let k = self.chunks_per_piece(piece);
        let offset = chunk * CHUNK_LENGTH;
        let size = if chunk == k - 1 { len - offset } else { CHUNK_LENGTH };
        ChunkInfo {
            piece_index: piece,
            chunk_index: chunk,
            offset,
            absolute_offset: self.piece_offset(piece) + offset as u64,
            size,
        }
    }

    /// All chunks of a piece, in order; the last may be shorter than a full chunk.
    pub fn chunk_info_iter(&self, piece: ValidPieceIndex) -> (r: Vec<ChunkInfo>)
        requires
            self.wf(),
            self.valid_piece(piece.0 as int),
        ensures
            r@.len() == self.spec_chunks_in_piece(piece.0 as int),
            forall|c: int|
                0 <= c < r@.len() ==> #[trigger] r@[c] == self.spec_chunk_info(piece.0 as int, c),
    {
        let k = self.chunks_per_piece(piece);
        let mut r: Vec<ChunkInfo> = Vec::new();
        let mut c: u32 = 0;
        while c < k
            invariant
                self.wf(),
                self.valid_piece(piece.0 as int),
                k == self.spec_chunks_in_piece(piece.0 as int),
                c <= k,
                r@.len() == c,
                forall|j: int|
                    0 <= j < c ==> #[trigger] r@[j] == self.spec_chunk_info(piece.0 as int, j),
            decreases k - c,
        {
            r.push(self.chunk_info(piece, c));
            c = c + 1;
        }
        r
    }

    /// Identifies the chunk that a peer's `Piece(index, begin, data)` message carries.
    pub fn chunk_info_from_received_data(&self, index: u32, begin: u32, len: u32) -> (r: Option<
        ChunkInfo,
    >)
        requires
            self.wf(),
        ensures
            r.is_some() <==> (self.valid_piece(index as int) && begin % CHUNK_LENGTH == 0
                && begin / CHUNK_LENGTH < self.spec_chunks_in_piece(index as int) && len
                == self.spec_chunk_size(index as int, (begin / CHUNK_LENGTH) as int)),
            r matches Some(ci) ==> ci == self.spec_chunk_info(index as int, (begin / CHUNK_LENGTH) as int)
                && self.valid_chunk(ci),
    {
        let piece = match self.validate_piece_index(index) {
            Some(p) => p,
            None => return None,
        };
        if begin % CHUNK_LENGTH != 0 {
            return None;
        }
        let chunk = begin / CHUNK_LENGTH;
        if chunk >= self.chunks_per_piece(piece) {
            return None;
        }
        let ci = self.chunk_info(piece, chunk);
        proof {
            lemma_chunk_facts(*self, piece.0 as int, chunk as int);
        }
        if ci.size != len {
            return None;
        }
        Some(ci)
    }

    /// Index of the chunk among all chunks of the torrent.
    pub fn chunk_id(&self, ci: &ChunkInfo) -> (r: u32)
        requires
            self.wf(),
            self.valid_chunk(*ci),
        ensures
            r == self.spec_chunk_id(ci.piece_index.0 as int, ci.chunk_index as int),
            r < self.total_pieces * self.chunks_per_piece,
    {
        proof {
            lemma_chunk_facts(*self, ci.piece_index.0 as int, ci.chunk_index as int);
        }
        ci.piece_index.0 * self.chunks_per_piece + ci.chunk_index
    }
}

pub proof fn lemma_piece_facts(l: Lengths, p: int)
    requires
        l.wf(),
        l.valid_piece(p),
    ensures
        0 < l.spec_piece_length(p) <= l.piece_length,
        l.spec_piece_offset(p) + l.spec_piece_length(p) <= l.total_length,
        l.spec_piece_offset(p) >= 0,
        1 <= l.spec_chunks_in_piece(p) <= l.chunks_per_piece,
        l.chunks_per_piece >= 1,
        (l.spec_chunks_in_piece(p) - 1) * CHUNK_LENGTH < l.spec_piece_length(p)
            <= l.spec_chunks_in_piece(p) * CHUNK_LENGTH,
        (p + 1) * l.chunks_per_piece <= l.total_pieces * l.chunks_per_piece,
{
    let n = l.total_pieces as int;
    let pl = l.piece_length as int;
    lemma_ceil_div_exec(l.total_length as nat, l.piece_length as nat);
    lemma_ceil_div_exec(l.piece_length as nat, CHUNK_LENGTH as nat);
    assert((n - 1) * pl < l.total_length <= n * pl);
    if p == n - 1 {
        assert(l.total_length - p * pl <= pl) by (nonlinear_arith)
            requires l.total_length <= n * pl, p == n - 1;
    } else {
        assert((p + 1) * pl <= (n - 1) * pl) by (nonlinear_arith)
            requires p + 1 <= n - 1, pl > 0;
        assert(p * pl + pl == (p + 1) * pl) by (nonlinear_arith);
    }
    assert(p * pl >= 0) by (nonlinear_arith)
        requires p >= 0, pl > 0;
    let len = l.spec_piece_length(p);
    lemma_ceil_div_exec(len as nat, CHUNK_LENGTH as nat);
    lemma_div_is_ordered(len + CHUNK_LENGTH - 1, pl + CHUNK_LENGTH - 1, CHUNK_LENGTH as int);
    assert((p + 1) * l.chunks_per_piece <= n * l.chunks_per_piece) by (nonlinear_arith)
        requires p + 1 <= n, l.chunks_per_piece >= 0;
}

pub proof fn lemma_chunk_facts(l: Lengths, p: int, c: int)
    requires
        l.wf(),
        l.valid_piece(p),
        0 <= c < l.spec_chunks_in_piece(p),
    ensures
        c * CHUNK_LENGTH < l.spec_piece_length(p),
        0 < l.spec_chunk_size(p, c) <= CHUNK_LENGTH,
        c * CHUNK_LENGTH + l.spec_chunk_size(p, c) <= l.spec_piece_length(p),
        0 <= l.spec_chunk_id(p, c) < l.total_pieces * l.chunks_per_piece,
{
    lemma_piece_facts(l, p);
    let k = l.spec_chunks_in_piece(p);
    assert(c * CHUNK_LENGTH <= (k - 1) * CHUNK_LENGTH) by (nonlinear_arith)
        requires c <= k - 1;
    assert(c * CHUNK_LENGTH + CHUNK_LENGTH == (c + 1) * CHUNK_LENGTH) by (nonlinear_arith);
    if c < k - 1 {
        assert((c + 1) * CHUNK_LENGTH <= (k - 1) * CHUNK_LENGTH) by (nonlinear_arith)
            requires c + 1 <= k - 1;
    }
    assert(l.spec_chunk_id(p, c) < (p + 1) * l.chunks_per_piece) by (nonlinear_arith)
        requires c < k, k <= l.chunks_per_piece, l.spec_chunk_id(p, c) == p * l.chunks_per_piece + c;
    assert(p * l.chunks_per_piece >= 0) by (nonlinear_arith)
        requires p >= 0, l.chunks_per_piece >= 0;
}


/// The chunks of a piece tile it: the first starts at its start, each ends where the next
/// begins, the last ends at the piece's end and is the only one that may be short.
pub proof fn lemma_chunks_tile_piece(l: Lengths, p: int)
    requires
        l.wf(),
        l.valid_piece(p),
    ensures
        l.spec_chunk_info(p, 0).offset == 0,
        l.spec_chunk_info(p, 0).absolute_offset == l.spec_piece_offset(p),
        forall|c: int|
            0 <= c < l.spec_chunks_in_piece(p) - 1 ==> #[trigger] l.spec_chunk_info(p, c).offset
                + l.spec_chunk_info(p, c).size == l.spec_chunk_info(p, c + 1).offset
                && l.spec_chunk_info(p, c).size == CHUNK_LENGTH,
        l.spec_chunk_info(p, l.spec_chunks_in_piece(p) - 1).offset + l.spec_chunk_info(
            p,
            l.spec_chunks_in_piece(p) - 1,
        ).size == l.spec_piece_length(p),
        forall|c: int|
            0 <= c < l.spec_chunks_in_piece(p) ==> 0 < #[trigger] l.spec_chunk_info(p, c).size
                <= CHUNK_LENGTH,
{
    lemma_piece_facts(l, p);
    let k = l.spec_chunks_in_piece(p);
    assert forall|c: int| 0 <= c < k - 1 implies #[trigger] l.spec_chunk_info(p, c).offset
        + l.spec_chunk_info(p, c).size == l.spec_chunk_info(p, c + 1).offset
        && l.spec_chunk_info(p, c).size == CHUNK_LENGTH by {
        lemma_chunk_facts(l, p, c);
        lemma_chunk_facts(l, p, c + 1);
        assert(c * CHUNK_LENGTH + CHUNK_LENGTH == (c + 1) * CHUNK_LENGTH) by (nonlinear_arith);
    }
    assert forall|c: int| 0 <= c < k implies 0 < #[trigger] l.spec_chunk_info(p, c).size
        <= CHUNK_LENGTH by {
        lemma_chunk_facts(l, p, c);
    }
    lemma_chunk_facts(l, p, k - 1);
    lemma_chunk_facts(l, p, 0);
    assert(p * l.piece_length + 0 * CHUNK_LENGTH == p * l.piece_length);
}

pub proof fn lemma_ceil_div_exec(a: nat, b: nat)
    requires
        b > 0,
    ensures
        ceil_div(a, b) == if a % b != 0 { a / b + 1 } else { a / b },
        ceil_div(a, b) * b >= a,
        a > 0 ==> (ceil_div(a, b) - 1) * b < a,
{
    let q = (a / b) as int;
    let r = (a % b) as int;
    lemma_fundamental_div_mod(a as int, b as int);
    assert(a == q * b + r) by (nonlinear_arith)
        requires a == b * q + r;
    if r == 0 {
        lemma_fundamental_div_mod_converse(a + b - 1, b as int, q, b - 1);
        assert(ceil_div(a, b) == q);
        assert(q * b >= a);
        if a > 0 {
            assert((q - 1) * b < a) by (nonlinear_arith)
                requires a == q * b, b > 0;
        }
    } else {
        assert((a + b - 1) == (q + 1) * b + (r - 1)) by (nonlinear_arith)
            requires a == q * b + r;
        lemma_fundamental_div_mod_converse(a + b - 1, b as int, q + 1, r - 1);
        assert(ceil_div(a, b) == q + 1);
        assert((q + 1) * b >= a) by (nonlinear_arith)
            requires a == q * b + r, 0 <= r < b;
        assert(q * b < a);
    }
}

} // verus!
