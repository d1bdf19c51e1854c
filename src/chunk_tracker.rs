//! Which pieces we have, which are still needed, and which chunks of the pieces
//! in progress have arrived.

use crate::lengths::{ChunkInfo, Lengths, ValidPieceIndex};
use vstd::prelude::*;

verus! {

/// What recording a received chunk led to.
#[derive(Clone, Copy, Debug, PartialEq, Eq, Structural)]
pub enum PieceOutcome {
    /// Other chunks of the piece are still missing.
    NotLastChunk,
    /// Every chunk of the piece has arrived; it awaits its hash check.
    PieceComplete,
    /// The piece was already verified; the chunk is a duplicate.
    AlreadyHave,
}

pub struct ChunkTracker {
    pub lengths: Lengths,
    /// Pieces verified and stored.
    pub have: Vec<bool>,
    /// Pieces that nobody has reserved yet and that we still want.
    pub needed: Vec<bool>,
    /// Chunks received and not yet verified, indexed by `Lengths::chunk_id`.
    pub chunk_status: Vec<bool>,
}

impl ChunkTracker {
    pub open spec fn wf(&self) -> bool {
        &&& self.lengths.wf()
        &&& self.have@.len() == self.lengths.total_pieces
        &&& self.needed@.len() == self.lengths.total_pieces
        &&& self.chunk_status@.len() == self.lengths.total_pieces * self.lengths.chunks_per_piece
        &&& forall|p: int|
            0 <= p < self.have@.len() ==> !(#[trigger] self.have@[p] && self.needed@[p])
    }

    /// Every chunk of piece `p` has been received.
    pub open spec fn piece_chunks_done(&self, p: int) -> bool {
        forall|c: int|
            0 <= c < self.lengths.spec_chunks_in_piece(p) ==> #[trigger] self.chunk_status@[
                self.lengths.spec_chunk_id(p, c)]
    }

    /// The chunk bitmap with every chunk slot of piece `p` cleared.
    pub open spec fn cleared_chunks(&self, p: int) -> Seq<bool> {
        Seq::new(
            self.chunk_status@.len(),
            |i: int|
                if p * self.lengths.chunks_per_piece <= i < (p
                    + 1) * self.lengths.chunks_per_piece {
                    false
                } else {
                    self.chunk_status@[i]
                },
        )
    }

    /// Starts with the pieces in `have` and wants every piece of `selected` that it lacks.
    pub fn new(lengths: Lengths, have: Vec<bool>, selected: &Vec<bool>) -> (r: ChunkTracker)
        requires
            lengths.wf(),
            have@.len() == lengths.total_pieces,
            selected@.len() == lengths.total_pieces,
        ensures
            r.wf(),
            r.lengths == lengths,
            r.have@ == have@,
            forall|p: int|
                0 <= p < have@.len() ==> #[trigger] r.needed@[p] == (selected@[p] && !have@[p]),
            forall|i: int| 0 <= i < r.chunk_status@.len() ==> !#[trigger] r.chunk_status@[i],
    {
        let n = lengths.total_pieces as usize;
        let mut needed: Vec<bool> = Vec::new();
        let mut i: usize = 0;
        while i < n
            invariant
                n == lengths.total_pieces,
                have@.len() == n,
                selected@.len() == n,
                i <= n,
                needed@.len() == i,
                forall|p: int| 0 <= p < i ==> #[trigger] needed@[p] == (selected@[p] && !have@[p]),
            decreases n - i,
        {
            needed.push(selected[i] && !have[i]);
            i = i + 1;
        }
        let total_chunks = (lengths.total_pieces * lengths.chunks_per_piece) as usize;
        let mut chunk_status: Vec<bool> = Vec::new();
        let mut j: usize = 0;
        while j < total_chunks
            invariant
                j <= total_chunks,
                chunk_status@.len() == j,
                forall|k: int| 0 <= k < j ==> !#[trigger] chunk_status@[k],
            decreases total_chunks - j,
        {
            chunk_status.push(false);
            j = j + 1;
        }
        ChunkTracker { lengths, have, needed, chunk_status }
    }

    pub fn get_needed_pieces(&self) -> (r: &Vec<bool>)
        ensures
            r@ == self.needed@,
    {
        &self.needed
    }

    pub fn is_piece_have(&self, piece: ValidPieceIndex) -> (r: bool)
        requires
            self.wf(),
            self.lengths.valid_piece(piece.0 as int),
        ensures
            r == self.have@[piece.0 as int],
    {
        self.have[piece.0 as usize]
    }

    /// Takes a piece out of the pool so that no other peer picks it.
    pub fn reserve_needed_piece(&mut self, piece: ValidPieceIndex)
        requires
            old(self).wf(),
            old(self).lengths.valid_piece(piece.0 as int),
        ensures
            final(self).wf(),
            final(self).lengths == old(self).lengths,
            final(self).have@ == old(self).have@,
            final(self).needed@ == old(self).needed@.update(piece.0 as int, false),
            final(self).chunk_status@ == old(self).chunk_status@,
    {
        self.needed.set(piece.0 as usize, false);
    }

    /// Wipes the received-chunk bits of a piece.
    fn clear_piece_chunks(&mut self, piece: ValidPieceIndex)
        requires
            old(self).wf(),
            old(self).lengths.valid_piece(piece.0 as int),
        ensures
            final(self).wf(),
            final(self).lengths == old(self).lengths,
            final(self).have@ == old(self).have@,
            final(self).needed@ == old(self).needed@,
            final(self).chunk_status@ == old(self).cleared_chunks(piece.0 as int),
    {
        proof {
            crate::lengths::lemma_piece_facts(self.lengths, piece.0 as int);
        }
        let cpp = self.lengths.chunks_per_piece;
        assert(piece.0 * cpp + cpp == (piece.0 + 1) * cpp) by (nonlinear_arith);
        let start = piece.0 * cpp;
        let end = start + cpp;
        let ghost before = self.chunk_status@;
        let ghost p = piece.0 as int;
        assert(start == p * cpp);
        assert(end == (p + 1) * cpp) by (nonlinear_arith)
            requires start == p * cpp, end == start + cpp;
        let mut i: u32 = start;
        while i < end
            invariant
                self.wf(),
                self.lengths == old(self).lengths,
                self.have@ == old(self).have@,
                self.needed@ == old(self).needed@,
                before == old(self).chunk_status@,
                cpp == self.lengths.chunks_per_piece,
                start == p * cpp,
                end == (p + 1) * cpp,
                end <= self.chunk_status@.len(),
                self.chunk_status@.len() == before.len(),
                start <= i <= end,
                forall|k: int|
                    0 <= k < before.len() ==> #[trigger] self.chunk_status@[k] == if start <= k
                        < i {
                        false
                    } else {
                        before[k]
                    },
            decreases end - i,
        {
            let ghost prev = self.chunk_status@;
            self.chunk_status.set(i as usize, false);
            assert forall|k: int| 0 <= k < before.len() implies #[trigger] self.chunk_status@[k]
                == if start <= k < i + 1 {
                false
            } else {
                before[k]
            } by {
                if k != i {
                    assert(self.chunk_status@[k] == prev[k]);
                }
            }
            i = i + 1;
        }
        assert(self.chunk_status@ =~= old(self).cleared_chunks(p));
    }

    /// Puts a piece back in the pool after a holder went away, unless it is already had.
    pub fn mark_chunk_request_cancelled(&mut self, piece: ValidPieceIndex, chunk: u32)
        requires
            old(self).wf(),
            old(self).lengths.valid_piece(piece.0 as int),
        ensures
            final(self).wf(),
            final(self).lengths == old(self).lengths,
            final(self).have@ == old(self).have@,
            old(self).have@[piece.0 as int] ==> *final(self) == *old(self),
            !old(self).have@[piece.0 as int] ==> final(self).needed@
                == old(self).needed@.update(piece.0 as int, true) && final(self).chunk_status@
                == old(self).cleared_chunks(piece.0 as int),
    {
        if self.have[piece.0 as usize] {
            return;
        }
        self.mark_piece_broken(piece);
    }

    /// Re-arms a piece whose hash check failed: needed again, no chunk received.
    pub fn mark_piece_broken(&mut self, piece: ValidPieceIndex)
        requires
            old(self).wf(),
            old(self).lengths.valid_piece(piece.0 as int),
            !old(self).have@[piece.0 as int],
        ensures
            final(self).wf(),
            final(self).lengths == old(self).lengths,
            final(self).have@ == old(self).have@,
            final(self).needed@ == old(self).needed@.update(piece.0 as int, true),
            final(self).chunk_status@ == old(self).cleared_chunks(piece.0 as int),
    {
        self.clear_piece_chunks(piece);
        self.needed.set(piece.0 as usize, true);
    }

    /// Records a verified piece.
    pub fn mark_piece_have(&mut self, piece: ValidPieceIndex)
        requires
            old(self).wf(),
            old(self).lengths.valid_piece(piece.0 as int),
        ensures
            final(self).wf(),
            final(self).lengths == old(self).lengths,
            final(self).have@ == old(self).have@.update(piece.0 as int, true),
            final(self).needed@ == old(self).needed@.update(piece.0 as int, false),
            final(self).chunk_status@ == old(self).chunk_status@,
    {
        self.needed.set(piece.0 as usize, false);
        self.have.set(piece.0 as usize, true);
    }

    /// Records the arrival of a chunk and says whether its piece is now complete.
    pub fn mark_chunk_downloaded(&mut self, chunk: &ChunkInfo) -> (r: PieceOutcome)
        requires
            old(self).wf(),
            old(self).lengths.valid_chunk(*chunk),
        ensures
            final(self).wf(),
            final(self).lengths == old(self).lengths,
            final(self).have@ == old(self).have@,
            final(self).needed@ == old(self).needed@,
            old(self).have@[chunk.piece_index.0 as int] ==> r == PieceOutcome::AlreadyHave
                && final(self).chunk_status@ == old(self).chunk_status@,
            !old(self).have@[chunk.piece_index.0 as int] ==> final(self).chunk_status@
                == old(self).chunk_status@.update(
                old(self).lengths.spec_chunk_id(
                    chunk.piece_index.0 as int,
                    chunk.chunk_index as int,
                ),
                true,
            ) && (r == PieceOutcome::PieceComplete <==> final(self).piece_chunks_done(
                chunk.piece_index.0 as int,
            )) && (r != PieceOutcome::AlreadyHave),
    {
        let piece = chunk.piece_index;
        if self.have[piece.0 as usize] {
            return PieceOutcome::AlreadyHave;
        }
        let id = self.lengths.chunk_id(chunk);
        self.chunk_status.set(id as usize, true);
        if self.is_piece_complete(piece) {
            PieceOutcome::PieceComplete
        } else {
            PieceOutcome::NotLastChunk
        }
    }

    /// Every chunk of the piece has been received.
    pub fn is_piece_complete(&self, piece: ValidPieceIndex) -> (r: bool)
        requires
            self.wf(),
            self.lengths.valid_piece(piece.0 as int),
        ensures
            r == self.piece_chunks_done(piece.0 as int),
    {
        proof {
            crate::lengths::lemma_piece_facts(self.lengths, piece.0 as int);
        }
        let k = self.lengths.chunks_per_piece(piece);
        let mut c: u32 = 0;
        while c < k
            invariant
                self.wf(),
                self.lengths.valid_piece(piece.0 as int),
                k == self.lengths.spec_chunks_in_piece(piece.0 as int),
                c <= k,
                forall|j: int|
                    0 <= j < c ==> #[trigger] self.chunk_status@[self.lengths.spec_chunk_id(
                        piece.0 as int,
                        j,
                    )],
            decreases k - c,
        {
            let ci = self.lengths.chunk_info(piece, c);
            let cid = self.lengths.chunk_id(&ci);
            if !self.chunk_status[cid as usize] {
                proof {
                    crate::lengths::lemma_chunk_facts(self.lengths, piece.0 as int, c as int);
                }
                return false;
            }
            c = c + 1;
        }
        true
    }
}

} // verus!
