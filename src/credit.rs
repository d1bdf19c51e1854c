//! Bytes received toward the chunks of each piece.

use crate::lengths::{lemma_chunk_facts, lemma_chunks_tile_piece, lemma_piece_facts, Lengths, CHUNK_LENGTH};
use vstd::prelude::*;

verus! {

pub open spec fn sum_int(s: Seq<int>) -> int
    decreases s.len(),
{
    if s.len() == 0 {
        0
    } else {
        sum_int(s.drop_last()) + s.last()
    }
}

pub proof fn lemma_sum_int_update(s: Seq<int>, i: int, v: int)
    requires
        0 <= i < s.len(),
    ensures
        sum_int(s.update(i, v)) == sum_int(s) - s[i] + v,
    decreases s.len(),
{
    let t = s.update(i, v);
    if i == s.len() - 1 {
        assert(t.drop_last() =~= s.drop_last());
    } else {
        lemma_sum_int_update(s.drop_last(), i, v);
        assert(t.drop_last() =~= s.drop_last().update(i, v));
    }
}

pub proof fn lemma_sum_int_nonneg(s: Seq<int>)
    requires
        forall|i: int| 0 <= i < s.len() ==> #[trigger] s[i] >= 0,
    ensures
        sum_int(s) >= 0,
    decreases s.len(),
{
    if s.len() > 0 {
        lemma_sum_int_nonneg(s.drop_last());
    }
}

/// Bytes of the first `k` chunks of piece `p` that are marked received in `cs`.
pub open spec fn chunk_sum(l: Lengths, cs: Seq<bool>, p: int, k: int) -> int
    decreases k,
{
    if k <= 0 {
        0
    } else {
        chunk_sum(l, cs, p, k - 1) + if cs[l.spec_chunk_id(p, k - 1)] {
            l.spec_chunk_size(p, k - 1)
        } else {
            0
        }
    }
}

/// Bytes of piece `p` that are marked received in `cs`.
pub open spec fn piece_sum(l: Lengths, cs: Seq<bool>, p: int) -> int {
    chunk_sum(l, cs, p, l.spec_chunks_in_piece(p))
}

pub proof fn lemma_chunk_sum_frame(l: Lengths, a: Seq<bool>, b: Seq<bool>, p: int, k: int)
    requires
        forall|c: int| 0 <= c < k ==> a[#[trigger] l.spec_chunk_id(p, c)] == b[l.spec_chunk_id(p, c)],
    ensures
        chunk_sum(l, a, p, k) == chunk_sum(l, b, p, k),
    decreases k,
{
    if k > 0 {
        lemma_chunk_sum_frame(l, a, b, p, k - 1);
    }
}

pub proof fn lemma_chunk_sum_nonneg(l: Lengths, cs: Seq<bool>, p: int, k: int)
    requires
        l.wf(),
        l.valid_piece(p),
        k <= l.spec_chunks_in_piece(p),
    ensures
        chunk_sum(l, cs, p, k) >= 0,
    decreases k,
{
    if k > 0 {
        lemma_chunk_sum_nonneg(l, cs, p, k - 1);
        lemma_chunk_facts(l, p, k - 1);
    }
}

pub proof fn lemma_sum_int_zeros(n: nat)
    ensures
        sum_int(Seq::new(n, |i: int| 0int)) == 0,
    decreases n,
{
    if n > 0 {
        lemma_sum_int_zeros((n - 1) as nat);
        assert(Seq::new(n, |i: int| 0int).drop_last() =~= Seq::new((n - 1) as nat, |i: int| 0int));
    }
}

pub proof fn lemma_chunk_sum_zero(l: Lengths, cs: Seq<bool>, p: int, k: int)
    requires
        forall|c: int| 0 <= c < k ==> !cs[#[trigger] l.spec_chunk_id(p, c)],
    ensures
        chunk_sum(l, cs, p, k) == 0,
    decreases k,
{
    if k > 0 {
        lemma_chunk_sum_zero(l, cs, p, k - 1);
    }
}

/// Chunk slots of distinct pieces are distinct.
pub proof fn lemma_chunk_ids_disjoint(l: Lengths, p: int, c: int, q: int, d: int)
    requires
        l.wf(),
        l.valid_piece(p),
        l.valid_piece(q),
        0 <= c < l.spec_chunks_in_piece(p),
        0 <= d < l.spec_chunks_in_piece(q),
    ensures
        l.spec_chunk_id(p, c) == l.spec_chunk_id(q, d) <==> (p == q && c == d),
        p * l.chunks_per_piece <= l.spec_chunk_id(p, c) < (p + 1) * l.chunks_per_piece,
{
    lemma_piece_facts(l, p);
    lemma_piece_facts(l, q);
    let m = l.chunks_per_piece as int;
    assert(p * m + m == (p + 1) * m) by (nonlinear_arith);
    assert(q * m + m == (q + 1) * m) by (nonlinear_arith);
    if p < q {
        assert((p + 1) * m <= q * m) by (nonlinear_arith)
            requires p + 1 <= q, m >= 0;
    } else if q < p {
        assert((q + 1) * m <= p * m) by (nonlinear_arith)
            requires q + 1 <= p, m >= 0;
    }
}

/// Marking one chunk of `p` received adds at most that chunk's size to the piece's sum.
pub proof fn lemma_chunk_sum_set(l: Lengths, cs: Seq<bool>, p: int, c0: int, k: int)
    requires
        l.wf(),
        l.valid_piece(p),
        0 <= c0 < l.spec_chunks_in_piece(p),
        k <= l.spec_chunks_in_piece(p),
        cs.len() == l.total_pieces * l.chunks_per_piece,
    ensures
        chunk_sum(l, cs.update(l.spec_chunk_id(p, c0), true), p, k) <= chunk_sum(l, cs, p, k)
            + l.spec_chunk_size(p, c0),
    decreases k,
{
    lemma_chunk_facts(l, p, c0);
    if k > 0 {
        lemma_chunk_sum_set(l, cs, p, c0, k - 1);
        lemma_chunk_sum_nonneg(l, cs, p, k - 1);
        lemma_chunk_facts(l, p, k - 1);
        if k - 1 == c0 {
            lemma_chunk_sum_frame(l, cs.update(l.spec_chunk_id(p, c0), true), cs, p, k - 1);
        }
    }
}

/// A piece whose chunks are all received sums to its length.
pub proof fn lemma_piece_sum_full(l: Lengths, cs: Seq<bool>, p: int, k: int)
    requires
        l.wf(),
        l.valid_piece(p),
        0 <= k <= l.spec_chunks_in_piece(p),
        forall|c: int| 0 <= c < k ==> cs[#[trigger] l.spec_chunk_id(p, c)],
    ensures
        k < l.spec_chunks_in_piece(p) ==> chunk_sum(l, cs, p, k) == k * CHUNK_LENGTH,
        k == l.spec_chunks_in_piece(p) ==> chunk_sum(l, cs, p, k) == l.spec_piece_length(p),
    decreases k,
{
    lemma_chunks_tile_piece(l, p);
    if k > 0 {
        lemma_piece_sum_full(l, cs, p, k - 1);
        assert(cs[l.spec_chunk_id(p, k - 1)]);
        assert((k - 1) * CHUNK_LENGTH + CHUNK_LENGTH == k * CHUNK_LENGTH) by (nonlinear_arith);
        let kk = l.spec_chunks_in_piece(p);
        if k == kk {
            assert(l.spec_chunk_info(p, k - 1).offset == (k - 1) * CHUNK_LENGTH);
            lemma_chunk_facts(l, p, k - 1);
        } else {
            assert(l.spec_chunk_info(p, k - 1).size == CHUNK_LENGTH);
        }
    }
}

} // verus!
