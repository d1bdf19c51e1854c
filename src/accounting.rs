//! Byte counts of sets of pieces.

use crate::lengths::{lemma_ceil_div_exec, lemma_piece_facts, Lengths};
use vstd::prelude::*;

verus! {

/// Total length of the pieces set in `have`.
pub open spec fn have_bytes(l: Lengths, have: Seq<bool>) -> int
    decreases have.len(),
{
    if have.len() == 0 {
        0
    } else {
        have_bytes(l, have.drop_last()) + if have.last() {
            l.spec_piece_length(have.len() - 1)
        } else {
            0
        }
    }
}

/// Total length of the first `k` pieces.
pub open spec fn prefix_bytes(l: Lengths, k: nat) -> int
    decreases k,
{
    if k == 0 {
        0
    } else {
        prefix_bytes(l, (k - 1) as nat) + l.spec_piece_length(k - 1)
    }
}

pub proof fn lemma_have_bytes_update(l: Lengths, have: Seq<bool>, p: int)
    requires
        0 <= p < have.len(),
        !have[p],
    ensures
        have_bytes(l, have.update(p, true)) == have_bytes(l, have) + l.spec_piece_length(p),
    decreases have.len(),
{
    let t = have.update(p, true);
    if p == have.len() - 1 {
        assert(t.drop_last() =~= have.drop_last());
    } else {
        lemma_have_bytes_update(l, have.drop_last(), p);
        assert(t.drop_last() =~= have.drop_last().update(p, true));
    }
}

pub proof fn lemma_have_bytes_bounded(l: Lengths, have: Seq<bool>)
    requires
        l.wf(),
        have.len() <= l.total_pieces,
    ensures
        0 <= have_bytes(l, have) <= prefix_bytes(l, have.len()),
    decreases have.len(),
{
    if have.len() > 0 {
        lemma_have_bytes_bounded(l, have.drop_last());
        lemma_piece_facts(l, have.len() - 1);
    }
}

/// The pieces before `k < total_pieces` are all full; all pieces together make the total.
pub proof fn lemma_prefix_bytes(l: Lengths, k: nat)
    requires
        l.wf(),
        k <= l.total_pieces,
    ensures
        k < l.total_pieces ==> prefix_bytes(l, k) == k * l.piece_length,
        k == l.total_pieces ==> prefix_bytes(l, k) == l.total_length,
    decreases k,
{
    lemma_ceil_div_exec(l.total_length as nat, l.piece_length as nat);
    assert(l.total_pieces >= 1) by (nonlinear_arith)
        requires l.total_pieces * l.piece_length >= l.total_length, l.total_length > 0;
    if k == 0 {
        assert(k * l.piece_length == 0);
    } else {
        let j = (k - 1) as nat;
        lemma_prefix_bytes(l, j);
        assert(prefix_bytes(l, k) == prefix_bytes(l, j) + l.spec_piece_length(j as int));
        assert(j * l.piece_length + l.piece_length == k * l.piece_length) by (nonlinear_arith)
            requires j + 1 == k;
    }
}

pub proof fn lemma_prefix_le_total(l: Lengths, k: nat)
    requires
        l.wf(),
        k <= l.total_pieces,
    ensures
        prefix_bytes(l, k) <= l.total_length,
{
    lemma_prefix_bytes(l, k);
    lemma_ceil_div_exec(l.total_length as nat, l.piece_length as nat);
    if k < l.total_pieces {
        assert(k * l.piece_length <= (l.total_pieces - 1) * l.piece_length) by (nonlinear_arith)
            requires k <= l.total_pieces - 1, l.piece_length > 0;
    }
}

/// The bytes of `x` are those of its part `y` plus those of the rest.
pub proof fn lemma_have_bytes_split(l: Lengths, x: Seq<bool>, y: Seq<bool>)
    requires
        x.len() == y.len(),
        forall|i: int| 0 <= i < y.len() && #[trigger] y[i] ==> x[i],
    ensures
        have_bytes(l, x) == have_bytes(l, y) + have_bytes(
            l,
            Seq::new(x.len(), |i: int| x[i] && !y[i]),
        ),
    decreases x.len(),
{
    let d = Seq::new(x.len(), |i: int| x[i] && !y[i]);
    if x.len() > 0 {
        lemma_have_bytes_split(l, x.drop_last(), y.drop_last());
        assert(d.drop_last() =~= Seq::new(
            x.drop_last().len(),
            |i: int| x.drop_last()[i] && !y.drop_last()[i],
        ));
    }
}

/// Fewer pieces never have more bytes.
pub proof fn lemma_have_bytes_mono(l: Lengths, x: Seq<bool>, y: Seq<bool>)
    requires
        l.wf(),
        x.len() == y.len(),
        x.len() <= l.total_pieces,
        forall|i: int| 0 <= i < x.len() && #[trigger] x[i] ==> y[i],
    ensures
        have_bytes(l, x) <= have_bytes(l, y),
    decreases x.len(),
{
    if x.len() > 0 {
        lemma_have_bytes_mono(l, x.drop_last(), y.drop_last());
        lemma_piece_facts(l, x.len() - 1);
    }
}

/// Whatever pieces are had, their bytes never exceed the torrent's length.
pub proof fn lemma_have_bytes_le_total(l: Lengths, have: Seq<bool>)
    requires
        l.wf(),
        have.len() == l.total_pieces,
    ensures
        0 <= have_bytes(l, have) <= l.total_length,
{
    lemma_have_bytes_bounded(l, have);
    lemma_prefix_bytes(l, have.len());
}

} // verus!
