//! Bit-per-piece presence vectors and their wire form (MSB first within each byte).

use vstd::arithmetic::div_mod::lemma_fundamental_div_mod_converse;
use vstd::prelude::*;

verus! {

/// Bit `i` of a wire bitfield: bit `7 - i % 8` of byte `i / 8`.
pub open spec fn wire_bit(bytes: Seq<u8>, i: int) -> bool {
    (bytes[i / 8] >> ((7 - i % 8) as u8)) & 1u8 == 1u8
}

/// Number of bytes a bitfield of `n` bits occupies on the wire.
pub open spec fn wire_len(n: nat) -> nat {
    (n + 7) / 8
}

/// Number of set positions.
pub open spec fn count_true(s: Seq<bool>) -> nat
    decreases s.len(),
{
    if s.len() == 0 {
        0
    } else {
        count_true(s.drop_last()) + if s.last() {
            1nat
        } else {
            0nat
        }
    }
}

/// Decodes the payload of a `Bitfield` message for a torrent of `total_pieces` pieces.
/// It is refused when its length is not the wire length or when a padding bit is set.
pub fn bitfield_from_bytes(bytes: &Vec<u8>, total_pieces: u32) -> (r: Option<Vec<bool>>)
    ensures
        r.is_some() <==> (bytes@.len() == wire_len(total_pieces as nat) && forall|i: int|
            total_pieces <= i < 8 * bytes@.len() ==> !#[trigger] wire_bit(bytes@, i)),
        r matches Some(bits) ==> bits@.len() == total_pieces && forall|i: int|
            0 <= i < total_pieces ==> #[trigger] bits@[i] == wire_bit(bytes@, i),
{
    let expected: u64 = (total_pieces as u64 + 7) / 8;
    if bytes.len() as u64 != expected {
        return None;
    }
    let n_bits: u64 = 8 * expected;
    let mut bits: Vec<bool> = Vec::new();
    let mut i: u64 = 0;
    while i < n_bits
        invariant
            bytes@.len() == expected,
            n_bits == 8 * expected,
            expected == wire_len(total_pieces as nat),
            i <= n_bits,
            bits@.len() == if i < total_pieces { i as int } else { total_pieces as int },
            forall|j: int| 0 <= j < bits@.len() ==> #[trigger] bits@[j] == wire_bit(bytes@, j),
            forall|j: int| total_pieces <= j < i ==> !#[trigger] wire_bit(bytes@, j),
        decreases n_bits - i,
    {
        let byte = bytes[(i / 8) as usize];
        let b = (byte >> ((7 - i % 8) as u8)) & 1u8 == 1u8;
        assert(b == wire_bit(bytes@, i as int));
        if i < total_pieces as u64 {
            bits.push(b);
        } else if b {
            return None;
        }
        i = i + 1;
    }
    assert(total_pieces <= n_bits);
    Some(bits)
}

/// For `8k + r` pieces with `0 < r < 8`, a payload of `k + 1` bytes whose last byte has
/// any of its last `8 - r` bits set holds a set padding bit, so it is refused.
pub proof fn lemma_padding_bit_refused(bytes: Seq<u8>, n: nat)
    requires
        n % 8 != 0,
        bytes.len() == n / 8 + 1,
        bytes[(n / 8) as int] & (0xffu8 >> ((n % 8) as u8)) != 0,
    ensures
        exists|i: int| n <= i < 8 * bytes.len() && #[trigger] wire_bit(bytes, i),
{
    let k = (n / 8) as int;
    let b = bytes[k];
    let r = (n % 8) as u8;
    assert(1 <= r < 8);
    assert(b & (0xffu8 >> r) != 0 && 1 <= r && r < 8 ==> (
        (r <= 1 && (b >> 6u8) & 1u8 == 1u8) || (r <= 2 && (b >> 5u8) & 1u8 == 1u8)
        || (r <= 3 && (b >> 4u8) & 1u8 == 1u8) || (r <= 4 && (b >> 3u8) & 1u8 == 1u8)
        || (r <= 5 && (b >> 2u8) & 1u8 == 1u8) || (r <= 6 && (b >> 1u8) & 1u8 == 1u8)
        || (b >> 0u8) & 1u8 == 1u8)) by (bit_vector);
    let j: int = if r <= 1 && (b >> 6u8) & 1u8 == 1u8 {
        1
    } else if r <= 2 && (b >> 5u8) & 1u8 == 1u8 {
        2
    } else if r <= 3 && (b >> 4u8) & 1u8 == 1u8 {
        3
    } else if r <= 4 && (b >> 3u8) & 1u8 == 1u8 {
        4
    } else if r <= 5 && (b >> 2u8) & 1u8 == 1u8 {
        5
    } else if r <= 6 && (b >> 1u8) & 1u8 == 1u8 {
        6
    } else {
        7
    };
    let i = 8 * k + j;
    lemma_fundamental_div_mod_converse(i, 8, k, j);
    lemma_fundamental_div_mod_converse(n as int, 8, k, r as int);
    assert(((7 - i % 8) as u8) == (7 - j) as u8);
    assert(wire_bit(bytes, i));
}

/// Three vectors that never share a set position count up to their union.
pub proof fn lemma_count_true_disjoint3(a: Seq<bool>, b: Seq<bool>, c: Seq<bool>, u: Seq<bool>)
    requires
        a.len() == u.len(),
        b.len() == u.len(),
        c.len() == u.len(),
        forall|i: int|
            0 <= i < u.len() ==> (a[i] as int) + (b[i] as int) + (c[i] as int) == (
            #[trigger] u[i]) as int,
    ensures
        count_true(a) + count_true(b) + count_true(c) == count_true(u),
    decreases u.len(),
{
    if u.len() > 0 {
        let n = u.len() - 1;
        assert((a[n] as int) + (b[n] as int) + (c[n] as int) == (u[n]) as int);
        lemma_count_true_disjoint3(a.drop_last(), b.drop_last(), c.drop_last(), u.drop_last());
    }
}

/// A vector with every position set counts its length.
pub proof fn lemma_count_true_all(s: Seq<bool>)
    requires
        forall|i: int| 0 <= i < s.len() ==> #[trigger] s[i],
    ensures
        count_true(s) == s.len(),
    decreases s.len(),
{
    if s.len() > 0 {
        lemma_count_true_all(s.drop_last());
    }
}

} // verus!
