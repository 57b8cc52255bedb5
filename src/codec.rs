//! Little-endian encoding of unsigned integers as byte sequences.
use vstd::prelude::*;

verus! {

/// `256` raised to the power `n`.
pub open spec fn pow256(n: nat) -> nat
    decreases n,
{
    if n == 0 {
        1
    } else {
        256 * pow256((n - 1) as nat)
    }
}

/// The `width` lowest base-256 digits of `v`, least significant first.
pub open spec fn le_encode(v: nat, width: nat) -> Seq<u8>
    decreases width,
{
    if width == 0 {
        Seq::empty()
    } else {
        seq![(v % 256) as u8] + le_encode(v / 256, (width - 1) as nat)
    }
}

/// The number whose base-256 digits, least significant first, are `b`.
pub open spec fn le_decode(b: Seq<u8>) -> nat
    decreases b.len(),
{
    if b.len() == 0 {
        0
    } else {
        b[0] as nat + 256 * le_decode(b.drop_first())
    }
}

pub proof fn lemma_pow256_positive(n: nat)
    ensures
        pow256(n) >= 1,
    decreases n,
{
    if n > 0 {
        lemma_pow256_positive((n - 1) as nat);
    }
}

pub proof fn lemma_le_encode_len(v: nat, width: nat)
    ensures
        le_encode(v, width).len() == width,
    decreases width,
{
    if width > 0 {
        lemma_le_encode_len(v / 256, (width - 1) as nat);
    }
}

/// A decoded value is below `256` to the power of the number of bytes.
pub proof fn lemma_le_decode_bound(b: Seq<u8>)
    ensures
        le_decode(b) < pow256(b.len()),
    decreases b.len(),
{
    if b.len() > 0 {
        let rest = b.drop_first();
        lemma_le_decode_bound(rest);
        let d = le_decode(rest);
        let p = pow256(rest.len());
        assert(b[0] as nat + 256 * d < 256 * p) by (nonlinear_arith)
            requires
                d < p,
                b[0] < 256,
        ;
    }
}

/// Decoding the encoding of a value that fits in `width` bytes gives the value back.
pub proof fn lemma_le_round_trip(v: nat, width: nat)
    requires
        v < pow256(width),
    ensures
        le_decode(le_encode(v, width)) == v,
    decreases width,
{
    if width > 0 {
        let q = v / 256;
        let p = pow256((width - 1) as nat);
        assert(q < p && v == (v % 256) + 256 * q) by (nonlinear_arith)
            requires
                v < 256 * p,
                q == v / 256,
        ;
        lemma_le_round_trip(q, (width - 1) as nat);
        let e = le_encode(v, width);
        assert(e.drop_first() =~= le_encode(q, (width - 1) as nat));
    } else {
        assert(v < 1);
    }
}

pub proof fn lemma_pow256_values()
    ensures
        pow256(4) == 0x1_0000_0000,
        pow256(7) == 0x100_0000_0000_0000,
        pow256(8) == 0x1_0000_0000_0000_0000,
{
    reveal_with_fuel(pow256, 9);
}

pub proof fn lemma_pow256_monotonic(n: nat, m: nat)
    requires
        n <= m,
    ensures
        pow256(n) <= pow256(m),
    decreases m,
{
    if n < m {
        lemma_pow256_monotonic(n, (m - 1) as nat);
        lemma_pow256_positive((m - 1) as nat);
    }
}

} // verus!
