//! Byte-pattern primitives: fixed-width equality-mask computation.
//!
//! Given two byte windows of the same width (16 or 32 lanes), these
//! functions produce a bitmask with one set bit per lane where the bytes are
//! equal.  They are the portable form of the vectorized byte comparison that
//! every higher-level scan of the engine is built on; the mask layout (bit
//! `i` describes lane `i`) is identical to the one a vector compare plus
//! move-mask instruction pair would produce.
use vstd::prelude::*;

verus! {

/// Setting bit `k` makes that bit one and leaves every other bit of a
/// 32-bit word unchanged.
proof fn lemma_or_bit(m0: u32, m1: u32, k: u32)
    by (bit_vector)
    requires
        k < 32,
        m1 == m0 | (1u32 << k),
    ensures
        ((m1 >> k) & 1u32) == 1u32,
        forall|j: u32| j < 32 && j != k ==> (#[trigger] (m1 >> j)) & 1u32 == ((m0 >> j) & 1u32),
        m0 < 0x10000 && k < 16 ==> m1 < 0x10000,
{
}

/// Every bit of the zero word is clear.
proof fn lemma_zero_bits()
    by (bit_vector)
    ensures
        forall|j: u32| (#[trigger] (0u32 >> j)) & 1u32 == 0u32,
{
}

/// The equality bitmask of the first 16 lanes of two byte windows.
///
/// Bit `i` of the result is set exactly when `a[i] == b[i]`; the upper 16
/// bits are always clear.
pub fn mask_128(a: &[u8], b: &[u8]) -> (r: u32)
    requires
        a@.len() >= 16,
        b@.len() >= 16,
    ensures
        r < 0x10000,
        forall|j: u32| j < 16 ==> (((#[trigger] (r >> j)) & 1u32 == 1u32) <==> a@[j as int]
            == b@[j as int]),
{
    let mut m: u32 = 0;
    let mut i: usize = 0;
    proof {
        lemma_zero_bits();
    }
    while i < 16
        invariant
            a@.len() >= 16,
            b@.len() >= 16,
            i <= 16,
            m < 0x10000,
            forall|j: u32| j < 32 ==> (((#[trigger] (m >> j)) & 1u32 == 1u32) <==> (j < i
                && a@[j as int] == b@[j as int])),
        decreases 16 - i,
    {
        let ghost m0 = m;
        let eq = a[i] == b[i];
        if eq {
            m = m | (1u32 << (i as u32));
        }
        proof {
            if eq {
                lemma_or_bit(m0, m, i as u32);
            }
            assert forall|j: u32| j < 32 implies (((m >> j) & 1u32 == 1u32) <==> (j < i + 1
                && a@[j as int] == b@[j as int])) by {
                if j == i as u32 {
                    if eq {
                        assert(((m >> j) & 1u32) == 1u32);
                    } else {
                        assert(((m >> j) & 1u32 == 1u32) <==> (j < i && a@[j as int] == b@[
                            j as int]));
                    }
                } else {
                    if eq {
                        assert(((m >> j) & 1u32) == ((m0 >> j) & 1u32));
                    }
                    assert(((m0 >> j) & 1u32 == 1u32) <==> (j < i && a@[j as int] == b@[j as int]));
                }
            }
        }
        i = i + 1;
    }
    m
}

/// The equality bitmask of the first 32 lanes of two byte windows.
///
/// Bit `i` of the result is set exactly when `a[i] == b[i]`.
pub fn mask_256(a: &[u8], b: &[u8]) -> (r: u32)
    requires
        a@.len() >= 32,
        b@.len() >= 32,
    ensures
        forall|j: u32| j < 32 ==> (((#[trigger] (r >> j)) & 1u32 == 1u32) <==> a@[j as int]
            == b@[j as int]),
{
    let mut m: u32 = 0;
    let mut i: usize = 0;
    proof {
        lemma_zero_bits();
    }
    while i < 32
        invariant
            a@.len() >= 32,
            b@.len() >= 32,
            i <= 32,
            forall|j: u32| j < 32 ==> (((#[trigger] (m >> j)) & 1u32 == 1u32) <==> (j < i
                && a@[j as int] == b@[j as int])),
        decreases 32 - i,
    {
        let ghost m0 = m;
        let eq = a[i] == b[i];
        if eq {
            m = m | (1u32 << (i as u32));
        }
        proof {
            if eq {
                lemma_or_bit(m0, m, i as u32);
            }
            assert forall|j: u32| j < 32 implies (((m >> j) & 1u32 == 1u32) <==> (j < i + 1
                && a@[j as int] == b@[j as int])) by {
                if j == i as u32 {
                    if eq {
                        assert(((m >> j) & 1u32) == 1u32);
                    } else {
                        assert(((m >> j) & 1u32 == 1u32) <==> (j < i && a@[j as int] == b@[
                            j as int]));
                    }
                } else {
                    if eq {
                        assert(((m >> j) & 1u32) == ((m0 >> j) & 1u32));
                    }
                    assert(((m0 >> j) & 1u32 == 1u32) <==> (j < i && a@[j as int] == b@[j as int]));
                }
            }
        }
        i = i + 1;
    }
    m
}

/// A vector holding `n` copies of the byte `c`, the constant comparison
/// window handed to the mask primitives when probing for one byte value.
pub fn repeat_byte(c: u8, n: usize) -> (v: Vec<u8>)
    ensures
        v@.len() == n,
        forall|i: int| 0 <= i < n ==> v@[i] == c,
{
    let mut v: Vec<u8> = Vec::new();
    let mut i: usize = 0;
    while i < n
        invariant
            i <= n,
            v@.len() == i,
            forall|j: int| 0 <= j < i ==> v@[j] == c,
        decreases n - i,
    {
        v.push(c);
        i = i + 1;
    }
    v
}

} // verus!
