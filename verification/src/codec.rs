//! Fast decimal codec: the mathematical model of ASCII decimal numerals and
//! the branchless ("decimal SWAR") conversion of a digit string to a 32-bit
//! integer.
//!
//! The converter right-aligns up to ten digits in a fixed scratch buffer,
//! reinterprets the low and high portions as packed little-endian integers,
//! and combines all digit positions with three masked
//! multiply-by-power-of-ten-and-shift steps instead of a scalar
//! digit-by-digit loop.
use vstd::array::ArrayAdditionalExecFns;
use vstd::prelude::*;

verus! {

/// `c` is an ASCII decimal digit.
pub open spec fn is_digit(c: u8) -> bool {
    48 <= c && c <= 57
}

/// Every byte of `s` is an ASCII decimal digit.
pub open spec fn all_digits(s: Seq<u8>) -> bool {
    forall|i: int| 0 <= i < s.len() ==> is_digit(#[trigger] s[i])
}

/// The number denoted by the ASCII digit string `s`, most significant digit
/// first.
pub open spec fn dec_val(s: Seq<u8>) -> int
    decreases s.len(),
{
    if s.len() == 0 {
        0
    } else {
        dec_val(s.drop_last()) * 10 + (s.last() - 48)
    }
}

/// 10 to the power `k`.
pub open spec fn pow10(k: nat) -> int
    decreases k,
{
    if k == 0 {
        1
    } else {
        10 * pow10((k - 1) as nat)
    }
}

/// The canonical (shortest, no leading zero) ASCII decimal digits of `n`.
pub open spec fn dec_digits(n: nat) -> Seq<u8>
    decreases n,
{
    if n < 10 {
        seq![(48 + n) as u8]
    } else {
        dec_digits(n / 10).push((48 + n % 10) as u8)
    }
}

/// Powers of ten are positive and grow with the exponent.
pub proof fn lemma_pow10_pos(k: nat)
    ensures
        pow10(k) >= 1,
    decreases k,
{
    if k > 0 {
        lemma_pow10_pos((k - 1) as nat);
    }
}

/// Monotonicity of `pow10`.
pub proof fn lemma_pow10_mono(j: nat, k: nat)
    requires
        j <= k,
    ensures
        pow10(j) <= pow10(k),
    decreases k,
{
    if j < k {
        lemma_pow10_mono(j, (k - 1) as nat);
        lemma_pow10_pos((k - 1) as nat);
    }
}

/// A digit string denotes a value below `pow10` of its length, and at least
/// `pow10` of one less when it has no leading zero.
pub proof fn lemma_dec_val_bounds(s: Seq<u8>)
    requires
        all_digits(s),
    ensures
        0 <= dec_val(s) < pow10(s.len() as nat),
        s.len() >= 1 && s[0] != 48 ==> dec_val(s) >= pow10((s.len() - 1) as nat),
    decreases s.len(),
{
    if s.len() == 0 {
    } else {
        let init = s.drop_last();
        assert(forall|i: int| 0 <= i < init.len() ==> init[i] == s[i]);
        lemma_dec_val_bounds(init);
        assert(is_digit(s[s.len() - 1]));
        assert(s.last() == s[s.len() - 1]);
        if s.len() >= 2 && s[0] != 48 {
            assert(init[0] == s[0]);
            lemma_pow10_pos((s.len() - 2) as nat);
        }
    }
}

/// Properties of the canonical digit string of `n`.
pub proof fn lemma_dec_digits_props(n: nat)
    ensures
        all_digits(dec_digits(n)),
        dec_digits(n).len() >= 1,
        dec_val(dec_digits(n)) == n,
        n > 0 ==> dec_digits(n)[0] != 48,
        n == 0 ==> dec_digits(n) == seq![48u8],
        n < pow10(dec_digits(n).len() as nat),
        n >= 1 ==> n >= pow10((dec_digits(n).len() - 1) as nat),
    decreases n,
{
    if n < 10 {
        assert(dec_digits(n) == seq![(48 + n) as u8]);
        assert(dec_digits(n).drop_last() =~= Seq::<u8>::empty());
        assert(dec_digits(n).last() == (48 + n) as u8);
        assert(dec_val(dec_digits(n)) == dec_val(dec_digits(n).drop_last()) * 10 + ((48 + n) as u8
            - 48));
        assert(pow10(0) == 1);
        assert(pow10(1) == 10);
        if n == 0 {
            assert(dec_digits(n) =~= seq![48u8]);
        }
    } else {
        lemma_dec_digits_props(n / 10);
        let p = dec_digits(n / 10);
        let s = dec_digits(n);
        assert(s == p.push((48 + n % 10) as u8));
        assert(s.drop_last() =~= p);
        assert(s.last() == (48 + n % 10) as u8);
        assert(dec_val(s) == dec_val(p) * 10 + n % 10);
        assert((n / 10) * 10 + n % 10 == n) by (nonlinear_arith);
        assert(s[0] == p[0]);
        assert(forall|i: int| 0 <= i < p.len() ==> s[i] == p[i]);
        assert(n / 10 < pow10(p.len() as nat));
        assert(n < pow10(s.len() as nat)) by (nonlinear_arith)
            requires
                n / 10 < pow10(p.len() as nat),
                n >= 10,
                pow10(s.len() as nat) == 10 * pow10(p.len() as nat),
                (n / 10) * 10 + n % 10 == n,
                0 <= n % 10 < 10,
        ;
        assert(n / 10 >= pow10((p.len() - 1) as nat));
        assert(n >= pow10((s.len() - 1) as nat)) by (nonlinear_arith)
            requires
                n / 10 >= pow10((p.len() - 1) as nat),
                pow10((s.len() - 1) as nat) == 10 * pow10((p.len() - 1) as nat),
                (n / 10) * 10 + n % 10 == n,
                0 <= n % 10,
                s.len() == p.len() + 1,
        ;
    }
}

/// The canonical digit string of a 32-bit value has at most ten digits.
pub proof fn lemma_dec_digits_len(n: nat)
    requires
        n <= 0xFFFF_FFFF,
    ensures
        dec_digits(n).len() <= 10,
{
    lemma_dec_digits_props(n);
    assert(pow10(0) == 1);
    assert(pow10(1) == 10);
    assert(pow10(2) == 100);
    assert(pow10(3) == 1000);
    assert(pow10(4) == 10000);
    assert(pow10(5) == 100000);
    assert(pow10(6) == 1000000);
    assert(pow10(7) == 10000000);
    assert(pow10(8) == 100000000);
    assert(pow10(9) == 1000000000);
    assert(pow10(10) == 10000000000);
    if dec_digits(n).len() > 10 {
        if n == 0 {
        } else {
            lemma_pow10_mono(10, (dec_digits(n).len() - 1) as nat);
        }
    }
}

/// Prepending an ASCII zero does not change the denoted value.
proof fn lemma_dec_val_zero_pad(s: Seq<u8>)
    ensures
        dec_val(seq![48u8] + s) == dec_val(s),
    decreases s.len(),
{
    if s.len() == 0 {
        assert((seq![48u8] + s) =~= seq![48u8]);
        assert(dec_val(seq![48u8]) == dec_val(seq![48u8].drop_last()) * 10 + (48 - 48));
        assert(seq![48u8].drop_last() =~= Seq::<u8>::empty());
    } else {
        let t = seq![48u8] + s;
        assert(t.drop_last() =~= seq![48u8] + s.drop_last());
        assert(t.last() == s.last());
        lemma_dec_val_zero_pad(s.drop_last());
    }
}

/// A run of ASCII zeros in front does not change the denoted value.
pub proof fn lemma_dec_val_pad(s: Seq<u8>, k: nat)
    ensures
        dec_val(Seq::new(k, |i: int| 48) + s) == dec_val(s),
    decreases k,
{
    if k == 0 {
        assert((Seq::new(0, |i: int| 48) + s) =~= s);
    } else {
        lemma_dec_val_pad(s, (k - 1) as nat);
        assert((Seq::new(k, |i: int| 48) + s) =~= seq![48u8] + (Seq::new(
            (k - 1) as nat,
            |i: int| 48,
        ) + s));
        lemma_dec_val_zero_pad(Seq::new((k - 1) as nat, |i: int| 48) + s);
    }
}

/// The value of an exactly ten digit string, written out positionally.
pub proof fn lemma_dec_val_10(t: Seq<u8>)
    requires
        t.len() == 10,
    ensures
        dec_val(t) == (t[0] - 48) * 1000000000 + (t[1] - 48) * 100000000 + (t[2] - 48)
            * 10000000 + (t[3] - 48) * 1000000 + (t[4] - 48) * 100000 + (t[5] - 48) * 10000 + (
        t[6] - 48) * 1000 + (t[7] - 48) * 100 + (t[8] - 48) * 10 + (t[9] - 48),
{
    let s9 = t.drop_last();
    let s8 = s9.drop_last();
    let s7 = s8.drop_last();
    let s6 = s7.drop_last();
    let s5 = s6.drop_last();
    let s4 = s5.drop_last();
    let s3 = s4.drop_last();
    let s2 = s3.drop_last();
    let s1 = s2.drop_last();
    let s0 = s1.drop_last();
    assert(s0 =~= Seq::<u8>::empty());
    assert(dec_val(t) == dec_val(s9) * 10 + (t[9] - 48));
    assert(dec_val(s9) == dec_val(s8) * 10 + (t[8] - 48));
    assert(dec_val(s8) == dec_val(s7) * 10 + (t[7] - 48));
    assert(dec_val(s7) == dec_val(s6) * 10 + (t[6] - 48));
    assert(dec_val(s6) == dec_val(s5) * 10 + (t[5] - 48));
    assert(dec_val(s5) == dec_val(s4) * 10 + (t[4] - 48));
    assert(dec_val(s4) == dec_val(s3) * 10 + (t[3] - 48));
    assert(dec_val(s3) == dec_val(s2) * 10 + (t[2] - 48));
    assert(dec_val(s2) == dec_val(s1) * 10 + (t[1] - 48));
    assert(dec_val(s1) == dec_val(s0) * 10 + (t[0] - 48));
}

/// Packing two scratch bytes little-endian and masking keeps exactly the two
/// digit values, one per byte lane.  A scratch byte is either zero padding or
/// an ASCII digit.
proof fn lemma_nibbles_head(c0: u16, c1: u16, g0: u16, g1: u16, h: u16, hm: u16)
    by (bit_vector)
    requires
        c0 < 256,
        c1 < 256,
        c0 == 0 ==> g0 == 0,
        c0 != 0 ==> c0 == g0 + 48,
        g0 <= 9,
        c1 == 0 ==> g1 == 0,
        c1 != 0 ==> c1 == g1 + 48,
        g1 <= 9,
        h == c0 | (c1 << 8),
        hm == h & 0x0F0F,
    ensures
        hm == g0 | (g1 << 8),
{
}

/// One masked multiply-and-shift combines the two leading digit lanes into
/// their two-digit decimal value.
proof fn lemma_swar_head(hm: u16, h2: u16, g0: u16, g1: u16)
    by (bit_vector)
    requires
        g0 <= 9,
        g1 <= 9,
        hm == g0 | (g1 << 8),
        h2 == ((((hm * 2561) % 0x10000) as u16) >> 8),
    ensures
        h2 == g0 * 10 + g1,
{
}

/// Packing eight scratch bytes little-endian and masking keeps exactly the
/// eight digit values, one per byte lane.
proof fn lemma_nibbles_tail(
    c2: u64,
    c3: u64,
    c4: u64,
    c5: u64,
    c6: u64,
    c7: u64,
    c8: u64,
    c9: u64,
    g2: u64,
    g3: u64,
    g4: u64,
    g5: u64,
    g6: u64,
    g7: u64,
    g8: u64,
    g9: u64,
    t: u64,
    tm: u64,
)
    by (bit_vector)
    requires
        c2 < 256 && (c2 == 0 ==> g2 == 0) && (c2 != 0 ==> c2 == g2 + 48) && g2 <= 9,
        c3 < 256 && (c3 == 0 ==> g3 == 0) && (c3 != 0 ==> c3 == g3 + 48) && g3 <= 9,
        c4 < 256 && (c4 == 0 ==> g4 == 0) && (c4 != 0 ==> c4 == g4 + 48) && g4 <= 9,
        c5 < 256 && (c5 == 0 ==> g5 == 0) && (c5 != 0 ==> c5 == g5 + 48) && g5 <= 9,
        c6 < 256 && (c6 == 0 ==> g6 == 0) && (c6 != 0 ==> c6 == g6 + 48) && g6 <= 9,
        c7 < 256 && (c7 == 0 ==> g7 == 0) && (c7 != 0 ==> c7 == g7 + 48) && g7 <= 9,
        c8 < 256 && (c8 == 0 ==> g8 == 0) && (c8 != 0 ==> c8 == g8 + 48) && g8 <= 9,
        c9 < 256 && (c9 == 0 ==> g9 == 0) && (c9 != 0 ==> c9 == g9 + 48) && g9 <= 9,
        t == c2 | (c3 << 8) | (c4 << 16) | (c5 << 24) | (c6 << 32) | (c7 << 40) | (c8 << 48) | (c9
            << 56),
        tm == t & 0x0F0F0F0F0F0F0F0F,
    ensures
        tm == g2 | (g3 << 8) | (g4 << 16) | (g5 << 24) | (g6 << 32) | (g7 << 40) | (g8 << 48) | (g9
            << 56),
{
}

/// The first multiply-and-shift step pairs adjacent digit lanes into four
/// two-digit values, one per 16-bit lane.
proof fn lemma_swar_tail_1(
    tm: u64,
    t1: u64,
    g2: u64,
    g3: u64,
    g4: u64,
    g5: u64,
    g6: u64,
    g7: u64,
    g8: u64,
    g9: u64,
)
    by (bit_vector)
    requires
        g2 <= 9 && g3 <= 9 && g4 <= 9 && g5 <= 9 && g6 <= 9 && g7 <= 9 && g8 <= 9 && g9 <= 9,
        tm == g2 | (g3 << 8) | (g4 << 16) | (g5 << 24) | (g6 << 32) | (g7 << 40) | (g8 << 48) | (g9
            << 56),
        t1 == ((((tm * 2561) % 0x10000000000000000) as u64) >> 8),
    ensures
        t1 & 0x00FF00FF00FF00FF == (g2 * 10 + g3) + (g4 * 10 + g5) * 0x10000 + (g6 * 10 + g7)
            * 0x100000000 + (g8 * 10 + g9) * 0x1000000000000,
{
}

/// The second step pairs adjacent two-digit lanes into two four-digit
/// values, one per 32-bit lane.
proof fn lemma_swar_tail_2(m2: u64, t2: u64, v0: u64, v1: u64, v2: u64, v3: u64)
    by (bit_vector)
    requires
        v0 <= 99 && v1 <= 99 && v2 <= 99 && v3 <= 99,
        m2 == v0 + v1 * 0x10000 + v2 * 0x100000000 + v3 * 0x1000000000000,
        t2 == ((((m2 * 6553601) % 0x10000000000000000) as u64) >> 16),
    ensures
        t2 & 0x0000FFFF0000FFFF == (v0 * 100 + v1) + (v2 * 100 + v3) * 0x100000000,
{
}

/// The last step combines the two four-digit lanes into the full eight-digit
/// value.
proof fn lemma_swar_tail_3(m3: u64, t3: u64, w0: u64, w1: u64)
    by (bit_vector)
    requires
        w0 <= 9999 && w1 <= 9999,
        m3 == w0 + w1 * 0x100000000,
        t3 == ((((m3 * 42949672960001) % 0x10000000000000000) as u64) >> 32),
    ensures
        t3 == w0 * 10000 + w1,
{
}

/// Decode an ASCII decimal numeral of one to ten digits into its 32-bit
/// value.
///
/// The digits are right-aligned into a ten byte scratch buffer whose unused
/// front stays zero; the two leading positions and the eight trailing
/// positions are packed little-endian and combined by the masked
/// multiply-and-shift steps proved above.  The caller keeps the represented
/// value inside 32 bits; the table's bounds satisfy that by construction.
pub fn into_num(b: &[u8]) -> (r: u32)
    requires
        1 <= b@.len() <= 10,
        all_digits(b@),
        dec_val(b@) <= 0xFFFF_FFFF,
    ensures
        r == dec_val(b@),
{
    let len: usize = b.len();
    let mut num: [u8; 10] = [0;10];
    let mut i: usize = 0;
    while i < len
        invariant
            len == b@.len(),
            1 <= len <= 10,
            num@.len() == 10,
            i <= len,
            forall|j: int|
                0 <= j < 10 - len + i ==> #[trigger] num@[j] == (if j < 10 - len {
                    0u8
                } else {
                    b@[j - (10 - len)]
                }),
            forall|j: int| 10 - len + i <= j < 10 ==> #[trigger] num@[j] == 0u8,
        decreases len - i,
    {
        num.set(10 - len + i, b[i]);
        i = i + 1;
    }
    let ghost pad: int = 10 - len as int;
    let c0: u16 = num[0] as u16;
    let c1: u16 = num[1] as u16;
    let head: u16 = c0 | (c1 << 8);
    let hm: u16 = head & 0x0F0F;
    let head2: u16 = hm.wrapping_mul(2561) >> 8;
    let tail: u64 = (num[2] as u64) | ((num[3] as u64) << 8) | ((num[4] as u64) << 16) | ((num[5]
        as u64) << 24) | ((num[6] as u64) << 32) | ((num[7] as u64) << 40) | ((num[8] as u64) << 48)
        | ((num[9] as u64) << 56);
    let tm: u64 = tail & 0x0F0F0F0F0F0F0F0F;
    let t1: u64 = tm.wrapping_mul(2561) >> 8;
    let m2: u64 = t1 & 0x00FF00FF00FF00FF;
    let t2: u64 = m2.wrapping_mul(6553601) >> 16;
    let m3: u64 = t2 & 0x0000FFFF0000FFFF;
    let t3: u64 = m3.wrapping_mul(42949672960001) >> 32;
    proof {
        assert(forall|j: int|
            0 <= j < 10 ==> #[trigger] num@[j] == (if j < pad {
                0u8
            } else {
                b@[j - pad]
            }));
        assert(forall|j: int| pad <= j < 10 ==> is_digit(#[trigger] num@[j]));
        let h0: u16 = if num@[0] == 0u8 {
            0u16
        } else {
            (num@[0] - 48) as u16
        };
        let h1: u16 = if num@[1] == 0u8 {
            0u16
        } else {
            (num@[1] - 48) as u16
        };
        let g2: u64 = if num@[2] == 0u8 {
            0u64
        } else {
            (num@[2] - 48) as u64
        };
        let g3: u64 = if num@[3] == 0u8 {
            0u64
        } else {
            (num@[3] - 48) as u64
        };
        let g4: u64 = if num@[4] == 0u8 {
            0u64
        } else {
            (num@[4] - 48) as u64
        };
        let g5: u64 = if num@[5] == 0u8 {
            0u64
        } else {
            (num@[5] - 48) as u64
        };
        let g6: u64 = if num@[6] == 0u8 {
            0u64
        } else {
            (num@[6] - 48) as u64
        };
        let g7: u64 = if num@[7] == 0u8 {
            0u64
        } else {
            (num@[7] - 48) as u64
        };
        let g8: u64 = if num@[8] == 0u8 {
            0u64
        } else {
            (num@[8] - 48) as u64
        };
        let g9: u64 = if num@[9] == 0u8 {
            0u64
        } else {
            (num@[9] - 48) as u64
        };
        lemma_nibbles_head(c0, c1, h0, h1, head, hm);
        assert(head2 == ((((hm * 2561) % 0x10000) as u16) >> 8));
        lemma_swar_head(hm, head2, h0, h1);
        lemma_nibbles_tail(
            num@[2] as u64,
            num@[3] as u64,
            num@[4] as u64,
            num@[5] as u64,
            num@[6] as u64,
            num@[7] as u64,
            num@[8] as u64,
            num@[9] as u64,
            g2,
            g3,
            g4,
            g5,
            g6,
            g7,
            g8,
            g9,
            tail,
            tm,
        );
        assert(t1 == ((((tm * 2561) % 0x10000000000000000) as u64) >> 8));
        lemma_swar_tail_1(tm, t1, g2, g3, g4, g5, g6, g7, g8, g9);
        let v0: u64 = (g2 * 10 + g3) as u64;
        let v1: u64 = (g4 * 10 + g5) as u64;
        let v2: u64 = (g6 * 10 + g7) as u64;
        let v3: u64 = (g8 * 10 + g9) as u64;
        assert(t2 == ((((m2 * 6553601) % 0x10000000000000000) as u64) >> 16));
        lemma_swar_tail_2(m2, t2, v0, v1, v2, v3);
        let w0: u64 = (v0 * 100 + v1) as u64;
        let w1: u64 = (v2 * 100 + v3) as u64;
        assert(t3 == ((((m3 * 42949672960001) % 0x10000000000000000) as u64) >> 32));
        lemma_swar_tail_3(m3, t3, w0, w1);
        assert(t3 == g2 * 10000000 + g3 * 1000000 + g4 * 100000 + g5 * 10000 + g6 * 1000 + g7 * 100
            + g8 * 10 + g9);
        let z = Seq::<u8>::new(
            10,
            |j: int|
                if j < pad {
                    48u8
                } else {
                    b@[j - pad]
                },
        );
        assert(z =~= Seq::new(pad as nat, |i: int| 48u8) + b@);
        lemma_dec_val_pad(b@, pad as nat);
        lemma_dec_val_10(z);
        assert(z[0] - 48 == h0);
        assert(z[1] - 48 == h1);
        assert(z[2] - 48 == g2);
        assert(z[3] - 48 == g3);
        assert(z[4] - 48 == g4);
        assert(z[5] - 48 == g5);
        assert(z[6] - 48 == g6);
        assert(z[7] - 48 == g7);
        assert(z[8] - 48 == g8);
        assert(z[9] - 48 == g9);
        assert(dec_val(b@) == (h0 * 10 + h1) * 100000000 + t3);
        assert(head2 <= 42);
        assert(t3 <= 99999999);
    }
    (head2 as u32) * 100000000 + (t3 as u32)
}

/// The 16-byte probe window for `ip`: its decimal digits, one comma, and
/// zero padding at the back.  The sequential scanner's prefix heuristic
/// compares every line's first 16 bytes against this window.
pub open spec fn ip_buf_spec(ip: u32) -> Seq<u8> {
    dec_digits(ip as nat) + seq![44u8] + Seq::new(
        (15 - dec_digits(ip as nat).len()) as nat,
        |i: int| 0u8,
    )
}

/// Reversing after a push puts the pushed element in front.
proof fn lemma_reverse_push(s: Seq<u8>, x: u8)
    ensures
        s.push(x).reverse() == seq![x] + s.reverse(),
{
    assert(s.push(x).reverse() =~= seq![x] + s.reverse());
}

/// Render `ip` as its decimal digits followed by a comma in a fixed
/// 16-byte buffer, zero padded at the back.
pub fn format_ip_comma(ip: u32) -> (v: Vec<u8>)
    ensures
        v@ == ip_buf_spec(ip),
        v@.len() == 16,
{
    proof {
        lemma_dec_digits_len(ip as nat);
        lemma_dec_digits_props(ip as nat);
    }
    let ghost dd = dec_digits(ip as nat);
    let mut rev: Vec<u8> = Vec::new();
    if ip == 0 {
        rev.push(48);
        proof {
            assert(rev@ =~= dd.reverse());
        }
    } else {
        let mut n: u32 = ip;
        while n > 0
            invariant
                dd == dec_digits(ip as nat),
                n > 0 ==> dd == dec_digits(n as nat) + rev@.reverse(),
                n == 0 ==> dd == rev@.reverse(),
            decreases n,
        {
            let ghost rev0 = rev@;
            let d: u8 = 48 + (n % 10) as u8;
            rev.push(d);
            proof {
                lemma_reverse_push(rev0, d);
                if n >= 10 {
                    assert(dec_digits(n as nat) == dec_digits((n as nat) / 10).push(d));
                    assert((n / 10) as nat == (n as nat) / 10);
                    assert(dec_digits(n as nat) + rev0.reverse() =~= dec_digits((n / 10) as nat) + (
                    seq![d] + rev0.reverse()));
                } else {
                    assert(dec_digits(n as nat) == seq![d]);
                    assert(dec_digits(n as nat) + rev0.reverse() =~= seq![d] + rev0.reverse());
                }
            }
            n = n / 10;
        }
        proof {
            assert(dd == rev@.reverse());
        }
    }
    let mut v: Vec<u8> = Vec::new();
    while rev.len() > 0
        invariant
            dd == v@ + rev@.reverse(),
        decreases rev@.len(),
    {
        let ghost rev0 = rev@;
        let ghost v0 = v@;
        let x = rev.pop().unwrap();
        v.push(x);
        proof {
            assert(rev0.reverse() =~= seq![x] + rev@.reverse());
            assert(v@ + rev@.reverse() =~= v0 + rev0.reverse());
        }
    }
    proof {
        assert(rev@.reverse() =~= Seq::<u8>::empty());
        assert(v@ =~= dd);
    }
    v.push(44);
    let ghost k = dd.len() + 1;
    while v.len() < 16
        invariant
            k == dd.len() + 1,
            k <= v@.len() <= 16,
            k <= 16,
            v@.subrange(0, k as int) == dd + seq![44u8],
            forall|j: int| k <= j < v@.len() ==> v@[j] == 0u8,
        decreases 16 - v@.len(),
    {
        let ghost v0 = v@;
        v.push(0);
        proof {
            assert(v@.subrange(0, k as int) =~= v0.subrange(0, k as int));
        }
    }
    proof {
        assert(v@ =~= ip_buf_spec(ip));
    }
    v
}

} // verus!

