//! The line scanner, the record matcher, and the sequential scanner.
//!
//! The line scanner probes fixed-size windows for the next terminator,
//! widening from 16 to 32 lanes; the record matcher decodes one line's
//! bounds and hands back its label when the queried address falls inside;
//! the sequential scanner walks a region line by line, gating the decode
//! behind a cheap textual-prefix heuristic, and follows a fruitless gated
//! pass with an exhaustive one, so the heuristic costs nothing in
//! exactness.
use crate::codec::format_ip_comma;
use crate::codec::into_num;
use crate::codec::ip_buf_spec;
use crate::mask::mask_128;
use crate::mask::mask_256;
use crate::mask::repeat_byte;
use crate::table::comma1;
use crate::table::comma2;
use crate::table::covers;
use crate::table::first_nl_from;
use crate::table::label_of;
use crate::table::lemma_first_comma_bounds;
use crate::table::lemma_first_nl_bounds;
use crate::table::lemma_first_nl_is;
use crate::table::lemma_first_nl_shift;
use crate::table::line_end;
use crate::table::line_start_at;
use crate::table::max_digits;
use crate::table::max_of;
use crate::table::min_digits;
use crate::table::min_of;
use crate::table::wf_between;
use crate::table::wf_line_at;
use vstd::prelude::*;
use vstd::slice::slice_subrange;
use vstd::std_specs::bits::axiom_u32_trailing_zeros;

verus! {

/// How far the widening window probes of the line scanner reach into a
/// region of `len` bytes: the fixed 16-byte probe at offset 9, then whole
/// 32-byte windows while they fit.
pub open spec fn probe_limit(len: int) -> int {
    if len < 25 {
        9
    } else {
        25 + 32 * ((len - 25) / 32)
    }
}

/// What the line scanner returns for the region `[from, hi)`: the first
/// newline at or after `from + 9` when it lies inside the probed span,
/// otherwise the region's last byte.
pub open spec fn find_nl_spec(s: Seq<u8>, from: int, hi: int) -> int {
    let f = first_nl_from(s, from + 9);
    if from + 9 <= f && f < from + probe_limit(hi - from) {
        f
    } else {
        hi - 1
    }
}

/// The probed span of a region of at least 25 bytes covers the first 25 and
/// stops less than one whole window short of the region's end.
pub(crate) proof fn lemma_probe_limit(len: int)
    requires
        len >= 25,
    ensures
        25 <= probe_limit(len) <= len,
        len - probe_limit(len) < 32,
        (probe_limit(len) - 25) % 32 == 0,
{
    let k = (len - 25) / 32;
    vstd::arithmetic::div_mod::lemma_fundamental_div_mod(len - 25, 32);
    assert((len - 25) % 32 >= 0 && (len - 25) % 32 < 32) by (nonlinear_arith)
        requires
            len >= 25,
    ;
    assert(k * 32 % 32 == 0) by (nonlinear_arith);
}

/// Find the next line terminator inside `b[from..hi)`.
///
/// Skips the nine bytes every record is known to begin with, probes one
/// 16-lane window, then whole 32-lane windows while they fit, and falls
/// back to the region's last byte, which never reads past `hi`.
pub(crate) fn find_nl_at(b: &[u8], from: usize, hi: usize) -> (r: usize)
    requires
        from < hi <= b@.len(),
        hi <= usize::MAX - 32,
    ensures
        r == find_nl_spec(b@, from as int, hi as int),
        from <= r < hi,
{
    let ghost s = b@;
    if hi - from < 25 {
        proof {
            lemma_first_nl_bounds(s, from + 9);
        }
        return hi - 1;
    }
    proof {
        lemma_probe_limit(hi - from);
    }
    let nls = repeat_byte(10, 32);
    let m = mask_128(slice_subrange(b, from + 9, from + 25), nls.as_slice());
    if m != 0 {
        let t = m.trailing_zeros();
        proof {
            axiom_u32_trailing_zeros(m);
            assert(t < 32);
            assert((m >> t) & 1u32 == 1u32);
            assert(t < 16) by {
                if t >= 16 {
                    assert((m >> t) & 1u32 == 0u32) by (bit_vector)
                        requires
                            m < 0x10000u32,
                            16 <= t < 32,
                    ;
                }
            }
            assert(s[from + 9 + t] == 10);
            assert(forall|j: int|
                from + 9 <= j < from + 9 + t ==> s[j] != 10) by {
                assert forall|j: int| from + 9 <= j < from + 9 + t implies s[j] != 10 by {
                    let jj = (j - from - 9) as u32;
                    assert((m >> jj) & 1u32 == 0u32);
                }
            }
            lemma_first_nl_is(s, from + 9, from + 9 + t);
        }
        return from + 9 + t as usize;
    }
    proof {
        assert(forall|j: int|
            from + 9 <= j < from + 25 ==> s[j] != 10) by {
            assert forall|j: int| from + 9 <= j < from + 25 implies s[j] != 10 by {
                let jj = (j - from - 9) as u32;
                assert((m >> jj) & 1u32 == 0u32) by (bit_vector)
                    requires
                        m == 0u32,
                ;
            }
        }
    }
    let mut nl: usize = from + 25;
    while nl + 32 <= hi
        invariant
            from + 25 <= nl <= hi,
            hi <= s.len(),
            hi <= usize::MAX - 32,
            from + 25 <= hi,
            s == b@,
            (nl - from - 25) % 32 == 0,
            nls@.len() == 32,
            forall|i: int| 0 <= i < 32 ==> nls@[i] == 10u8,
            forall|j: int| from + 9 <= j < nl ==> s[j] != 10,
        decreases hi - nl,
    {
        let m2 = mask_256(slice_subrange(b, nl, nl + 32), nls.as_slice());
        if m2 != 0 {
            let t2 = m2.trailing_zeros();
            proof {
                axiom_u32_trailing_zeros(m2);
                assert(t2 < 32);
                assert(s[nl + t2] == 10);
                assert(forall|j: int|
                    nl <= j < nl + t2 ==> s[j] != 10) by {
                    assert forall|j: int| nl <= j < nl + t2 implies s[j] != 10 by {
                        let jj = (j - nl) as u32;
                        assert((m2 >> jj) & 1u32 == 0u32);
                    }
                }
                lemma_first_nl_is(s, from + 9, nl + t2);
                assert(nl + t2 < from as int + probe_limit(hi - from as int)) by {
                    let kk = (nl + 32 - from - 25) / 32;
                    vstd::arithmetic::div_mod::lemma_fundamental_div_mod(
                        nl as int + 32 - from - 25,
                        32,
                    );
                    assert((nl + 32 - from - 25) % 32 == 0) by (nonlinear_arith)
                        requires
                            (nl - from as int - 25) % 32 == 0,
                            nl >= from as int + 25,
                    ;
                    assert(kk * 32 == nl + 32 - from - 25);
                    assert((hi - from as int - 25) / 32 >= kk) by (nonlinear_arith)
                        requires
                            kk * 32 == nl as int + 32 - from - 25,
                            nl as int + 32 <= hi,
                            kk >= 0,
                    ;
                }
            }
            return nl + t2 as usize;
        }
        proof {
            assert(forall|j: int|
                nl <= j < nl + 32 ==> s[j] != 10) by {
                assert forall|j: int| nl <= j < nl + 32 implies s[j] != 10 by {
                    let jj = (j - nl) as u32;
                    assert((m2 >> jj) & 1u32 == 0u32) by (bit_vector)
                        requires
                            m2 == 0u32,
                    ;
                }
            }
        }
        nl = nl + 32;
    }
    proof {
        assert(nl == from as int + probe_limit(hi - from as int)) by {
            let kk = (nl - from - 25) / 32;
            vstd::arithmetic::div_mod::lemma_fundamental_div_mod(nl as int - from - 25, 32);
            assert(kk * 32 == nl - from - 25);
            assert((hi - from as int - 25) / 32 == kk) by (nonlinear_arith)
                requires
                    kk * 32 == nl as int - from - 25,
                    nl as int <= hi,
                    nl as int + 32 > hi,
                    kk >= 0,
                    hi >= from as int + 25,
            ;
        }
        lemma_first_nl_bounds(s, from + 9);
        assert(first_nl_from(s, from + 9) >= nl || first_nl_from(s, from + 9) == s.len());
    }
    hi - 1
}

/// Find the next line terminator of `b`, treating the final byte as an
/// implicit terminator when no probe window holds one.
pub fn find_nl(b: &[u8]) -> (r: usize)
    requires
        b@.len() >= 1,
        b@.len() <= usize::MAX - 32,
    ensures
        r == find_nl_spec(b@, 0, b@.len() as int),
        r < b@.len(),
{
    find_nl_at(b, 0, b.len())
}

/// Inside a well-formed region the line scanner finds exactly the current
/// line's terminator.
pub proof fn lemma_find_nl_line(s: Seq<u8>, start: int, hi: int)
    requires
        wf_between(s, start, hi),
        start < hi,
    ensures
        find_nl_spec(s, start, hi) == line_end(s, start),
{
    let end = line_end(s, start);
    lemma_first_nl_bounds(s, start);
    lemma_first_nl_shift(s, start, start + 9);
    assert(first_nl_from(s, start + 9) == end);
    if hi - start >= 25 {
        lemma_probe_limit(hi - start);
        assert(end - start <= 24);
    } else {
        assert(probe_limit(hi - start) == 9);
        if end + 1 < hi {
            assert(wf_between(s, end + 1, hi));
            assert(wf_line_at(s, end + 1));
            assert(line_end(s, end + 1) - (end + 1) >= 16);
            assert(line_end(s, end + 1) < hi);
            lemma_first_nl_bounds(s, end + 1);
            assert(hi - start >= 34);
            assert(false);
        }
        assert(end == hi - 1);
    }
}

/// Composing two right shifts reads the bit at the summed offset.
proof fn lemma_shift_shift(m: u32, a: u32, j: u32)
    by (bit_vector)
    requires
        a < 32,
        j < 32,
        a + j < 32,
    ensures
        ((m >> a) >> j) & 1u32 == (m >> ((a + j) as u32)) & 1u32,
{
}

/// A word with a set bit is not zero.
proof fn lemma_set_bit_nonzero(m: u32, j: u32)
    by (bit_vector)
    requires
        (m >> j) & 1u32 == 1u32,
    ensures
        m != 0u32,
{
}

/// A zero-padded copy of up to 16 bytes starting at `off`: the explicit
/// length clamping that keeps fixed-width window loads inside the buffer.
pub(crate) fn window16(b: &[u8], off: usize) -> (v: Vec<u8>)
    requires
        off <= b@.len(),
        off <= usize::MAX - 16,
    ensures
        v@.len() == 16,
        forall|i: int|
            0 <= i < 16 ==> v@[i] == (if off + i < b@.len() {
                b@[off + i]
            } else {
                0u8
            }),
{
    let mut v: Vec<u8> = Vec::new();
    let mut i: usize = 0;
    while i < 16
        invariant
            off <= b@.len(),
            off <= usize::MAX - 16,
            i <= 16,
            v@.len() == i,
            forall|j: int|
                0 <= j < i ==> v@[j] == (if off + j < b@.len() {
                    b@[off + j]
                } else {
                    0u8
                }),
        decreases 16 - i,
    {
        if off + i < b.len() {
            v.push(b[off + i]);
        } else {
            v.push(0);
        }
        i = i + 1;
    }
    v
}

/// Decide whether the record on the line beginning at `start` covers the
/// address `n`, and hand back a borrowed slice of its label when it does.
///
/// The two field delimiters are located with one equality-mask probe over a
/// fixed window that begins just past the minimum digit span; the bounds
/// are decoded with the fast decimal codec; both bounds are always checked.
fn value<'a>(b: &'a [u8], start: usize, end: usize, n: u32) -> (r: Option<&'a [u8]>)
    requires
        wf_line_at(b@, start as int),
        end == line_end(b@, start as int),
        end <= usize::MAX - 32,
    ensures
        r is Some <==> min_of(b@, start as int) <= n <= max_of(b@, start as int),
        r is Some ==> r.unwrap()@ == label_of(b@, start as int),
{
    let ghost s = b@;
    let ghost c1 = comma1(s, start as int);
    let ghost c2 = comma2(s, start as int);
    proof {
        lemma_first_nl_bounds(s, start as int);
        lemma_first_comma_bounds(s, start as int);
        lemma_first_comma_bounds(s, c1 + 1);
        assert(forall|j: int|
            start <= j < c1 ==> s[j] == min_digits(s, start as int)[j - start]);
        assert(forall|j: int|
            c1 + 1 <= j < c2 ==> s[j] == max_digits(s, start as int)[j - c1 - 1]);
    }
    let w = window16(b, start + 6);
    let commas = repeat_byte(44, 16);
    let m = mask_128(w.as_slice(), commas.as_slice());
    let f = m.trailing_zeros();
    proof {
        assert((m >> ((c1 - start - 6) as u32)) & 1u32 == 1u32);
        lemma_set_bit_nonzero(m, (c1 - start - 6) as u32);
        axiom_u32_trailing_zeros(m);
        assert(f <= c1 - start - 6);
        if f < c1 - start - 6 {
            assert((m >> f) & 1u32 == 1u32);
            assert(s[start + 6 + f] != 44);
            assert(false);
        }
    }
    let first: usize = 6 + f as usize;
    let m2 = m >> (f + 1);
    let t2 = m2.trailing_zeros();
    proof {
        assert forall|j: u32| j < 15 && f + 1 + j < 16 implies ((m2 >> j) & 1u32) == ((m >> ((f + 1
            + j) as u32)) & 1u32) by {
            lemma_shift_shift(m, (f + 1) as u32, j);
        }
        assert((m2 >> ((c2 - c1 - 1) as u32)) & 1u32 == 1u32) by {
            assert((m >> ((c2 - start - 6) as u32)) & 1u32 == 1u32);
        }
        lemma_set_bit_nonzero(m2, (c2 - c1 - 1) as u32);
        axiom_u32_trailing_zeros(m2);
        assert(t2 <= c2 - c1 - 1);
        if t2 < c2 - c1 - 1 {
            assert((m2 >> t2) & 1u32 == 1u32);
            assert(((m >> ((f + 1 + t2) as u32)) & 1u32) == 1u32);
            assert(s[c1 + 1 + t2] != 44);
            assert(false);
        }
    }
    let second: usize = first + 1 + t2 as usize;
    proof {
        assert(start + first == c1);
        assert(start + second == c2);
        assert(s.subrange(start as int, (start + first) as int) == min_digits(s, start as int));
        assert(s.subrange((start + first + 1) as int, (start + second) as int) == max_digits(
            s,
            start as int,
        ));
    }
    let min = into_num(slice_subrange(b, start, start + first));
    let max = into_num(slice_subrange(b, start + first + 1, start + second));
    // do not reorder: both bounds are always checked
    if n > max || min > n {
        None
    } else {
        Some(slice_subrange(b, start + second + 1, end))
    }
}

/// What every scan of the region `[lo, hi)` returns for `ip`: a result
/// exactly when some record of the region covers the address, and then a
/// borrowed copy of a covering record's label.
pub open spec fn scan_post(s: Seq<u8>, lo: int, hi: int, ip: u32, r: Option<Seq<u8>>) -> bool {
    &&& (r is Some <==> exists|q: int| lo <= q < hi && #[trigger] covers(s, q, ip))
    &&& (r is Some ==> exists|q: int|
        lo <= q < hi && #[trigger] covers(s, q, ip) && r.unwrap() == label_of(s, q))
}

/// The view of an optional borrowed label.
pub open spec fn opt_view(r: Option<&[u8]>) -> Option<Seq<u8>> {
    match r {
        Some(l) => Some(l@),
        None => None,
    }
}

/// Decode every line of the region `[lo, hi)` and return the first covering
/// record's label: the exhaustive pass that makes the lookup exact.
fn scan_all<'a>(b: &'a [u8], lo: usize, hi: usize, n: u32) -> (r: Option<&'a [u8]>)
    requires
        wf_between(b@, lo as int, hi as int),
        lo == 0 || b@[lo as int - 1] == 10,
        hi <= usize::MAX - 32,
    ensures
        scan_post(b@, lo as int, hi as int, n, opt_view(r)),
{
    let ghost s = b@;
    let mut pos = lo;
    while pos < hi
        invariant
            s == b@,
            wf_between(s, pos as int, hi as int),
            lo <= pos <= hi,
            hi <= s.len(),
            hi <= usize::MAX - 32,
            lo == 0 || s[lo as int - 1] == 10,
            pos == lo || s[pos as int - 1] == 10,
            forall|q: int| lo <= q < pos ==> !(#[trigger] covers(s, q, n)),
        decreases hi - pos,
    {
        proof {
            assert(wf_line_at(s, pos as int));
            lemma_find_nl_line(s, pos as int, hi as int);
            lemma_first_nl_bounds(s, pos as int);
        }
        let nl = find_nl_at(b, pos, hi);
        let v = value(b, pos, nl, n);
        if v.is_some() {
            proof {
                assert(line_start_at(s, pos as int));
                assert(covers(s, pos as int, n));
                assert(opt_view(v).unwrap() == label_of(s, pos as int));
            }
            return v;
        }
        proof {
            assert(forall|q: int| pos < q < nl + 1 ==> !line_start_at(s, q));
            assert forall|q: int| lo <= q < nl + 1 implies !(#[trigger] covers(s, q, n)) by {
                if q == pos {
                    assert(!(min_of(s, pos as int) <= n <= max_of(s, pos as int)));
                } else if q > pos {
                    assert(!line_start_at(s, q));
                }
            }
        }
        pos = nl + 1;
    }
    None
}

/// Scan the region `[lo, hi)` of `b` line by line for a record covering
/// `n`, with `ip_buf` holding the 16-byte decimal probe window for `n`.
///
/// A first pass decodes only the lines that the textual-prefix heuristic
/// trusts: the equality mask of each line's first 16 bytes against the
/// probe window, compared to the best mask seen so far.  The heuristic is
/// a pure acceleration: when the gated pass reports nothing, an exhaustive
/// pass decodes every line, so a covering record is never missed.
pub fn lookup_ipv4_num<'a>(b: &'a [u8], lo: usize, hi: usize, n: u32, ip_buf: &[u8]) -> (r: Option<
    &'a [u8],
>)
    requires
        wf_between(b@, lo as int, hi as int),
        lo == 0 || b@[lo as int - 1] == 10,
        ip_buf@ == ip_buf_spec(n),
        hi <= usize::MAX - 32,
    ensures
        scan_post(b@, lo as int, hi as int, n, opt_view(r)),
{
    let ghost s = b@;
    proof {
        crate::codec::lemma_dec_digits_props(n as nat);
        crate::codec::lemma_dec_digits_len(n as nat);
    }
    let mut pos = lo;
    let mut best_mask: u32 = 0;
    while pos < hi
        invariant
            s == b@,
            wf_between(s, pos as int, hi as int),
            lo <= pos <= hi,
            hi <= s.len(),
            hi <= usize::MAX - 32,
            lo == 0 || s[lo as int - 1] == 10,
            pos == lo || s[pos as int - 1] == 10,
            ip_buf@.len() == 16,
        decreases hi - pos,
    {
        proof {
            assert(wf_line_at(s, pos as int));
            lemma_find_nl_line(s, pos as int, hi as int);
            lemma_first_nl_bounds(s, pos as int);
        }
        let nl = find_nl_at(b, pos, hi);
        let m = mask_128(slice_subrange(b, pos, pos + 16), ip_buf);
        if m.trailing_zeros() <= best_mask.trailing_zeros() {
            best_mask = m;
            let v = value(b, pos, nl, n);
            if v.is_some() {
                proof {
                    assert(line_start_at(s, pos as int));
                    assert(covers(s, pos as int, n));
                    assert(opt_view(v).unwrap() == label_of(s, pos as int));
                }
                return v;
            }
        }
        pos = nl + 1;
    }
    scan_all(b, lo, hi, n)
}

/// Look up the label of the record covering `ip` in the whole buffer `b`.
///
/// The precondition asks for a well-formed table: `min,max,label` lines of
/// 16 to 24 bytes before each terminator (see the crate-level notes on
/// longer lines).  On such tables the result is exact: a label comes back
/// exactly when some record covers `ip`.
pub fn lookup_ipv4<'a>(b: &'a [u8], ip: u32) -> (r: Option<&'a [u8]>)
    requires
        wf_between(b@, 0, b@.len() as int),
        b@.len() <= usize::MAX - 32,
    ensures
        scan_post(b@, 0, b@.len() as int, ip, opt_view(r)),
{
    let ip_buf = format_ip_comma(ip);
    lookup_ipv4_num(b, 0, b.len(), ip, ip_buf.as_slice())
}

} // verus!
