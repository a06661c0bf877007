//! The partitioned scan behind the parallel orchestrator, and the windowed
//! estimator fast path.
//!
//! `parallel` computes exactly what the concurrent fan-out observes: the
//! partitions of the chunk partitioner, each scanned by the sequential
//! scanner, first positive result wins.  The thread-per-partition shell
//! around it performs no logic of its own, so its result is pinned by the
//! same postcondition.  `guess` estimates a byte offset from the address's
//! leading octet, scans a bounded window around it, and falls back to a
//! full scan, sacrificing no correctness.
use crate::chunk::chunks;
use crate::chunk::chunks_post;
use crate::codec::format_ip_comma;
use crate::codec::ip_buf_spec;
use crate::scan::find_nl_at;
use crate::scan::lookup_ipv4_num;
use crate::scan::opt_view;
use crate::scan::scan_post;
use crate::table::covers;
use crate::table::label_of;
use crate::table::lemma_first_nl_bounds;
use crate::table::lemma_wf_last_nl;
use crate::table::lemma_wf_split;
use crate::table::wf_between;
use vstd::prelude::*;

verus! {

/// Scan every partition of `b` in order, returning the first positive
/// result; the disjoint-range invariant of the table makes this the same
/// answer in any completion order.  The precondition asks for a well-formed
/// table of 16-to-24-byte lines, as for every lookup entry point; the
/// result is exact on such tables.
pub fn parallel<'a>(b: &'a [u8], ip: u32, workers: usize) -> (r: Option<&'a [u8]>)
    requires
        workers >= 1,
        wf_between(b@, 0, b@.len() as int),
        b@.len() <= usize::MAX / 4,
    ensures
        scan_post(b@, 0, b@.len() as int, ip, opt_view(r)),
{
    let ghost s = b@;
    let len = b.len();
    let ip_buf = format_ip_comma(ip);
    let rs = chunks(b, workers);
    let mut k: usize = 0;
    while k < workers
        invariant
            s == b@,
            len == s.len(),
            len <= usize::MAX / 4,
            workers >= 1,
            k <= workers,
            rs@.len() == workers,
            chunks_post(s, workers as int, rs@),
            wf_between(s, 0, len as int),
            ip_buf@ == ip_buf_spec(ip),
            forall|q: int|
                0 <= q < (if k == 0 {
                    0int
                } else {
                    rs@[k - 1].1 as int
                }) ==> !(#[trigger] covers(s, q, ip)),
        decreases workers - k,
    {
        let lo = rs[k].0;
        let hi = rs[k].1;
        proof {
            assert(rs@[k as int].0 <= rs@[k as int].1 <= len);
            if lo > 0 {
                if lo == len {
                    lemma_wf_last_nl(s, 0, len as int);
                }
                lemma_wf_split(s, 0, lo as int, len as int);
            }
            if hi < len {
                lemma_wf_split(s, lo as int, hi as int, len as int);
            }
            if lo > 0 && lo == len {
                assert(s[lo - 1] == 10);
            }
        }
        let v = lookup_ipv4_num(b, lo, hi, ip, ip_buf.as_slice());
        if v.is_some() {
            proof {
                let q = choose|q: int|
                    lo <= q < hi && #[trigger] covers(s, q, ip) && opt_view(v).unwrap()
                        == label_of(s, q);
                assert(0 <= q < len && covers(s, q, ip) && opt_view(v).unwrap() == label_of(s, q));
            }
            return v;
        }
        proof {
            assert forall|q: int| 0 <= q < rs@[k as int].1 implies !(#[trigger] covers(
                s,
                q,
                ip,
            )) by {
                if q < rs@[k as int].0 {
                    if k >= 1 {
                        assert((rs@[k as int]).0 == rs@[k - 1].1);
                    }
                } else {
                    if covers(s, q, ip) {
                        assert(lo <= q < hi && covers(s, q, ip));
                        assert(opt_view(v) is Some);
                        assert(false);
                    }
                }
            }
        }
        k = k + 1;
    }
    proof {
        assert(rs@[workers - 1].1 == len);
        if exists|q: int| 0 <= q < len && #[trigger] covers(s, q, ip) {
            let q = choose|q: int| 0 <= q < len && #[trigger] covers(s, q, ip);
            assert(false);
        }
    }
    None
}

/// Look up `ip` by first scanning a bounded window around an offset
/// estimated from the address's leading octet, then falling back to a full
/// sequential scan when the window holds no covering record.  The
/// precondition asks for a well-formed table of 16-to-24-byte lines, as
/// for every lookup entry point; the result is exact on such tables.
pub fn guess<'a>(b: &'a [u8], ip: u32) -> (r: Option<&'a [u8]>)
    requires
        wf_between(b@, 0, b@.len() as int),
        b@.len() <= usize::MAX / 4,
    ensures
        scan_post(b@, 0, b@.len() as int, ip, opt_view(r)),
{
    let ghost s = b@;
    let len = b.len();
    let ip_buf = format_ip_comma(ip);
    if len == 0 {
        return None;
    }
    let margin: usize = 1024 * 1024;
    let size = len / 223;
    proof {
        vstd::arithmetic::div_mod::lemma_fundamental_div_mod(len as int, 223);
        assert((len as int % 223) >= 0 && (len as int % 223) < 223) by (nonlinear_arith)
            requires
                len >= 0,
        ;
        assert(255 * (size as int) <= 2 * len) by (nonlinear_arith)
            requires
                223 * (size as int) <= len,
                size >= 0,
        ;
    }
    proof {
        assert((ip >> 24) < 256u32) by (bit_vector);
        assert((ip >> 24) as usize * size <= 255 * size) by (nonlinear_arith)
            requires
                (ip >> 24) as usize <= 255,
                size >= 0,
        ;
    }
    let off = ((ip >> 24) as usize) * size;
    let mut head: usize = 0;
    if off > margin {
        let h0 = off - margin;
        if h0 < len {
            let nl = find_nl_at(b, h0, len);
            proof {
                lemma_first_nl_bounds(s, h0 as int + 9);
                assert(nl == len - 1 || s[nl as int] == 10);
            }
            head = nl + 1;
        } else {
            head = len;
        }
    }
    let t0 = off + margin;
    let mut tail_hi: usize = len;
    if t0 < len {
        let nl = find_nl_at(b, t0, len);
        proof {
            lemma_first_nl_bounds(s, t0 as int + 9);
            assert(nl == len - 1 || s[nl as int] == 10);
        }
        tail_hi = nl + 1;
    }
    proof {
        lemma_wf_last_nl(s, 0, len as int);
    }
    if head < tail_hi {
        proof {
            if head > 0 {
                lemma_wf_split(s, 0, head as int, len as int);
            }
            if tail_hi < len {
                lemma_wf_split(s, head as int, tail_hi as int, len as int);
            }
        }
        let v = lookup_ipv4_num(b, head, tail_hi, ip, ip_buf.as_slice());
        if v.is_some() {
            proof {
                let q = choose|q: int|
                    head <= q < tail_hi && #[trigger] covers(s, q, ip) && opt_view(v).unwrap()
                        == label_of(s, q);
                assert(0 <= q < len && covers(s, q, ip) && opt_view(v).unwrap() == label_of(s, q));
            }
            return v;
        }
    }
    lookup_ipv4_num(b, 0, len, ip, ip_buf.as_slice())
}

} // verus!
