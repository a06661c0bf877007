//! Laws of the lookup engine, proved from the entry points' contracts
//! alone: every lookup path — the sequential scanner, the partitioned scan
//! behind the parallel orchestrator, and the windowed estimator — ensures
//! the same postcondition `scan_post`, which pins a positive result exactly
//! to the covered addresses, so everything shown here of one result holds
//! of any path and of any repetition.
use crate::scan::scan_post;
use crate::table::covered;
use crate::table::covers;
use crate::table::disjoint_ranges;
use crate::table::label_of;
use crate::table::lemma_wf_at_boundary;
use crate::table::line_start_at;
use crate::table::max_of;
use crate::table::min_digits;
use crate::table::min_of;
use crate::table::wf_between;
use crate::table::wf_line_at;
use vstd::prelude::*;

verus! {

/// An address covered by no record is answered "not found" by every lookup
/// path: a positive result always names a covering record, so none can be
/// produced.
pub proof fn lemma_uncovered_not_found(s: Seq<u8>, ip: u32, r: Option<Seq<u8>>)
    requires
        scan_post(s, 0, s.len() as int, ip, r),
        !covered(s, ip),
    ensures
        r is None,
{
    if r is Some {
        let q = choose|q: int|
            0 <= q < s.len() && #[trigger] covers(s, q, ip) && r.unwrap() == label_of(s, q);
        assert(covered(s, ip));
    }
}

/// Lookups are deterministic and path-independent: two results of any
/// lookup entry points — the same one twice, or two different paths with
/// any worker counts — agree, provided the table's ranges are disjoint (so
/// that only one label can ever be the answer).
pub proof fn lemma_lookup_deterministic(
    s: Seq<u8>,
    ip: u32,
    r1: Option<Seq<u8>>,
    r2: Option<Seq<u8>>,
)
    requires
        scan_post(s, 0, s.len() as int, ip, r1),
        scan_post(s, 0, s.len() as int, ip, r2),
        disjoint_ranges(s),
    ensures
        r1 == r2,
{
    if covered(s, ip) {
        let q0 = choose|q: int| #[trigger] covers(s, q, ip);
        assert(0 <= q0 < s.len() && covers(s, q0, ip));
        assert(r1 is Some && r2 is Some);
        let q1 = choose|q: int|
            0 <= q < s.len() && #[trigger] covers(s, q, ip) && r1.unwrap() == label_of(s, q);
        let q2 = choose|q: int|
            0 <= q < s.len() && #[trigger] covers(s, q, ip) && r2.unwrap() == label_of(s, q);
        assert(q1 == q2) by {
            if q1 != q2 {
                assert(max_of(s, q1) < min_of(s, q2) || max_of(s, q2) < min_of(s, q1));
            }
        }
        assert(r1.unwrap() == r2.unwrap());
    } else {
        lemma_uncovered_not_found(s, ip, r1);
        lemma_uncovered_not_found(s, ip, r2);
    }
}

/// Boundary inclusivity, lower end: a lookup for exactly a record's `min`
/// reports a covering record, and under disjoint ranges it reports exactly
/// that record's label.
pub proof fn lemma_boundary_min(s: Seq<u8>, q: int, r: Option<Seq<u8>>)
    requires
        wf_between(s, 0, s.len() as int),
        line_start_at(s, q),
        scan_post(s, 0, s.len() as int, (min_of(s, q) as u32), r),
    ensures
        r is Some,
        disjoint_ranges(s) ==> r == Some(label_of(s, q)),
{
    lemma_wf_at_boundary(s, 0, q, s.len() as int);
    assert(wf_line_at(s, q));
    crate::codec::lemma_dec_val_bounds(min_digits(s, q));
    crate::codec::lemma_dec_val_bounds(crate::table::max_digits(s, q));
    let ip = min_of(s, q) as u32;
    assert(covers(s, q, ip));
    assert(r is Some);
    if disjoint_ranges(s) {
        let q1 = choose|p: int|
            0 <= p < s.len() && #[trigger] covers(s, p, ip) && r.unwrap() == label_of(s, p);
        assert(q1 == q) by {
            if q1 != q {
                assert(max_of(s, q1) < min_of(s, q) || max_of(s, q) < min_of(s, q1));
            }
        }
        assert(r == Some(label_of(s, q)));
    }
}

/// Boundary inclusivity, upper end: a lookup for exactly a record's `max`
/// reports a covering record, and under disjoint ranges it reports exactly
/// that record's label.
pub proof fn lemma_boundary_max(s: Seq<u8>, q: int, r: Option<Seq<u8>>)
    requires
        wf_between(s, 0, s.len() as int),
        line_start_at(s, q),
        scan_post(s, 0, s.len() as int, (max_of(s, q) as u32), r),
    ensures
        r is Some,
        disjoint_ranges(s) ==> r == Some(label_of(s, q)),
{
    lemma_wf_at_boundary(s, 0, q, s.len() as int);
    assert(wf_line_at(s, q));
    crate::codec::lemma_dec_val_bounds(min_digits(s, q));
    crate::codec::lemma_dec_val_bounds(crate::table::max_digits(s, q));
    let ip = max_of(s, q) as u32;
    assert(covers(s, q, ip));
    assert(r is Some);
    if disjoint_ranges(s) {
        let q1 = choose|p: int|
            0 <= p < s.len() && #[trigger] covers(s, p, ip) && r.unwrap() == label_of(s, p);
        assert(q1 == q) by {
            if q1 != q {
                assert(max_of(s, q1) < min_of(s, q) || max_of(s, q) < min_of(s, q1));
            }
        }
        assert(r == Some(label_of(s, q)));
    }
}

/// The partitions cover the buffer: every byte position falls inside some
/// chunk.  Together with the partitioner's own postcondition — ranges
/// start at zero, end at the buffer's end, each begins exactly where the
/// previous one ends (no gap, no overlap), and every boundary sits just
/// after a newline — this is partition correctness.
pub proof fn lemma_chunks_cover(s: Seq<u8>, workers: int, rs: Seq<(usize, usize)>, p: int)
    requires
        crate::chunk::chunks_post(s, workers, rs),
        workers >= 1,
        0 <= p < s.len(),
    ensures
        exists|i: int| 0 <= i < workers && (#[trigger] rs[i]).0 <= p < rs[i].1,
{
    lemma_chunks_cover_upto(s, workers, rs, p, workers - 1);
}

/// Helper for chunk coverage: any position below the end of chunk `j` lies
/// in some chunk with index at most `j`.
proof fn lemma_chunks_cover_upto(s: Seq<u8>, workers: int, rs: Seq<(usize, usize)>, p: int, j: int)
    requires
        crate::chunk::chunks_post(s, workers, rs),
        0 <= j < workers,
        0 <= p < rs[j].1,
    ensures
        exists|i: int| 0 <= i <= j && (#[trigger] rs[i]).0 <= p < rs[i].1,
    decreases j,
{
    if p >= rs[j].0 {
        assert(0 <= j <= j && (rs[j]).0 <= p < rs[j].1);
    } else {
        assert(j >= 1) by {
            if j == 0 {
                assert(rs[0].0 == 0);
            }
        }
        assert((rs[j]).0 == rs[j - 1].1);
        lemma_chunks_cover_upto(s, workers, rs, p, j - 1);
        let i0 = choose|i: int| 0 <= i <= j - 1 && (#[trigger] rs[i]).0 <= p < rs[i].1;
        assert(0 <= i0 <= j && (rs[i0]).0 <= p < rs[i0].1);
    }
}

} // verus!
