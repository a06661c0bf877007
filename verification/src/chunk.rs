//! The chunk partitioner: split a buffer into per-worker byte ranges whose
//! boundaries always fall just after a line terminator, never inside a
//! record.
use crate::scan::find_nl_at;
use crate::scan::lemma_probe_limit;
use crate::scan::probe_limit;
use crate::table::first_nl_from;
use crate::table::lemma_first_nl_bounds;
use crate::table::lemma_wf_nl_near;
use crate::table::wf_between;
use vstd::prelude::*;

verus! {

/// The ranges `rs` partition `b` into `workers` pieces for concurrent
/// scanning: they start at zero, end at the buffer's end, each begins
/// exactly where the one before it ends (so they are pairwise disjoint and
/// leave no gap; once the buffer is exhausted the remaining pieces are
/// empty), and every boundary is the buffer's edge or sits just after a
/// newline.  The pieces are of roughly equal size: none starts before its
/// even share, and — on a well-formed table — none extends more than one
/// probe span past it, except a final piece absorbing a remainder smaller
/// than one further cut.
pub open spec fn chunks_post(s: Seq<u8>, workers: int, rs: Seq<(usize, usize)>) -> bool {
    let size = s.len() as int / workers;
    &&& rs.len() == workers
    &&& rs[0].0 == 0
    &&& rs[workers - 1].1 == s.len()
    &&& forall|i: int| 0 <= i < workers ==> #[trigger] rs[i].0 <= rs[i].1 <= s.len()
    &&& forall|i: int| 1 <= i < workers ==> (#[trigger] rs[i]).0 == rs[i - 1].1
    &&& forall|i: int|
        0 <= i < workers ==> (#[trigger] rs[i].0 == 0 || rs[i].0 == s.len() || s[rs[i].0 - 1]
            == 10)
    &&& forall|i: int|
        0 <= i < workers ==> (#[trigger] rs[i].1 == s.len() || s[rs[i].1 - 1] == 10)
    &&& forall|i: int| 0 <= i < workers ==> (#[trigger] rs[i]).0 >= i * size
    &&& (wf_between(s, 0, s.len() as int) ==> forall|i: int|
        0 <= i < workers ==> (#[trigger] rs[i]).1 <= rs[i].0 + size + 56 || (rs[i].1 == s.len()
            && s.len() <= rs[i].0 + 2 * size + 1))
}

/// Split `b` into `workers` contiguous ranges of roughly equal size, each
/// boundary slid forward to the next line terminator; the last nonempty
/// range absorbs the remainder, and any pieces past the buffer's end are
/// empty.
#[verifier::rlimit(60)]
pub fn chunks(b: &[u8], workers: usize) -> (rs: Vec<(usize, usize)>)
    requires
        workers >= 1,
        b@.len() <= usize::MAX / 4,
    ensures
        chunks_post(b@, workers as int, rs@),
{
    let ghost s = b@;
    let len = b.len();
    let size = len / workers;
    proof {
        vstd::arithmetic::div_mod::lemma_fundamental_div_mod(len as int, workers as int);
        assert((len as int % workers as int) >= 0 && (len as int % workers as int) < (
        workers as int)) by (nonlinear_arith)
            requires
                workers >= 1,
                len >= 0,
        ;
        assert(size * workers <= len) by (nonlinear_arith)
            requires
                len as int == workers as int * size as int + len as int % workers as int,
                len as int % workers as int >= 0,
        ;
    }
    let mut rs: Vec<(usize, usize)> = Vec::new();
    let mut start: usize = 0;
    let mut k: usize = 0;
    while k < workers
        invariant
            s == b@,
            len == s.len(),
            len <= usize::MAX / 4,
            size == len / workers,
            size * workers <= len,
            workers >= 1,
            k <= workers,
            rs@.len() == k,
            start <= len,
            k == 0 ==> start == 0,
            start == 0 || start == len || s[start - 1] == 10,
            k >= 1 ==> rs@[k - 1].1 == start,
            start >= k * (size + 1) || start == len,
            k >= 1 ==> rs@[0].0 == 0,
            forall|i: int| 0 <= i < k ==> #[trigger] rs@[i].0 <= rs@[i].1 <= len,
            forall|i: int| 1 <= i < k ==> (#[trigger] rs@[i]).0 == rs@[i - 1].1,
            forall|i: int|
                0 <= i < k ==> (#[trigger] rs@[i].0 == 0 || rs@[i].0 == len || s[rs@[i].0 - 1]
                    == 10),
            forall|i: int| 0 <= i < k ==> (#[trigger] rs@[i].1 == len || s[rs@[i].1 - 1] == 10),
            forall|i: int| 0 <= i < k ==> (#[trigger] rs@[i]).0 >= i * size,
            wf_between(s, 0, len as int) ==> forall|i: int|
                0 <= i < k ==> (#[trigger] rs@[i]).1 <= rs@[i].0 + size + 56 || (rs@[i].1 == len
                    && len <= rs@[i].0 + 2 * size + 1),
        decreases workers - k,
    {
        let ghost start0 = start;
        let end = start + size;
        let mut pushed = false;
        proof {
            assert(k * size <= k * (size + 1)) by (nonlinear_arith)
                requires
                    k >= 0,
                    size >= 0,
            ;
            assert(k as int * size as int <= workers as int * size as int) by (nonlinear_arith)
                requires
                    k <= workers,
                    size >= 0,
            ;
            assert(workers as int * size as int == size as int * workers as int)
                by (nonlinear_arith);
            assert(start0 >= k * size);
        }
        if end + size < len {
            let nl = find_nl_at(b, end, len);
            proof {
                lemma_first_nl_bounds(s, end as int + 9);
                assert(nl == len - 1 || s[nl as int] == 10);
            }
            if nl > end {
                rs.push((start, nl + 1));
                start = nl + 1;
                pushed = true;
                proof {
                    assert((k + 1) * (size + 1) == k * (size + 1) + (size + 1))
                        by (nonlinear_arith);
                    assert(start0 != len);
                    assert(start >= (k + 1) * (size + 1));
                    if wf_between(s, 0, len as int) {
                        let f = first_nl_from(s, end as int + 9);
                        if end as int + 9 <= f && f < end as int + probe_limit(
                            len as int - end as int,
                        ) {
                            assert(nl == f);
                            if len - end >= 25 {
                                lemma_probe_limit(len as int - end as int);
                            }
                            assert(end + 9 < len);
                            lemma_wf_nl_near(s, 0, len as int, end as int + 9);
                            assert(nl + 1 <= start0 + size + 34);
                        } else {
                            assert(nl == len - 1);
                            if end + 9 < len {
                                lemma_wf_nl_near(s, 0, len as int, end as int + 9);
                                assert(f <= end + 33);
                                assert(f >= end as int + probe_limit(len as int - end as int));
                                if len - end >= 57 {
                                    assert((len as int - end - 25) / 32 >= 1) by (nonlinear_arith)
                                        requires
                                            len as int - end >= 57,
                                    ;
                                    assert(false);
                                }
                            }
                            assert(len <= end + 56);
                        }
                    }
                }
            } else {
                proof {
                    assert(nl == end);
                    assert(end == len - 1);
                }
            }
        }
        if !pushed {
            rs.push((start, len));
            proof {
                assert(len <= start + 2 * size + 1);
            }
            start = len;
        }
        k = k + 1;
    }
    proof {
        if rs@[workers - 1].1 != len {
            assert(start >= workers * (size + 1));
            assert(workers * (size + 1) == workers * size + workers) by (nonlinear_arith);
            assert(workers as int * size as int + workers as int > len) by (nonlinear_arith)
                requires
                    len as int == workers as int * size as int + len as int % workers as int,
                    (len as int % workers as int) < (workers as int),
            ;
            assert(false);
        }
    }
    rs
}

} // verus!
