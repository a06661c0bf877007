//! The range-table model: what it means for a byte buffer to hold a
//! well-formed sequence of `min,max,label` lines, and which record covers a
//! queried address.
//!
//! Every spec here is phrased over the full buffer and absolute byte
//! positions; a window `[lo, hi)` of the buffer is described by the same
//! predicates with explicit bounds, which is exactly how the scanners see
//! the data.
use crate::codec::all_digits;
use crate::codec::dec_val;
use vstd::prelude::*;

verus! {

/// The least index at or after `from` holding a newline, or `s.len()`.
pub open spec fn first_nl_from(s: Seq<u8>, from: int) -> int
    decreases s.len() - from,
{
    if !(0 <= from < s.len()) {
        s.len() as int
    } else if s[from] == 10 {
        from
    } else {
        first_nl_from(s, from + 1)
    }
}

/// The least index at or after `from` holding a comma, or `s.len()`.
pub open spec fn first_comma_from(s: Seq<u8>, from: int) -> int
    decreases s.len() - from,
{
    if !(0 <= from < s.len()) {
        s.len() as int
    } else if s[from] == 44 {
        from
    } else {
        first_comma_from(s, from + 1)
    }
}

/// The terminator position of the line beginning at `start`.
pub open spec fn line_end(s: Seq<u8>, start: int) -> int {
    first_nl_from(s, start)
}

/// The first field delimiter of the line beginning at `start`.
pub open spec fn comma1(s: Seq<u8>, start: int) -> int {
    first_comma_from(s, start)
}

/// The second field delimiter of the line beginning at `start`.
pub open spec fn comma2(s: Seq<u8>, start: int) -> int {
    first_comma_from(s, comma1(s, start) + 1)
}

/// The digits of the range's lower bound.
pub open spec fn min_digits(s: Seq<u8>, start: int) -> Seq<u8> {
    s.subrange(start, comma1(s, start))
}

/// The digits of the range's upper bound.
pub open spec fn max_digits(s: Seq<u8>, start: int) -> Seq<u8> {
    s.subrange(comma1(s, start) + 1, comma2(s, start))
}

/// The lower bound of the record beginning at `start`.
pub open spec fn min_of(s: Seq<u8>, start: int) -> int {
    dec_val(min_digits(s, start))
}

/// The upper bound of the record beginning at `start`.
pub open spec fn max_of(s: Seq<u8>, start: int) -> int {
    dec_val(max_digits(s, start))
}

/// The label payload of the record beginning at `start`: everything after
/// the second delimiter, up to the terminator.
pub open spec fn label_of(s: Seq<u8>, start: int) -> Seq<u8> {
    s.subrange(comma2(s, start) + 1, line_end(s, start))
}

/// Byte `i` begins a line: the buffer's start, or the byte just after a
/// newline.
pub open spec fn line_start_at(s: Seq<u8>, i: int) -> bool {
    0 <= i < s.len() && (i == 0 || s[i - 1] == 10)
}

/// Structural well-formedness of one line beginning at `start`:
/// `min,max,label` followed by a newline, where `min` has six to ten digits,
/// `max` has one to ten, neither has a leading zero, both fit in 32 bits,
/// and the whole line spans 16 to 24 bytes before its terminator.  The
/// length window is what lets the fixed-width vector probes of the line
/// scanner find every terminator.
pub open spec fn wf_line_at(s: Seq<u8>, start: int) -> bool {
    let end = line_end(s, start);
    let c1 = comma1(s, start);
    let c2 = comma2(s, start);
    &&& 0 <= start
    &&& end < s.len()
    &&& 16 <= end - start <= 24
    &&& start + 6 <= c1 <= start + 10
    &&& 1 <= c2 - c1 - 1 <= 10
    &&& c2 < end
    &&& all_digits(min_digits(s, start))
    &&& min_digits(s, start)[0] != 48
    &&& all_digits(max_digits(s, start))
    &&& max_digits(s, start)[0] != 48
    &&& dec_val(min_digits(s, start)) <= dec_val(max_digits(s, start))
    &&& dec_val(min_digits(s, start)) <= 0xFFFF_FFFF
    &&& dec_val(max_digits(s, start)) <= 0xFFFF_FFFF
}

/// The bytes of `[start, hi)` are a gapless sequence of well-formed lines.
pub open spec fn wf_between(s: Seq<u8>, start: int, hi: int) -> bool
    decreases hi - start,
{
    if !(0 <= start <= hi <= s.len()) {
        false
    } else if start == hi {
        true
    } else {
        &&& wf_line_at(s, start)
        &&& line_end(s, start) < hi
        &&& wf_between(s, line_end(s, start) + 1, hi)
    }
}

/// The record beginning at `start` covers the address `ip`.
pub open spec fn covers(s: Seq<u8>, start: int, ip: u32) -> bool {
    line_start_at(s, start) && min_of(s, start) <= ip <= max_of(s, start)
}

/// Some record of the buffer covers the address `ip`.
pub open spec fn covered(s: Seq<u8>, ip: u32) -> bool {
    exists|q: int| covers(s, q, ip)
}

/// No two distinct records' ranges intersect.
pub open spec fn disjoint_ranges(s: Seq<u8>) -> bool {
    forall|i: int, j: int|
        #![trigger line_start_at(s, i), line_start_at(s, j)]
        line_start_at(s, i) && line_start_at(s, j) && i != j ==> max_of(s, i) < min_of(s, j)
            || max_of(s, j) < min_of(s, i)
}

/// A search that starts later but before the found position finds the same
/// newline.
pub proof fn lemma_first_nl_shift(s: Seq<u8>, a: int, b: int)
    requires
        0 <= a <= b,
        b <= first_nl_from(s, a),
    ensures
        first_nl_from(s, b) == first_nl_from(s, a),
    decreases b - a,
{
    if a < b {
        if a < s.len() {
            assert(first_nl_from(s, a) != a);
            assert(s[a] != 10);
            lemma_first_nl_shift(s, a + 1, b);
        } else {
            assert(first_nl_from(s, a) == s.len());
        }
    }
}

/// The found newline really is one, lies at or after `from`, and nothing
/// before it (from `from` on) is a newline.
pub proof fn lemma_first_nl_bounds(s: Seq<u8>, from: int)
    requires
        0 <= from,
    ensures
        from <= first_nl_from(s, from) || first_nl_from(s, from) == s.len(),
        first_nl_from(s, from) <= s.len(),
        first_nl_from(s, from) < s.len() ==> s[first_nl_from(s, from)] == 10,
        forall|j: int| from <= j < first_nl_from(s, from) && 0 <= j ==> s[j] != 10,
    decreases s.len() - from,
{
    if 0 <= from < s.len() && s[from] != 10 {
        lemma_first_nl_bounds(s, from + 1);
    }
}

/// A position holding a newline with none before it (from `from` on) is
/// what the search finds.
pub proof fn lemma_first_nl_is(s: Seq<u8>, from: int, q: int)
    requires
        0 <= from <= q < s.len(),
        s[q] == 10,
        forall|j: int| from <= j < q ==> s[j] != 10,
    ensures
        first_nl_from(s, from) == q,
    decreases q - from,
{
    if from < q {
        lemma_first_nl_is(s, from + 1, q);
    }
}

/// The same facts for the comma search.
pub proof fn lemma_first_comma_bounds(s: Seq<u8>, from: int)
    requires
        0 <= from,
    ensures
        from <= first_comma_from(s, from) || first_comma_from(s, from) == s.len(),
        first_comma_from(s, from) <= s.len(),
        first_comma_from(s, from) < s.len() ==> s[first_comma_from(s, from)] == 44,
        forall|j: int| from <= j < first_comma_from(s, from) && 0 <= j ==> s[j] != 44,
    decreases s.len() - from,
{
    if 0 <= from < s.len() && s[from] != 44 {
        lemma_first_comma_bounds(s, from + 1);
    }
}

/// From any position inside a well-formed region, the next newline is at
/// most one maximal line width away: the position sits inside some line,
/// whose terminator follows within 24 bytes.
pub proof fn lemma_wf_nl_near(s: Seq<u8>, a: int, hi: int, p: int)
    requires
        wf_between(s, a, hi),
        a <= p < hi,
    ensures
        first_nl_from(s, p) <= p + 24,
        first_nl_from(s, p) < hi,
    decreases hi - a,
{
    let end = line_end(s, a);
    lemma_first_nl_bounds(s, a);
    if p <= end {
        lemma_first_nl_shift(s, a, p);
    } else {
        lemma_wf_nl_near(s, end + 1, hi, p);
    }
}

/// Inside a well-formed region, every position that sits just after a
/// newline (or at the region's start) begins a tail that is itself
/// well formed.
pub proof fn lemma_wf_at_boundary(s: Seq<u8>, a: int, p: int, hi: int)
    requires
        wf_between(s, a, hi),
        a <= p <= hi,
        p == a || s[p - 1] == 10,
    ensures
        wf_between(s, p, hi),
    decreases p - a,
{
    if p > a {
        assert(a < hi);
        let end = line_end(s, a);
        lemma_first_nl_bounds(s, a);
        if p - 1 < end {
            assert(s[p - 1] != 10);
        } else if p - 1 == end {
            assert(wf_between(s, end + 1, hi));
        } else {
            lemma_wf_at_boundary(s, end + 1, p, hi);
        }
    }
}

/// A nonempty well-formed region ends with a newline.
pub proof fn lemma_wf_last_nl(s: Seq<u8>, a: int, hi: int)
    requires
        wf_between(s, a, hi),
        a < hi,
    ensures
        s[hi - 1] == 10,
    decreases hi - a,
{
    let end = line_end(s, a);
    lemma_first_nl_bounds(s, a);
    if end + 1 == hi {
        assert(s[end] == 10);
    } else {
        lemma_wf_last_nl(s, end + 1, hi);
    }
}

/// A well-formed region cut at a position just after a newline (or at its
/// end) splits into two well-formed regions.
pub proof fn lemma_wf_split(s: Seq<u8>, a: int, m: int, hi: int)
    requires
        wf_between(s, a, hi),
        a <= m <= hi,
        m == hi || s[m - 1] == 10,
    ensures
        wf_between(s, a, m),
        wf_between(s, m, hi),
    decreases m - a,
{
    if m == a {
    } else {
        assert(a < hi);
        let end = line_end(s, a);
        lemma_first_nl_bounds(s, a);
        if m == hi {
            if end + 1 == m {
            } else {
                lemma_wf_split(s, end + 1, m, hi);
            }
        } else {
            if m - 1 < end {
                assert(s[m - 1] != 10);
                assert(false);
            } else if m - 1 == end {
                lemma_wf_split(s, end + 1, m, hi);
            } else {
                lemma_wf_split(s, end + 1, m, hi);
            }
        }
    }
}

} // verus!
