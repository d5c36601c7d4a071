//! Query enhancement: a mapping from "real" (expanded) query positions back
//! to the positions of the user's original tokens.
//!
//! The builder starts from the identity mapping and accepts synonym rewrite
//! declarations.  A declaration that grows the query shifts the recorded
//! position of every original token standing after the rewritten span, so
//! that downstream ranking sees synonym alternatives and their origin words
//! at compatible positions.

use core::ops::Range;
use vstd::prelude::*;

verus! {

/// True when two byte strings hold the same bytes.
pub fn bytes_eq(a: &Vec<u8>, b: &Vec<u8>) -> (r: bool)
    ensures
        r == (a@ == b@),
{
    if a.len() != b.len() {
        assert(a@ != b@) by {
            assert(a@.len() != b@.len());
        }
        return false;
    }
    let n = a.len();
    let mut i: usize = 0;
    while i < n
        invariant
            n == a@.len() == b@.len(),
            0 <= i <= n,
            forall|j: int| 0 <= j < i ==> a@[j] == b@[j],
        decreases n - i,
    {
        if a[i] != b[i] {
            return false;
        }
        i += 1;
    }
    assert(a@ =~= b@);
    true
}

/// The rewrite predicate: a span `[start, end)` of the original query may be
/// rewritten by `words` only when `words` is strictly longer than the span
/// and does not merely repeat the original text standing at `start`.
pub open spec fn spec_rewrite(query: Seq<Vec<u8>>, start: int, end: int, words: Seq<Vec<u8>>) -> bool {
    &&& words.len() > end - start
    &&& !{
        &&& start + words.len() <= query.len()
        &&& forall|j: int| 0 <= j < words.len() ==> (#[trigger] query[start + j])@ == words[j]@
    }
}

/// Return `true` if the given range of the query can accept the replacement
/// words: there must be more replacement words than replaced ones, and the
/// replacement must not already be present in the original query.
pub fn rewrite_range_with(query: &Vec<Vec<u8>>, range: Range<usize>, words: &Vec<Vec<u8>>) -> (r: bool)
    requires
        range.start <= range.end,
    ensures
        r == spec_rewrite(query@, range.start as int, range.end as int, words@),
{
    if words.len() <= range.end - range.start {
        // fewer or equal replacement words than the replaced range holds
        return false;
    }
    if query.len() < range.start || words.len() > query.len() - range.start {
        // the query is too short to already contain the replacement
        return true;
    }
    // check whether the original query already holds the replacement words
    let m = words.len();
    let qlen = query.len();
    let mut j: usize = 0;
    while j < m
        invariant
            0 <= j <= m,
            m == words@.len(),
            qlen == query@.len(),
            range.start + m <= qlen,
            m > range.end - range.start,
            range.start <= range.end,
            forall|t: int| 0 <= t < j ==> (#[trigger] query@[range.start + t])@ == words@[t]@,
        decreases m - j,
    {
        if !bytes_eq(&query[range.start + j], &words[j]) {
            return true;
        }
        j += 1;
    }
    false
}

/// The first real index not yet used by any recorded range.
pub open spec fn spec_limit(ranges: Seq<(Range<usize>, usize)>) -> int {
    if ranges.len() == 0 {
        0
    } else {
        ranges.last().0.end as int
    }
}

/// Well-formedness of an enhancer state: `origins` records, for every
/// original position, its current position under all accepted shifts, and
/// `ranges` is a contiguous, ordered cover of the real indices `[0, limit)`,
/// each range tagged with the original position it expands.
pub open spec fn wf_state(n: int, origins: Seq<usize>, ranges: Seq<(Range<usize>, usize)>) -> bool {
    let limit = spec_limit(ranges);
    &&& origins.len() == n
    &&& n == 0 ==> ranges.len() == 0
    &&& n > 0 ==> ranges.len() >= 1 && ranges[0].0.start == 0 && n <= limit
    &&& forall|i: int| 0 <= i < ranges.len() ==> {
        let (r, o) = #[trigger] ranges[i];
        &&& o < n
        &&& r.start < r.end
        &&& r.end <= limit
        &&& (r.end == r.start + 1 && o == r.start) || r.start >= n
    }
    &&& forall|i: int| 0 <= i < ranges.len() - 1 ==> (#[trigger] ranges[i].0).end == ranges[i + 1].0.start
    &&& forall|a: int, b: int| 0 <= a < b < ranges.len() ==> (#[trigger] ranges[a].0).end <= (#[trigger] ranges[b].0).start
    &&& forall|p: int| 0 <= p < n ==> p <= #[trigger] origins[p] && origins[p] < limit
    &&& forall|i: int| 0 <= i < ranges.len() ==> {
        let (r, o) = #[trigger] ranges[i];
        origins[o as int] + (r.end - r.start) <= limit
    }
}

/// The origins vector after one declaration: when the rewrite is accepted
/// with growth `offset`, every original position at or past `from` moves to
/// at least `p + offset`, keeping any larger shift it already carries.
pub open spec fn spec_shift_origins(origins: Seq<usize>, accepted: bool, from: int, offset: int) -> Seq<usize> {
    if accepted {
        Seq::new(origins.len(), |p: int| if p >= from && origins[p] < p + offset {
            (p + offset) as usize
        } else {
            origins[p]
        })
    } else {
        origins
    }
}

/// Builds a [`QueryEnhancer`] from the normalized original query tokens and
/// a series of rewrite declarations.
pub struct QueryEnhancerBuilder {
    pub query: Vec<Vec<u8>>,
    pub origins: Vec<usize>,
    pub real_to_origin: Vec<(Range<usize>, usize)>,
}

impl QueryEnhancerBuilder {
    pub open spec fn wf(&self) -> bool {
        wf_state(self.query@.len() as int, self.origins@, self.real_to_origin@)
    }

    pub open spec fn limit(&self) -> int {
        spec_limit(self.real_to_origin@)
    }

    pub fn new(query: Vec<Vec<u8>>) -> (b: QueryEnhancerBuilder)
        ensures
            b.wf(),
            b.query@ == query@,
            b.origins@.len() == query@.len(),
            forall|p: int| 0 <= p < query@.len() ==> #[trigger] b.origins@[p] as int == p,
            b.real_to_origin@.len() == query@.len(),
            forall|i: int| 0 <= i < query@.len() ==> #[trigger] b.real_to_origin@[i]
                == (Range { start: i as usize, end: (i + 1) as usize }, i as usize),
            b.limit() == query@.len(),
    {
        let n = query.len();
        let mut origins: Vec<usize> = Vec::new();
        let mut real_to_origin: Vec<(Range<usize>, usize)> = Vec::new();
        let mut i: usize = 0;
        while i < n
            invariant
                0 <= i <= n,
                origins@.len() == i,
                real_to_origin@.len() == i,
                forall|p: int| 0 <= p < i ==> #[trigger] origins@[p] as int == p,
                forall|p: int| 0 <= p < i ==> #[trigger] real_to_origin@[p]
                    == (Range { start: p as usize, end: (p + 1) as usize }, p as usize),
            decreases n - i,
        {
            origins.push(i);
            real_to_origin.push((Range { start: i, end: i + 1 }, i));
            i += 1;
        }
        let b = QueryEnhancerBuilder { query, origins, real_to_origin };
        assert(b.wf()) by {
            if n > 0 {
                assert(b.real_to_origin@.last() == (Range { start: (n - 1) as usize, end: n as usize }, (n - 1) as usize));
            }
        }
        b
    }

    /// The next free real index: the first one not used by any declaration.
    pub fn next_real(&self) -> (r: usize)
        requires
            self.wf(),
        ensures
            r as int == self.limit(),
    {
        if self.real_to_origin.len() == 0 {
            0
        } else {
            self.real_to_origin[self.real_to_origin.len() - 1].0.end
        }
    }

    /// Record that the original span `range` is rewritten by `replacement`,
    /// whose words will occupy the real indices `[real_index, real_index + m)`.
    ///
    /// When the rewrite predicate accepts the declaration, the origins of all
    /// original positions standing at or past the end of the span are shifted
    /// by the growth of the query, without counting any shift they already
    /// accumulated.  The real-to-origin mapping is recorded either way.
    pub fn declare(&mut self, range: Range<usize>, real_index: usize, replacement: &Vec<Vec<u8>>)
        requires
            old(self).wf(),
            range.start < range.end <= old(self).query@.len(),
            real_index as int == old(self).limit(),
            replacement@.len() >= 1,
            real_index + replacement@.len() <= usize::MAX,
        ensures
            final(self).wf(),
            final(self).query@ == old(self).query@,
            final(self).real_to_origin@ == old(self).real_to_origin@.push(
                (Range { start: real_index, end: (real_index + replacement@.len() as int) as usize }, range.start),
            ),
            final(self).limit() == old(self).limit() + replacement@.len(),
            final(self).origins@ == spec_shift_origins(
                old(self).origins@,
                spec_rewrite(old(self).query@, range.start as int, range.end as int, replacement@),
                range.end as int,
                replacement@.len() - (range.end - range.start),
            ),
    {
        let ghost n = old(self).query@.len() as int;
        let ghost limit0 = old(self).limit();
        let m = replacement.len();
        let k = range.end - range.start;
        let accepted = rewrite_range_with(&self.query, Range { start: range.start, end: range.end }, replacement);
        if accepted {
            // the range can be rewritten, so the origins move accordingly
            let offset = m - k;
            let olen = self.origins.len();
            let mut p = range.end;
            while p < olen
                invariant
                    range.end <= p <= olen,
                    olen == n,
                    n <= limit0,
                    range.end as int <= n,
                    1 <= offset == m - k,
                    m == replacement@.len(),
                    k == range.end - range.start,
                    real_index as int == limit0,
                    real_index + m <= usize::MAX,
                    self.query@ == old(self).query@,
                    self.real_to_origin@ == old(self).real_to_origin@,
                    self.origins@.len() == n,
                    forall|q: int| 0 <= q < n ==> q <= #[trigger] old(self).origins@[q] && old(self).origins@[q] < limit0,
                    forall|q: int| p <= q < n ==> #[trigger] self.origins@[q] == old(self).origins@[q],
                    forall|q: int| 0 <= q < p ==> #[trigger] self.origins@[q] == {
                        if q >= range.end && old(self).origins@[q] < q + offset {
                            (q + offset) as usize
                        } else {
                            old(self).origins@[q]
                        }
                    },
                decreases olen - p,
            {
                let cur = self.origins[p];
                let already = cur - p;
                if offset > already {
                    assert(p + offset <= usize::MAX);
                    self.origins.set(p, cur + (offset - already));
                    assert(self.origins@[p as int] as int == p + offset);
                }
                p += 1;
            }
        }
        let nr = (Range { start: real_index, end: real_index + m }, range.start);
        self.real_to_origin.push(nr);
        proof {
            let or0 = old(self).origins@;
            let or1 = self.origins@;
            let rg0 = old(self).real_to_origin@;
            let rg1 = self.real_to_origin@;
            let off = m - k;
            let acc = spec_rewrite(old(self).query@, range.start as int, range.end as int, replacement@);
            let limit1 = limit0 + m;
            assert(spec_limit(rg1) == limit1);
            assert(or1 =~= spec_shift_origins(or0, acc, range.end as int, off as int));
            // every original position keeps a shifted place below the new bound
            assert forall|q: int| 0 <= q < n implies q <= #[trigger] or1[q] && or1[q] < limit1 by {
                assert(q <= or0[q] < limit0);
            }
            // each recorded range still reaches at most the new bound
            assert forall|i: int| 0 <= i < rg1.len() implies {
                let (r, o) = #[trigger] rg1[i];
                or1[o as int] + (r.end - r.start) <= limit1
            } by {
                let (r, o) = rg1[i];
                if i < rg0.len() {
                    assert(rg0[i] == rg1[i]);
                    assert(or0[o as int] + (r.end - r.start) <= limit0);
                    if acc && o as int >= range.end && or0[o as int] < o + off {
                        // the origin was shifted by this very declaration
                        assert(or1[o as int] as int == o + off);
                        if r.end == r.start + 1 && o == r.start {
                            assert(o + 1 <= n);
                        } else {
                            assert(r.start >= n);
                            assert(r.end <= limit0);
                            assert(o as int + (r.end - r.start) <= n - 1 + limit0 - n);
                        }
                    } else {
                        assert(or1[o as int] == or0[o as int]);
                    }
                } else {
                    assert(rg1[i] == nr);
                    assert(o == range.start);
                    assert((o as int) < (range.end as int));
                    assert(or1[o as int] == or0[o as int]);
                }
            }
            assert(wf_state(n, or1, rg1)) by {
                assert(n > 0);
                assert(rg1[0] == rg0[0]);
                assert(forall|i: int| 0 <= i < rg0.len() ==> rg1[i] == rg0[i]);
                assert forall|i: int| 0 <= i < rg1.len() implies {
                    let (r, o) = #[trigger] rg1[i];
                    &&& o < n
                    &&& r.start < r.end
                    &&& r.end <= limit1
                    &&& (r.end == r.start + 1 && o == r.start) || r.start >= n
                } by {
                    if i < rg0.len() {
                        assert(rg1[i] == rg0[i]);
                        assert(rg0[i].0.end <= limit0);
                    } else {
                        assert(rg1[i] == nr);
                    }
                }
            }
        }
    }

    pub fn build(self) -> (e: QueryEnhancer)
        requires
            self.wf(),
        ensures
            e.wf(),
            e.origins@ == self.origins@,
            e.real_to_origin@ == self.real_to_origin@,
            e.limit() == self.limit(),
    {
        let ghost n = self.query@.len() as int;
        let e = QueryEnhancer { origins: self.origins, real_to_origin: self.real_to_origin };
        assert(e.origins@.len() == n);
        e
    }
}

/// The index of the first recorded range containing the real index `rq`, looking from
/// position `i` on; the number of ranges when none contains it.
pub open spec fn find_range_from(ranges: Seq<(Range<usize>, usize)>, rq: int, i: int) -> int
    decreases ranges.len() - i,
{
    if i < 0 || i >= ranges.len() {
        ranges.len() as int
    } else if ranges[i].0.start <= rq < ranges[i].0.end {
        i
    } else {
        find_range_from(ranges, rq, i + 1)
    }
}

pub open spec fn find_range(ranges: Seq<(Range<usize>, usize)>, rq: int) -> int {
    find_range_from(ranges, rq, 0)
}

/// The origin-space position that the real index `rq` stands for: the
/// current (shifted) position of the range's origin, advanced by the offset
/// of `rq` inside its range.
pub open spec fn spec_replacement(origins: Seq<usize>, ranges: Seq<(Range<usize>, usize)>, rq: int) -> int {
    let j = find_range(ranges, rq);
    let (r, o) = ranges[j];
    origins[o as int] + (rq - r.start)
}

/// An immutable mapping from real (expanded) query indices back to
/// origin-space positions, built once per query.
pub struct QueryEnhancer {
    pub origins: Vec<usize>,
    pub real_to_origin: Vec<(Range<usize>, usize)>,
}

/// In a contiguous cover starting at zero, the search from `i` finds a range
/// containing `rq` whenever `rq` lies before the cover's end and at or
/// past the start of range `i`.
proof fn lemma_find_range_from(ranges: Seq<(Range<usize>, usize)>, rq: int, i: int)
    requires
        0 <= i < ranges.len(),
        forall|a: int| 0 <= a < ranges.len() - 1 ==> (#[trigger] ranges[a].0).end == ranges[a + 1].0.start,
        forall|a: int| 0 <= a < ranges.len() ==> (#[trigger] ranges[a].0).start < ranges[a].0.end,
        ranges[i].0.start <= rq,
        rq < ranges.last().0.end,
    ensures
        ({
            let j = find_range_from(ranges, rq, i);
            &&& i <= j < ranges.len()
            &&& ranges[j].0.start <= rq < ranges[j].0.end
        }),
    decreases ranges.len() - i,
{
    if ranges[i].0.start <= rq < ranges[i].0.end {
    } else {
        assert(rq >= ranges[i].0.end);
        if i == ranges.len() - 1 {
            assert(false);
        } else {
            assert(ranges[i].0.end == ranges[i + 1].0.start);
            lemma_find_range_from(ranges, rq, i + 1);
        }
    }
}

/// The search finds exactly the range known to contain `rq`, because the
/// ranges are ordered and disjoint.
proof fn lemma_find_range_unique(ranges: Seq<(Range<usize>, usize)>, rq: int, j: int, i: int)
    requires
        0 <= i <= j < ranges.len(),
        forall|a: int, b: int| 0 <= a < b < ranges.len()
            ==> (#[trigger] ranges[a].0).end <= (#[trigger] ranges[b].0).start,
        ranges[j].0.start <= rq < ranges[j].0.end,
    ensures
        find_range_from(ranges, rq, i) == j,
    decreases j - i,
{
    if i == j {
    } else {
        assert(ranges[i].0.end <= ranges[j].0.start);
        lemma_find_range_unique(ranges, rq, j, i + 1);
    }
}

impl QueryEnhancer {
    pub open spec fn wf(&self) -> bool {
        wf_state(self.origins@.len() as int, self.origins@, self.real_to_origin@)
    }

    pub open spec fn limit(&self) -> int {
        spec_limit(self.real_to_origin@)
    }

    /// The replacement, in origin space, of one real query index: a range of
    /// width one whose start is the shifted position of the original word
    /// that this real index expands.  The ranges are ordered and contiguous,
    /// so a binary search on their starts finds the one containing the
    /// index.
    pub fn replacement(&self, real_index: usize) -> (res: Range<usize>)
        requires
            self.wf(),
            (real_index as int) < self.limit(),
        ensures
            res.start as int == spec_replacement(self.origins@, self.real_to_origin@, real_index as int),
            res.end == res.start + 1,
            (res.start as int) < self.limit(),
    {
        let ghost ranges = self.real_to_origin@;
        let ghost limit = self.limit();
        let len = self.real_to_origin.len();
        assert(len > 0);
        // binary search for the last range starting at or before the index
        let mut lo: usize = 0;
        let mut hi: usize = len;
        while hi - lo > 1
            invariant
                self.wf(),
                0 <= lo < hi <= len,
                len == self.real_to_origin@.len(),
                ranges == self.real_to_origin@,
                limit == self.limit(),
                (real_index as int) < limit,
                ranges[lo as int].0.start <= real_index,
                hi < len ==> real_index < ranges[hi as int].0.start,
            decreases hi - lo,
        {
            let mid = lo + (hi - lo) / 2;
            if self.real_to_origin[mid].0.start <= real_index {
                lo = mid;
            } else {
                hi = mid;
            }
        }
        let rr = &self.real_to_origin[lo];
        proof {
            assert(*rr == ranges[lo as int]);
            // the found range contains the index: its end is the next
            // range's start, or the expanded length
            if hi < len {
                assert(ranges[lo as int].0.end == ranges[lo as int + 1].0.start);
                assert(real_index < ranges[lo as int].0.end);
            } else {
                assert(ranges[lo as int].0.end == limit);
            }
            lemma_find_range_unique(ranges, real_index as int, lo as int, 0);
        }
        let s = self.origins[rr.1] + (real_index - rr.0.start);
        assert(s as int == spec_replacement(self.origins@, ranges, real_index as int));
        assert((s as int) < limit) by {
            assert(self.origins@[rr.1 as int] + (rr.0.end - rr.0.start) <= limit);
        }
        Range { start: s, end: s + 1 }
    }

    /// Totality of the enhancer (law): every real index below the expanded
    /// length maps to a non-empty origin-space range of width one, standing
    /// below the expanded length.  (The mapped position lives in the shifted
    /// origin space, so it is bounded by the expanded length, not by the
    /// original token count.)
    pub proof fn lemma_replacement_total(&self, rq: int)
        requires
            self.wf(),
            0 <= rq < self.limit(),
        ensures
            0 <= spec_replacement(self.origins@, self.real_to_origin@, rq),
            spec_replacement(self.origins@, self.real_to_origin@, rq) < self.limit(),
    {
        let ranges = self.real_to_origin@;
        assert(ranges.len() > 0);
        assert(ranges[0].0.start == 0);
        lemma_find_range_from(ranges, rq, 0);
        let j = find_range(ranges, rq);
        let (r, o) = ranges[j];
        assert(self.origins@[o as int] + (r.end - r.start) <= self.limit());
    }

    /// Round trip of one declaration (law): the real indices of any recorded
    /// range map exactly onto the contiguous block of origin-space positions
    /// `[origins[o], origins[o] + width)`, where `o` is the original position
    /// that the range expands.
    pub proof fn lemma_expansion_round_trip(&self, j: int)
        requires
            self.wf(),
            0 <= j < self.real_to_origin@.len(),
        ensures
            forall|i: int| 0 <= i < (self.real_to_origin@[j].0.end - self.real_to_origin@[j].0.start)
                ==> #[trigger] spec_replacement(self.origins@, self.real_to_origin@, self.real_to_origin@[j].0.start + i)
                    == self.origins@[self.real_to_origin@[j].1 as int] + i,
    {
        let ranges = self.real_to_origin@;
        let (r, o) = ranges[j];
        assert forall|i: int| 0 <= i < r.end - r.start
            implies #[trigger] spec_replacement(self.origins@, ranges, r.start + i)
                == self.origins@[o as int] + i by {
            lemma_find_range_unique(ranges, r.start + i, j, 0);
        }
    }
}

} // verus!
