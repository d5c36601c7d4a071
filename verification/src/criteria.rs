//! The six ranking criteria.  Each reduces a document's match columns to a
//! numeric key; documents are compared criterion by criterion, ties passing
//! to the next.
//!
//! The keys are stated as sums over query positions of the expanded query:
//! for each position that the document matches, the criterion selects one
//! figure among that position's matches (least distance, least attribute,
//! and so on) and sums the selections.

use core::cmp::Ordering;
use vstd::prelude::*;
use crate::DocumentId;
use crate::Highlight;
use crate::raw_document::RawDocument;

verus! {

/// The mathematical content of a record: its identifier and the five match
/// columns as sequences.  The criteria are stated over this view.
pub struct DocView {
    pub id: DocumentId,
    pub query_index: Seq<u32>,
    pub distance: Seq<u8>,
    pub attribute: Seq<u16>,
    pub word_index: Seq<u16>,
    pub is_exact: Seq<bool>,
    pub highlights: Seq<Highlight>,
}

pub open spec fn view_of(d: RawDocument) -> DocView {
    DocView {
        id: d.id,
        query_index: d.query_index@,
        distance: d.distance@,
        attribute: d.attribute@,
        word_index: d.word_index@,
        is_exact: d.is_exact@,
        highlights: d.highlights@,
    }
}

pub open spec fn dv_wf(d: DocView) -> bool {
    &&& d.distance.len() == d.query_index.len()
    &&& d.attribute.len() == d.query_index.len()
    &&& d.word_index.len() == d.query_index.len()
    &&& d.is_exact.len() == d.query_index.len()
}


/// One past the largest expressible query position.
pub open spec fn qmax() -> int {
    0x1_0000_0000
}

/// Whether the document has a match for query position `q`.
pub open spec fn present(d: DocView, q: int) -> bool {
    exists|i: int| 0 <= i < d.query_index.len() && d.query_index[i] == q
}

/// A sum of per-position contributions over the query positions `[0, qh)`.
pub open spec fn sum_upto(f: spec_fn(int) -> int, qh: int) -> int
    decreases qh,
{
    if qh <= 0 {
        0
    } else {
        sum_upto(f, qh - 1) + f(qh - 1)
    }
}

/// Positions whose contribution is zero do not change the sum.
proof fn lemma_sum_upto_absent(f: spec_fn(int) -> int, b: int, qh: int)
    requires
        0 <= b <= qh,
        forall|q: int| b <= q < qh ==> #[trigger] f(q) == 0,
    ensures
        sum_upto(f, qh) == sum_upto(f, b),
    decreases qh - b,
{
    if qh > b {
        lemma_sum_upto_absent(f, b, qh - 1);
    }
}

/// A sum of bounded, non-negative contributions is bounded.
proof fn lemma_sum_upto_bound(f: spec_fn(int) -> int, qh: int, c: int)
    requires
        0 <= qh,
        0 <= c,
        forall|q: int| 0 <= q < qh ==> 0 <= #[trigger] f(q) <= c,
    ensures
        0 <= sum_upto(f, qh) <= c * qh,
    decreases qh,
{
    if qh > 0 {
        lemma_sum_upto_bound(f, qh - 1, c);
        assert(c * qh == c * (qh - 1) + c) by (nonlinear_arith);
    }
}

/// Least distance among the matches of query position `q` in the first `n`
/// columns entries; 256 when there is none.
pub open spec fn min_dist_upto(d: DocView, q: int, n: int) -> int
    decreases n,
{
    if n <= 0 {
        256
    } else {
        let rest = min_dist_upto(d, q, n - 1);
        if d.query_index[n - 1] == q && d.distance[n - 1] < rest {
            d.distance[n - 1] as int
        } else {
            rest
        }
    }
}

pub open spec fn min_dist(d: DocView, q: int) -> int {
    min_dist_upto(d, q, d.query_index.len() as int)
}

/// The least distance is below the sentinel exactly when the position has a
/// match among the first `n` entries.
proof fn lemma_min_dist_present(d: DocView, q: int, n: int)
    requires
        dv_wf(d),
        0 <= n <= d.query_index.len(),
    ensures
        0 <= min_dist_upto(d, q, n) <= 256,
        (min_dist_upto(d, q, n) < 256) <==> exists|i: int| 0 <= i < n && d.query_index[i] == q,
    decreases n,
{
    if n > 0 {
        lemma_min_dist_present(d, q, n - 1);
        if d.query_index[n - 1] == q {
            assert(d.distance[n - 1] < 256);
        } else {
            if exists|i: int| 0 <= i < n && d.query_index[i] == q {
                let i = choose|i: int| 0 <= i < n && d.query_index[i] == q;
                assert(0 <= i < n - 1 && d.query_index[i] == q);
            }
        }
    }
}

/// Per-position contribution to the sum of typos: the least edit distance
/// among the position's matches.
pub open spec fn typo_contrib(d: DocView) -> spec_fn(int) -> int {
    |q: int| if present(d, q) { min_dist(d, q) } else { 0 }
}

/// Key of the first criterion: summed over the distinct query positions the
/// document matches, the least edit distance among that position's matches.
/// Fewer typos rank first.
pub open spec fn spec_sum_of_typos(d: DocView) -> int {
    sum_upto(typo_contrib(d), qmax())
}

/// One past the largest query position with a match, as an exec bound.
fn query_bound(d: &RawDocument) -> (b: u64)
    requires
        d.wf(),
    ensures
        b <= 0x1_0000_0000u64,
        forall|q: int| b <= q < qmax() ==> !present(view_of(*d), q),
        forall|i: int| 0 <= i < d.query_index.len() ==> (#[trigger] d.query_index[i]) < b,
{
    let n = d.query_index.len();
    let mut b: u64 = 0;
    let mut i: usize = 0;
    while i < n
        invariant
            0 <= i <= n,
            n == d.query_index.len(),
            b <= 0x1_0000_0000u64,
            forall|t: int| 0 <= t < i ==> (#[trigger] d.query_index[t]) < b,
        decreases n - i,
    {
        let qi = d.query_index[i];
        if (qi as u64) >= b {
            b = qi as u64 + 1;
        }
        i += 1;
    }
    proof {
        assert forall|q: int| b <= q < qmax() implies !present(view_of(*d), q) by {
            if present(view_of(*d), q) {
                let t = choose|t: int| 0 <= t < d.query_index.len() && d.query_index[t] == q;
                assert(d.query_index[t] < b);
            }
        }
    }
    b
}

/// The least distance among the matches of position `q`, 256 when absent.
fn min_dist_at(d: &RawDocument, q: u64) -> (md: u16)
    requires
        d.wf(),
    ensures
        md as int == min_dist(view_of(*d), q as int),
        (md < 256) <==> present(view_of(*d), q as int),
{
    let n = d.query_index.len();
    let mut md: u16 = 256;
    let mut i: usize = 0;
    while i < n
        invariant
            0 <= i <= n,
            n == d.query_index.len(),
            d.wf(),
            md as int == min_dist_upto(view_of(*d), q as int, i as int),
        decreases n - i,
    {
        if d.query_index[i] as u64 == q {
            let dist = d.distance[i];
            if (dist as u16) < md {
                md = dist as u16;
            }
        }
        i += 1;
    }
    proof {
        lemma_min_dist_present(view_of(*d), q as int, n as int);
    }
    md
}

/// First criterion: the summed least distances of the matched positions.
pub fn sum_of_typos(d: &RawDocument) -> (s: u64)
    requires
        d.wf(),
    ensures
        s as int == spec_sum_of_typos(view_of(*d)),
{
    let bound = query_bound(d);
    let ghost f = typo_contrib(view_of(*d));
    let mut s: u64 = 0;
    let mut q: u64 = 0;
    while q < bound
        invariant
            0 <= q <= bound <= 0x1_0000_0000u64,
            d.wf(),
            f == typo_contrib(view_of(*d)),
            s as int == sum_upto(f, q as int),
            s <= 256u64 * q,
        decreases bound - q,
    {
        let md = min_dist_at(d, q);
        if md < 256 {
            s += md as u64;
        }
        proof {
            assert(f(q as int) == if present(view_of(*d), q as int) { min_dist(view_of(*d), q as int) } else { 0 });
        }
        q += 1;
    }
    proof {
        lemma_sum_upto_absent(f, bound as int, qmax());
    }
    s
}

/// Per-position contribution to the word count: one for each matched
/// position.
pub open spec fn words_contrib(d: DocView) -> spec_fn(int) -> int {
    |q: int| if present(d, q) { 1int } else { 0int }
}

/// Key of the second criterion: how many distinct query positions the
/// document matches.  More words rank first.
pub open spec fn spec_number_of_words(d: DocView) -> int {
    sum_upto(words_contrib(d), qmax())
}

/// Second criterion: the number of distinct matched query positions.
pub fn number_of_words(d: &RawDocument) -> (s: u64)
    requires
        d.wf(),
    ensures
        s as int == spec_number_of_words(view_of(*d)),
{
    let bound = query_bound(d);
    let ghost f = words_contrib(view_of(*d));
    let mut s: u64 = 0;
    let mut q: u64 = 0;
    while q < bound
        invariant
            0 <= q <= bound <= 0x1_0000_0000u64,
            d.wf(),
            f == words_contrib(view_of(*d)),
            s as int == sum_upto(f, q as int),
            s <= q,
        decreases bound - q,
    {
        let md = min_dist_at(d, q);
        if md < 256 {
            s += 1;
        }
        proof {
            assert(f(q as int) == if present(view_of(*d), q as int) { 1int } else { 0int });
        }
        q += 1;
    }
    proof {
        lemma_sum_upto_absent(f, bound as int, qmax());
    }
    s
}

/// Least attribute among the matches of query position `q` in the first `n`
/// column entries; 65536 when there is none.
pub open spec fn min_attr_upto(d: DocView, q: int, n: int) -> int
    decreases n,
{
    if n <= 0 {
        0x10000
    } else {
        let rest = min_attr_upto(d, q, n - 1);
        if d.query_index[n - 1] == q && d.attribute[n - 1] < rest {
            d.attribute[n - 1] as int
        } else {
            rest
        }
    }
}

pub open spec fn min_attr(d: DocView, q: int) -> int {
    min_attr_upto(d, q, d.query_index.len() as int)
}

proof fn lemma_min_attr_present(d: DocView, q: int, n: int)
    requires
        dv_wf(d),
        0 <= n <= d.query_index.len(),
    ensures
        0 <= min_attr_upto(d, q, n) <= 0x10000,
        (min_attr_upto(d, q, n) < 0x10000) <==> exists|i: int| 0 <= i < n && d.query_index[i] == q,
    decreases n,
{
    if n > 0 {
        lemma_min_attr_present(d, q, n - 1);
        if d.query_index[n - 1] == q {
            assert(d.attribute[n - 1] < 0x10000);
        } else {
            if exists|i: int| 0 <= i < n && d.query_index[i] == q {
                let i = choose|i: int| 0 <= i < n && d.query_index[i] == q;
                assert(0 <= i < n - 1 && d.query_index[i] == q);
            }
        }
    }
}

/// Per-position contribution to the attribute sum: the least attribute
/// among the position's matches.
pub open spec fn attr_contrib(d: DocView) -> spec_fn(int) -> int {
    |q: int| if present(d, q) { min_attr(d, q) } else { 0 }
}

/// Key of the fourth criterion: summed over the matched positions, the
/// attribute of the best-placed match (the lowest attribute).  Lower sums
/// rank first.
pub open spec fn spec_sum_of_words_attribute(d: DocView) -> int {
    sum_upto(attr_contrib(d), qmax())
}

/// The least attribute among the matches of position `q`, 65536 when
/// absent.
fn min_attr_at(d: &RawDocument, q: u64) -> (ma: u32)
    requires
        d.wf(),
    ensures
        ma as int == min_attr(view_of(*d), q as int),
        (ma < 0x10000) <==> present(view_of(*d), q as int),
{
    let n = d.query_index.len();
    let mut ma: u32 = 0x10000;
    let mut i: usize = 0;
    while i < n
        invariant
            0 <= i <= n,
            n == d.query_index.len(),
            d.wf(),
            ma as int == min_attr_upto(view_of(*d), q as int, i as int),
        decreases n - i,
    {
        if d.query_index[i] as u64 == q {
            let a = d.attribute[i];
            if (a as u32) < ma {
                ma = a as u32;
            }
        }
        i += 1;
    }
    proof {
        lemma_min_attr_present(view_of(*d), q as int, n as int);
    }
    ma
}

/// Fourth criterion: the summed least attributes of the matched positions.
pub fn sum_of_words_attribute(d: &RawDocument) -> (s: u64)
    requires
        d.wf(),
    ensures
        s as int == spec_sum_of_words_attribute(view_of(*d)),
{
    let bound = query_bound(d);
    let ghost f = attr_contrib(view_of(*d));
    let mut s: u64 = 0;
    let mut q: u64 = 0;
    while q < bound
        invariant
            0 <= q <= bound <= 0x1_0000_0000u64,
            d.wf(),
            f == attr_contrib(view_of(*d)),
            s as int == sum_upto(f, q as int),
            s <= 0x10000u64 * q,
        decreases bound - q,
    {
        let ma = min_attr_at(d, q);
        if ma < 0x10000 {
            s += ma as u64;
        }
        proof {
            assert(f(q as int) == if present(view_of(*d), q as int) { min_attr(view_of(*d), q as int) } else { 0 });
        }
        q += 1;
    }
    proof {
        lemma_sum_upto_absent(f, bound as int, qmax());
    }
    s
}

/// Least word index among the matches of position `q` that stand in
/// attribute `a`, over the first `n` column entries; 65536 when none.
pub open spec fn min_wi_upto(d: DocView, q: int, a: int, n: int) -> int
    decreases n,
{
    if n <= 0 {
        0x10000
    } else {
        let rest = min_wi_upto(d, q, a, n - 1);
        if d.query_index[n - 1] == q && d.attribute[n - 1] == a && d.word_index[n - 1] < rest {
            d.word_index[n - 1] as int
        } else {
            rest
        }
    }
}

/// The word index of the selected match of position `q`: the least word
/// index among the matches that stand in the position's least attribute.
pub open spec fn sel_word_index(d: DocView, q: int) -> int {
    min_wi_upto(d, q, min_attr(d, q), d.query_index.len() as int)
}

proof fn lemma_min_wi_bounds(d: DocView, q: int, a: int, n: int)
    requires
        dv_wf(d),
        0 <= n <= d.query_index.len(),
    ensures
        0 <= min_wi_upto(d, q, a, n) <= 0x10000,
    decreases n,
{
    if n > 0 {
        lemma_min_wi_bounds(d, q, a, n - 1);
    }
}

/// Per-position contribution to the position sum: the word index of the
/// selected match.
pub open spec fn pos_contrib(d: DocView) -> spec_fn(int) -> int {
    |q: int| if present(d, q) { sel_word_index(d, q) } else { 0 }
}

/// Key of the fifth criterion: summed over the matched positions, the word
/// index of the selected (lowest-attribute) match.  Lower sums rank first.
pub open spec fn spec_sum_of_words_position(d: DocView) -> int {
    sum_upto(pos_contrib(d), qmax())
}

/// Fifth criterion: the summed word indexes of the selected matches.
pub fn sum_of_words_position(d: &RawDocument) -> (s: u64)
    requires
        d.wf(),
    ensures
        s as int == spec_sum_of_words_position(view_of(*d)),
{
    let bound = query_bound(d);
    let ghost f = pos_contrib(view_of(*d));
    let n = d.query_index.len();
    let mut s: u64 = 0;
    let mut q: u64 = 0;
    while q < bound
        invariant
            0 <= q <= bound <= 0x1_0000_0000u64,
            d.wf(),
            n == d.query_index.len(),
            f == pos_contrib(view_of(*d)),
            s as int == sum_upto(f, q as int),
            s <= 0x10000u64 * q,
        decreases bound - q,
    {
        let ma = min_attr_at(d, q);
        if ma < 0x10000 {
            // scan for the least word index within the selected attribute
            let mut mw: u32 = 0x10000;
            let mut i: usize = 0;
            while i < n
                invariant
                    0 <= i <= n,
                    n == d.query_index.len(),
                    d.wf(),
                    ma as int == min_attr(view_of(*d), q as int),
                    mw as int == min_wi_upto(view_of(*d), q as int, ma as int, i as int),
                decreases n - i,
            {
                if d.query_index[i] as u64 == q && d.attribute[i] as u32 == ma {
                    let w = d.word_index[i];
                    if (w as u32) < mw {
                        mw = w as u32;
                    }
                }
                i += 1;
            }
            s += mw as u64;
            proof {
                lemma_min_wi_bounds(view_of(*d), q as int, ma as int, n as int);
                assert(f(q as int) == sel_word_index(view_of(*d), q as int));
            }
        } else {
            proof {
                assert(f(q as int) == 0);
            }
        }
        q += 1;
    }
    proof {
        lemma_sum_upto_absent(f, bound as int, qmax());
    }
    s
}

/// Proximity penalty between two occurrences: within one attribute the
/// penalty is the word distance capped at eight (one more when the second
/// occurrence stands before the first); across attributes it is a fixed
/// eight, so that "same field, close together" dominates.
pub open spec fn attr_prox(a1: int, w1: int, a2: int, w2: int) -> int {
    if a1 != a2 {
        8
    } else if w1 <= w2 {
        if w2 - w1 <= 8 {
            w2 - w1
        } else {
            8
        }
    } else {
        if w1 - w2 <= 8 {
            w1 - w2 + 1
        } else {
            9
        }
    }
}

/// Least proximity penalty between the occurrence at column entry `i` and
/// any occurrence of query position `q2` among the first `m` entries; 100
/// when there is none.
pub open spec fn prox_to_group(d: DocView, i: int, q2: int, m: int) -> int
    decreases m,
{
    if m <= 0 {
        100
    } else {
        let rest = prox_to_group(d, i, q2, m - 1);
        let v = attr_prox(
            d.attribute[i] as int,
            d.word_index[i] as int,
            d.attribute[m - 1] as int,
            d.word_index[m - 1] as int,
        );
        if d.query_index[m - 1] == q2 && v < rest {
            v
        } else {
            rest
        }
    }
}

/// Least proximity penalty between any occurrence of `q1` (among the first
/// `n` entries) and any occurrence of `q2`; 100 when either side is empty.
pub open spec fn pair_prox_upto(d: DocView, q1: int, q2: int, n: int) -> int
    decreases n,
{
    if n <= 0 {
        100
    } else {
        let rest = pair_prox_upto(d, q1, q2, n - 1);
        let v = prox_to_group(d, n - 1, q2, d.query_index.len() as int);
        if d.query_index[n - 1] == q1 && v < rest {
            v
        } else {
            rest
        }
    }
}

pub open spec fn pair_prox(d: DocView, q1: int, q2: int) -> int {
    pair_prox_upto(d, q1, q2, d.query_index.len() as int)
}

/// The first matched query position at or after `q`; `qmax()` when none.
pub open spec fn next_present_from(d: DocView, q: int) -> int
    decreases qmax() - q,
{
    if q < 0 || q >= qmax() {
        qmax()
    } else if present(d, q) {
        q
    } else {
        next_present_from(d, q + 1)
    }
}

proof fn lemma_attr_prox_bounds(a1: int, w1: int, a2: int, w2: int)
    ensures
        0 <= attr_prox(a1, w1, a2, w2) <= 9,
{
}

proof fn lemma_prox_to_group_bounds(d: DocView, i: int, q2: int, m: int)
    requires
        dv_wf(d),
        0 <= m <= d.query_index.len(),
    ensures
        0 <= prox_to_group(d, i, q2, m) <= 100,
        (exists|j: int| 0 <= j < m && d.query_index[j] == q2) ==> prox_to_group(d, i, q2, m) <= 9,
    decreases m,
{
    if m > 0 {
        lemma_prox_to_group_bounds(d, i, q2, m - 1);
        if exists|j: int| 0 <= j < m && d.query_index[j] == q2 {
            let j = choose|j: int| 0 <= j < m && d.query_index[j] == q2;
            if j < m - 1 {
                assert(prox_to_group(d, i, q2, m - 1) <= 9);
            }
        }
    }
}

proof fn lemma_pair_prox_bounds(d: DocView, q1: int, q2: int, n: int)
    requires
        dv_wf(d),
        0 <= n <= d.query_index.len(),
    ensures
        0 <= pair_prox_upto(d, q1, q2, n) <= 100,
        ((exists|i: int| 0 <= i < n && d.query_index[i] == q1) && present(d, q2))
            ==> pair_prox_upto(d, q1, q2, n) <= 9,
    decreases n,
{
    if n > 0 {
        lemma_pair_prox_bounds(d, q1, q2, n - 1);
        lemma_prox_to_group_bounds(d, n - 1, q2, d.query_index.len() as int);
        if (exists|i: int| 0 <= i < n && d.query_index[i] == q1) && present(d, q2) {
            let i = choose|i: int| 0 <= i < n && d.query_index[i] == q1;
            if i < n - 1 {
                assert(pair_prox_upto(d, q1, q2, n - 1) <= 9);
            } else {
                let j = choose|j: int| 0 <= j < d.query_index.len() && d.query_index[j] == q2;
                assert(prox_to_group(d, n - 1, q2, d.query_index.len() as int) <= 9);
            }
        }
    }
}

/// When `b` is the first matched position at or after `a`, the search from
/// `a` finds it.
proof fn lemma_next_present_char(d: DocView, a: int, b: int)
    requires
        0 <= a <= b < qmax(),
        present(d, b),
        forall|q: int| a <= q < b ==> !present(d, q),
    ensures
        next_present_from(d, a) == b,
    decreases b - a,
{
    if a < b {
        lemma_next_present_char(d, a + 1, b);
    }
}

/// When no position at or after `a` is matched, the search finds none.
proof fn lemma_next_present_none(d: DocView, a: int)
    requires
        0 <= a <= qmax(),
        forall|q: int| a <= q < qmax() ==> !present(d, q),
    ensures
        next_present_from(d, a) == qmax(),
    decreases qmax() - a,
{
    if a < qmax() {
        lemma_next_present_none(d, a + 1);
    }
}

/// Per-position contribution to the proximity sum: the least penalty
/// between this position's occurrences and those of the next matched
/// position, counted once per adjacent pair of matched positions.
pub open spec fn prox_contrib(d: DocView) -> spec_fn(int) -> int {
    |q: int| if present(d, q) && next_present_from(d, q + 1) < qmax() {
        pair_prox(d, q, next_present_from(d, q + 1))
    } else {
        0
    }
}

/// Key of the third criterion: summed over adjacent pairs of matched query
/// positions, the least proximity penalty between their occurrences.  Lower
/// sums rank first.
pub open spec fn spec_words_proximity(d: DocView) -> int {
    sum_upto(prox_contrib(d), qmax())
}

/// The proximity penalty between one occurrence and the closest occurrence
/// of query position `q2`.
fn prox_between(d: &RawDocument, i: usize, q2: u64) -> (v: u8)
    requires
        d.wf(),
        (i as int) < d.query_index.len(),
    ensures
        v as int == prox_to_group(view_of(*d), i as int, q2 as int, d.query_index.len() as int),
{
    let n = d.query_index.len();
    let a1 = d.attribute[i];
    let w1 = d.word_index[i];
    let mut v: u8 = 100;
    let mut j: usize = 0;
    while j < n
        invariant
            0 <= j <= n,
            n == d.query_index.len(),
            d.wf(),
            (i as int) < n,
            a1 == d.attribute[i as int],
            w1 == d.word_index[i as int],
            v as int == prox_to_group(view_of(*d), i as int, q2 as int, j as int),
        decreases n - j,
    {
        if d.query_index[j] as u64 == q2 {
            let a2 = d.attribute[j];
            let w2 = d.word_index[j];
            let p: u8 = if a1 != a2 {
                8
            } else if w1 <= w2 {
                if w2 - w1 <= 8 {
                    (w2 - w1) as u8
                } else {
                    8
                }
            } else {
                if w1 - w2 <= 8 {
                    (w1 - w2 + 1) as u8
                } else {
                    9
                }
            };
            assert(p as int == attr_prox(a1 as int, w1 as int, a2 as int, w2 as int));
            if p < v {
                v = p;
            }
        }
        j += 1;
    }
    v
}

/// The least proximity penalty between the occurrences of two query
/// positions.
fn pair_prox_at(d: &RawDocument, q1: u64, q2: u64) -> (v: u8)
    requires
        d.wf(),
    ensures
        v as int == pair_prox(view_of(*d), q1 as int, q2 as int),
{
    let n = d.query_index.len();
    let mut v: u8 = 100;
    let mut i: usize = 0;
    while i < n
        invariant
            0 <= i <= n,
            n == d.query_index.len(),
            d.wf(),
            v as int == pair_prox_upto(view_of(*d), q1 as int, q2 as int, i as int),
        decreases n - i,
    {
        if d.query_index[i] as u64 == q1 {
            let p = prox_between(d, i, q2);
            proof {
                lemma_prox_to_group_bounds(view_of(*d), i as int, q2 as int, n as int);
            }
            if p < v {
                v = p;
            }
        }
        i += 1;
    }
    v
}

/// Third criterion: the summed proximity penalties of adjacent matched
/// positions.
pub fn words_proximity(d: &RawDocument) -> (s: u64)
    requires
        d.wf(),
    ensures
        s as int == spec_words_proximity(view_of(*d)),
{
    let bound = query_bound(d);
    let ghost f = prox_contrib(view_of(*d));
    let mut s: u64 = 0;
    let mut prev: u64 = 0;
    let mut has_prev = false;
    let mut q: u64 = 0;
    while q < bound
        invariant
            0 <= q <= bound <= 0x1_0000_0000u64,
            d.wf(),
            f == prox_contrib(view_of(*d)),
            !has_prev ==> s == 0 && (forall|t: int| 0 <= t < q ==> !present(view_of(*d), t)),
            has_prev ==> {
                &&& prev < q
                &&& present(view_of(*d), prev as int)
                &&& forall|t: int| prev < t < q ==> !present(view_of(*d), t)
                &&& s as int == sum_upto(f, prev as int)
            },
            s <= 9u64 * q,
        decreases bound - q,
    {
        let md = min_dist_at(d, q);
        if md < 256 {
            if has_prev {
                let pp = pair_prox_at(d, prev, q);
                proof {
                    lemma_next_present_char(view_of(*d), prev as int + 1, q as int);
                    lemma_pair_prox_bounds(view_of(*d), prev as int, q as int, d.query_index.len() as int);
                    assert(f(prev as int) == pair_prox(view_of(*d), prev as int, q as int));
                    lemma_sum_upto_absent(f, prev as int + 1, q as int);
                }
                s += pp as u64;
                assert(s as int == sum_upto(f, q as int));
            } else {
                proof {
                    assert forall|t: int| 0 <= t < q implies #[trigger] f(t) == 0 by {
                        assert(!present(view_of(*d), t));
                    }
                    lemma_sum_upto_absent(f, 0, q as int);
                }
                assert(s as int == sum_upto(f, q as int));
            }
            prev = q;
            has_prev = true;
        }
        q += 1;
    }
    proof {
        if has_prev {
            assert forall|t: int| prev + 1 <= t < qmax() implies !present(view_of(*d), t) by {}
            lemma_next_present_none(view_of(*d), prev as int + 1);
            assert(f(prev as int) == 0);
            lemma_sum_upto_absent(f, prev as int + 1, qmax());
            assert(sum_upto(f, prev as int + 1) == sum_upto(f, prev as int) + f(prev as int));
        } else {
            assert forall|t: int| 0 <= t < qmax() implies #[trigger] f(t) == 0 by {
                assert(!present(view_of(*d), t));
            }
            lemma_sum_upto_absent(f, 0, qmax());
        }
    }
    s
}

/// How many matches are exact, over the first `n` column entries.
pub open spec fn count_exact_upto(d: DocView, n: int) -> int
    decreases n,
{
    if n <= 0 {
        0
    } else {
        count_exact_upto(d, n - 1) + if d.is_exact[n - 1] {
            1int
        } else {
            0int
        }
    }
}

/// Key of the sixth criterion: the number of exact matches.  More exact
/// matches rank first.
pub open spec fn spec_exact(d: DocView) -> int {
    count_exact_upto(d, d.is_exact.len() as int)
}

proof fn lemma_count_exact_bounds(d: DocView, n: int)
    requires
        0 <= n <= d.is_exact.len(),
    ensures
        0 <= count_exact_upto(d, n) <= n,
    decreases n,
{
    if n > 0 {
        lemma_count_exact_bounds(d, n - 1);
    }
}

/// Sixth criterion: the number of exact matches.
pub fn exact(d: &RawDocument) -> (s: u64)
    requires
        d.wf(),
    ensures
        s as int == spec_exact(view_of(*d)),
{
    let n = d.is_exact.len();
    let mut s: u64 = 0;
    let mut i: usize = 0;
    while i < n
        invariant
            0 <= i <= n,
            n == d.is_exact.len(),
            s as int == count_exact_upto(view_of(*d), i as int),
            s <= i,
        decreases n - i,
    {
        if d.is_exact[i] {
            s += 1;
        }
        i += 1;
    }
    s
}

/// The value of criterion `k` (one through six) on a document.
pub open spec fn criterion_value(k: int, d: DocView) -> int {
    if k == 1 {
        spec_sum_of_typos(d)
    } else if k == 2 {
        spec_number_of_words(d)
    } else if k == 3 {
        spec_words_proximity(d)
    } else if k == 4 {
        spec_sum_of_words_attribute(d)
    } else if k == 5 {
        spec_sum_of_words_position(d)
    } else {
        spec_exact(d)
    }
}

/// Whether greater values of criterion `k` rank first (word count and exact
/// count) or smaller ones do (the four sums of penalties).
pub open spec fn criterion_prefers_greater(k: int) -> bool {
    k == 2 || k == 6
}

/// `a` strictly beats `b` on criterion `k`.
pub open spec fn criterion_favors(k: int, a: DocView, b: DocView) -> bool {
    if criterion_prefers_greater(k) {
        criterion_value(k, a) > criterion_value(k, b)
    } else {
        criterion_value(k, a) < criterion_value(k, b)
    }
}

/// The criteria cascade: the first criterion on which the two documents
/// differ decides; documents equal on all six compare as equal.
pub open spec fn spec_cmp_docs(a: DocView, b: DocView) -> Ordering {
    if criterion_favors(1, a, b) {
        Ordering::Less
    } else if criterion_favors(1, b, a) {
        Ordering::Greater
    } else if criterion_favors(2, a, b) {
        Ordering::Less
    } else if criterion_favors(2, b, a) {
        Ordering::Greater
    } else if criterion_favors(3, a, b) {
        Ordering::Less
    } else if criterion_favors(3, b, a) {
        Ordering::Greater
    } else if criterion_favors(4, a, b) {
        Ordering::Less
    } else if criterion_favors(4, b, a) {
        Ordering::Greater
    } else if criterion_favors(5, a, b) {
        Ordering::Less
    } else if criterion_favors(5, b, a) {
        Ordering::Greater
    } else if criterion_favors(6, a, b) {
        Ordering::Less
    } else if criterion_favors(6, b, a) {
        Ordering::Greater
    } else {
        Ordering::Equal
    }
}

/// Compare two documents through the criteria cascade.
pub fn cmp_docs(a: &RawDocument, b: &RawDocument) -> (o: Ordering)
    requires
        a.wf(),
        b.wf(),
    ensures
        o == spec_cmp_docs(view_of(*a), view_of(*b)),
{
    let ta = sum_of_typos(a);
    let tb = sum_of_typos(b);
    if ta != tb {
        return if ta < tb { Ordering::Less } else { Ordering::Greater };
    }
    let wa = number_of_words(a);
    let wb = number_of_words(b);
    if wa != wb {
        return if wa > wb { Ordering::Less } else { Ordering::Greater };
    }
    let pa = words_proximity(a);
    let pb = words_proximity(b);
    if pa != pb {
        return if pa < pb { Ordering::Less } else { Ordering::Greater };
    }
    let aa = sum_of_words_attribute(a);
    let ab = sum_of_words_attribute(b);
    if aa != ab {
        return if aa < ab { Ordering::Less } else { Ordering::Greater };
    }
    let oa = sum_of_words_position(a);
    let ob = sum_of_words_position(b);
    if oa != ob {
        return if oa < ob { Ordering::Less } else { Ordering::Greater };
    }
    let ea = exact(a);
    let eb = exact(b);
    if ea != eb {
        return if ea > eb { Ordering::Less } else { Ordering::Greater };
    }
    Ordering::Equal
}

/// Criterion monotonicity (law): when two documents tie on every criterion
/// before `k` and `k` strictly favors `a`, the cascade ranks `a` first.
pub proof fn lemma_criterion_monotonicity(a: DocView, b: DocView, k: int)
    requires
        1 <= k <= 6,
        forall|j: int| 1 <= j < k ==> #[trigger] criterion_value(j, a) == criterion_value(j, b),
        criterion_favors(k, a, b),
    ensures
        spec_cmp_docs(a, b) == Ordering::Less,
{
    assert forall|j: int| 1 <= j < k implies !criterion_favors(j, a, b) && !criterion_favors(j, b, a) by {
        assert(criterion_value(j, a) == criterion_value(j, b));
    }
}

/// `a` ranks at or before `b` under the cascade.
pub open spec fn doc_le(a: DocView, b: DocView) -> bool {
    spec_cmp_docs(a, b) != Ordering::Greater
}

/// Where a stable insertion puts a document among already ranked ones:
/// after every document that ranks at or before it.
pub open spec fn insert_pos_doc(s: Seq<DocView>, x: DocView) -> int
    decreases s.len(),
{
    if s.len() == 0 {
        0
    } else if doc_le(s[0], x) {
        1 + insert_pos_doc(s.drop_first(), x)
    } else {
        0
    }
}

pub open spec fn insert_doc(s: Seq<DocView>, x: DocView) -> Seq<DocView> {
    s.insert(insert_pos_doc(s, x), x)
}

/// The ranking, as a function: each document of the input, in order, is
/// inserted after those that rank at or before it, so ties keep their input
/// order and the result is unique.
pub open spec fn spec_rank_docs(s: Seq<DocView>) -> Seq<DocView>
    decreases s.len(),
{
    if s.len() == 0 {
        s
    } else {
        insert_doc(spec_rank_docs(s.drop_last()), s.last())
    }
}

proof fn lemma_insert_pos_doc_bounds(s: Seq<DocView>, x: DocView)
    ensures
        0 <= insert_pos_doc(s, x) <= s.len(),
    decreases s.len(),
{
    if s.len() > 0 && doc_le(s[0], x) {
        lemma_insert_pos_doc_bounds(s.drop_first(), x);
    }
}

/// A scan that passed every document ranking at or before `x` and stopped
/// at the first ranking after it found the stable insertion position.
proof fn lemma_insert_pos_doc_char(s: Seq<DocView>, x: DocView, j: int)
    requires
        0 <= j <= s.len(),
        forall|t: int| 0 <= t < j ==> doc_le(#[trigger] s[t], x),
        j < s.len() ==> !doc_le(s[j], x),
    ensures
        insert_pos_doc(s, x) == j,
    decreases s.len(),
{
    if s.len() > 0 && doc_le(s[0], x) {
        assert(j > 0);
        assert forall|t: int| 0 <= t < j - 1 implies doc_le(#[trigger] s.drop_first()[t], x) by {
            assert(s.drop_first()[t] == s[t + 1]);
        }
        assert(j - 1 < s.drop_first().len() ==> !doc_le(s.drop_first()[j - 1], x));
        lemma_insert_pos_doc_char(s.drop_first(), x, j - 1);
    }
}

/// The views of a sequence of records.
pub open spec fn views_of(s: Seq<RawDocument>) -> Seq<DocView> {
    s.map_values(|d: RawDocument| view_of(d))
}

/// The stable insertion position of a document among already ranked ones.
fn find_insert_pos(out: &Vec<RawDocument>, x: &RawDocument) -> (j: usize)
    requires
        x.wf(),
        forall|i: int| 0 <= i < out@.len() ==> (#[trigger] out@[i]).wf(),
    ensures
        0 <= j <= out@.len(),
        forall|t: int| 0 <= t < j ==> doc_le(view_of(#[trigger] out@[t]), view_of(*x)),
        (j as int) < out@.len() ==> !doc_le(view_of(out@[j as int]), view_of(*x)),
{
    let n = out.len();
    let mut j: usize = 0;
    while j < n
        invariant
            0 <= j <= n,
            n == out@.len(),
            x.wf(),
            forall|i: int| 0 <= i < out@.len() ==> (#[trigger] out@[i]).wf(),
            forall|t: int| 0 <= t < j ==> doc_le(view_of(#[trigger] out@[t]), view_of(*x)),
        decreases n - j,
    {
        let o = cmp_docs(&out[j], x);
        if matches!(o, Ordering::Greater) {
            return j;
        }
        j += 1;
    }
    j
}

/// Rank the documents: a stable sort through the criteria cascade.  The
/// ranked views are the unique reordering of the input views that is sorted
/// by the cascade with ties kept in input order.
pub fn rank_documents(docs: Vec<RawDocument>) -> (out: Vec<RawDocument>)
    requires
        forall|i: int| 0 <= i < docs@.len() ==> (#[trigger] docs@[i]).wf(),
    ensures
        views_of(out@) == spec_rank_docs(views_of(docs@)),
        out@.len() == docs@.len(),
        forall|i: int| 0 <= i < out@.len() ==> (#[trigger] out@[i]).wf(),
{
    let ghost orig = views_of(docs@);
    let mut rest = docs;
    let mut out: Vec<RawDocument> = Vec::new();
    let ghost mut done: Seq<DocView> = Seq::empty();
    while rest.len() > 0
        invariant
            orig =~= done + views_of(rest@),
            views_of(out@) == spec_rank_docs(done),
            out@.len() == done.len(),
            forall|i: int| 0 <= i < rest@.len() ==> (#[trigger] rest@[i]).wf(),
            forall|i: int| 0 <= i < out@.len() ==> (#[trigger] out@[i]).wf(),
        decreases rest@.len(),
    {
        let ghost restpre = rest@;
        let x = rest.remove(0);
        proof {
            assert(x == restpre[0]);
            assert(views_of(restpre)[0] == view_of(x));
            assert(orig =~= done.push(view_of(x)) + views_of(rest@)) by {
                assert forall|t: int| 0 <= t < views_of(rest@).len()
                    implies views_of(rest@)[t] == views_of(restpre)[t + 1] by {
                    assert(rest@[t] == restpre[t + 1]);
                }
            }
        }
        let ghost out0 = out@;
        let j = find_insert_pos(&out, &x);
        proof {
            assert forall|t: int| 0 <= t < j implies doc_le(#[trigger] views_of(out0)[t], view_of(x)) by {
                assert(views_of(out0)[t] == view_of(out0[t]));
            }
            assert((j as int) < out0.len() ==> !doc_le(views_of(out0)[j as int], view_of(x)));
            lemma_insert_pos_doc_char(views_of(out0), view_of(x), j as int);
        }
        out.insert(j, x);
        proof {
            let vx = view_of(x);
            let done1 = done.push(vx);
            assert(done1.drop_last() =~= done);
            assert(done1.last() == vx);
            lemma_insert_pos_doc_bounds(views_of(out0), vx);
            let pos = insert_pos_doc(views_of(out0), vx);
            out0.insert_ensures(j as int, x);
            views_of(out0).insert_ensures(pos, vx);
            assert(views_of(out@) =~= views_of(out0).insert(pos, vx)) by {
                assert forall|t: int| 0 <= t < out@.len()
                    implies views_of(out@)[t] == views_of(out0).insert(pos, vx)[t] by {
                    assert(views_of(out@)[t] == view_of(out@[t]));
                    if t < pos {
                        assert(out@[t] == out0[t]);
                        assert(views_of(out0)[t] == view_of(out0[t]));
                    } else if t == pos {
                        assert(out@[t] == x);
                    } else {
                        assert(out@[t] == out0[t - 1]);
                        assert(views_of(out0)[t - 1] == view_of(out0[t - 1]));
                    }
                }
            }
            assert(views_of(out@) == insert_doc(spec_rank_docs(done), vx));
            assert(views_of(out@) == spec_rank_docs(done1));
            assert forall|i: int| 0 <= i < out@.len() implies (#[trigger] out@[i]).wf() by {
                if i < pos {
                    assert(out@[i] == out0[i]);
                } else if i > pos {
                    assert(out@[i] == out0[i - 1]);
                }
            }
            done = done1;
        }
    }
    proof {
        assert(views_of(rest@).len() == 0);
        assert(done =~= orig);
    }
    out
}


/// The cascade order is total: when `a` does not rank at or before `b`,
/// `b` ranks strictly before `a`.
pub proof fn lemma_doc_le_total(a: DocView, b: DocView)
    ensures
        doc_le(a, b) || doc_le(b, a),
{
}

/// The cascade order is transitive.
pub proof fn lemma_doc_le_trans(a: DocView, b: DocView, c: DocView)
    requires
        doc_le(a, b),
        doc_le(b, c),
    ensures
        doc_le(a, c),
{
}

/// Ranked views, in order, never rank strictly after a later one.
pub open spec fn sorted_docs(s: Seq<DocView>) -> bool {
    forall|i: int, j: int| 0 <= i < j < s.len() ==> doc_le(#[trigger] s[i], #[trigger] s[j])
}

/// In a sorted sequence, the stable insertion position splits the entries
/// into those ranking at or before `x` and those ranking strictly after.
proof fn lemma_insert_pos_doc_split(s: Seq<DocView>, x: DocView)
    requires
        sorted_docs(s),
    ensures
        forall|t: int| 0 <= t < insert_pos_doc(s, x) ==> doc_le(#[trigger] s[t], x),
        forall|t: int| insert_pos_doc(s, x) <= t < s.len() ==> !doc_le(#[trigger] s[t], x),
    decreases s.len(),
{
    lemma_insert_pos_doc_bounds(s, x);
    if s.len() == 0 {
    } else if doc_le(s[0], x) {
        assert(sorted_docs(s.drop_first())) by {
            assert forall|i: int, j: int| 0 <= i < j < s.drop_first().len()
                implies doc_le(#[trigger] s.drop_first()[i], #[trigger] s.drop_first()[j]) by {
                assert(s.drop_first()[i] == s[i + 1]);
                assert(s.drop_first()[j] == s[j + 1]);
            }
        }
        lemma_insert_pos_doc_split(s.drop_first(), x);
        assert forall|t: int| insert_pos_doc(s, x) <= t < s.len()
            implies !doc_le(#[trigger] s[t], x) by {
            assert(s[t] == s.drop_first()[t - 1]);
        }
        assert forall|t: int| 0 <= t < insert_pos_doc(s, x)
            implies doc_le(#[trigger] s[t], x) by {
            if t > 0 {
                assert(s[t] == s.drop_first()[t - 1]);
            }
        }
    } else {
        assert forall|t: int| 0 <= t < s.len() implies !doc_le(#[trigger] s[t], x) by {
            if t > 0 && doc_le(s[t], x) {
                assert(doc_le(s[0], s[t]));
                lemma_doc_le_trans(s[0], s[t], x);
            }
        }
    }
}

/// Stable insertion keeps a ranked sequence ranked.
proof fn lemma_insert_doc_sorted(s: Seq<DocView>, x: DocView)
    requires
        sorted_docs(s),
    ensures
        sorted_docs(insert_doc(s, x)),
        insert_doc(s, x).len() == s.len() + 1,
{
    lemma_insert_pos_doc_bounds(s, x);
    lemma_insert_pos_doc_split(s, x);
    let pos = insert_pos_doc(s, x);
    let r = insert_doc(s, x);
    s.insert_ensures(pos, x);
    assert forall|i: int, j: int| 0 <= i < j < r.len() implies doc_le(#[trigger] r[i], #[trigger] r[j]) by {
        if i < pos {
            assert(r[i] == s[i]);
        } else if i == pos {
            assert(r[i] == x);
        } else {
            assert(r[i] == s[i - 1]);
        }
        if j < pos {
            assert(r[j] == s[j]);
        } else if j == pos {
            assert(r[j] == x);
        } else {
            assert(r[j] == s[j - 1]);
        }
        if i == pos && j > pos {
            lemma_doc_le_total(s[j - 1], x);
        }
    }
}

/// The ranking is sorted by the cascade (law): every ranked view ranks at
/// or before those after it, and nothing is gained or lost.
pub proof fn lemma_rank_docs_sorted(s: Seq<DocView>)
    ensures
        sorted_docs(spec_rank_docs(s)),
        spec_rank_docs(s).len() == s.len(),
    decreases s.len(),
{
    if s.len() > 0 {
        lemma_rank_docs_sorted(s.drop_last());
        lemma_insert_doc_sorted(spec_rank_docs(s.drop_last()), s.last());
    }
}

/// Ranking is a function of its input (law): two runs of the pipeline on
/// identical inputs rank them identically.
pub proof fn lemma_ranking_deterministic(s: Seq<DocView>, r1: Seq<DocView>, r2: Seq<DocView>)
    requires
        r1 == spec_rank_docs(s),
        r2 == spec_rank_docs(s),
    ensures
        r1 == r2,
{
}

} // verus!
