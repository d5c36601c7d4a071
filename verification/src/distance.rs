//! Edit distance between a query token and an indexed word, with a prefix
//! variant for query-as-you-type matching of the final token.

use vstd::prelude::*;

verus! {

pub open spec fn min2(x: int, y: int) -> int {
    if x <= y {
        x
    } else {
        y
    }
}

/// The Levenshtein edit distance: the least number of byte insertions,
/// deletions and substitutions turning `a` into `b`.
pub open spec fn lev(a: Seq<u8>, b: Seq<u8>) -> int
    decreases a.len() + b.len(),
{
    if a.len() == 0 {
        b.len() as int
    } else if b.len() == 0 {
        a.len() as int
    } else if a.last() == b.last() {
        lev(a.drop_last(), b.drop_last())
    } else {
        1 + min2(
            min2(lev(a.drop_last(), b), lev(a, b.drop_last())),
            lev(a.drop_last(), b.drop_last()),
        )
    }
}

pub proof fn lemma_lev_bounds(a: Seq<u8>, b: Seq<u8>)
    ensures
        0 <= lev(a, b),
        lev(a, b) <= if a.len() >= b.len() { a.len() as int } else { b.len() as int },
    decreases a.len() + b.len(),
{
    if a.len() == 0 || b.len() == 0 {
    } else {
        lemma_lev_bounds(a.drop_last(), b.drop_last());
        lemma_lev_bounds(a.drop_last(), b);
        lemma_lev_bounds(a, b.drop_last());
    }
}

/// The distance of prefixes follows the textbook recurrence.
proof fn lemma_lev_step(a: Seq<u8>, b: Seq<u8>, i: int, j: int)
    requires
        1 <= i <= a.len(),
        1 <= j <= b.len(),
    ensures
        lev(a.take(i), b.take(j)) == if a[i - 1] == b[j - 1] {
            lev(a.take(i - 1), b.take(j - 1))
        } else {
            1 + min2(
                min2(lev(a.take(i - 1), b.take(j)), lev(a.take(i), b.take(j - 1))),
                lev(a.take(i - 1), b.take(j - 1)),
            )
        },
{
    let ta = a.take(i);
    let tb = b.take(j);
    assert(ta.len() == i && tb.len() == j);
    assert(ta.last() == a[i - 1]);
    assert(tb.last() == b[j - 1]);
    assert(ta.drop_last() =~= a.take(i - 1));
    assert(tb.drop_last() =~= b.take(j - 1));
}

/// The final row of the distance table: entry `j` is the distance between
/// the whole of `a` and the first `j` bytes of `b`.
fn lev_row(a: &Vec<u8>, b: &Vec<u8>) -> (row: Vec<usize>)
    ensures
        row@.len() == b@.len() + 1,
        forall|j: int| 0 <= j <= b@.len() ==> (#[trigger] row@[j]) as int == lev(a@, b@.take(j)),
{
    let n = a.len();
    let m = b.len();
    let mut prev: Vec<usize> = Vec::new();
    prev.push(0);
    proof {
        assert(a@.take(0).len() == 0);
        assert(b@.take(0).len() == 0);
    }
    let mut j: usize = 0;
    while j < m
        invariant
            0 <= j <= m,
            m == b@.len(),
            prev@.len() == j + 1,
            forall|t: int| 0 <= t <= j ==> (#[trigger] prev@[t]) as int == lev(a@.take(0), b@.take(t)),
        decreases m - j,
    {
        proof {
            assert(a@.take(0).len() == 0);
            assert(b@.take(j + 1).len() == j + 1);
        }
        prev.push(j + 1);
        j += 1;
    }
    let mut i: usize = 0;
    while i < n
        invariant
            0 <= i <= n,
            n == a@.len(),
            m == b@.len(),
            prev@.len() == m + 1,
            forall|t: int| 0 <= t <= m ==> (#[trigger] prev@[t]) as int == lev(a@.take(i as int), b@.take(t)),
        decreases n - i,
    {
        let mut cur: Vec<usize> = Vec::new();
        proof {
            assert(b@.take(0).len() == 0);
            assert(a@.take(i + 1).len() == i + 1);
        }
        cur.push(i + 1);
        let mut j: usize = 0;
        while j < m
            invariant
                0 <= j <= m,
                0 <= i < n,
                n == a@.len(),
                m == b@.len(),
                prev@.len() == m + 1,
                forall|t: int| 0 <= t <= m ==> (#[trigger] prev@[t]) as int == lev(a@.take(i as int), b@.take(t)),
                cur@.len() == j + 1,
                forall|t: int| 0 <= t <= j ==> (#[trigger] cur@[t]) as int == lev(a@.take(i + 1), b@.take(t)),
            decreases m - j,
        {
            proof {
                lemma_lev_step(a@, b@, i + 1, j + 1);
                lemma_lev_bounds(a@.take(i as int), b@.take(j as int));
                lemma_lev_bounds(a@.take(i as int), b@.take(j + 1));
                lemma_lev_bounds(a@.take(i + 1), b@.take(j as int));
            }
            let v: usize = if a[i] == b[j] {
                prev[j]
            } else {
                let mut w = prev[j + 1];
                if cur[j] < w {
                    w = cur[j];
                }
                if prev[j] < w {
                    w = prev[j];
                }
                w + 1
            };
            cur.push(v);
            j += 1;
        }
        prev = cur;
        i += 1;
    }
    proof {
        assert(a@.take(n as int) =~= a@);
    }
    prev
}

/// The edit distance between a query token and an indexed word.
pub fn edit_distance(a: &Vec<u8>, b: &Vec<u8>) -> (d: usize)
    ensures
        d as int == lev(a@, b@),
{
    let row = lev_row(a, b);
    proof {
        assert(b@.take(b@.len() as int) =~= b@);
    }
    row[b.len()]
}

/// The least distance between `a` and any prefix of `b`, over prefixes of
/// length at most `j`.
pub open spec fn plev_upto(a: Seq<u8>, b: Seq<u8>, j: int) -> int
    decreases j,
{
    if j <= 0 {
        lev(a, b.take(0))
    } else {
        min2(plev_upto(a, b, j - 1), lev(a, b.take(j)))
    }
}

/// The least edit distance between the final query token and any prefix of
/// the indexed word: query-as-you-type tolerance.
pub open spec fn prefix_lev(a: Seq<u8>, b: Seq<u8>) -> int {
    plev_upto(a, b, b.len() as int)
}

pub proof fn lemma_prefix_lev_bounds(a: Seq<u8>, b: Seq<u8>, j: int)
    requires
        0 <= j <= b.len(),
    ensures
        0 <= plev_upto(a, b, j) <= a.len(),
    decreases j,
{
    lemma_lev_bounds(a, b.take(j));
    assert(b.take(j).len() == j);
    if j > 0 {
        lemma_prefix_lev_bounds(a, b, j - 1);
    } else {
        assert(b.take(0).len() == 0);
        if a.len() > 0 {
            assert(lev(a, b.take(0)) == a.len());
        }
    }
}

/// The least edit distance between `a` and any prefix of `b`.
pub fn prefix_edit_distance(a: &Vec<u8>, b: &Vec<u8>) -> (d: usize)
    ensures
        d as int == prefix_lev(a@, b@),
{
    let row = lev_row(a, b);
    let m = b.len();
    let mut d = row[0];
    let mut j: usize = 0;
    while j < m
        invariant
            0 <= j <= m,
            m == b@.len(),
            row@.len() == m + 1,
            forall|t: int| 0 <= t <= m ==> (#[trigger] row@[t]) as int == lev(a@, b@.take(t)),
            d as int == plev_upto(a@, b@, j as int),
        decreases m - j,
    {
        if row[j + 1] < d {
            d = row[j + 1];
        }
        j += 1;
    }
    d
}

} // verus!
