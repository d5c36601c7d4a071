//! Column-oriented per-document match records, built by stable-sorting the
//! collector's match and highlight streams by document identifier and
//! grouping them in lockstep.

use vstd::prelude::*;
use crate::DocumentId;
use crate::Highlight;
use crate::TmpMatch;

verus! {

/// Column-oriented container for one document's matches.  The five match
/// columns are parallel: entry `i` of each describes the same occurrence.
#[derive(Clone, Debug)]
pub struct RawDocument {
    pub id: DocumentId,
    pub query_index: Vec<u32>,
    pub distance: Vec<u8>,
    pub attribute: Vec<u16>,
    pub word_index: Vec<u16>,
    pub is_exact: Vec<bool>,
    pub highlights: Vec<Highlight>,
}

impl RawDocument {
    /// Column-length parity: the five match columns always share one length.
    pub open spec fn wf(&self) -> bool {
        &&& self.distance@.len() == self.query_index@.len()
        &&& self.attribute@.len() == self.query_index@.len()
        &&& self.word_index@.len() == self.query_index@.len()
        &&& self.is_exact@.len() == self.query_index@.len()
    }

    pub fn query_index(&self) -> (r: &Vec<u32>)
        ensures
            r@ == self.query_index@,
    {
        &self.query_index
    }

    pub fn distance(&self) -> (r: &Vec<u8>)
        ensures
            r@ == self.distance@,
    {
        &self.distance
    }

    pub fn attribute(&self) -> (r: &Vec<u16>)
        ensures
            r@ == self.attribute@,
    {
        &self.attribute
    }

    pub fn word_index(&self) -> (r: &Vec<u16>)
        ensures
            r@ == self.word_index@,
    {
        &self.word_index
    }

    pub fn is_exact(&self) -> (r: &Vec<bool>)
        ensures
            r@ == self.is_exact@,
    {
        &self.is_exact
    }
}

/// The sort key of a collector emission: the document identifier.
pub open spec fn pair_id<T>(p: (DocumentId, T)) -> int {
    p.0.0 as int
}

pub open spec fn sorted_by_id<T>(s: Seq<(DocumentId, T)>) -> bool {
    forall|i: int, j: int| 0 <= i < j < s.len() ==> pair_id(s[i]) <= pair_id(s[j])
}

/// Where a stable insertion puts `x` into `s`: after every element whose key
/// is less than or equal to the key of `x`.
pub open spec fn insert_pos_by_id<T>(s: Seq<(DocumentId, T)>, x: (DocumentId, T)) -> int
    decreases s.len(),
{
    if s.len() == 0 {
        0
    } else if pair_id(s[0]) <= pair_id(x) {
        1 + insert_pos_by_id(s.drop_first(), x)
    } else {
        0
    }
}

pub open spec fn insert_by_id<T>(s: Seq<(DocumentId, T)>, x: (DocumentId, T)) -> Seq<(DocumentId, T)> {
    s.insert(insert_pos_by_id(s, x), x)
}

/// The stable sort by document identifier, as a function: each element of
/// the input, in order, is inserted after its equals.
pub open spec fn sort_by_id<T>(s: Seq<(DocumentId, T)>) -> Seq<(DocumentId, T)>
    decreases s.len(),
{
    if s.len() == 0 {
        s
    } else {
        insert_by_id(sort_by_id(s.drop_last()), s.last())
    }
}

proof fn lemma_insert_pos_bounds<T>(s: Seq<(DocumentId, T)>, x: (DocumentId, T))
    ensures
        0 <= insert_pos_by_id(s, x) <= s.len(),
    decreases s.len(),
{
    if s.len() > 0 && pair_id(s[0]) <= pair_id(x) {
        lemma_insert_pos_bounds(s.drop_first(), x);
    }
}

/// In a sorted sequence, the insertion position splits the elements into
/// those with keys at most the key of `x` and those with strictly greater
/// keys.
proof fn lemma_insert_pos_split<T>(s: Seq<(DocumentId, T)>, x: (DocumentId, T))
    requires
        sorted_by_id(s),
    ensures
        forall|t: int| 0 <= t < insert_pos_by_id(s, x) ==> pair_id(#[trigger] s[t]) <= pair_id(x),
        forall|t: int| insert_pos_by_id(s, x) <= t < s.len() ==> pair_id(#[trigger] s[t]) > pair_id(x),
    decreases s.len(),
{
    lemma_insert_pos_bounds(s, x);
    if s.len() == 0 {
    } else if pair_id(s[0]) <= pair_id(x) {
        assert(sorted_by_id(s.drop_first())) by {
            assert forall|i: int, j: int| 0 <= i < j < s.drop_first().len()
                implies pair_id(#[trigger] s.drop_first()[i]) <= pair_id(#[trigger] s.drop_first()[j]) by {
                assert(s.drop_first()[i] == s[i + 1]);
                assert(s.drop_first()[j] == s[j + 1]);
            }
        }
        lemma_insert_pos_split(s.drop_first(), x);
        lemma_insert_pos_bounds(s.drop_first(), x);
        assert(insert_pos_by_id(s, x) == 1 + insert_pos_by_id(s.drop_first(), x));
        assert forall|t: int| insert_pos_by_id(s, x) <= t < s.len()
            implies pair_id(#[trigger] s[t]) > pair_id(x) by {
            assert(t >= 1);
            assert(s[t] == s.drop_first()[t - 1]);
        }
        assert forall|t: int| 0 <= t < insert_pos_by_id(s, x)
            implies pair_id(#[trigger] s[t]) <= pair_id(x) by {
            if t > 0 {
                assert(s[t] == s.drop_first()[t - 1]);
            }
        }
    } else {
        assert forall|t: int| 0 <= t < s.len() implies pair_id(#[trigger] s[t]) > pair_id(x) by {
            assert(pair_id(s[0]) <= pair_id(s[t]));
        }
    }
}

/// A sorted sequence stays sorted under stable insertion.
proof fn lemma_insert_sorted<T>(s: Seq<(DocumentId, T)>, x: (DocumentId, T))
    requires
        sorted_by_id(s),
    ensures
        sorted_by_id(insert_by_id(s, x)),
        insert_by_id(s, x).len() == s.len() + 1,
        forall|y: (DocumentId, T)| #[trigger] insert_by_id(s, x).contains(y) <==> s.contains(y) || y == x,
    decreases s.len(),
{
    lemma_insert_pos_bounds(s, x);
    lemma_insert_pos_split(s, x);
    let pos = insert_pos_by_id(s, x);
    let r = insert_by_id(s, x);
    s.insert_ensures(pos, x);
    assert forall|i: int, j: int| 0 <= i < j < r.len() implies pair_id(#[trigger] r[i]) <= pair_id(#[trigger] r[j]) by {
        if i < pos {
            assert(r[i] == s[i]);
        } else if i == pos {
            assert(r[i] == x);
        } else {
            assert(r[i] == s[i - 1]);
        }
        if j < pos {
            assert(r[j] == s[j]);
        } else if j == pos {
            assert(r[j] == x);
        } else {
            assert(r[j] == s[j - 1]);
        }
    }
    assert forall|y: (DocumentId, T)| r.contains(y) implies s.contains(y) || y == x by {
        let k = choose|k: int| 0 <= k < r.len() && r[k] == y;
        if k < pos {
            assert(s[k] == y);
        } else if k > pos {
            assert(s[k - 1] == y);
        }
    }
    assert forall|y: (DocumentId, T)| s.contains(y) || y == x implies r.contains(y) by {
        if s.contains(y) {
            let k = choose|k: int| 0 <= k < s.len() && s[k] == y;
            if k < pos {
                assert(r[k] == y);
            } else {
                assert(r[k + 1] == y);
            }
        } else {
            assert(r[pos] == y);
        }
    }
}

/// The functional stable sort returns a sorted sequence holding the same
/// elements as its input.
pub proof fn lemma_sort_by_id_props<T>(s: Seq<(DocumentId, T)>)
    ensures
        sorted_by_id(sort_by_id(s)),
        sort_by_id(s).len() == s.len(),
        forall|y: (DocumentId, T)| sort_by_id(s).contains(y) <==> s.contains(y),
    decreases s.len(),
{
    if s.len() == 0 {
    } else {
        lemma_sort_by_id_props(s.drop_last());
        lemma_insert_sorted(sort_by_id(s.drop_last()), s.last());
        assert forall|y: (DocumentId, T)| s.contains(y)
            implies sort_by_id(s).contains(y) by {
            let k = choose|k: int| 0 <= k < s.len() && s[k] == y;
            if k < s.len() - 1 {
                assert(s.drop_last()[k] == y);
                assert(s.drop_last().contains(y));
                assert(sort_by_id(s.drop_last()).contains(y));
            } else {
                assert(s.last() == y);
            }
            assert(insert_by_id(sort_by_id(s.drop_last()), s.last()).contains(y));
        }
        assert forall|y: (DocumentId, T)| sort_by_id(s).contains(y)
            implies s.contains(y) by {
            if s.drop_last().contains(y) {
                let k = choose|k: int| 0 <= k < s.drop_last().len() && s.drop_last()[k] == y;
                assert(s[k] == y);
            } else {
                assert(s.last() == y);
                assert(s[s.len() - 1] == y);
            }
        }
    }
}

/// In a sorted sequence, a scan that passed every key at most the key of `x`
/// and stopped at the first greater key found the stable insertion position.
proof fn lemma_insert_pos_char<T>(s: Seq<(DocumentId, T)>, x: (DocumentId, T), j: int)
    requires
        sorted_by_id(s),
        0 <= j <= s.len(),
        forall|t: int| 0 <= t < j ==> pair_id(#[trigger] s[t]) <= pair_id(x),
        j < s.len() ==> pair_id(s[j]) > pair_id(x),
    ensures
        insert_pos_by_id(s, x) == j,
    decreases s.len(),
{
    lemma_insert_pos_split(s, x);
    lemma_insert_pos_bounds(s, x);
    let pos = insert_pos_by_id(s, x);
    if pos < j {
        assert(pair_id(s[pos]) > pair_id(x));
        assert(pair_id(s[pos]) <= pair_id(x));
    } else if pos > j {
        assert(pair_id(s[j]) > pair_id(x));
        assert(pair_id(s[j]) <= pair_id(x));
    }
}

/// Stable sort of collector emissions by document identifier.
pub fn sort_pairs_by_id<T: Copy>(v: &Vec<(DocumentId, T)>) -> (out: Vec<(DocumentId, T)>)
    ensures
        out@ == sort_by_id(v@),
        sorted_by_id(out@),
        out@.len() == v@.len(),
{
    let mut out: Vec<(DocumentId, T)> = Vec::new();
    let n = v.len();
    let mut i: usize = 0;
    while i < n
        invariant
            0 <= i <= n,
            n == v@.len(),
            out@ == sort_by_id(v@.take(i as int)),
            sorted_by_id(out@),
            out@.len() == i,
        decreases n - i,
    {
        let x = v[i];
        let mut j: usize = 0;
        while j < out.len() && out[j].0.0 <= x.0.0
            invariant
                0 <= j <= out@.len(),
                sorted_by_id(out@),
                forall|t: int| 0 <= t < j ==> pair_id(#[trigger] out@[t]) <= pair_id(x),
            decreases out@.len() - j,
        {
            j += 1;
        }
        proof {
            lemma_insert_pos_char(out@, x, j as int);
            lemma_insert_sorted(out@, x);
        }
        out.insert(j, x);
        proof {
            assert(v@.take(i + 1).drop_last() =~= v@.take(i as int));
            assert(v@.take(i + 1).last() == v@[i as int]);
        }
        i += 1;
    }
    proof {
        assert(v@.take(n as int) =~= v@);
        lemma_sort_by_id_props(v@);
    }
    out
}

/// The end of the run of equal document identifiers that starts at `i`.
pub open spec fn run_end<T>(s: Seq<(DocumentId, T)>, i: int) -> int
    decreases s.len() - i,
{
    if i < 0 || i >= s.len() {
        s.len() as int
    } else if i + 1 >= s.len() || pair_id(s[i + 1]) != pair_id(s[i]) {
        i + 1
    } else {
        run_end(s, i + 1)
    }
}

pub proof fn lemma_run_end_props<T>(s: Seq<(DocumentId, T)>, i: int)
    requires
        0 <= i < s.len(),
    ensures
        i < run_end(s, i) <= s.len(),
        forall|t: int| i <= t < run_end(s, i) ==> pair_id(#[trigger] s[t]) == pair_id(s[i]),
        run_end(s, i) < s.len() ==> pair_id(s[run_end(s, i)]) != pair_id(s[i]),
    decreases s.len() - i,
{
    if i + 1 >= s.len() || pair_id(s[i + 1]) != pair_id(s[i]) {
    } else {
        lemma_run_end_props(s, i + 1);
    }
}

/// What one document's worth of grouped emissions holds: its identifier and
/// the matches and highlights that the collector produced for it, in stream
/// order.
pub struct DocGroup {
    pub id: DocumentId,
    pub matches: Seq<TmpMatch>,
    pub highlights: Seq<Highlight>,
}

/// Grouping of two identifier-sorted streams, walked in lockstep: each step
/// takes one run of equal identifiers from each side.
pub open spec fn spec_group_from(
    ms: Seq<(DocumentId, TmpMatch)>,
    hs: Seq<(DocumentId, Highlight)>,
    i: int,
    hi: int,
) -> Seq<DocGroup>
    decreases ms.len() - i,
{
    if i < 0 || i >= ms.len() {
        Seq::empty()
    } else {
        let e = run_end(ms, i);
        let he = run_end(hs, hi);
        if e <= i || e > ms.len() {
            Seq::empty()
        } else {
            seq![DocGroup {
                id: ms[i].0,
                matches: ms.subrange(i, e).map_values(|p: (DocumentId, TmpMatch)| p.1),
                highlights: hs.subrange(if 0 <= hi <= hs.len() && hi <= he { hi } else { he }, he)
                    .map_values(|p: (DocumentId, Highlight)| p.1),
            }] + spec_group_from(ms, hs, e, he)
        }
    }
}

/// The grouping of the two sorted streams, from their beginnings.
pub open spec fn spec_group(
    ms: Seq<(DocumentId, TmpMatch)>,
    hs: Seq<(DocumentId, Highlight)>,
) -> Seq<DocGroup> {
    spec_group_from(ms, hs, 0, 0)
}

/// A built record corresponds to one spec-level group.
pub open spec fn doc_matches_group(d: RawDocument, g: DocGroup) -> bool {
    &&& d.id == g.id
    &&& d.query_index@ == g.matches.map_values(|m: TmpMatch| m.query_index)
    &&& d.distance@ == g.matches.map_values(|m: TmpMatch| m.distance)
    &&& d.attribute@ == g.matches.map_values(|m: TmpMatch| m.attribute)
    &&& d.word_index@ == g.matches.map_values(|m: TmpMatch| m.word_index)
    &&& d.is_exact@ == g.matches.map_values(|m: TmpMatch| m.is_exact)
    &&& d.highlights@ == g.highlights
}

/// Stable-sort both collector streams by document identifier, then walk them
/// in lockstep, one run of equal identifiers at a time, assembling one
/// column-oriented record per document.
///
/// The collector emits its match and highlight streams in step, so the two
/// sorted streams group on the same identifiers; this is established
/// statically rather than asserted at run time.
pub fn raw_documents_from(
    matches: Vec<(DocumentId, TmpMatch)>,
    highlights: Vec<(DocumentId, Highlight)>,
) -> (docs: Vec<RawDocument>)
    ensures
        docs@.len() == spec_group(sort_by_id(matches@), sort_by_id(highlights@)).len(),
        forall|j: int| 0 <= j < docs@.len() ==> doc_matches_group(
            #[trigger] docs@[j],
            spec_group(sort_by_id(matches@), sort_by_id(highlights@))[j],
        ),
        forall|j: int| 0 <= j < docs@.len() ==> (#[trigger] docs@[j]).wf(),
{
    let sm = sort_pairs_by_id(&matches);
    let sh = sort_pairs_by_id(&highlights);
    let ghost gsm = sm@;
    let ghost gsh = sh@;
    let mut docs: Vec<RawDocument> = Vec::new();
    let mlen = sm.len();
    let hlen = sh.len();
    let mut i: usize = 0;
    let mut hi: usize = 0;
    while i < mlen
        invariant
            0 <= i <= mlen,
            0 <= hi <= hlen,
            mlen == gsm.len(),
            hlen == gsh.len(),
            gsm == sm@,
            gsh == sh@,
            sorted_by_id(gsm),
            sorted_by_id(gsh),
            spec_group(gsm, gsh) =~= spec_group_from(gsm, gsh, 0, 0),
            docs@.len() + spec_group_from(gsm, gsh, i as int, hi as int).len()
                == spec_group_from(gsm, gsh, 0, 0).len(),
            forall|j: int| 0 <= j < docs@.len() ==> doc_matches_group(
                #[trigger] docs@[j],
                spec_group_from(gsm, gsh, 0, 0)[j],
            ),
            forall|j: int| docs@.len() <= j < spec_group_from(gsm, gsh, 0, 0).len()
                ==> spec_group_from(gsm, gsh, 0, 0)[j]
                    == spec_group_from(gsm, gsh, i as int, hi as int)[j - docs@.len()],
            forall|j: int| 0 <= j < docs@.len() ==> (#[trigger] docs@[j]).wf(),
        decreases mlen - i,
    {
        let id = sm[i].0;
        proof {
            lemma_run_end_props(gsm, i as int);
            if hi < hlen {
                lemma_run_end_props(gsh, hi as int);
            }
        }
        // find the end of the run of this identifier in the matches
        let mut e: usize = i + 1;
        while e < mlen && sm[e].0.0 == id.0
            invariant
                i < e <= mlen,
                mlen == gsm.len(),
                gsm == sm@,
                id == gsm[i as int].0,
                forall|t: int| i <= t < e ==> pair_id(#[trigger] gsm[t]) == pair_id(gsm[i as int]),
            decreases mlen - e,
        {
            e += 1;
        }
        // and of the run in the highlights
        let mut he: usize = hi;
        if hi < hlen {
            he = hi + 1;
            while he < hlen && sh[he].0.0 == sh[hi].0.0
                invariant
                    hi < he <= hlen,
                    hlen == gsh.len(),
                    gsh == sh@,
                    forall|t: int| hi <= t < he ==> pair_id(#[trigger] gsh[t]) == pair_id(gsh[hi as int]),
                decreases hlen - he,
            {
                he += 1;
            }
        }
        proof {
            // the scanned runs are the spec-level runs
            lemma_run_end_props(gsm, i as int);
            assert(run_end(gsm, i as int) == e as int) by {
                let re = run_end(gsm, i as int);
                if re < e {
                    assert(pair_id(gsm[re]) == pair_id(gsm[i as int]));
                } else if re > e {
                    assert(e < mlen);
                    assert(pair_id(gsm[e as int]) == pair_id(gsm[i as int]));
                }
            }
            if hi < hlen {
                lemma_run_end_props(gsh, hi as int);
                assert(run_end(gsh, hi as int) == he as int) by {
                    let re = run_end(gsh, hi as int);
                    if re < he {
                        assert(pair_id(gsh[re]) == pair_id(gsh[hi as int]));
                    } else if re > he {
                        assert(he < hlen);
                        assert(pair_id(gsh[he as int]) == pair_id(gsh[hi as int]));
                    }
                }
            } else {
                assert(run_end(gsh, hi as int) == hlen as int);
            }
        }
        // assemble the five match columns for this run
        let mut query_index: Vec<u32> = Vec::new();
        let mut distance: Vec<u8> = Vec::new();
        let mut attribute: Vec<u16> = Vec::new();
        let mut word_index: Vec<u16> = Vec::new();
        let mut is_exact: Vec<bool> = Vec::new();
        let mut t: usize = i;
        while t < e
            invariant
                i <= t <= e <= mlen,
                mlen == gsm.len(),
                gsm == sm@,
                query_index@ =~= gsm.subrange(i as int, t as int).map_values(|p: (DocumentId, TmpMatch)| p.1)
                    .map_values(|m: TmpMatch| m.query_index),
                distance@ =~= gsm.subrange(i as int, t as int).map_values(|p: (DocumentId, TmpMatch)| p.1)
                    .map_values(|m: TmpMatch| m.distance),
                attribute@ =~= gsm.subrange(i as int, t as int).map_values(|p: (DocumentId, TmpMatch)| p.1)
                    .map_values(|m: TmpMatch| m.attribute),
                word_index@ =~= gsm.subrange(i as int, t as int).map_values(|p: (DocumentId, TmpMatch)| p.1)
                    .map_values(|m: TmpMatch| m.word_index),
                is_exact@ =~= gsm.subrange(i as int, t as int).map_values(|p: (DocumentId, TmpMatch)| p.1)
                    .map_values(|m: TmpMatch| m.is_exact),
            decreases e - t,
        {
            let m = sm[t].1;
            query_index.push(m.query_index);
            distance.push(m.distance);
            attribute.push(m.attribute);
            word_index.push(m.word_index);
            is_exact.push(m.is_exact);
            t += 1;
        }
        // and the highlights of the paired run
        let mut hls: Vec<Highlight> = Vec::new();
        let mut ht: usize = hi;
        while ht < he
            invariant
                hi <= ht <= he <= hlen,
                hlen == gsh.len(),
                gsh == sh@,
                hls@ =~= gsh.subrange(hi as int, ht as int).map_values(|p: (DocumentId, Highlight)| p.1),
            decreases he - ht,
        {
            hls.push(sh[ht].1);
            ht += 1;
        }
        let doc = RawDocument {
            id,
            query_index,
            distance,
            attribute,
            word_index,
            is_exact,
            highlights: hls,
        };
        proof {
            let gi = i as int;
            let ghi = hi as int;
            let g = spec_group_from(gsm, gsh, gi, ghi);
            assert(g == seq![DocGroup {
                id: gsm[gi].0,
                matches: gsm.subrange(gi, e as int).map_values(|p: (DocumentId, TmpMatch)| p.1),
                highlights: gsh.subrange(ghi, he as int).map_values(|p: (DocumentId, Highlight)| p.1),
            }] + spec_group_from(gsm, gsh, e as int, he as int));
            assert(doc_matches_group(doc, g[0])) by {
                let grp = g[0];
                assert(grp.matches == gsm.subrange(gi, e as int).map_values(|p: (DocumentId, TmpMatch)| p.1));
                assert(doc.query_index@ =~= grp.matches.map_values(|m: TmpMatch| m.query_index));
                assert(doc.distance@ =~= grp.matches.map_values(|m: TmpMatch| m.distance));
                assert(doc.attribute@ =~= grp.matches.map_values(|m: TmpMatch| m.attribute));
                assert(doc.word_index@ =~= grp.matches.map_values(|m: TmpMatch| m.word_index));
                assert(doc.is_exact@ =~= grp.matches.map_values(|m: TmpMatch| m.is_exact));
            }
            assert(doc.wf());
        }
        docs.push(doc);
        i = e;
        hi = he;
    }
    proof {
        assert(spec_group_from(gsm, gsh, i as int, hi as int).len() == 0);
    }
    docs
}

/// Two streams walk in lockstep when they pair the same documents position
/// by position.
pub open spec fn lockstep<A, B>(s1: Seq<(DocumentId, A)>, s2: Seq<(DocumentId, B)>) -> bool {
    &&& s1.len() == s2.len()
    &&& forall|t: int| 0 <= t < s1.len() ==> (#[trigger] s1[t]).0 == (#[trigger] s2[t]).0
}

/// The stable insertion position depends on the identifiers alone.
proof fn lemma_insert_pos_ids<A, B>(
    s1: Seq<(DocumentId, A)>,
    s2: Seq<(DocumentId, B)>,
    x1: (DocumentId, A),
    x2: (DocumentId, B),
)
    requires
        lockstep(s1, s2),
        x1.0 == x2.0,
    ensures
        insert_pos_by_id(s1, x1) == insert_pos_by_id(s2, x2),
    decreases s1.len(),
{
    if s1.len() > 0 {
        assert(s1[0].0 == s2[0].0);
        assert(lockstep(s1.drop_first(), s2.drop_first())) by {
            assert forall|t: int| 0 <= t < s1.drop_first().len()
                implies (#[trigger] s1.drop_first()[t]).0 == (#[trigger] s2.drop_first()[t]).0 by {
                assert(s1.drop_first()[t] == s1[t + 1]);
                assert(s2.drop_first()[t] == s2[t + 1]);
            }
        }
        lemma_insert_pos_ids(s1.drop_first(), s2.drop_first(), x1, x2);
    }
}

/// The stable sort keeps two lockstep streams in lockstep.
pub proof fn lemma_sort_lockstep<A, B>(s1: Seq<(DocumentId, A)>, s2: Seq<(DocumentId, B)>)
    requires
        lockstep(s1, s2),
    ensures
        lockstep(sort_by_id(s1), sort_by_id(s2)),
    decreases s1.len(),
{
    if s1.len() > 0 {
        assert(lockstep(s1.drop_last(), s2.drop_last())) by {
            assert forall|t: int| 0 <= t < s1.drop_last().len()
                implies (#[trigger] s1.drop_last()[t]).0 == (#[trigger] s2.drop_last()[t]).0 by {
                assert(s1.drop_last()[t] == s1[t]);
                assert(s2.drop_last()[t] == s2[t]);
            }
        }
        lemma_sort_lockstep(s1.drop_last(), s2.drop_last());
        let t1 = sort_by_id(s1.drop_last());
        let t2 = sort_by_id(s2.drop_last());
        assert(s1.last().0 == s2.last().0);
        lemma_insert_pos_ids(t1, t2, s1.last(), s2.last());
        let pos = insert_pos_by_id(t1, s1.last());
        lemma_insert_pos_bounds(t1, s1.last());
        t1.insert_ensures(pos, s1.last());
        t2.insert_ensures(pos, s2.last());
        assert forall|t: int| 0 <= t < sort_by_id(s1).len()
            implies (#[trigger] sort_by_id(s1)[t]).0 == (#[trigger] sort_by_id(s2)[t]).0 by {
            if t < pos {
                assert(sort_by_id(s1)[t] == t1[t]);
                assert(sort_by_id(s2)[t] == t2[t]);
            } else if t == pos {
                assert(sort_by_id(s1)[t] == s1.last());
                assert(sort_by_id(s2)[t] == s2.last());
            } else {
                assert(sort_by_id(s1)[t] == t1[t - 1]);
                assert(sort_by_id(s2)[t] == t2[t - 1]);
            }
        }
    }
}

/// Runs of equal identifiers are determined by the identifiers alone.
proof fn lemma_run_end_ids<A, B>(s1: Seq<(DocumentId, A)>, s2: Seq<(DocumentId, B)>, i: int)
    requires
        lockstep(s1, s2),
    ensures
        run_end(s1, i) == run_end(s2, i),
    decreases s1.len() - i,
{
    if 0 <= i < s1.len() {
        if i + 1 < s1.len() && pair_id(s1[i + 1]) == pair_id(s1[i]) {
            lemma_run_end_ids(s1, s2, i + 1);
        }
    }
}

/// Lockstep grouping (law): when each match is emitted together with its
/// highlight, every grouped document pairs them one to one — the same
/// number of spans as matches, all from that document.
pub proof fn lemma_group_lockstep(
    ms: Seq<(DocumentId, TmpMatch)>,
    hs: Seq<(DocumentId, Highlight)>,
    i: int,
)
    requires
        lockstep(ms, hs),
        0 <= i,
    ensures
        forall|j: int| 0 <= j < spec_group_from(ms, hs, i, i).len() ==> {
            let g = #[trigger] spec_group_from(ms, hs, i, i)[j];
            g.matches.len() == g.highlights.len()
        },
    decreases ms.len() - i,
{
    if i < ms.len() {
        lemma_run_end_ids(ms, hs, i);
        lemma_run_end_props(ms, i);
        let e = run_end(ms, i);
        lemma_group_lockstep(ms, hs, e);
        let groups = spec_group_from(ms, hs, i, i);
        assert forall|j: int| 0 <= j < groups.len() implies {
            let g = #[trigger] groups[j];
            g.matches.len() == g.highlights.len()
        } by {
            if j == 0 {
                assert(groups[0].matches.len() == e - i);
                assert(groups[0].highlights.len() == e - i);
            } else {
                assert(groups[j] == spec_group_from(ms, hs, e, e)[j - 1]);
            }
        }
    }
}

/// Strict order on `(key, index)` pairs: ties on the key fall back to the
/// index, so a permutation sorted this way is unique.
pub open spec fn perm_lt(keys: Seq<u64>, a: usize, b: usize) -> bool {
    keys[a as int] < keys[b as int] || (keys[a as int] == keys[b as int] && a < b)
}

/// The permutation that sorts positions `0..len` by their keys, equal keys
/// kept in index order.  Applying it to each of a record's columns sorts
/// them together.
#[verifier::rlimit(30)]
pub fn permutations_unstable_by_key(len: usize, keys: &Vec<u64>) -> (perm: Vec<usize>)
    requires
        keys@.len() == len,
    ensures
        perm@.len() == len,
        forall|r: int| 0 <= r < len ==> (#[trigger] perm@[r]) < len,
        forall|a: int, b: int| 0 <= a < b < len ==> perm_lt(keys@, #[trigger] perm@[a], #[trigger] perm@[b]),
        forall|v: int| 0 <= v < len ==> #[trigger] perm@.contains(v as usize),
{
    let mut perm: Vec<usize> = Vec::new();
    let mut i: usize = 0;
    while i < len
        invariant
            0 <= i <= len,
            keys@.len() == len,
            perm@.len() == i,
            forall|r: int| 0 <= r < i ==> (#[trigger] perm@[r]) < i,
            forall|a: int, b: int| 0 <= a < b < i ==> perm_lt(keys@, #[trigger] perm@[a], #[trigger] perm@[b]),
            forall|v: int| 0 <= v < i ==> #[trigger] perm@.contains(v as usize),
        decreases len - i,
    {
        let ghost perm0 = perm@;
        let mut j: usize = 0;
        while j < perm.len() && keys[perm[j]] <= keys[i]
            invariant
                0 <= j <= perm@.len(),
                perm@.len() == i < len,
                keys@.len() == len,
                perm@ == perm0,
                forall|r: int| 0 <= r < i ==> (#[trigger] perm@[r]) < i,
                forall|t: int| 0 <= t < j ==> keys@[(#[trigger] perm@[t]) as int] <= keys@[i as int],
            decreases perm@.len() - j,
        {
            j += 1;
        }
        proof {
            perm0.insert_ensures(j as int, i);
        }
        perm.insert(j, i);
        proof {
            let p1 = perm@;
            assert forall|a: int, b: int| 0 <= a < b < i + 1
                implies perm_lt(keys@, #[trigger] p1[a], #[trigger] p1[b]) by {
                let xa = if a < j { perm0[a] } else if a == j { i } else { perm0[a - 1] };
                let xb = if b < j { perm0[b] } else if b == j { i } else { perm0[b - 1] };
                assert(p1[a] == xa);
                assert(p1[b] == xb);
            }
            assert forall|v: int| 0 <= v < i + 1 implies #[trigger] p1.contains(v as usize) by {
                if v < i {
                    assert(perm0.contains(v as usize));
                    let r = choose|r: int| 0 <= r < perm0.len() && perm0[r] == v as usize;
                    if r < j {
                        assert(p1[r] == v as usize);
                    } else {
                        assert(p1[r + 1] == v as usize);
                    }
                } else {
                    assert(p1[j as int] == v as usize);
                }
            }
        }
        i += 1;
    }
    perm
}

/// Replace `vec` by its reordering under the given permutation: position `r`
/// of the result holds what stood at `permutations[r]`.
pub fn apply_permutations<T: Copy>(permutations: &Vec<usize>, vec: &mut Vec<T>)
    requires
        permutations@.len() == old(vec)@.len(),
        forall|r: int| 0 <= r < permutations@.len() ==> (#[trigger] permutations@[r]) < old(vec)@.len(),
    ensures
        final(vec)@.len() == old(vec)@.len(),
        forall|r: int| 0 <= r < final(vec)@.len()
            ==> #[trigger] final(vec)@[r] == old(vec)@[permutations@[r] as int],
{
    let n = permutations.len();
    let mut out: Vec<T> = Vec::new();
    let mut r: usize = 0;
    while r < n
        invariant
            0 <= r <= n,
            n == permutations@.len() == vec@.len(),
            vec@ == old(vec)@,
            forall|t: int| 0 <= t < n ==> (#[trigger] permutations@[t]) < n,
            out@.len() == r,
            forall|t: int| 0 <= t < r ==> #[trigger] out@[t] == vec@[permutations@[t] as int],
        decreases n - r,
    {
        out.push(vec[permutations[r]]);
        r += 1;
    }
    *vec = out;
}

} // verus!
