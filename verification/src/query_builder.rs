//! The query pipeline: normalize and tokenize the query, expand it with
//! synonyms through the query enhancer, collect postings into match and
//! highlight streams, group them into per-document records, rank them
//! through the criteria cascade, and page the result.

use core::ops::Range;
use vstd::prelude::*;
use crate::DocIndex;
use crate::DocumentId;
use crate::Highlight;
use crate::TmpMatch;
use crate::criteria::{spec_rank_docs, rank_documents, views_of, DocView};
use crate::distance::{lev, prefix_lev, edit_distance, prefix_edit_distance};
use crate::index::{AltWords, Index};
use crate::normalize::{normal_bytes, normalize_str, spec_join, spec_tokens, join_tokens, tokenize};
use crate::query_enhancer::{
    spec_replacement, spec_rewrite, spec_shift_origins, QueryEnhancer, QueryEnhancerBuilder,
};
use crate::raw_document::{raw_documents_from, sort_by_id, spec_group, DocGroup};

verus! {

/// Query-side configuration the pipeline honors.
pub struct QueryConfig {
    /// Attributes whose membership is checked when matches are emitted.
    pub searchable_fields: Option<Vec<u16>>,
    /// A further restriction on which attributes count.
    pub filter_attributes: Option<Vec<u16>>,
    /// Normalized tokens discarded during tokenization.
    pub stop_words: Vec<Vec<u8>>,
    /// Length a token must reach to be matched with one typo.
    pub min_word_len_for_1_typo: usize,
    /// Length a token must reach to be matched with two typos.
    pub min_word_len_for_2_typos: usize,
}

impl Default for QueryConfig {
    /// No attribute restrictions, no stop words, and typo tolerance from
    /// five and nine bytes on.
    fn default() -> (c: QueryConfig)
        ensures
            c.searchable_fields is None,
            c.filter_attributes is None,
            c.stop_words@.len() == 0,
            c.min_word_len_for_1_typo == 5,
            c.min_word_len_for_2_typos == 9,
    {
        QueryConfig {
            searchable_fields: None,
            filter_attributes: None,
            stop_words: Vec::new(),
            min_word_len_for_1_typo: 5,
            min_word_len_for_2_typos: 9,
        }
    }
}

/// One ranked result: a document and its highlight spans.
pub struct Document {
    pub id: DocumentId,
    pub highlights: Vec<Highlight>,
}

/// Whether matches in this attribute count, under both attribute filters.
pub open spec fn attr_allowed(cfg: QueryConfig, a: u16) -> bool {
    &&& match cfg.searchable_fields {
        Some(l) => l@.contains(a),
        None => true,
    }
    &&& match cfg.filter_attributes {
        Some(l) => l@.contains(a),
        None => true,
    }
}

fn contains_u16(l: &Vec<u16>, a: u16) -> (r: bool)
    ensures
        r == l@.contains(a),
{
    let n = l.len();
    let mut i: usize = 0;
    while i < n
        invariant
            0 <= i <= n,
            n == l@.len(),
            forall|t: int| 0 <= t < i ==> l@[t] != a,
        decreases n - i,
    {
        if l[i] == a {
            return true;
        }
        i += 1;
    }
    proof {
        if l@.contains(a) {
            let t = choose|t: int| 0 <= t < l@.len() && l@[t] == a;
            assert(l@[t] != a);
        }
    }
    false
}

fn attr_allowed_x(cfg: &QueryConfig, a: u16) -> (r: bool)
    ensures
        r == attr_allowed(*cfg, a),
{
    let first = match &cfg.searchable_fields {
        Some(l) => contains_u16(l, a),
        None => true,
    };
    if !first {
        return false;
    }
    match &cfg.filter_attributes {
        Some(l) => contains_u16(l, a),
        None => true,
    }
}

/// The typo radius allowed for a token of this length.
pub open spec fn spec_radius(cfg: QueryConfig, len: int) -> int {
    if len < cfg.min_word_len_for_1_typo {
        0
    } else if len < cfg.min_word_len_for_2_typos {
        1
    } else {
        2
    }
}

fn radius_x(cfg: &QueryConfig, len: usize) -> (r: usize)
    ensures
        r as int == spec_radius(*cfg, len as int),
{
    if len < cfg.min_word_len_for_1_typo {
        0
    } else if len < cfg.min_word_len_for_2_typos {
        1
    } else {
        2
    }
}

/// One collector output: the matched document, the match record, and the
/// highlight span, emitted together.
pub struct Emission {
    pub id: DocumentId,
    pub m: TmpMatch,
    pub h: Highlight,
}

/// The emission of one posting.
pub open spec fn emission_of(di: DocIndex, rq: int, d: int, ex: bool) -> Emission {
    Emission {
        id: di.document_id,
        m: TmpMatch {
            query_index: rq as u32,
            distance: d as u8,
            attribute: di.attribute,
            word_index: di.word_index,
            is_exact: ex,
        },
        h: Highlight {
            attribute: di.attribute,
            char_index: di.char_index,
            char_length: di.char_length,
        },
    }
}

/// The emissions of the first `i` postings of one matched word: one per
/// posting whose attribute the configuration allows.
pub open spec fn posting_emissions(
    p: Seq<DocIndex>,
    cfg: QueryConfig,
    rq: int,
    d: int,
    ex: bool,
    i: int,
) -> Seq<Emission>
    decreases i,
{
    if i <= 0 {
        Seq::empty()
    } else {
        posting_emissions(p, cfg, rq, d, ex, i - 1) + if attr_allowed(cfg, p[i - 1].attribute) {
            seq![emission_of(p[i - 1], rq, d, ex)]
        } else {
            Seq::empty()
        }
    }
}

/// How one indexed word matches one query token, if at all: the recorded
/// distance and whether the match is exact.  The final token matches by
/// prefix (query-as-you-type); the others by whole-word edit distance.
pub open spec fn word_match(tok: Seq<u8>, w: Seq<u8>, last: bool, radius: int) -> Option<(int, bool)> {
    if last {
        let d = prefix_lev(tok, w);
        if d <= radius {
            Some((d, d == 0 && w.len() == tok.len()))
        } else {
            None
        }
    } else {
        let d = lev(tok, w);
        if d <= radius {
            Some((d, d == 0))
        } else {
            None
        }
    }
}

/// The emissions of one query token against the first `wi` indexed words.
pub open spec fn token_emissions_upto(
    ix: Index,
    cfg: QueryConfig,
    tok: Seq<u8>,
    rq: int,
    last: bool,
    wi: int,
) -> Seq<Emission>
    decreases wi,
{
    if wi <= 0 {
        Seq::empty()
    } else {
        token_emissions_upto(ix, cfg, tok, rq, last, wi - 1) + {
            let w = ix.words@[wi - 1]@;
            match word_match(tok, w, last, spec_radius(cfg, tok.len() as int)) {
                Some(p) => {
                    let postings = ix.postings@[wi - 1]@;
                    posting_emissions(postings, cfg, rq, p.0, p.1, postings.len() as int)
                },
                None => Seq::empty(),
            }
        }
    }
}

pub open spec fn token_emissions(
    ix: Index,
    cfg: QueryConfig,
    tok: Seq<u8>,
    rq: int,
    last: bool,
) -> Seq<Emission> {
    token_emissions_upto(ix, cfg, tok, rq, last, ix.words@.len() as int)
}

/// The emissions of the first `i` original query tokens, each at its own
/// real index.
pub open spec fn originals_emissions(
    ix: Index,
    cfg: QueryConfig,
    toks: Seq<Seq<u8>>,
    i: int,
) -> Seq<Emission>
    decreases i,
{
    if i <= 0 {
        Seq::empty()
    } else {
        originals_emissions(ix, cfg, toks, i - 1)
            + token_emissions(ix, cfg, toks[i - 1], i - 1, i == toks.len())
    }
}

/// The byte strings of a sequence of words.
pub open spec fn word_views(s: Seq<Vec<u8>>) -> Seq<Seq<u8>> {
    s.map_values(|v: Vec<u8>| v@)
}

/// The rewrite predicate, over byte strings.
pub open spec fn vspec_rewrite(query: Seq<Seq<u8>>, start: int, end: int, words: Seq<Seq<u8>>) -> bool {
    &&& words.len() > end - start
    &&& !{
        &&& start + words.len() <= query.len()
        &&& forall|j: int| 0 <= j < words.len() ==> #[trigger] query[start + j] == words[j]
    }
}

/// The two forms of the rewrite predicate agree.
proof fn lemma_rewrite_views(q: Seq<Vec<u8>>, start: int, end: int, w: Seq<Vec<u8>>)
    requires
        0 <= start,
    ensures
        spec_rewrite(q, start, end, w) == vspec_rewrite(word_views(q), start, end, word_views(w)),
{
    let qv = word_views(q);
    let wv = word_views(w);
    if start + w.len() <= q.len() {
        if forall|j: int| 0 <= j < w.len() ==> (#[trigger] q[start + j])@ == w[j]@ {
            assert forall|j: int| 0 <= j < wv.len() implies #[trigger] qv[start + j] == wv[j] by {
                assert(qv[start + j] == q[start + j]@);
                assert(wv[j] == w[j]@);
                assert(q[start + j]@ == w[j]@);
            }
        }
        if forall|j: int| 0 <= j < wv.len() ==> #[trigger] qv[start + j] == wv[j] {
            assert forall|j: int| 0 <= j < w.len() implies (#[trigger] q[start + j])@ == w[j]@ by {
                assert(qv[start + j] == q[start + j]@);
                assert(wv[j] == w[j]@);
                assert(qv[start + j] == wv[j]);
            }
        }
    }
}

/// One accepted synonym expansion: the original span `[o, o + k)` and the
/// words of the alternative that replaces it.
pub struct Expansion {
    pub o: int,
    pub k: int,
    pub words: Seq<Seq<u8>>,
}

/// An expansion record as the collector holds it.
pub open spec fn exp_view(e: (usize, usize, AltWords)) -> Expansion {
    Expansion { o: e.0 as int, k: e.1 as int, words: crate::index::alt_view(e.2) }
}

pub open spec fn exp_views(s: Seq<(usize, usize, AltWords)>) -> Seq<Expansion> {
    s.map_values(|e: (usize, usize, AltWords)| exp_view(e))
}

/// The expansions of one sub-phrase: one per non-empty alternative that the
/// index knows for it, among the first `j`.
pub open spec fn phrase_exps(alts: Seq<AltWords>, o: int, k: int, j: int) -> Seq<Expansion>
    decreases j,
{
    if j <= 0 {
        Seq::empty()
    } else {
        phrase_exps(alts, o, k, j - 1) + {
            let wv = crate::index::alt_view(alts[j - 1]);
            if wv.len() >= 1 {
                seq![Expansion { o, k, words: wv }]
            } else {
                Seq::empty()
            }
        }
    }
}

/// The expansions of the sub-phrase `[o, o + k)`, when the index knows it
/// as a synonym key.
pub open spec fn span_exps(ix: Index, toks: Seq<Seq<u8>>, o: int, k: int) -> Seq<Expansion> {
    match ix.spec_alternatives_to(spec_join(toks, o, k)) {
        Some(alts) => phrase_exps(alts, o, k, alts.len() as int),
        None => Seq::empty(),
    }
}

/// All expansions of the query, walking the spans `(o, k)` in order: every
/// contiguous sub-phrase of the original tokens is tried as a synonym key.
pub open spec fn spec_expansions_from(ix: Index, toks: Seq<Seq<u8>>, o: int, k: int) -> Seq<Expansion>
    decreases toks.len() - o, toks.len() + 1 - k,
{
    if o < 0 || o >= toks.len() || k < 0 {
        Seq::empty()
    } else if k < 1 || k > toks.len() - o {
        spec_expansions_from(ix, toks, o + 1, 1)
    } else {
        span_exps(ix, toks, o, k) + spec_expansions_from(ix, toks, o, k + 1)
    }
}

pub open spec fn spec_expansions(ix: Index, toks: Seq<Seq<u8>>) -> Seq<Expansion> {
    spec_expansions_from(ix, toks, 0, 1)
}

/// The first free real index after the first `e` expansions are declared.
pub open spec fn limit_after(n0: int, exps: Seq<Expansion>, e: int) -> int
    decreases e,
{
    if e <= 0 {
        n0
    } else {
        limit_after(n0, exps, e - 1) + exps[e - 1].words.len()
    }
}

proof fn lemma_limit_after_monotone(n0: int, exps: Seq<Expansion>, a: int, b: int)
    requires
        0 <= a <= b,
    ensures
        limit_after(n0, exps, a) <= limit_after(n0, exps, b),
    decreases b - a,
{
    if a < b {
        lemma_limit_after_monotone(n0, exps, a, b - 1);
    }
}

/// Copy a byte string.
fn copy_bytes(v: &Vec<u8>) -> (r: Vec<u8>)
    ensures
        r@ == v@,
{
    let n = v.len();
    let mut r: Vec<u8> = Vec::new();
    let mut i: usize = 0;
    while i < n
        invariant
            0 <= i <= n,
            n == v@.len(),
            r@ =~= v@.subrange(0, i as int),
        decreases n - i,
    {
        r.push(v[i]);
        i += 1;
    }
    proof {
        assert(v@.subrange(0, n as int) =~= v@);
    }
    r
}

/// Copy a word list.
fn copy_words(v: &AltWords) -> (r: AltWords)
    ensures
        crate::index::alt_view(r) == crate::index::alt_view(*v),
        r@.len() == v@.len(),
{
    let n = v.len();
    let mut r: AltWords = Vec::new();
    let mut i: usize = 0;
    while i < n
        invariant
            0 <= i <= n,
            n == v@.len(),
            r@.len() == i,
            forall|t: int| 0 <= t < i ==> (#[trigger] r@[t])@ == v@[t]@,
        decreases n - i,
    {
        r.push(copy_bytes(&v[i]));
        i += 1;
    }
    proof {
        assert(crate::index::alt_view(r) =~= crate::index::alt_view(*v));
    }
    r
}

/// Walk every contiguous sub-phrase of the tokens and gather the synonym
/// expansions the index knows for it.
fn find_expansions(ix: &Index, tokens: &Vec<Vec<u8>>) -> (exps: Vec<(usize, usize, AltWords)>)
    requires
        ix.wf(),
        tokens@.len() < 0xFFFF_FFFF,
    ensures
        exp_views(exps@) == spec_expansions(*ix, word_views(tokens@)),
        forall|t: int| 0 <= t < exps@.len() ==> {
            let e = #[trigger] exps@[t];
            &&& e.0 < e.0 + e.1 <= tokens@.len()
            &&& e.2@.len() >= 1
        },
{
    let ghost tv = word_views(tokens@);
    let n = tokens.len();
    let mut exps: Vec<(usize, usize, AltWords)> = Vec::new();
    let mut o: usize = 0;
    while o < n
        invariant
            0 <= o <= n,
            n == tokens@.len(),
            n < 0xFFFF_FFFF,
            tv == word_views(tokens@),
            ix.wf(),
            exp_views(exps@) =~= spec_expansions(*ix, tv)
                || exp_views(exps@) + spec_expansions_from(*ix, tv, o as int, 1) =~= spec_expansions(*ix, tv),
            o < n ==> exp_views(exps@) + spec_expansions_from(*ix, tv, o as int, 1) =~= spec_expansions(*ix, tv),
            o >= n ==> exp_views(exps@) =~= spec_expansions(*ix, tv),
            forall|t: int| 0 <= t < exps@.len() ==> {
                let e = #[trigger] exps@[t];
                &&& e.0 < e.0 + e.1 <= tokens@.len()
                &&& e.2@.len() >= 1
            },
        decreases n - o,
    {
        let mut k: usize = 1;
        while k <= n - o
            invariant
                0 <= o < n,
                1 <= k <= n - o + 1,
                n == tokens@.len(),
                n < 0xFFFF_FFFF,
                tv == word_views(tokens@),
                ix.wf(),
                exp_views(exps@) + spec_expansions_from(*ix, tv, o as int, k as int) =~= spec_expansions(*ix, tv),
                forall|t: int| 0 <= t < exps@.len() ==> {
                    let e = #[trigger] exps@[t];
                    &&& e.0 < e.0 + e.1 <= tokens@.len()
                    &&& e.2@.len() >= 1
                },
            decreases n - o + 1 - k,
        {
            let phrase = join_tokens(tokens, o, k);
            proof {
                assert(phrase@ == spec_join(tv, o as int, k as int));
            }
            match ix.alternatives_to(&phrase) {
                Some(alts) => {
                    let ghost alts_seq = alts@;
                    let ghost exps0 = exp_views(exps@);
                    let m = alts.len();
                    let mut j: usize = 0;
                    while j < m
                        invariant
                            0 <= j <= m,
                            m == alts_seq.len(),
                            alts_seq == alts@,
                            ix.wf(),
                            0 <= o, 0 < k, o + k <= tokens@.len(),
                            exp_views(exps@) =~= exps0 + phrase_exps(alts_seq, o as int, k as int, j as int),
                            forall|t: int| 0 <= t < exps@.len() ==> {
                                let e = #[trigger] exps@[t];
                                &&& e.0 < e.0 + e.1 <= tokens@.len()
                                &&& e.2@.len() >= 1
                            },
                        decreases m - j,
                    {
                        let alt = &alts[j];
                        proof {
                            assert(*alt == alts_seq[j as int]);
                        }
                        if alt.len() >= 1 {
                            let w = copy_words(alt);
                            let ghost epre = exps@;
                            exps.push((o, k, w));
                            proof {
                                let target = exps0 + phrase_exps(alts_seq, o as int, k as int, j + 1);
                                assert(phrase_exps(alts_seq, o as int, k as int, j + 1)
                                    =~= phrase_exps(alts_seq, o as int, k as int, j as int)
                                        .push(Expansion { o: o as int, k: k as int, words: crate::index::alt_view(alts_seq[j as int]) }));
                                assert(exp_views(epre) =~= exps0
                                    + phrase_exps(alts_seq, o as int, k as int, j as int));
                                assert(exp_views(epre).len() == epre.len());
                                assert(epre.len() == exps0.len()
                                    + phrase_exps(alts_seq, o as int, k as int, j as int).len());
                                assert forall|t: int| 0 <= t < exps@.len()
                                    implies exp_views(exps@)[t] == target[t] by {
                                    assert(exp_views(exps@)[t] == exp_view(exps@[t]));
                                    if t < epre.len() {
                                        assert(exps@[t] == epre[t]);
                                        assert(exp_views(epre)[t] == exp_view(epre[t]));
                                        assert(exp_views(epre)[t] == (exps0
                                            + phrase_exps(alts_seq, o as int, k as int, j as int))[t]);
                                    } else {
                                        assert(exps@[t] == (o, k, w));
                                        assert(crate::index::alt_view(w) == crate::index::alt_view(alts_seq[j as int]));
                                    }
                                }
                                assert(exp_views(exps@) =~= target);
                            }
                        } else {
                            proof {
                                assert(alts_seq[j as int]@.len() == 0);
                                assert(crate::index::alt_view(alts_seq[j as int]).len() == 0);
                                assert(exp_views(exps@) =~= exps0
                                    + phrase_exps(alts_seq, o as int, k as int, j + 1));
                            }
                        }
                        j += 1;
                    }
                    proof {
                        assert(span_exps(*ix, tv, o as int, k as int)
                            == phrase_exps(alts_seq, o as int, k as int, m as int));
                        assert(exp_views(exps@) + spec_expansions_from(*ix, tv, o as int, k + 1)
                            =~= spec_expansions(*ix, tv));
                    }
                },
                None => {
                    proof {
                        assert(span_exps(*ix, tv, o as int, k as int) =~= Seq::<Expansion>::empty());
                        assert(exp_views(exps@) + spec_expansions_from(*ix, tv, o as int, k + 1)
                            =~= spec_expansions(*ix, tv));
                    }
                },
            }
            k += 1;
        }
        proof {
            assert(spec_expansions_from(*ix, tv, o as int, k as int)
                == spec_expansions_from(*ix, tv, o as int + 1, 1));
        }
        o += 1;
    }
    proof {
        if n == 0 {
            assert(spec_expansions_from(*ix, tv, 0, 1) =~= Seq::<Expansion>::empty());
            assert(exp_views(exps@) =~= spec_expansions(*ix, tv));
        }
    }
    exps
}

/// Every expansion stays inside the original token span, with at least one
/// replacement word.
pub open spec fn exps_wf(exps: Seq<Expansion>, n: int) -> bool {
    forall|t: int| 0 <= t < exps.len() ==> {
        let e = #[trigger] exps[t];
        &&& 0 <= e.o < e.o + e.k <= n
        &&& e.words.len() >= 1
    }
}

proof fn lemma_phrase_exps_wf(alts: Seq<AltWords>, o: int, k: int, j: int, n: int)
    requires
        0 <= o,
        k >= 1,
        o + k <= n,
    ensures
        exps_wf(phrase_exps(alts, o, k, j), n),
    decreases j,
{
    if j > 0 {
        lemma_phrase_exps_wf(alts, o, k, j - 1, n);
        let a = phrase_exps(alts, o, k, j - 1);
        let full = phrase_exps(alts, o, k, j);
        assert forall|t: int| 0 <= t < full.len() implies {
            let e = #[trigger] full[t];
            &&& 0 <= e.o < e.o + e.k <= n
            &&& e.words.len() >= 1
        } by {
            if t < a.len() {
                assert(full[t] == a[t]);
            } else {
                assert(crate::index::alt_view(alts[j - 1]).len() >= 1);
            }
        }
    }
}

/// Every expansion the walk discovers is well formed (law): its span lies
/// inside the original tokens and its replacement is non-empty.
pub proof fn lemma_expansions_wf(ix: Index, toks: Seq<Seq<u8>>, o: int, k: int)
    ensures
        exps_wf(spec_expansions_from(ix, toks, o, k), toks.len() as int),
    decreases toks.len() - o, toks.len() + 1 - k,
{
    let n = toks.len() as int;
    if o < 0 || o >= toks.len() || k < 0 {
    } else if k < 1 || k > toks.len() - o {
        lemma_expansions_wf(ix, toks, o + 1, 1);
    } else {
        lemma_expansions_wf(ix, toks, o, k + 1);
        let a = span_exps(ix, toks, o, k);
        let b = spec_expansions_from(ix, toks, o, k + 1);
        let full = spec_expansions_from(ix, toks, o, k);
        assert(exps_wf(a, n)) by {
            match ix.spec_alternatives_to(spec_join(toks, o, k)) {
                Some(alts) => {
                    lemma_phrase_exps_wf(alts, o, k, alts.len() as int, n);
                },
                None => {},
            }
        }
        assert forall|t: int| 0 <= t < full.len() implies {
            let e = #[trigger] full[t];
            &&& 0 <= e.o < e.o + e.k <= n
            &&& e.words.len() >= 1
        } by {
            if t < a.len() {
                assert(full[t] == a[t]);
            } else {
                assert(full[t] == b[t - a.len()]);
            }
        }
    }
}

/// The origins vector after the first `e` expansions are declared.
pub open spec fn origins_after(qv: Seq<Seq<u8>>, exps: Seq<Expansion>, e: int) -> Seq<usize>
    decreases e,
{
    if e <= 0 {
        Seq::new(qv.len(), |i: int| i as usize)
    } else {
        let x = exps[e - 1];
        spec_shift_origins(
            origins_after(qv, exps, e - 1),
            vspec_rewrite(qv, x.o, x.o + x.k, x.words),
            x.o + x.k,
            x.words.len() - x.k,
        )
    }
}

/// The real-to-origin ranges after the first `e` expansions are declared.
pub open spec fn ranges_after(n: int, exps: Seq<Expansion>, e: int) -> Seq<(Range<usize>, usize)>
    decreases e,
{
    if e <= 0 {
        Seq::new(n as nat, |i: int| (Range { start: i as usize, end: (i + 1) as usize }, i as usize))
    } else {
        let x = exps[e - 1];
        let base = limit_after(n, exps, e - 1);
        ranges_after(n, exps, e - 1).push(
            (Range { start: base as usize, end: (base + x.words.len()) as usize }, x.o as usize),
        )
    }
}

/// The exact-match emissions of the first `j` words of one expansion, at
/// the real indices `base`, `base + 1`, and so on.
pub open spec fn exp_words_emissions(
    ix: Index,
    cfg: QueryConfig,
    words: Seq<Seq<u8>>,
    base: int,
    j: int,
) -> Seq<Emission>
    decreases j,
{
    if j <= 0 {
        Seq::empty()
    } else {
        exp_words_emissions(ix, cfg, words, base, j - 1) + match ix.spec_word_indexes(words[j - 1]) {
            Some(p) => posting_emissions(p, cfg, base + j - 1, 0, true, p.len() as int),
            None => Seq::empty(),
        }
    }
}

/// The emissions of the first `e` expansions.
pub open spec fn exps_emissions(
    ix: Index,
    cfg: QueryConfig,
    n0: int,
    exps: Seq<Expansion>,
    e: int,
) -> Seq<Emission>
    decreases e,
{
    if e <= 0 {
        Seq::empty()
    } else {
        exps_emissions(ix, cfg, n0, exps, e - 1) + exp_words_emissions(
            ix,
            cfg,
            exps[e - 1].words,
            limit_after(n0, exps, e - 1),
            exps[e - 1].words.len() as int,
        )
    }
}

/// Whether the expanded query stays addressable: its final length must fit
/// the match records' query indices.
fn expansions_fit(n: usize, exps: &Vec<(usize, usize, AltWords)>) -> (r: bool)
    requires
        n <= 0xFFFF_FFFF,
    ensures
        r == (limit_after(n as int, exp_views(exps@), exps@.len() as int) <= 0xFFFF_FFFF),
{
    let ghost ev = exp_views(exps@);
    let len = exps.len();
    let mut cur: u64 = n as u64;
    let mut e: usize = 0;
    while e < len
        invariant
            0 <= e <= len,
            len == exps@.len(),
            ev == exp_views(exps@),
            cur as int == limit_after(n as int, ev, e as int),
            cur <= 0xFFFF_FFFFu64,
        decreases len - e,
    {
        let m = exps[e].2.len() as u64;
        proof {
            assert(ev[e as int].words.len() == exps@[e as int].2@.len());
        }
        if m > 0xFFFF_FFFFu64 - cur {
            proof {
                assert(limit_after(n as int, ev, e + 1) > 0xFFFF_FFFF);
                lemma_limit_after_monotone(n as int, ev, e + 1, ev.len() as int);
            }
            return false;
        }
        cur = cur + m;
        e += 1;
    }
    true
}

/// Drop the configured stop words from the token list.
pub open spec fn filter_stops(toks: Seq<Seq<u8>>, stops: Seq<Seq<u8>>, i: int) -> Seq<Seq<u8>>
    decreases i,
{
    if i <= 0 {
        Seq::empty()
    } else {
        filter_stops(toks, stops, i - 1) + if stops.contains(toks[i - 1]) {
            Seq::empty()
        } else {
            seq![toks[i - 1]]
        }
    }
}

fn is_stop_word(cfg: &QueryConfig, tok: &Vec<u8>) -> (r: bool)
    ensures
        r == word_views(cfg.stop_words@).contains(tok@),
{
    let n = cfg.stop_words.len();
    let mut i: usize = 0;
    while i < n
        invariant
            0 <= i <= n,
            n == cfg.stop_words@.len(),
            forall|t: int| 0 <= t < i ==> word_views(cfg.stop_words@)[t] != tok@,
        decreases n - i,
    {
        if crate::query_enhancer::bytes_eq(&cfg.stop_words[i], tok) {
            assert(word_views(cfg.stop_words@)[i as int] == tok@);
            return true;
        }
        proof {
            assert(word_views(cfg.stop_words@)[i as int] == cfg.stop_words@[i as int]@);
        }
        i += 1;
    }
    proof {
        if word_views(cfg.stop_words@).contains(tok@) {
            let t = choose|t: int| 0 <= t < word_views(cfg.stop_words@).len()
                && word_views(cfg.stop_words@)[t] == tok@;
            assert(word_views(cfg.stop_words@)[t] != tok@);
        }
    }
    false
}

/// Keep the tokens that are not stop words.
fn remove_stop_words(tokens: Vec<Vec<u8>>, cfg: &QueryConfig) -> (out: Vec<Vec<u8>>)
    ensures
        word_views(out@) == filter_stops(
            word_views(tokens@),
            word_views(cfg.stop_words@),
            tokens@.len() as int,
        ),
{
    let ghost tv = word_views(tokens@);
    let ghost stops = word_views(cfg.stop_words@);
    let mut rest = tokens;
    let mut out: Vec<Vec<u8>> = Vec::new();
    while rest.len() > 0
        invariant
            rest@.len() <= tv.len(),
            word_views(rest@) =~= tv.skip(tv.len() - rest@.len()),
            word_views(out@) =~= filter_stops(tv, stops, tv.len() - rest@.len()),
            stops == word_views(cfg.stop_words@),
        decreases rest@.len(),
    {
        let ghost done: int = tv.len() - rest@.len();
        let ghost pre = rest@;
        let tok = rest.remove(0);
        proof {
            assert(word_views(pre) == tv.skip(done));
            assert(word_views(pre)[0] == pre[0]@);
            assert(tv.skip(done)[0] == tv[done]);
            assert(tok@ == tv[done]);
            assert(word_views(rest@) =~= tv.skip(done + 1)) by {
                assert forall|t: int| 0 <= t < rest@.len()
                    implies word_views(rest@)[t] == tv[done + 1 + t] by {
                    assert(rest@[t] == pre[t + 1]);
                    assert(word_views(pre)[t + 1] == pre[t + 1]@);
                }
            }
        }
        let stop = is_stop_word(cfg, &tok);
        if !stop {
            let ghost out0 = out@;
            out.push(tok);
            proof {
                assert forall|t: int| 0 <= t < out@.len()
                    implies word_views(out@)[t] == filter_stops(tv, stops, done + 1)[t] by {
                    assert(word_views(out@)[t] == out@[t]@);
                    if t < out0.len() {
                        assert(out@[t] == out0[t]);
                        assert(word_views(out0)[t] == out0[t]@);
                    }
                }
                assert(word_views(out@) =~= filter_stops(tv, stops, done + 1));
            }
        } else {
            proof {
                assert(word_views(out@) =~= filter_stops(tv, stops, done + 1));
            }
        }
    }
    proof {
        assert(word_views(rest@).len() == 0);
    }
    out
}

/// Append the emissions of the postings of one matched word.
fn collect_postings(
    postings: &Vec<DocIndex>,
    cfg: &QueryConfig,
    rq: u32,
    d: u8,
    ex: bool,
    ems: &mut Vec<(DocumentId, TmpMatch)>,
    hls: &mut Vec<(DocumentId, Highlight)>,
)
    requires
        old(ems)@.len() == old(hls)@.len(),
    ensures
        final(ems)@.len() == final(hls)@.len(),
        ({
            let add = posting_emissions(postings@, *cfg, rq as int, d as int, ex, postings@.len() as int);
            &&& final(ems)@ == old(ems)@ + add.map_values(|e: Emission| (e.id, e.m))
            &&& final(hls)@ == old(hls)@ + add.map_values(|e: Emission| (e.id, e.h))
        }),
{
    let ghost base_m = ems@;
    let ghost base_h = hls@;
    let n = postings.len();
    let mut i: usize = 0;
    while i < n
        invariant
            0 <= i <= n,
            n == postings@.len(),
            ems@.len() == hls@.len(),
            ({
                let add = posting_emissions(postings@, *cfg, rq as int, d as int, ex, i as int);
                &&& ems@ =~= base_m + add.map_values(|e: Emission| (e.id, e.m))
                &&& hls@ =~= base_h + add.map_values(|e: Emission| (e.id, e.h))
            }),
        decreases n - i,
    {
        let di = postings[i];
        if attr_allowed_x(cfg, di.attribute) {
            let m = TmpMatch {
                query_index: rq,
                distance: d,
                attribute: di.attribute,
                word_index: di.word_index,
                is_exact: ex,
            };
            let h = Highlight {
                attribute: di.attribute,
                char_index: di.char_index,
                char_length: di.char_length,
            };
            ems.push((di.document_id, m));
            hls.push((di.document_id, h));
        }
        proof {
            let add0 = posting_emissions(postings@, *cfg, rq as int, d as int, ex, i as int);
            let add1 = posting_emissions(postings@, *cfg, rq as int, d as int, ex, i + 1);
            if attr_allowed(*cfg, postings@[i as int].attribute) {
                assert(add1 =~= add0.push(emission_of(postings@[i as int], rq as int, d as int, ex)));
            } else {
                assert(add1 =~= add0);
            }
            assert(ems@ =~= base_m + add1.map_values(|e: Emission| (e.id, e.m)));
            assert(hls@ =~= base_h + add1.map_values(|e: Emission| (e.id, e.h)));
        }
        i += 1;
    }
}

/// Collect the emissions of one query token: every indexed word within the
/// token's typo radius contributes its allowed postings.
fn collect_token(
    ix: &Index,
    cfg: &QueryConfig,
    tok: &Vec<u8>,
    rq: u32,
    last: bool,
    ems: &mut Vec<(DocumentId, TmpMatch)>,
    hls: &mut Vec<(DocumentId, Highlight)>,
)
    requires
        ix.wf(),
        old(ems)@.len() == old(hls)@.len(),
    ensures
        final(ems)@.len() == final(hls)@.len(),
        ({
            let add = token_emissions(*ix, *cfg, tok@, rq as int, last);
            &&& final(ems)@ == old(ems)@ + add.map_values(|e: Emission| (e.id, e.m))
            &&& final(hls)@ == old(hls)@ + add.map_values(|e: Emission| (e.id, e.h))
        }),
{
    let ghost base_m = ems@;
    let ghost base_h = hls@;
    let radius = radius_x(cfg, tok.len());
    let n = ix.words.len();
    let mut wi: usize = 0;
    while wi < n
        invariant
            0 <= wi <= n,
            n == ix.words@.len(),
            ix.wf(),
            ems@.len() == hls@.len(),
            radius as int == spec_radius(*cfg, tok@.len() as int),
            ({
                let add = token_emissions_upto(*ix, *cfg, tok@, rq as int, last, wi as int);
                &&& ems@ =~= base_m + add.map_values(|e: Emission| (e.id, e.m))
                &&& hls@ =~= base_h + add.map_values(|e: Emission| (e.id, e.h))
            }),
        decreases n - wi,
    {
        let w = &ix.words[wi];
        let ghost m0 = ems@;
        let ghost h0 = hls@;
        if last {
            let d = prefix_edit_distance(tok, w);
            if d <= radius {
                let ex = d == 0 && w.len() == tok.len();
                collect_postings(&ix.postings[wi], cfg, rq, d as u8, ex, ems, hls);
            }
        } else {
            let d = edit_distance(tok, w);
            if d <= radius {
                collect_postings(&ix.postings[wi], cfg, rq, d as u8, d == 0, ems, hls);
            }
        }
        proof {
            let add0 = token_emissions_upto(*ix, *cfg, tok@, rq as int, last, wi as int);
            let add1 = token_emissions_upto(*ix, *cfg, tok@, rq as int, last, wi + 1);
            let wv = ix.words@[wi as int]@;
            match word_match(tok@, wv, last, spec_radius(*cfg, tok@.len() as int)) {
                Some(p) => {
                    let postings = ix.postings@[wi as int]@;
                    assert(add1 == add0 + posting_emissions(postings, *cfg, rq as int, p.0, p.1, postings.len() as int));
                },
                None => {
                    assert(add1 =~= add0);
                },
            }
            assert(ems@ =~= base_m + add1.map_values(|e: Emission| (e.id, e.m)));
            assert(hls@ =~= base_h + add1.map_values(|e: Emission| (e.id, e.h)));
        }
        wi += 1;
    }
}

/// Declare one synonym expansion to the enhancer and collect the exact
/// postings of its words.
fn apply_expansion(
    ix: &Index,
    cfg: &QueryConfig,
    builder: &mut QueryEnhancerBuilder,
    exps: &Vec<(usize, usize, AltWords)>,
    e: usize,
    ems: &mut Vec<(DocumentId, TmpMatch)>,
    hls: &mut Vec<(DocumentId, Highlight)>,
)
    requires
        ix.wf(),
        (e as int) < exps@.len(),
        old(builder).wf(),
        ({
            let tv = word_views(old(builder).query@);
            let n = tv.len() as int;
            let used = exp_views(exps@);
            &&& n < 0xFFFF_FFFF
            &&& old(builder).origins@ == origins_after(tv, used, e as int)
            &&& old(builder).real_to_origin@ == ranges_after(n, used, e as int)
            &&& limit_after(n, used, exps@.len() as int) <= 0xFFFF_FFFF
            &&& forall|t: int| 0 <= t < exps@.len() ==> {
                let x = #[trigger] exps@[t];
                &&& x.0 < x.0 + x.1 <= n
                &&& x.2@.len() >= 1
            }
        }),
        old(ems)@.len() == old(hls)@.len(),
    ensures
        final(builder).wf(),
        final(builder).query@ == old(builder).query@,
        ({
            let tv = word_views(old(builder).query@);
            let n = tv.len() as int;
            let used = exp_views(exps@);
            let add = exp_words_emissions(*ix, *cfg, used[e as int].words,
                limit_after(n, used, e as int), used[e as int].words.len() as int);
            &&& final(builder).origins@ == origins_after(tv, used, e + 1)
            &&& final(builder).real_to_origin@ == ranges_after(n, used, e + 1)
            &&& final(ems)@ == old(ems)@ + add.map_values(|em: Emission| (em.id, em.m))
            &&& final(hls)@ == old(hls)@ + add.map_values(|em: Emission| (em.id, em.h))
            &&& final(ems)@.len() == final(hls)@.len()
        }),
{
    let ghost tv = word_views(builder.query@);
    let ghost n = tv.len() as int;
    let ghost used = exp_views(exps@);
    let o = exps[e].0;
    let k = exps[e].1;
    proof {
        assert(used[e as int] == exp_view(exps@[e as int]));
        lemma_limit_after_monotone(n, used, e + 1, used.len() as int);
        lemma_limit_after_nonneg(n, used, e as int);
    }
    let real_index = builder.next_real();
    let words_ref = &exps[e].2;
    builder.declare(Range { start: o, end: o + k }, real_index, words_ref);
    proof {
        lemma_rewrite_views(builder.query@, o as int, (o + k) as int, words_ref@);
        assert(word_views(words_ref@) =~= used[e as int].words);
        assert(builder.origins@ =~= origins_after(tv, used, e + 1));
        assert(builder.real_to_origin@ =~= ranges_after(n, used, e + 1));
    }
    // every word of the alternative is looked up exactly
    let wlen = words_ref.len();
    let ghost m0 = ems@;
    let ghost h0 = hls@;
    let ghost wv = used[e as int].words;
    let ghost ebase = limit_after(n, used, e as int);
    let mut j: usize = 0;
    while j < wlen
        invariant
            0 <= j <= wlen,
            wlen == exps@[e as int].2@.len(),
            0 <= e < exps@.len(),
            wv == exp_views(exps@)[e as int].words,
            wv.len() == wlen,
            ix.wf(),
            ems@.len() == hls@.len(),
            real_index as int == ebase,
            0 <= ebase,
            ebase + wlen <= 0xFFFF_FFFF,
            ems@ =~= m0 + exp_words_emissions(*ix, *cfg, wv, ebase, j as int)
                .map_values(|em: Emission| (em.id, em.m)),
            hls@ =~= h0 + exp_words_emissions(*ix, *cfg, wv, ebase, j as int)
                .map_values(|em: Emission| (em.id, em.h)),
        decreases wlen - j,
    {
        let word = &exps[e].2[j];
        proof {
            assert(word@ == wv[j as int]);
        }
        match ix.word_indexes(word) {
            Some(p) => {
                collect_postings(p, cfg, (real_index + j) as u32, 0, true, ems, hls);
                proof {
                    assert(ix.spec_word_indexes(wv[j as int]) == Some(p@));
                    assert(exp_words_emissions(*ix, *cfg, wv, ebase, j + 1)
                        == exp_words_emissions(*ix, *cfg, wv, ebase, j as int)
                            + posting_emissions(p@, *cfg, ebase + j, 0, true, p@.len() as int));
                    assert(ems@ =~= m0 + exp_words_emissions(*ix, *cfg, wv, ebase, j + 1)
                        .map_values(|em: Emission| (em.id, em.m)));
                    assert(hls@ =~= h0 + exp_words_emissions(*ix, *cfg, wv, ebase, j + 1)
                        .map_values(|em: Emission| (em.id, em.h)));
                }
            },
            None => {
                proof {
                    assert(ix.spec_word_indexes(wv[j as int]) is None);
                    assert(exp_words_emissions(*ix, *cfg, wv, ebase, j + 1)
                        =~= exp_words_emissions(*ix, *cfg, wv, ebase, j as int));
                }
            },
        }
        j += 1;
    }
    proof {
        assert(ems@ =~= m0 + exp_words_emissions(*ix, *cfg, wv, ebase, wlen as int)
            .map_values(|em: Emission| (em.id, em.m)));
    }
}

/// Every emission of one matched word's postings carries the word's real
/// index.
proof fn lemma_posting_emissions_qi(p: Seq<DocIndex>, cfg: QueryConfig, rq: int, d: int, ex: bool, i: int)
    ensures
        forall|t: int| 0 <= t < posting_emissions(p, cfg, rq, d, ex, i).len()
            ==> (#[trigger] posting_emissions(p, cfg, rq, d, ex, i)[t]).m.query_index == rq as u32,
    decreases i,
{
    if i > 0 {
        lemma_posting_emissions_qi(p, cfg, rq, d, ex, i - 1);
        let a = posting_emissions(p, cfg, rq, d, ex, i - 1);
        let w = posting_emissions(p, cfg, rq, d, ex, i);
        assert forall|t: int| 0 <= t < w.len()
            implies (#[trigger] w[t]).m.query_index == rq as u32 by {
            if t < a.len() {
                assert(w[t] == a[t]);
            } else {
                assert(attr_allowed(cfg, p[i - 1].attribute));
                assert(w[t] == emission_of(p[i - 1], rq, d, ex));
            }
        }
    }
}

/// Every emission of one token carries that token's real index.
proof fn lemma_token_emissions_qi(ix: Index, cfg: QueryConfig, tok: Seq<u8>, rq: int, last: bool, wi: int)
    ensures
        forall|t: int| 0 <= t < token_emissions_upto(ix, cfg, tok, rq, last, wi).len()
            ==> (#[trigger] token_emissions_upto(ix, cfg, tok, rq, last, wi)[t]).m.query_index == rq as u32,
    decreases wi,
{
    if wi > 0 {
        lemma_token_emissions_qi(ix, cfg, tok, rq, last, wi - 1);
        let w = ix.words@[wi - 1]@;
        match word_match(tok, w, last, spec_radius(cfg, tok.len() as int)) {
            Some(p) => {
                let postings = ix.postings@[wi - 1]@;
                lemma_posting_emissions_qi(postings, cfg, rq, p.0, p.1, postings.len() as int);
            },
            None => {},
        }
        let a = token_emissions_upto(ix, cfg, tok, rq, last, wi - 1);
        let full = token_emissions_upto(ix, cfg, tok, rq, last, wi);
        assert forall|t: int| 0 <= t < full.len()
            implies (#[trigger] full[t]).m.query_index == rq as u32 by {
            if t < a.len() {
                assert(full[t] == a[t]);
            } else {
                match word_match(tok, w, last, spec_radius(cfg, tok.len() as int)) {
                    Some(p) => {
                        let postings = ix.postings@[wi - 1]@;
                        let b = posting_emissions(postings, cfg, rq, p.0, p.1, postings.len() as int);
                        assert(full[t] == b[t - a.len()]);
                    },
                    None => {},
                }
            }
        }
    }
}

/// Every emission of the original tokens carries a real index below the
/// token count.
proof fn lemma_originals_qi(ix: Index, cfg: QueryConfig, toks: Seq<Seq<u8>>, i: int)
    requires
        i <= 0xFFFF_FFFF,
    ensures
        forall|t: int| 0 <= t < originals_emissions(ix, cfg, toks, i).len()
            ==> (#[trigger] originals_emissions(ix, cfg, toks, i)[t]).m.query_index < i,
    decreases i,
{
    if i > 0 {
        lemma_originals_qi(ix, cfg, toks, i - 1);
        lemma_token_emissions_qi(ix, cfg, toks[i - 1], i - 1, i == toks.len(), ix.words@.len() as int);
        let a = originals_emissions(ix, cfg, toks, i - 1);
        let b = token_emissions(ix, cfg, toks[i - 1], i - 1, i == toks.len());
        let full = originals_emissions(ix, cfg, toks, i);
        assert forall|t: int| 0 <= t < full.len()
            implies (#[trigger] full[t]).m.query_index < i by {
            if t < a.len() {
                assert(full[t] == a[t]);
            } else {
                assert(full[t] == b[t - a.len()]);
                assert(b[t - a.len()].m.query_index == (i - 1) as u32);
            }
        }
    }
}

/// Every emission of the first `j` words of one expansion carries a real
/// index below `base + j`.
proof fn lemma_exp_words_qi(ix: Index, cfg: QueryConfig, words: Seq<Seq<u8>>, base: int, j: int)
    requires
        0 <= base,
        base + j <= 0xFFFF_FFFF,
    ensures
        forall|t: int| 0 <= t < exp_words_emissions(ix, cfg, words, base, j).len()
            ==> base <= (#[trigger] exp_words_emissions(ix, cfg, words, base, j)[t]).m.query_index < base + j,
    decreases j,
{
    if j > 0 {
        lemma_exp_words_qi(ix, cfg, words, base, j - 1);
        let a = exp_words_emissions(ix, cfg, words, base, j - 1);
        let full = exp_words_emissions(ix, cfg, words, base, j);
        match ix.spec_word_indexes(words[j - 1]) {
            Some(p) => {
                lemma_posting_emissions_qi(p, cfg, base + j - 1, 0, true, p.len() as int);
            },
            None => {},
        }
        assert forall|t: int| 0 <= t < full.len()
            implies base <= (#[trigger] full[t]).m.query_index < base + j by {
            if t < a.len() {
                assert(full[t] == a[t]);
            } else {
                match ix.spec_word_indexes(words[j - 1]) {
                    Some(p) => {
                        let b = posting_emissions(p, cfg, base + j - 1, 0, true, p.len() as int);
                        assert(full[t] == b[t - a.len()]);
                        assert(b[t - a.len()].m.query_index == (base + j - 1) as u32);
                    },
                    None => {},
                }
            }
        }
    }
}

/// Every expansion emission carries a real index below the expanded length.
proof fn lemma_exps_emissions_qi(ix: Index, cfg: QueryConfig, n0: int, exps: Seq<Expansion>, e: int)
    requires
        0 <= n0,
        0 <= e <= exps.len(),
        limit_after(n0, exps, exps.len() as int) <= 0xFFFF_FFFF,
        forall|t: int| 0 <= t < exps.len() ==> (#[trigger] exps[t]).words.len() >= 0,
    ensures
        forall|t: int| 0 <= t < exps_emissions(ix, cfg, n0, exps, e).len()
            ==> (#[trigger] exps_emissions(ix, cfg, n0, exps, e)[t]).m.query_index
                < limit_after(n0, exps, e),
    decreases e,
{
    if e > 0 {
        lemma_exps_emissions_qi(ix, cfg, n0, exps, e - 1);
        let base = limit_after(n0, exps, e - 1);
        let w = exps[e - 1].words;
        assert(0 <= base) by {
            lemma_limit_after_nonneg(n0, exps, e - 1);
        }
        assert(base + w.len() == limit_after(n0, exps, e as int));
        assert(base + w.len() <= 0xFFFF_FFFF) by {
            lemma_limit_after_monotone(n0, exps, e as int, exps.len() as int);
        }
        lemma_exp_words_qi(ix, cfg, w, base, w.len() as int);
        assert(base <= limit_after(n0, exps, e as int));
        let a = exps_emissions(ix, cfg, n0, exps, e - 1);
        let b = exp_words_emissions(ix, cfg, w, base, w.len() as int);
        let full = exps_emissions(ix, cfg, n0, exps, e);
        assert forall|t: int| 0 <= t < full.len()
            implies (#[trigger] full[t]).m.query_index < limit_after(n0, exps, e) by {
            if t < a.len() {
                assert(full[t] == a[t]);
                assert(a[t].m.query_index < limit_after(n0, exps, e - 1));
            } else {
                assert(full[t] == b[t - a.len()]);
            }
        }
    }
}

proof fn lemma_limit_after_nonneg(n0: int, exps: Seq<Expansion>, e: int)
    requires
        0 <= n0,
        0 <= e <= exps.len(),
        forall|t: int| 0 <= t < exps.len() ==> (#[trigger] exps[t]).words.len() >= 0,
    ensures
        n0 <= limit_after(n0, exps, e),
    decreases e,
{
    if e > 0 {
        lemma_limit_after_nonneg(n0, exps, e - 1);
    }
}

/// Collect the whole query: the original tokens first, then the synonym
/// expansions, each declared to the enhancer and looked up exactly.  When
/// the expanded query would outgrow the match records' index space, the
/// expansions are left out altogether.
#[verifier::rlimit(100)]
fn collect(
    ix: &Index,
    cfg: &QueryConfig,
    tokens: Vec<Vec<u8>>,
) -> (r: (Vec<(DocumentId, TmpMatch)>, Vec<(DocumentId, Highlight)>, QueryEnhancer))
    requires
        ix.wf(),
        tokens@.len() < 0xFFFF_FFFF,
    ensures
        ({
            let tv = word_views(tokens@);
            let n = tv.len() as int;
            let exps0 = spec_expansions(*ix, tv);
            let exps = if limit_after(n, exps0, exps0.len() as int) <= 0xFFFF_FFFF {
                exps0
            } else {
                Seq::empty()
            };
            let ems = originals_emissions(*ix, *cfg, tv, n)
                + exps_emissions(*ix, *cfg, n, exps, exps.len() as int);
            &&& r.0@ == ems.map_values(|e: Emission| (e.id, e.m))
            &&& r.1@ == ems.map_values(|e: Emission| (e.id, e.h))
            &&& r.2.origins@ == origins_after(tv, exps, exps.len() as int)
            &&& r.2.real_to_origin@ == ranges_after(n, exps, exps.len() as int)
            &&& r.2.wf()
            &&& r.2.limit() == limit_after(n, exps, exps.len() as int)
            &&& forall|t: int| 0 <= t < ems.len()
                ==> (#[trigger] ems[t]).m.query_index < limit_after(n, exps, exps.len() as int)
        }),
{
    let ghost tv = word_views(tokens@);
    let n = tokens.len();
    let exps = find_expansions(ix, &tokens);
    let fits = expansions_fit(n, &exps);
    let ghost used: Seq<Expansion> = if fits { exp_views(exps@) } else { Seq::empty() };

    let mut ems: Vec<(DocumentId, TmpMatch)> = Vec::new();
    let mut hls: Vec<(DocumentId, Highlight)> = Vec::new();

    // the original tokens, each at its own position
    let mut i: usize = 0;
    while i < n
        invariant
            0 <= i <= n,
            n == tokens@.len() < 0xFFFF_FFFF,
            tv == word_views(tokens@),
            ix.wf(),
            ems@.len() == hls@.len(),
            ems@ =~= originals_emissions(*ix, *cfg, tv, i as int).map_values(|e: Emission| (e.id, e.m)),
            hls@ =~= originals_emissions(*ix, *cfg, tv, i as int).map_values(|e: Emission| (e.id, e.h)),
        decreases n - i,
    {
        collect_token(ix, cfg, &tokens[i], i as u32, i + 1 == n, &mut ems, &mut hls);
        proof {
            assert(tokens@[i as int]@ == tv[i as int]);
            assert(originals_emissions(*ix, *cfg, tv, i + 1)
                == originals_emissions(*ix, *cfg, tv, i as int)
                    + token_emissions(*ix, *cfg, tv[i as int], i as int, i + 1 == tv.len()));
            assert(ems@ =~= originals_emissions(*ix, *cfg, tv, i + 1).map_values(|e: Emission| (e.id, e.m)));
            assert(hls@ =~= originals_emissions(*ix, *cfg, tv, i + 1).map_values(|e: Emission| (e.id, e.h)));
        }
        i += 1;
    }

    // the synonym expansions, declared and looked up exactly
    let mut builder = QueryEnhancerBuilder::new(tokens);
    proof {
        assert(builder.origins@ =~= origins_after(tv, used, 0));
        assert(builder.real_to_origin@ =~= ranges_after(n as int, used, 0));
    }
    let ghost base_m = ems@;
    let ghost base_h = hls@;
    if fits {
        let elen = exps.len();
        let mut e: usize = 0;
        while e < elen
            invariant
                0 <= e <= elen,
                elen == exps@.len(),
                used == exp_views(exps@),
                n < 0xFFFF_FFFF,
                ix.wf(),
                builder.wf(),
                builder.query@.len() == n,
                word_views(builder.query@) == tv,
                tv.len() == n,
                builder.origins@ == origins_after(tv, used, e as int),
                builder.real_to_origin@ == ranges_after(n as int, used, e as int),
                builder.limit() == limit_after(n as int, used, e as int),
                limit_after(n as int, used, elen as int) <= 0xFFFF_FFFF,
                forall|t: int| 0 <= t < exps@.len() ==> {
                    let x = #[trigger] exps@[t];
                    &&& x.0 < x.0 + x.1 <= n
                    &&& x.2@.len() >= 1
                },
                ems@.len() == hls@.len(),
                ems@ =~= base_m + exps_emissions(*ix, *cfg, n as int, used, e as int)
                    .map_values(|em: Emission| (em.id, em.m)),
                hls@ =~= base_h + exps_emissions(*ix, *cfg, n as int, used, e as int)
                    .map_values(|em: Emission| (em.id, em.h)),
            decreases elen - e,
        {
            let ghost m_pre = ems@;
            let ghost h_pre = hls@;
            apply_expansion(ix, cfg, &mut builder, &exps, e, &mut ems, &mut hls);
            proof {
                lemma_limit_after_monotone(n as int, used, e + 1, elen as int);
                lemma_limit_after_nonneg(n as int, used, e as int);
                assert(ranges_after(n as int, used, e + 1).last()
                    == (Range {
                        start: limit_after(n as int, used, e as int) as usize,
                        end: (limit_after(n as int, used, e as int) + used[e as int].words.len()) as usize,
                    }, used[e as int].o as usize));
                assert(builder.limit() == limit_after(n as int, used, e + 1));
                assert(exps_emissions(*ix, *cfg, n as int, used, e + 1)
                    == exps_emissions(*ix, *cfg, n as int, used, e as int)
                        + exp_words_emissions(*ix, *cfg, used[e as int].words,
                            limit_after(n as int, used, e as int),
                            used[e as int].words.len() as int));
                assert(ems@ =~= base_m + exps_emissions(*ix, *cfg, n as int, used, e + 1)
                    .map_values(|em: Emission| (em.id, em.m)));
                assert(hls@ =~= base_h + exps_emissions(*ix, *cfg, n as int, used, e + 1)
                    .map_values(|em: Emission| (em.id, em.h)));
            }
            e += 1;
        }
    }
    let enhancer = builder.build();
    proof {
        let n0 = n as int;
        let exps0 = spec_expansions(*ix, tv);
        assert(exp_views(exps@) == exps0);
        let ems_spec = originals_emissions(*ix, *cfg, tv, n0)
            + exps_emissions(*ix, *cfg, n0, used, used.len() as int);
        assert(ems@ =~= ems_spec.map_values(|em: Emission| (em.id, em.m)));
        assert(hls@ =~= ems_spec.map_values(|em: Emission| (em.id, em.h)));
        lemma_originals_qi(*ix, *cfg, tv, n0);
        lemma_limit_after_nonneg(n0, used, used.len() as int);
        if fits {
            lemma_exps_emissions_qi(*ix, *cfg, n0, used, used.len() as int);
        }
        assert forall|t: int| 0 <= t < ems_spec.len()
            implies (#[trigger] ems_spec[t]).m.query_index
                < limit_after(n0, used, used.len() as int) by {
            let a = originals_emissions(*ix, *cfg, tv, n0);
            let b = exps_emissions(*ix, *cfg, n0, used, used.len() as int);
            if t < a.len() {
                assert(a[t].m.query_index < n0);
            } else {
                assert(b[t - a.len()].m.query_index < limit_after(n0, used, used.len() as int));
            }
        }
    }
    (ems, hls, enhancer)
}

/// A match with its real query index mapped back to origin space through
/// the enhancer.
pub open spec fn rewrite_pair(
    or: Seq<usize>,
    rg: Seq<(Range<usize>, usize)>,
    p: (DocumentId, TmpMatch),
) -> (DocumentId, TmpMatch) {
    (p.0, TmpMatch {
        query_index: spec_replacement(or, rg, p.1.query_index as int) as u32,
        distance: p.1.distance,
        attribute: p.1.attribute,
        word_index: p.1.word_index,
        is_exact: p.1.is_exact,
    })
}

/// Map every match's query index back to origin space.
fn rewrite_matches(
    enh: &QueryEnhancer,
    matches: Vec<(DocumentId, TmpMatch)>,
) -> (out: Vec<(DocumentId, TmpMatch)>)
    requires
        enh.wf(),
        enh.limit() <= 0x1_0000_0000,
        forall|t: int| 0 <= t < matches@.len()
            ==> (#[trigger] matches@[t]).1.query_index < enh.limit(),
    ensures
        out@.len() == matches@.len(),
        forall|t: int| 0 <= t < out@.len()
            ==> #[trigger] out@[t] == rewrite_pair(enh.origins@, enh.real_to_origin@, matches@[t]),
{
    let n = matches.len();
    let mut out: Vec<(DocumentId, TmpMatch)> = Vec::new();
    let mut t: usize = 0;
    while t < n
        invariant
            0 <= t <= n,
            n == matches@.len(),
            enh.wf(),
            enh.limit() <= 0x1_0000_0000,
            forall|u: int| 0 <= u < matches@.len()
                ==> (#[trigger] matches@[u]).1.query_index < enh.limit(),
            out@.len() == t,
            forall|u: int| 0 <= u < t
                ==> #[trigger] out@[u] == rewrite_pair(enh.origins@, enh.real_to_origin@, matches@[u]),
        decreases n - t,
    {
        let (id, m) = matches[t];
        let r = enh.replacement(m.query_index as usize);
        out.push((id, TmpMatch {
            query_index: r.start as u32,
            distance: m.distance,
            attribute: m.attribute,
            word_index: m.word_index,
            is_exact: m.is_exact,
        }));
        t += 1;
    }
    out
}

/// Pairing of matches and highlights (law): the collector emits one
/// highlight with every match, so after sorting and grouping, every
/// document's record holds exactly one highlight span per match.
pub proof fn lemma_query_groups_paired(
    ems: Seq<Emission>,
    or: Seq<usize>,
    rg: Seq<(Range<usize>, usize)>,
)
    ensures
        ({
            let ms = ems.map_values(|e: Emission| rewrite_pair(or, rg, (e.id, e.m)));
            let hs = ems.map_values(|e: Emission| (e.id, e.h));
            let groups = spec_group(sort_by_id(ms), sort_by_id(hs));
            forall|j: int| 0 <= j < groups.len()
                ==> (#[trigger] groups[j]).matches.len() == groups[j].highlights.len()
        }),
{
    let ms = ems.map_values(|e: Emission| rewrite_pair(or, rg, (e.id, e.m)));
    let hs = ems.map_values(|e: Emission| (e.id, e.h));
    assert(crate::raw_document::lockstep(ms, hs)) by {
        assert forall|t: int| 0 <= t < ms.len()
            implies (#[trigger] ms[t]).0 == (#[trigger] hs[t]).0 by {
            assert(ms[t] == rewrite_pair(or, rg, (ems[t].id, ems[t].m)));
            assert(hs[t] == (ems[t].id, ems[t].h));
        }
    }
    crate::raw_document::lemma_sort_lockstep(ms, hs);
    crate::raw_document::lemma_group_lockstep(sort_by_id(ms), sort_by_id(hs), 0);
}

/// The view of one grouped document.
pub open spec fn group_view(g: DocGroup) -> DocView {
    DocView {
        id: g.id,
        query_index: g.matches.map_values(|m: TmpMatch| m.query_index),
        distance: g.matches.map_values(|m: TmpMatch| m.distance),
        attribute: g.matches.map_values(|m: TmpMatch| m.attribute),
        word_index: g.matches.map_values(|m: TmpMatch| m.word_index),
        is_exact: g.matches.map_values(|m: TmpMatch| m.is_exact),
        highlights: g.highlights,
    }
}

/// What a query returns, from the index and configuration, the query text,
/// and the page bounds: the ranked page of `(document, highlights)` pairs.
pub open spec fn spec_query(
    ix: Index,
    cfg: QueryConfig,
    text: Seq<char>,
    offset: int,
    limit: int,
) -> Seq<(DocumentId, Seq<Highlight>)> {
    let toks0 = spec_tokens(normal_bytes(text));
    let toks = filter_stops(toks0, word_views(cfg.stop_words@), toks0.len() as int);
    if toks.len() >= 0xFFFF_FFFF {
        Seq::empty()
    } else {
        let n = toks.len() as int;
        let exps0 = spec_expansions(ix, toks);
        let exps = if limit_after(n, exps0, exps0.len() as int) <= 0xFFFF_FFFF {
            exps0
        } else {
            Seq::empty()
        };
        let ems = originals_emissions(ix, cfg, toks, n)
            + exps_emissions(ix, cfg, n, exps, exps.len() as int);
        let or = origins_after(toks, exps, exps.len() as int);
        let rg = ranges_after(n, exps, exps.len() as int);
        let ms = ems.map_values(|e: Emission| rewrite_pair(or, rg, (e.id, e.m)));
        let hs = ems.map_values(|e: Emission| (e.id, e.h));
        let groups = spec_group(sort_by_id(ms), sort_by_id(hs));
        let ranked = spec_rank_docs(groups.map_values(|g: DocGroup| group_view(g)));
        let glen = ranked.len() as int;
        let lo = if offset <= glen { offset } else { glen };
        let hi = if offset + limit <= glen { offset + limit } else { glen };
        if 0 <= lo <= hi <= glen {
            ranked.subrange(lo, hi).map_values(|dv: DocView| (dv.id, dv.highlights))
        } else {
            Seq::empty()
        }
    }
}

/// Run one query: normalize and tokenize the text, expand it with the
/// stored synonyms, collect and group the matches, rank the documents
/// through the criteria cascade, and return the requested page.
///
/// A query that tokenizes to nothing returns the empty result.
pub fn query(
    ix: &Index,
    cfg: &QueryConfig,
    text: &str,
    offset: usize,
    limit: usize,
) -> (res: Vec<Document>)
    requires
        ix.wf(),
    ensures
        ({
            let q = spec_query(*ix, *cfg, text@, offset as int, limit as int);
            &&& res@.len() == q.len()
            &&& forall|t: int| 0 <= t < res@.len()
                ==> (#[trigger] res@[t]).id == q[t].0 && res@[t].highlights@ == q[t].1
        }),
{
    let ghost qspec = spec_query(*ix, *cfg, text@, offset as int, limit as int);
    let bytes = normalize_str(text);
    let toks0 = tokenize(&bytes);
    let tokens = remove_stop_words(toks0, cfg);
    let ghost tv = word_views(tokens@);
    proof {
        let toks0v = spec_tokens(normal_bytes(text@));
        assert(tv =~= filter_stops(toks0v, word_views(cfg.stop_words@), toks0v.len() as int)) by {
            assert(word_views(toks0@) =~= toks0v) by {
                assert forall|t: int| 0 <= t < toks0@.len()
                    implies word_views(toks0@)[t] == toks0v[t] by {
                    assert(word_views(toks0@)[t] == toks0@[t]@);
                }
            }
        }
    }
    if (tokens.len() as u64) >= 0xFFFF_FFFFu64 {
        let res: Vec<Document> = Vec::new();
        return res;
    }
    let (matches, highlights, enhancer) = collect(ix, cfg, tokens);
    let ghost n = tv.len() as int;
    let ghost exps0 = spec_expansions(*ix, tv);
    let ghost used: Seq<Expansion> = if limit_after(n, exps0, exps0.len() as int) <= 0xFFFF_FFFF {
        exps0
    } else {
        Seq::empty()
    };
    let ghost ems_spec = originals_emissions(*ix, *cfg, tv, n)
        + exps_emissions(*ix, *cfg, n, used, used.len() as int);
    proof {
        lemma_limit_after_nonneg(n, used, used.len() as int);
        if limit_after(n, exps0, exps0.len() as int) > 0xFFFF_FFFF {
            assert(used.len() == 0);
            assert(enhancer.limit() == n);
        }
        assert(enhancer.limit() == limit_after(n, used, used.len() as int));
        assert(enhancer.limit() <= 0x1_0000_0000);
        assert(matches@ == ems_spec.map_values(|e: Emission| (e.id, e.m)));
        lemma_originals_qi(*ix, *cfg, tv, n);
        if used.len() > 0 {
            lemma_exps_emissions_qi(*ix, *cfg, n, used, used.len() as int);
        }
        assert forall|t: int| 0 <= t < matches@.len()
            implies (#[trigger] matches@[t]).1.query_index < enhancer.limit() by {
            assert(matches@[t] == ems_spec.map_values(|e: Emission| (e.id, e.m))[t]);
            let a = originals_emissions(*ix, *cfg, tv, n);
            let b = exps_emissions(*ix, *cfg, n, used, used.len() as int);
            if t < a.len() {
                assert(ems_spec[t] == a[t]);
                assert(a[t].m.query_index < n);
            } else {
                assert(ems_spec[t] == b[t - a.len()]);
                assert(used.len() > 0);
                assert(b[t - a.len()].m.query_index < limit_after(n, used, used.len() as int));
            }
        }
    }
    let rewritten = rewrite_matches(&enhancer, matches);
    proof {
        let or = origins_after(tv, used, used.len() as int);
        let rg = ranges_after(n, used, used.len() as int);
        assert(rewritten@ =~= ems_spec.map_values(|e: Emission| rewrite_pair(or, rg, (e.id, e.m)))) by {
            assert forall|t: int| 0 <= t < rewritten@.len()
                implies rewritten@[t]
                    == ems_spec.map_values(|e: Emission| rewrite_pair(or, rg, (e.id, e.m)))[t] by {
                assert(rewritten@[t] == rewrite_pair(or, rg,
                    ems_spec.map_values(|e: Emission| (e.id, e.m))[t]));
            }
        }
        assert(highlights@ =~= ems_spec.map_values(|e: Emission| (e.id, e.h)));
    }
    let docs = raw_documents_from(rewritten, highlights);
    proof {
        let or = origins_after(tv, used, used.len() as int);
        let rg = ranges_after(n, used, used.len() as int);
        let ms = ems_spec.map_values(|e: Emission| rewrite_pair(or, rg, (e.id, e.m)));
        let hs = ems_spec.map_values(|e: Emission| (e.id, e.h));
        let groups = spec_group(sort_by_id(ms), sort_by_id(hs));
        assert(views_of(docs@) =~= groups.map_values(|g: DocGroup| group_view(g))) by {
            assert forall|t: int| 0 <= t < docs@.len()
                implies views_of(docs@)[t]
                    == groups.map_values(|g: DocGroup| group_view(g))[t] by {
                assert(views_of(docs@)[t] == crate::criteria::view_of(docs@[t]));
                assert(crate::raw_document::doc_matches_group(docs@[t], groups[t]));
            }
        }
    }
    let ranked = rank_documents(docs);
    // page the ranked documents
    let glen = ranked.len();
    let lo = if offset <= glen {
        offset
    } else {
        glen
    };
    let take = if limit <= glen - lo {
        limit
    } else {
        glen - lo
    };
    let ghost rankedv = views_of(ranked@);
    let mut rest = ranked;
    let mut res: Vec<Document> = Vec::new();
    // drop the documents before the page
    let mut dropped: usize = 0;
    while dropped < lo
        invariant
            0 <= dropped <= lo <= glen,
            glen == rankedv.len(),
            lo + take <= glen,
            rest@.len() == glen - dropped,
            forall|t: int| 0 <= t < rest@.len()
                ==> crate::criteria::view_of(#[trigger] rest@[t]) == rankedv[dropped + t],
        decreases lo - dropped,
    {
        let ghost pre = rest@;
        let _ = rest.remove(0);
        proof {
            assert forall|t: int| 0 <= t < rest@.len()
                implies crate::criteria::view_of(#[trigger] rest@[t]) == rankedv[dropped + 1 + t] by {
                assert(rest@[t] == pre[t + 1]);
            }
        }
        dropped += 1;
    }
    let mut got: usize = 0;
    while got < take
        invariant
            0 <= got <= take,
            lo + take <= glen,
            glen == rankedv.len(),
            rest@.len() == glen - lo - got,
            forall|t: int| 0 <= t < rest@.len()
                ==> crate::criteria::view_of(#[trigger] rest@[t]) == rankedv[lo + got + t],
            res@.len() == got,
            forall|t: int| 0 <= t < got ==> (#[trigger] res@[t]).id == rankedv[lo + t].id
                && res@[t].highlights@ == rankedv[lo + t].highlights,
        decreases take - got,
    {
        let ghost pre = rest@;
        let d = rest.remove(0);
        proof {
            assert(crate::criteria::view_of(d) == rankedv[lo + got]);
            assert forall|t: int| 0 <= t < rest@.len()
                implies crate::criteria::view_of(#[trigger] rest@[t]) == rankedv[lo + got + 1 + t] by {
                assert(rest@[t] == pre[t + 1]);
            }
        }
        res.push(Document { id: d.id, highlights: d.highlights });
        got += 1;
    }
    proof {
        let q = qspec;
        let glen_i = rankedv.len() as int;
        let lo_i = if offset as int <= glen_i { offset as int } else { glen_i };
        let hi_i = if offset as int + limit as int <= glen_i { offset as int + limit as int } else { glen_i };
        assert(lo as int == lo_i);
        assert(lo + take == hi_i);
        assert(q == rankedv.subrange(lo_i, hi_i).map_values(|dv: DocView| (dv.id, dv.highlights)));
        assert(res@.len() == q.len());
        assert forall|t: int| 0 <= t < res@.len()
            implies (#[trigger] res@[t]).id == q[t].0 && res@[t].highlights@ == q[t].1 by {
            assert(q[t] == (rankedv[lo_i + t].id, rankedv[lo_i + t].highlights));
        }
    }
    res
}

} // verus!
