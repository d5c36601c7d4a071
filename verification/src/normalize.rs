//! Normalization and tokenization: query text and synonyms are lowercased,
//! encoded as UTF-8 bytes, and split into tokens on anything that is
//! neither an ASCII letter or digit nor part of a multi-byte character.

use vstd::prelude::*;

verus! {

/// What `str::to_lowercase` returns: a function of the characters alone.
pub uninterp spec fn lower_of(s: Seq<char>) -> Seq<char>;

/// Relies on `str::to_lowercase`: the lowercase form depends on the
/// characters alone, and an empty string stays empty.
#[verifier::external_body]
pub fn lowercase(s: &str) -> (r: String)
    ensures
        r@ == lower_of(s@),
        s@.len() == 0 ==> r@.len() == 0,
{
    s.to_lowercase()
}

/// The normalized bytes of a piece of text: the UTF-8 encoding of its
/// lowercase form.
pub open spec fn normal_bytes(s: Seq<char>) -> Seq<u8> {
    vstd::utf8::encode_utf8(lower_of(s))
}

/// Lowercase a piece of text and return its UTF-8 bytes.
pub fn normalize_str(s: &str) -> (r: Vec<u8>)
    ensures
        r@ == normal_bytes(s@),
{
    let low = lowercase(s);
    vstd::slice::slice_to_vec(low.as_str().as_bytes())
}

/// A byte that belongs to a token: an ASCII letter or digit, or any byte of
/// a multi-byte UTF-8 character.
pub open spec fn is_word_byte(b: u8) -> bool {
    (0x30 <= b <= 0x39) || (0x41 <= b <= 0x5a) || (0x61 <= b <= 0x7a) || b >= 0x80
}

fn word_byte(b: u8) -> (r: bool)
    ensures
        r == is_word_byte(b),
{
    (0x30 <= b && b <= 0x39) || (0x41 <= b && b <= 0x5a) || (0x61 <= b && b <= 0x7a) || b >= 0x80
}

/// The first token byte at or after `i`; the length when there is none.
pub open spec fn delim_run(s: Seq<u8>, i: int) -> int
    decreases s.len() - i,
{
    if i < 0 || i >= s.len() {
        s.len() as int
    } else if is_word_byte(s[i]) {
        i
    } else {
        delim_run(s, i + 1)
    }
}

/// The first non-token byte at or after `i`; the length when there is none.
pub open spec fn token_run(s: Seq<u8>, i: int) -> int
    decreases s.len() - i,
{
    if i < 0 || i >= s.len() {
        s.len() as int
    } else if !is_word_byte(s[i]) {
        i
    } else {
        token_run(s, i + 1)
    }
}

proof fn lemma_delim_run_props(s: Seq<u8>, i: int)
    requires
        0 <= i <= s.len(),
    ensures
        i <= delim_run(s, i) <= s.len(),
        forall|t: int| i <= t < delim_run(s, i) ==> !is_word_byte(#[trigger] s[t]),
        delim_run(s, i) < s.len() ==> is_word_byte(s[delim_run(s, i)]),
    decreases s.len() - i,
{
    if i < s.len() && !is_word_byte(s[i]) {
        lemma_delim_run_props(s, i + 1);
    }
}

proof fn lemma_token_run_props(s: Seq<u8>, i: int)
    requires
        0 <= i <= s.len(),
    ensures
        i <= token_run(s, i) <= s.len(),
        forall|t: int| i <= t < token_run(s, i) ==> is_word_byte(#[trigger] s[t]),
        token_run(s, i) < s.len() ==> !is_word_byte(s[token_run(s, i)]),
    decreases s.len() - i,
{
    if i < s.len() && is_word_byte(s[i]) {
        lemma_token_run_props(s, i + 1);
    }
}

/// The tokens of `s` from position `i` on: maximal runs of token bytes.
pub open spec fn spec_tokens_from(s: Seq<u8>, i: int) -> Seq<Seq<u8>>
    decreases s.len() - i,
{
    if i < 0 || i >= s.len() {
        Seq::empty()
    } else {
        let j = delim_run(s, i);
        if j >= s.len() || j < i {
            Seq::empty()
        } else {
            let e = token_run(s, j);
            if e <= j || e > s.len() {
                Seq::empty()
            } else {
                seq![s.subrange(j, e)] + spec_tokens_from(s, e)
            }
        }
    }
}

/// The tokens of a normalized byte string.
pub open spec fn spec_tokens(s: Seq<u8>) -> Seq<Seq<u8>> {
    spec_tokens_from(s, 0)
}

/// Split a normalized byte string into its tokens.
pub fn tokenize(bytes: &Vec<u8>) -> (toks: Vec<Vec<u8>>)
    ensures
        toks@.len() == spec_tokens(bytes@).len(),
        forall|k: int| 0 <= k < toks@.len() ==> (#[trigger] toks@[k])@ == spec_tokens(bytes@)[k],
{
    let ghost s = bytes@;
    let n = bytes.len();
    let mut toks: Vec<Vec<u8>> = Vec::new();
    let mut i: usize = 0;
    while i < n
        invariant
            0 <= i <= n,
            n == s.len(),
            s == bytes@,
            spec_tokens(s).len() == toks@.len() + spec_tokens_from(s, i as int).len(),
            forall|k: int| 0 <= k < toks@.len() ==> (#[trigger] toks@[k])@ == spec_tokens(s)[k],
            forall|k: int| toks@.len() <= k < spec_tokens(s).len()
                ==> spec_tokens(s)[k] == spec_tokens_from(s, i as int)[k - toks@.len()],
        decreases n - i,
    {
        if !word_byte(bytes[i]) {
            proof {
                assert(delim_run(s, i as int) == delim_run(s, i as int + 1));
            }
            i += 1;
        } else {
            proof {
                assert(delim_run(s, i as int) == i as int);
            }
            // scan to the end of this token
            let mut e: usize = i + 1;
            while e < n && word_byte(bytes[e])
                invariant
                    i < e <= n,
                    n == s.len(),
                    s == bytes@,
                    is_word_byte(s[i as int]),
                    forall|t: int| i <= t < e ==> is_word_byte(#[trigger] s[t]),
                decreases n - e,
            {
                e += 1;
            }
            proof {
                lemma_token_run_props(s, i as int);
                let tr = token_run(s, i as int);
                if tr < e {
                    assert(is_word_byte(s[tr]));
                } else if tr > e {
                    assert(e < n);
                    assert(is_word_byte(s[e as int]));
                }
                assert(tr == e as int);
            }
            // copy the token out
            let mut tok: Vec<u8> = Vec::new();
            let mut t: usize = i;
            while t < e
                invariant
                    i <= t <= e <= n,
                    n == s.len(),
                    s == bytes@,
                    tok@ =~= s.subrange(i as int, t as int),
                decreases e - t,
            {
                tok.push(bytes[t]);
                t += 1;
            }
            proof {
                assert(tok@ =~= s.subrange(i as int, e as int));
                assert(spec_tokens_from(s, i as int)
                    == seq![s.subrange(i as int, e as int)] + spec_tokens_from(s, e as int));
            }
            toks.push(tok);
            i = e;
        }
    }
    proof {
        assert(spec_tokens_from(s, i as int).len() == 0);
    }
    toks
}

/// The tokens `[o, o + k)` joined with single spaces: the form in which a
/// multi-word phrase is looked up among the synonym keys.
pub open spec fn spec_join(tokens: Seq<Seq<u8>>, o: int, k: int) -> Seq<u8>
    decreases k,
{
    if k <= 0 {
        Seq::empty()
    } else if k == 1 {
        tokens[o]
    } else {
        spec_join(tokens, o, k - 1) + seq![32u8] + tokens[o + k - 1]
    }
}

/// Join a span of tokens with single spaces.
pub fn join_tokens(tokens: &Vec<Vec<u8>>, o: usize, k: usize) -> (r: Vec<u8>)
    requires
        k >= 1,
        o + k <= tokens@.len(),
    ensures
        r@ == spec_join(tokens@.map_values(|t: Vec<u8>| t@), o as int, k as int),
{
    let ghost tv = tokens@.map_values(|t: Vec<u8>| t@);
    let tn = tokens.len();
    let mut r: Vec<u8> = Vec::new();
    let mut w: usize = 0;
    while w < k
        invariant
            0 <= w <= k,
            k >= 1,
            o + k <= tn,
            tn == tokens@.len(),
            tv == tokens@.map_values(|t: Vec<u8>| t@),
            r@ =~= spec_join(tv, o as int, w as int),
        decreases k - w,
    {
        if w > 0 {
            r.push(32u8);
        }
        let tok = &tokens[o + w];
        let m = tok.len();
        let ghost r0 = r@;
        let mut t: usize = 0;
        while t < m
            invariant
                0 <= t <= m,
                m == tok@.len(),
                tok@ == tokens@[o + w]@,
                o + w < tokens@.len(),
                r@ =~= r0 + tok@.subrange(0, t as int),
            decreases m - t,
        {
            r.push(tok[t]);
            t += 1;
        }
        proof {
            assert(tok@.subrange(0, m as int) =~= tok@);
            assert(tv[o + w] == tok@);
            if w == 0 {
                assert(r@ =~= spec_join(tv, o as int, 1));
            } else {
                assert(r@ =~= spec_join(tv, o as int, w as int) + seq![32u8] + tv[o + w]);
            }
        }
        w += 1;
    }
    r
}

} // verus!
