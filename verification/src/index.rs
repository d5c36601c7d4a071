//! The in-memory index behind the query pipeline: the set of indexed words
//! with their postings, and the set of synonym keys with their
//! alternatives.  Every key is held at most once; postings are kept in
//! `(document, attribute, word position)` order as the collector expects.

use vstd::prelude::*;
use crate::DocIndex;
use crate::query_enhancer::bytes_eq;

verus! {

/// An alternative of a synonym key: the words it expands to.
pub type AltWords = Vec<Vec<u8>>;

/// The words of an alternative, as byte strings.
pub open spec fn alt_view(a: AltWords) -> Seq<Seq<u8>> {
    a@.map_values(|w: Vec<u8>| w@)
}

/// No two entries hold the same key.
pub open spec fn keys_unique(keys: Seq<Vec<u8>>) -> bool {
    forall|i: int, j: int| 0 <= i < j < keys.len() ==> (#[trigger] keys[i])@ != (#[trigger] keys[j])@
}

/// Postings are ordered by document, then attribute, then word position.
pub open spec fn postings_sorted(p: Seq<DocIndex>) -> bool {
    forall|i: int, j: int| 0 <= i < j < p.len() ==> {
        let a = #[trigger] p[i];
        let b = #[trigger] p[j];
        a.document_id.0 < b.document_id.0 || (a.document_id.0 == b.document_id.0 && (
            a.attribute < b.attribute || (a.attribute == b.attribute && a.word_index <= b.word_index)
        ))
    }
}

/// The first entry holding key `w`; the number of entries when none does.
pub open spec fn find_key_from(keys: Seq<Vec<u8>>, w: Seq<u8>, i: int) -> int
    decreases keys.len() - i,
{
    if i < 0 || i >= keys.len() {
        keys.len() as int
    } else if keys[i]@ == w {
        i
    } else {
        find_key_from(keys, w, i + 1)
    }
}

pub open spec fn find_key(keys: Seq<Vec<u8>>, w: Seq<u8>) -> int {
    find_key_from(keys, w, 0)
}

pub open spec fn has_key(keys: Seq<Vec<u8>>, w: Seq<u8>) -> bool {
    find_key(keys, w) < keys.len()
}

proof fn lemma_find_key_from(keys: Seq<Vec<u8>>, w: Seq<u8>, i: int)
    requires
        0 <= i <= keys.len(),
    ensures
        i <= find_key_from(keys, w, i) <= keys.len(),
        find_key_from(keys, w, i) < keys.len() ==> keys[find_key_from(keys, w, i)]@ == w,
        forall|t: int| i <= t < find_key_from(keys, w, i) ==> (#[trigger] keys[t])@ != w,
    decreases keys.len() - i,
{
    if i < keys.len() && keys[i]@ != w {
        lemma_find_key_from(keys, w, i + 1);
    }
}

/// The search finds a key wherever one stands.
pub proof fn lemma_find_key(keys: Seq<Vec<u8>>, w: Seq<u8>)
    ensures
        0 <= find_key(keys, w) <= keys.len(),
        find_key(keys, w) < keys.len() ==> keys[find_key(keys, w)]@ == w,
        has_key(keys, w) <==> exists|t: int| 0 <= t < keys.len() && (#[trigger] keys[t])@ == w,
{
    lemma_find_key_from(keys, w, 0);
    if exists|t: int| 0 <= t < keys.len() && (#[trigger] keys[t])@ == w {
        let t = choose|t: int| 0 <= t < keys.len() && (#[trigger] keys[t])@ == w;
        if find_key(keys, w) == keys.len() {
            assert(keys[t]@ != w);
        }
    }
}

/// Look a key up in a key column.
pub fn find_in(keys: &Vec<Vec<u8>>, w: &Vec<u8>) -> (r: usize)
    ensures
        r as int == find_key(keys@, w@),
{
    let n = keys.len();
    let mut i: usize = 0;
    while i < n
        invariant
            0 <= i <= n,
            n == keys@.len(),
            find_key(keys@, w@) == find_key_from(keys@, w@, i as int),
        decreases n - i,
    {
        if bytes_eq(&keys[i], w) {
            return i;
        }
        i += 1;
    }
    n
}

/// The in-memory index: parallel key and value columns for the word set and
/// for the synonym set, and a counter of applied updates.
pub struct Index {
    pub words: Vec<Vec<u8>>,
    pub postings: Vec<Vec<DocIndex>>,
    pub synonyms: Vec<Vec<u8>>,
    pub alternatives: Vec<Vec<AltWords>>,
    pub updates: u64,
}

impl Index {
    pub open spec fn wf(&self) -> bool {
        &&& self.postings@.len() == self.words@.len()
        &&& keys_unique(self.words@)
        &&& self.alternatives@.len() == self.synonyms@.len()
        &&& keys_unique(self.synonyms@)
        &&& forall|i: int| 0 <= i < self.postings@.len() ==> postings_sorted((#[trigger] self.postings@[i])@)
    }

    /// The postings of a word, when it is indexed.
    pub open spec fn spec_word_indexes(&self, w: Seq<u8>) -> Option<Seq<DocIndex>> {
        if has_key(self.words@, w) {
            Some(self.postings@[find_key(self.words@, w)]@)
        } else {
            None
        }
    }

    /// The alternatives of a synonym key, when it is known.
    pub open spec fn spec_alternatives_to(&self, w: Seq<u8>) -> Option<Seq<AltWords>> {
        if has_key(self.synonyms@, w) {
            Some(self.alternatives@[find_key(self.synonyms@, w)]@)
        } else {
            None
        }
    }

    pub fn new() -> (ix: Index)
        ensures
            ix.wf(),
            ix.words@.len() == 0,
            ix.synonyms@.len() == 0,
            ix.updates == 0,
    {
        Index {
            words: Vec::new(),
            postings: Vec::new(),
            synonyms: Vec::new(),
            alternatives: Vec::new(),
            updates: 0,
        }
    }

    /// The sorted postings of a word: the store's word-to-documents map.
    pub fn word_indexes(&self, word: &Vec<u8>) -> (r: Option<&Vec<DocIndex>>)
        requires
            self.wf(),
        ensures
            match r {
                Some(p) => self.spec_word_indexes(word@) == Some(p@),
                None => self.spec_word_indexes(word@) is None,
            },
    {
        proof {
            lemma_find_key(self.words@, word@);
        }
        let i = find_in(&self.words, word);
        if i < self.words.len() {
            Some(&self.postings[i])
        } else {
            None
        }
    }

    /// The alternatives of a synonym key: the store's synonym map.
    pub fn alternatives_to(&self, word: &Vec<u8>) -> (r: Option<&Vec<AltWords>>)
        requires
            self.wf(),
        ensures
            match r {
                Some(a) => self.spec_alternatives_to(word@) == Some(a@),
                None => self.spec_alternatives_to(word@) is None,
            },
    {
        proof {
            lemma_find_key(self.synonyms@, word@);
        }
        let i = find_in(&self.synonyms, word);
        if i < self.synonyms.len() {
            Some(&self.alternatives[i])
        } else {
            None
        }
    }

    /// Set the postings of a word, adding the word to the word set when it
    /// is new.
    pub fn set_word_indexes(&mut self, word: Vec<u8>, postings: Vec<DocIndex>)
        requires
            old(self).wf(),
            postings_sorted(postings@),
        ensures
            final(self).wf(),
            final(self).synonyms@ == old(self).synonyms@,
            final(self).alternatives@ == old(self).alternatives@,
            final(self).updates == old(self).updates,
            final(self).spec_word_indexes(word@) == Some(postings@),
            forall|w: Seq<u8>| w != word@
                ==> #[trigger] final(self).spec_word_indexes(w) == old(self).spec_word_indexes(w),
            forall|w: Seq<u8>| #[trigger] has_key(final(self).words@, w)
                <==> has_key(old(self).words@, w) || w == word@,
    {
        proof {
            lemma_find_key(self.words@, word@);
        }
        let ghost w0 = self.words@;
        let ghost p0 = self.postings@;
        let i = find_in(&self.words, &word);
        if i < self.words.len() {
            self.postings.set(i, postings);
        } else {
            self.words.push(word);
            self.postings.push(postings);
        }
        proof {
            lemma_set_key_effect(w0, p0, self.words@, self.postings@, word@, i as int);
        }
    }

    /// Set the alternatives of a synonym key, adding the key to the synonym
    /// set when it is new.
    pub fn set_alternatives_to(&mut self, key: Vec<u8>, alts: Vec<AltWords>)
        requires
            old(self).wf(),
        ensures
            final(self).wf(),
            final(self).words@ == old(self).words@,
            final(self).postings@ == old(self).postings@,
            final(self).updates == old(self).updates,
            final(self).spec_alternatives_to(key@) == Some(alts@),
            forall|w: Seq<u8>| w != key@
                ==> #[trigger] final(self).spec_alternatives_to(w) == old(self).spec_alternatives_to(w),
            forall|w: Seq<u8>| #[trigger] has_key(final(self).synonyms@, w)
                <==> has_key(old(self).synonyms@, w) || w == key@,
    {
        proof {
            lemma_find_key(self.synonyms@, key@);
        }
        let ghost s0 = self.synonyms@;
        let ghost a0 = self.alternatives@;
        let i = find_in(&self.synonyms, &key);
        if i < self.synonyms.len() {
            self.alternatives.set(i, alts);
        } else {
            self.synonyms.push(key);
            self.alternatives.push(alts);
        }
        proof {
            lemma_set_key_effect_alts(s0, a0, self.synonyms@, self.alternatives@, key@, i as int);
        }
    }
}

/// Effect of one keyed update on lookups: the written key now maps to the
/// new value and every other key is untouched.
proof fn lemma_set_key_effect(
    w0: Seq<Vec<u8>>,
    p0: Seq<Vec<DocIndex>>,
    w1: Seq<Vec<u8>>,
    p1: Seq<Vec<DocIndex>>,
    key: Seq<u8>,
    i: int,
)
    requires
        keys_unique(w0),
        p0.len() == w0.len(),
        i == find_key(w0, key),
        i < w0.len() ==> w1 == w0 && p1 == p0.update(i, p1[i]),
        i == w0.len() ==> w1 == w0.push(w1[i as int]) && p1 == p0.push(p1[i as int])
            && w1[i as int]@ == key,
    ensures
        keys_unique(w1),
        p1.len() == w1.len(),
        find_key(w1, key) == i,
        forall|w: Seq<u8>| w != key ==> #[trigger] find_key(w1, w) == find_key(w0, w)
            || (find_key(w1, w) == w1.len() && find_key(w0, w) == w0.len()),
        forall|w: Seq<u8>| #[trigger] has_key(w1, w) <==> has_key(w0, w) || w == key,
        forall|w: Seq<u8>| w != key && has_key(w1, w)
            ==> #[trigger] p1[find_key(w1, w)] == p0[find_key(w0, w)] && find_key(w1, w) == find_key(w0, w),
{
    lemma_find_key(w0, key);
    if i < w0.len() {
        assert(keys_unique(w1));
        lemma_find_key_stable(w0, w1, key, i);
        assert forall|w: Seq<u8>| w != key && has_key(w1, w)
            implies #[trigger] p1[find_key(w1, w)] == p0[find_key(w0, w)] && find_key(w1, w) == find_key(w0, w) by {
            lemma_find_key(w1, w);
            assert(find_key(w1, w) == find_key(w0, w));
            assert(w0[find_key(w0, w)]@ == w);
            assert(find_key(w0, w) != i);
        }
    } else {
        assert forall|a: int, b: int| 0 <= a < b < w1.len() implies (#[trigger] w1[a])@ != (#[trigger] w1[b])@ by {
            if b < w0.len() {
                assert(w1[a] == w0[a] && w1[b] == w0[b]);
            } else {
                assert(w1[b]@ == key);
                assert(w1[a] == w0[a]);
                lemma_find_key(w0, key);
                assert(find_key(w0, key) == w0.len());
                lemma_find_key_none(w0, key, a);
            }
        }
        lemma_find_key_stable(w0, w1, key, i);
        assert forall|w: Seq<u8>| w != key && has_key(w1, w)
            implies #[trigger] p1[find_key(w1, w)] == p0[find_key(w0, w)] && find_key(w1, w) == find_key(w0, w) by {
            lemma_find_key(w1, w);
            lemma_find_key(w0, w);
            assert(find_key(w1, w) == find_key(w0, w) || (find_key(w1, w) == w1.len() && find_key(w0, w) == w0.len()));
        }
    }
}

/// A key standing at `t` while the search reports "absent" is impossible.
proof fn lemma_find_key_none(keys: Seq<Vec<u8>>, w: Seq<u8>, t: int)
    requires
        0 <= t < keys.len(),
        find_key(keys, w) == keys.len(),
    ensures
        keys[t]@ != w,
{
    lemma_find_key_from(keys, w, 0);
}

/// How the search behaves after a keyed update at position `i`.
proof fn lemma_find_key_stable(w0: Seq<Vec<u8>>, w1: Seq<Vec<u8>>, key: Seq<u8>, i: int)
    requires
        keys_unique(w0),
        i == find_key(w0, key),
        0 <= i <= w0.len(),
        i < w0.len() ==> w1 == w0,
        i == w0.len() ==> w1.len() == w0.len() + 1 && w1[i] @ == key
            && (forall|t: int| 0 <= t < w0.len() ==> #[trigger] w1[t] == w0[t]),
    ensures
        find_key(w1, key) == i,
        forall|w: Seq<u8>| w != key ==> (#[trigger] find_key(w1, w) == find_key(w0, w)
            || (find_key(w1, w) == w1.len() && find_key(w0, w) == w0.len())),
        forall|w: Seq<u8>| #[trigger] has_key(w1, w) <==> has_key(w0, w) || w == key,
{
    lemma_find_key(w0, key);
    if i < w0.len() {
        assert(w1 == w0);
        assert forall|w: Seq<u8>| #[trigger] has_key(w1, w) implies has_key(w0, w) || w == key by {}
    } else {
        lemma_find_key(w1, key);
        assert(has_key(w1, key)) by {
            assert(w1[i]@ == key);
            lemma_find_key(w1, key);
            if find_key(w1, key) == w1.len() {
                lemma_find_key_none(w1, key, i);
            }
        }
        let fk = find_key(w1, key);
        assert(fk == i) by {
            lemma_find_key_from(w1, key, 0);
            if fk < i {
                assert(w1[fk] == w0[fk]);
                lemma_find_key_none(w0, key, fk);
            }
        }
        assert forall|w: Seq<u8>| w != key implies (#[trigger] find_key(w1, w) == find_key(w0, w)
            || (find_key(w1, w) == w1.len() && find_key(w0, w) == w0.len())) by {
            lemma_find_key(w0, w);
            lemma_find_key(w1, w);
            let f0 = find_key(w0, w);
            let f1 = find_key(w1, w);
            if f0 < w0.len() {
                // the key stands where it stood
                lemma_find_key_from(w0, w, 0);
                lemma_find_key_from(w1, w, 0);
                assert(w1[f0]@ == w);
                if f1 < f0 {
                    assert(w1[f1]@ == w);
                    assert(w1[f1] == w0[f1]);
                    lemma_find_key_agree(w0, w, f1);
                } else if f1 > f0 {
                    lemma_find_key_agree(w1, w, f0);
                }
            } else {
                if f1 < w1.len() {
                    assert(w1[f1]@ == w);
                    if f1 < w0.len() {
                        assert(w1[f1] == w0[f1]);
                        lemma_find_key_none(w0, w, f1);
                    } else {
                        assert(w1[f1]@ == key);
                    }
                }
            }
        }
        assert forall|w: Seq<u8>| #[trigger] has_key(w1, w) implies has_key(w0, w) || w == key by {
            let f1 = find_key(w1, w);
            lemma_find_key(w1, w);
            assert(w1[f1]@ == w);
            if f1 < w0.len() {
                assert(w1[f1] == w0[f1]);
                lemma_find_key(w0, w);
                if !has_key(w0, w) {
                    lemma_find_key_none(w0, w, f1);
                }
            } else {
                assert(w1[f1]@ == key);
            }
        }
        assert forall|w: Seq<u8>| has_key(w0, w) || w == key implies #[trigger] has_key(w1, w) by {
            lemma_find_key(w1, w);
            if w == key {
                assert(w1[i]@ == key);
                if !has_key(w1, w) {
                    lemma_find_key_none(w1, w, i);
                }
            } else {
                let f0 = find_key(w0, w);
                lemma_find_key(w0, w);
                assert(w0[f0]@ == w);
                assert(w1[f0]@ == w);
                if !has_key(w1, w) {
                    lemma_find_key_none(w1, w, f0);
                }
            }
        }
    }
}

/// The first match does not move when later entries change only past it.
proof fn lemma_find_key_agree(keys: Seq<Vec<u8>>, w: Seq<u8>, t: int)
    requires
        0 <= t < keys.len(),
        keys[t]@ == w,
    ensures
        find_key(keys, w) <= t,
{
    lemma_find_key_from(keys, w, 0);
}

/// The same update effect, for the synonym column.
proof fn lemma_set_key_effect_alts(
    s0: Seq<Vec<u8>>,
    a0: Seq<Vec<AltWords>>,
    s1: Seq<Vec<u8>>,
    a1: Seq<Vec<AltWords>>,
    key: Seq<u8>,
    i: int,
)
    requires
        keys_unique(s0),
        a0.len() == s0.len(),
        i == find_key(s0, key),
        i < s0.len() ==> s1 == s0 && a1 == a0.update(i, a1[i]),
        i == s0.len() ==> s1 == s0.push(s1[i as int]) && a1 == a0.push(a1[i as int])
            && s1[i as int]@ == key,
    ensures
        keys_unique(s1),
        a1.len() == s1.len(),
        find_key(s1, key) == i,
        forall|w: Seq<u8>| #[trigger] has_key(s1, w) <==> has_key(s0, w) || w == key,
        forall|w: Seq<u8>| w != key && has_key(s1, w)
            ==> #[trigger] a1[find_key(s1, w)] == a0[find_key(s0, w)] && find_key(s1, w) == find_key(s0, w),
{
    lemma_find_key(s0, key);
    if i < s0.len() {
        lemma_find_key_stable(s0, s1, key, i);
        assert forall|w: Seq<u8>| w != key && has_key(s1, w)
            implies #[trigger] a1[find_key(s1, w)] == a0[find_key(s0, w)] && find_key(s1, w) == find_key(s0, w) by {
            lemma_find_key(s1, w);
            assert(find_key(s1, w) == find_key(s0, w));
            assert(s0[find_key(s0, w)]@ == w);
            assert(find_key(s0, w) != i);
        }
    } else {
        assert forall|a: int, b: int| 0 <= a < b < s1.len() implies (#[trigger] s1[a])@ != (#[trigger] s1[b])@ by {
            if b < s0.len() {
                assert(s1[a] == s0[a] && s1[b] == s0[b]);
            } else {
                assert(s1[b]@ == key);
                assert(s1[a] == s0[a]);
                lemma_find_key_none(s0, key, a);
            }
        }
        lemma_find_key_stable(s0, s1, key, i);
        assert forall|w: Seq<u8>| w != key && has_key(s1, w)
            implies #[trigger] a1[find_key(s1, w)] == a0[find_key(s0, w)] && find_key(s1, w) == find_key(s0, w) by {
            lemma_find_key(s1, w);
            lemma_find_key(s0, w);
            assert(find_key(s1, w) == find_key(s0, w) || (find_key(s1, w) == s1.len() && find_key(s0, w) == s0.len()));
        }
    }
}

} // verus!
