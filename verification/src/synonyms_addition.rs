//! Staged synonym additions.  Synonym keys and their alternatives are
//! normalized and collected into a per-update map, then applied to the
//! index in one step: each staged key's alternatives replace whatever the
//! index held for that key, duplicates dropped.

use vstd::prelude::*;
use crate::index::{alt_view, find_key, has_key, keys_unique, lemma_find_key, AltWords, Index};
use crate::normalize::{normal_bytes, normalize_str, spec_tokens, tokenize};
use crate::query_enhancer::bytes_eq;

verus! {

/// The views of a list of alternatives: each alternative as its word byte
/// strings.
pub open spec fn alts_view(l: Seq<AltWords>) -> Seq<Seq<Seq<u8>>> {
    l.map_values(|a: AltWords| alt_view(a))
}

/// With unique keys, an entry holding the looked-up key is the one found.
proof fn lemma_assoc_at(keys: Seq<Vec<u8>>, w: Seq<u8>, t: int)
    requires
        keys_unique(keys),
        0 <= t < keys.len(),
        keys[t]@ == w,
    ensures
        find_key(keys, w) == t,
{
    lemma_find_key(keys, w);
    let f = find_key(keys, w);
    if f == keys.len() {
        assert(has_key(keys, w));
    } else if f != t {
        assert(keys[f]@ == keys[t]@);
    }
}

/// A staged map from normalized synonym keys to the alternatives collected
/// for them, each alternative already split into its words.
pub struct SynonymsMap {
    pub keys: Vec<Vec<u8>>,
    pub alts: Vec<Vec<AltWords>>,
}

impl SynonymsMap {
    pub open spec fn wf(&self) -> bool {
        &&& self.alts@.len() == self.keys@.len()
        &&& keys_unique(self.keys@)
    }

    /// The alternatives staged for a key, as views.
    pub open spec fn staged(&self, w: Seq<u8>) -> Option<Seq<Seq<Seq<u8>>>> {
        if has_key(self.keys@, w) {
            Some(alts_view(self.alts@[find_key(self.keys@, w)]@))
        } else {
            None
        }
    }

    pub fn new() -> (m: SynonymsMap)
        ensures
            m.wf(),
            m.keys@.len() == 0,
    {
        SynonymsMap { keys: Vec::new(), alts: Vec::new() }
    }

    /// Stage one alternative list for a key, after those already staged.
    fn push_entry(&mut self, key: Vec<u8>, new_alts: Vec<AltWords>)
        requires
            old(self).wf(),
        ensures
            final(self).wf(),
            final(self).staged(key@) == Some(match old(self).staged(key@) {
                Some(l) => l + alts_view(new_alts@),
                None => alts_view(new_alts@),
            }),
            forall|w: Seq<u8>| w != key@ ==> #[trigger] final(self).staged(w) == old(self).staged(w),
            forall|w: Seq<u8>| #[trigger] has_key(final(self).keys@, w)
                <==> has_key(old(self).keys@, w) || w == key@,
    {
        let ghost k0 = self.keys@;
        let ghost a0 = self.alts@;
        proof {
            lemma_find_key(k0, key@);
        }
        let i = crate::index::find_in(&self.keys, &key);
        if i < self.keys.len() {
            // extend the staged list for this key, moving it to the end
            let k = self.keys.remove(i);
            let mut l = self.alts.remove(i);
            let mut add = new_alts;
            let ghost l0 = l@;
            let ghost add0 = add@;
            while add.len() > 0
                invariant
                    add@.len() <= add0.len(),
                    l@ =~= l0 + add0.take(add0.len() - add@.len()),
                    add@ =~= add0.skip(add0.len() - add@.len()),
                decreases add@.len(),
            {
                let ghost done: int = add0.len() - add@.len();
                let ghost pre = add@;
                proof {
                    assert(0 <= done <= add0.len());
                }
                let a = add.remove(0);
                proof {
                    assert(pre == add0.skip(done));
                    assert(add0.skip(done)[0] == add0[done]);
                    assert(a == add0[done]);
                    assert(add0.take(done + 1) =~= add0.take(done).push(add0[done]));
                    assert(add@ =~= add0.skip(done + 1)) by {
                        assert(add@ == pre.remove(0));
                    }
                }
                l.push(a);
            }
            proof {
                assert(add0.take(add0.len() as int) =~= add0);
                assert(l@ =~= l0 + add0);
            }
            self.keys.push(k);
            self.alts.push(l);
            proof {
                lemma_move_to_end(k0, a0, self.keys@, self.alts@, key@, i as int, l0 + add0);
                assert(alts_view(l0 + add0) =~= alts_view(l0) + alts_view(add0));
            }
        } else {
            self.keys.push(key);
            self.alts.push(new_alts);
            proof {
                lemma_push_new(k0, a0, self.keys@, self.alts@, key@);
            }
        }
    }
}

/// True when two alternatives hold the same words.
pub fn words_eq(a: &AltWords, b: &AltWords) -> (r: bool)
    ensures
        r == (alt_view(*a) == alt_view(*b)),
{
    if a.len() != b.len() {
        assert(alt_view(*a).len() != alt_view(*b).len());
        return false;
    }
    let n = a.len();
    let mut i: usize = 0;
    while i < n
        invariant
            0 <= i <= n,
            n == a@.len() == b@.len(),
            forall|j: int| 0 <= j < i ==> (#[trigger] a@[j])@ == b@[j]@,
        decreases n - i,
    {
        if !bytes_eq(&a[i], &b[i]) {
            assert(alt_view(*a)[i as int] != alt_view(*b)[i as int]);
            return false;
        }
        i += 1;
    }
    assert(alt_view(*a) =~= alt_view(*b));
    true
}

/// Whether the list already holds an alternative with these words.
fn contains_alt(l: &Vec<AltWords>, a: &AltWords) -> (r: bool)
    ensures
        r == alts_view(l@).contains(alt_view(*a)),
{
    let n = l.len();
    let mut i: usize = 0;
    while i < n
        invariant
            0 <= i <= n,
            n == l@.len(),
            forall|j: int| 0 <= j < i ==> alts_view(l@)[j] != alt_view(*a),
        decreases n - i,
    {
        if words_eq(&l[i], a) {
            assert(alts_view(l@)[i as int] == alt_view(*a));
            return true;
        }
        i += 1;
    }
    assert(!alts_view(l@).contains(alt_view(*a))) by {
        if alts_view(l@).contains(alt_view(*a)) {
            let j = choose|j: int| 0 <= j < alts_view(l@).len() && alts_view(l@)[j] == alt_view(*a);
            assert(alts_view(l@)[j] != alt_view(*a));
        }
    }
    false
}

/// A list of alternatives with exact repetitions dropped, first occurrence
/// kept.
pub open spec fn dedup_view(s: Seq<Seq<Seq<u8>>>) -> Seq<Seq<Seq<u8>>>
    decreases s.len(),
{
    if s.len() == 0 {
        s
    } else {
        let rest = dedup_view(s.drop_last());
        if s.drop_last().contains(s.last()) {
            rest
        } else {
            rest.push(s.last())
        }
    }
}

/// Dropping repetitions keeps membership.
proof fn lemma_dedup_contains(s: Seq<Seq<Seq<u8>>>)
    ensures
        forall|x: Seq<Seq<u8>>| #[trigger] dedup_view(s).contains(x) <==> s.contains(x),
    decreases s.len(),
{
    if s.len() > 0 {
        lemma_dedup_contains(s.drop_last());
        assert forall|x: Seq<Seq<u8>>| s.contains(x)
            implies #[trigger] dedup_view(s).contains(x) by {
            let j = choose|j: int| 0 <= j < s.len() && s[j] == x;
            if j < s.len() - 1 {
                assert(s.drop_last()[j] == x);
                assert(s.drop_last().contains(x));
                assert(dedup_view(s.drop_last()).contains(x));
                if !s.drop_last().contains(s.last()) {
                    let t = choose|t: int| 0 <= t < dedup_view(s.drop_last()).len()
                        && dedup_view(s.drop_last())[t] == x;
                    assert(dedup_view(s)[t] == x);
                }
            } else {
                assert(s.last() == x);
                if s.drop_last().contains(x) {
                    assert(dedup_view(s.drop_last()).contains(x));
                } else {
                    assert(dedup_view(s).last() == x);
                }
            }
        }
        assert forall|x: Seq<Seq<u8>>| #[trigger] dedup_view(s).contains(x)
            implies s.contains(x) by {
            let j = choose|j: int| 0 <= j < dedup_view(s).len() && dedup_view(s)[j] == x;
            let rest = dedup_view(s.drop_last());
            if s.drop_last().contains(s.last()) || j < rest.len() {
                assert(rest.contains(x));
                assert(s.drop_last().contains(x));
                let t = choose|t: int| 0 <= t < s.drop_last().len() && s.drop_last()[t] == x;
                assert(s[t] == x);
            } else {
                assert(x == s.last());
                assert(s[s.len() - 1] == x);
            }
        }
    }
}

/// Drop the exact repetitions from a list of alternatives.
fn dedup_alternatives(l: Vec<AltWords>) -> (r: Vec<AltWords>)
    ensures
        alts_view(r@) == dedup_view(alts_view(l@)),
{
    let ghost s0 = alts_view(l@);
    let mut rest = l;
    let mut out: Vec<AltWords> = Vec::new();
    while rest.len() > 0
        invariant
            rest@.len() <= s0.len(),
            alts_view(rest@) =~= s0.skip(s0.len() - rest@.len()),
            alts_view(out@) =~= dedup_view(s0.take(s0.len() - rest@.len())),
        decreases rest@.len(),
    {
        let ghost done: int = s0.len() - rest@.len();
        let ghost pre = rest@;
        let a = rest.remove(0);
        proof {
            assert(alts_view(pre) == s0.skip(done));
            assert(alts_view(pre)[0] == alt_view(pre[0]));
            assert(s0.skip(done)[0] == s0[done]);
            assert(alt_view(a) == s0[done]);
            assert(alts_view(rest@) =~= s0.skip(done + 1)) by {
                assert forall|t: int| 0 <= t < rest@.len()
                    implies alts_view(rest@)[t] == s0[done + 1 + t] by {
                    assert(rest@[t] == pre[t + 1]);
                    assert(alts_view(pre)[t + 1] == alt_view(pre[t + 1]));
                }
            }
            assert(s0.take(done + 1).drop_last() =~= s0.take(done));
            assert(s0.take(done + 1).last() == s0[done]);
        }
        if !contains_alt(&out, &a) {
            proof {
                lemma_dedup_contains(s0.take(done));
                assert(!s0.take(done).contains(s0[done]));
            }
            out.push(a);
            proof {
                assert(alts_view(out@) =~= dedup_view(s0.take(done)).push(s0[done]));
                assert(alts_view(out@) =~= dedup_view(s0.take(done + 1)));
            }
        } else {
            proof {
                lemma_dedup_contains(s0.take(done));
                assert(s0.take(done).contains(s0[done]));
                assert(alts_view(out@) =~= dedup_view(s0.take(done + 1)));
            }
        }
    }
    proof {
        assert(s0.take(s0.len() as int) =~= s0);
    }
    out
}

/// After moving the entry of `key` to the end with value `newv`, lookups
/// of `key` see `newv` and every other key is untouched.
proof fn lemma_move_to_end(
    k0: Seq<Vec<u8>>,
    a0: Seq<Vec<AltWords>>,
    k1: Seq<Vec<u8>>,
    a1: Seq<Vec<AltWords>>,
    key: Seq<u8>,
    i: int,
    newv: Seq<AltWords>,
)
    requires
        keys_unique(k0),
        a0.len() == k0.len(),
        0 <= i < k0.len(),
        k0[i]@ == key,
        k1 =~= k0.remove(i).push(k0[i]),
        a1.len() == k1.len(),
        forall|t: int| 0 <= t < a0.len() - 1 ==> #[trigger] a1[t] == a0.remove(i)[t],
        a1.last()@ == newv,
    ensures
        keys_unique(k1),
        a1.len() == k1.len(),
        has_key(k1, key),
        alts_view(a1[find_key(k1, key)]@) == alts_view(newv),
        forall|w: Seq<u8>| #[trigger] has_key(k1, w) <==> has_key(k0, w),
        forall|w: Seq<u8>| w != key && has_key(k1, w)
            ==> #[trigger] a1[find_key(k1, w)] == a0[find_key(k0, w)],
{
    let last = k1.len() - 1;
    assert forall|t: int| 0 <= t < last implies #[trigger] k1[t] == (if t < i { k0[t] } else { k0[t + 1] }) by {
        k0.remove_ensures(i);
    }
    assert(k1[last] == k0[i]);
    assert forall|a: int, b: int| 0 <= a < b < k1.len() implies (#[trigger] k1[a])@ != (#[trigger] k1[b])@ by {
        let xa = if a < last { if a < i { a } else { a + 1 } } else { i };
        let xb = if b < last { if b < i { b } else { b + 1 } } else { i };
        assert(k1[a] == k0[xa]);
        assert(k1[b] == k0[xb]);
        assert(xa != xb);
    }
    lemma_assoc_at(k1, key, last);
    assert(has_key(k1, key)) by {
        lemma_find_key(k1, key);
    }
    assert(a1[last]@ == newv);
    assert forall|w: Seq<u8>| #[trigger] has_key(k1, w) implies has_key(k0, w) by {
        lemma_find_key(k1, w);
        let f = find_key(k1, w);
        let x = if f < last { if f < i { f } else { f + 1 } } else { i };
        assert(k1[f] == k0[x]);
        lemma_assoc_at(k0, w, x);
        lemma_find_key(k0, w);
    }
    assert forall|w: Seq<u8>| has_key(k0, w) implies #[trigger] has_key(k1, w) by {
        lemma_find_key(k0, w);
        let f = find_key(k0, w);
        let x = if f == i { last } else if f < i { f } else { f - 1 };
        assert(k1[x] == k0[f]);
        lemma_assoc_at(k1, w, x);
        lemma_find_key(k1, w);
    }
    assert forall|w: Seq<u8>| w != key && has_key(k1, w)
        implies #[trigger] a1[find_key(k1, w)] == a0[find_key(k0, w)] by {
        lemma_find_key(k1, w);
        let f = find_key(k1, w);
        assert(k1[f]@ == w);
        assert(f != last) by {
            assert(k1[last]@ == key);
        }
        let x = if f < i { f } else { f + 1 };
        assert(k1[f] == k0[x]);
        lemma_assoc_at(k0, w, x);
        k0.remove_ensures(i);
        assert(a1[f] == a0.remove(i)[f]);
        a0.remove_ensures(i);
    }
}

/// After staging a fresh key at the end, lookups of it see the new value
/// and every other key is untouched.
proof fn lemma_push_new(
    k0: Seq<Vec<u8>>,
    a0: Seq<Vec<AltWords>>,
    k1: Seq<Vec<u8>>,
    a1: Seq<Vec<AltWords>>,
    key: Seq<u8>,
)
    requires
        keys_unique(k0),
        a0.len() == k0.len(),
        !has_key(k0, key),
        k1 =~= k0.push(k1.last()),
        k1.last()@ == key,
        a1 =~= a0.push(a1.last()),
    ensures
        keys_unique(k1),
        a1.len() == k1.len(),
        has_key(k1, key),
        a1[find_key(k1, key)] == a1.last(),
        forall|w: Seq<u8>| #[trigger] has_key(k1, w) <==> has_key(k0, w) || w == key,
        forall|w: Seq<u8>| w != key && has_key(k1, w)
            ==> #[trigger] a1[find_key(k1, w)] == a0[find_key(k0, w)],
{
    let last = k1.len() - 1;
    assert forall|a: int, b: int| 0 <= a < b < k1.len() implies (#[trigger] k1[a])@ != (#[trigger] k1[b])@ by {
        if b < last {
        } else {
            assert(k1[b]@ == key);
            lemma_find_key(k0, key);
            if k1[a]@ == key {
                lemma_assoc_at(k0, key, a);
            }
        }
    }
    lemma_assoc_at(k1, key, last);
    assert(has_key(k1, key)) by {
        lemma_find_key(k1, key);
    }
    assert forall|w: Seq<u8>| #[trigger] has_key(k1, w) implies has_key(k0, w) || w == key by {
        lemma_find_key(k1, w);
        let f = find_key(k1, w);
        if f < last {
            assert(k1[f] == k0[f]);
            lemma_assoc_at(k0, w, f);
            lemma_find_key(k0, w);
        } else {
            assert(k1[f]@ == key);
        }
    }
    assert forall|w: Seq<u8>| has_key(k0, w) || w == key implies #[trigger] has_key(k1, w) by {
        if has_key(k0, w) {
            lemma_find_key(k0, w);
            let f = find_key(k0, w);
            assert(k1[f] == k0[f]);
            lemma_assoc_at(k1, w, f);
            lemma_find_key(k1, w);
        }
    }
    assert forall|w: Seq<u8>| w != key && has_key(k1, w)
        implies #[trigger] a1[find_key(k1, w)] == a0[find_key(k0, w)] by {
        lemma_find_key(k1, w);
        let f = find_key(k1, w);
        assert(k1[f]@ == w);
        assert(f != last);
        assert(k1[f] == k0[f]);
        lemma_assoc_at(k0, w, f);
    }
}

/// The alternatives the index holds for a key, as views.
pub open spec fn alts_of(ix: Index, w: Seq<u8>) -> Option<Seq<Seq<Seq<u8>>>> {
    match ix.spec_alternatives_to(w) {
        Some(l) => Some(alts_view(l)),
        None => None,
    }
}

/// The normalized alternatives of one `add_synonym` call: each alternative
/// lowercased and split into its words.
pub open spec fn normalized_alts(alternatives: Seq<String>) -> Seq<Seq<Seq<u8>>> {
    alternatives.map_values(|a: String| spec_tokens(normal_bytes(a@)))
}

/// Normalize one batch of alternatives.
fn normalize_alternatives(alternatives: Vec<String>) -> (r: Vec<AltWords>)
    ensures
        alts_view(r@) == normalized_alts(alternatives@),
{
    let ghost s0 = alternatives@;
    let mut rest = alternatives;
    let mut out: Vec<AltWords> = Vec::new();
    while rest.len() > 0
        invariant
            rest@.len() <= s0.len(),
            rest@ =~= s0.skip(s0.len() - rest@.len()),
            alts_view(out@) =~= normalized_alts(s0.take(s0.len() - rest@.len())),
        decreases rest@.len(),
    {
        let ghost done: int = s0.len() - rest@.len();
        let ghost pre = rest@;
        let a = rest.remove(0);
        proof {
            assert(pre == s0.skip(done));
            assert(s0.skip(done)[0] == s0[done]);
            assert(a == s0[done]);
            assert(rest@ =~= s0.skip(done + 1)) by {
                assert(rest@ == pre.remove(0));
            }
            assert(s0.take(done + 1).drop_last() =~= s0.take(done));
        }
        let bytes = normalize_str(a.as_str());
        let words = tokenize(&bytes);
        proof {
            assert(alt_view(words) =~= spec_tokens(normal_bytes(a@)));
        }
        let ghost out0 = out@;
        out.push(words);
        proof {
            let t1 = s0.take(done + 1);
            assert(alts_view(out0).len() == out0.len());
            assert(normalized_alts(s0.take(done)).len() == done);
            assert(out0.len() == done);
            assert(out@ == out0.push(words));
            assert forall|t: int| 0 <= t < out@.len()
                implies alts_view(out@)[t] == normalized_alts(t1)[t] by {
                assert(alts_view(out@)[t] == alt_view(out@[t]));
                if t < done {
                    assert(out@[t] == out0[t]);
                    assert(alts_view(out0)[t] == alt_view(out0[t]));
                    assert(normalized_alts(s0.take(done))[t] == spec_tokens(normal_bytes(s0.take(done)[t]@)));
                    assert(s0.take(done)[t] == s0[t]);
                    assert(t1[t] == s0[t]);
                } else {
                    assert(out@[t] == words);
                    assert(t1[t] == a);
                }
            }
            assert(alts_view(out@) =~= normalized_alts(t1));
        }
    }
    proof {
        assert(s0.take(s0.len() as int) =~= s0);
    }
    out
}

/// A batch of synonym rules being collected for one update.
pub struct SynonymsAddition {
    pub synonyms: SynonymsMap,
}

impl SynonymsAddition {
    pub fn new() -> (sa: SynonymsAddition)
        ensures
            sa.synonyms.wf(),
            sa.synonyms.keys@.len() == 0,
    {
        SynonymsAddition { synonyms: SynonymsMap::new() }
    }

    /// Stage one synonym rule: the key and its alternatives are normalized,
    /// the alternatives split into words, and appended to whatever is
    /// already staged for that key.
    pub fn add_synonym(&mut self, synonym: &str, alternatives: Vec<String>)
        requires
            old(self).synonyms.wf(),
        ensures
            final(self).synonyms.wf(),
            final(self).synonyms.staged(normal_bytes(synonym@)) == Some(
                match old(self).synonyms.staged(normal_bytes(synonym@)) {
                    Some(l) => l + normalized_alts(alternatives@),
                    None => normalized_alts(alternatives@),
                },
            ),
            forall|w: Seq<u8>| w != normal_bytes(synonym@)
                ==> #[trigger] final(self).synonyms.staged(w) == old(self).synonyms.staged(w),
            forall|w: Seq<u8>| #[trigger] has_key(final(self).synonyms.keys@, w)
                <==> has_key(old(self).synonyms.keys@, w) || w == normal_bytes(synonym@),
    {
        let key = normalize_str(synonym);
        let new_alts = normalize_alternatives(alternatives);
        self.synonyms.push_entry(key, new_alts);
    }

    /// Close the batch and apply it to the index as one update; the update
    /// counter names the update.
    pub fn finalize(self, index: &mut Index) -> (update_id: u64)
        requires
            old(index).wf(),
            self.synonyms.wf(),
            old(index).updates < u64::MAX,
        ensures
            final(index).wf(),
            final(index).words@ == old(index).words@,
            final(index).postings@ == old(index).postings@,
            final(index).updates == old(index).updates + 1,
            update_id == final(index).updates,
            forall|w: Seq<u8>| #[trigger] has_key(final(index).synonyms@, w)
                <==> has_key(old(index).synonyms@, w) || has_key(self.synonyms.keys@, w),
            forall|w: Seq<u8>| has_key(self.synonyms.keys@, w)
                ==> #[trigger] alts_of(*final(index), w)
                    == Some(dedup_view(self.synonyms.staged(w).unwrap())),
            forall|w: Seq<u8>| !has_key(self.synonyms.keys@, w)
                ==> #[trigger] final(index).spec_alternatives_to(w) == old(index).spec_alternatives_to(w),
    {
        let fsa = FinalSynonymsAddition::from_map(self.synonyms);
        fsa.finalize(index);
        let ghost mid = *index;
        index.updates = index.updates + 1;
        proof {
            assert(index.synonyms@ == mid.synonyms@);
            assert(index.alternatives@ == mid.alternatives@);
            assert forall|w: Seq<u8>| has_key(self.synonyms.keys@, w)
                implies #[trigger] alts_of(*index, w)
                    == Some(dedup_view(self.synonyms.staged(w).unwrap())) by {
                assert(alts_of(mid, w) == Some(dedup_view(fsa.synonyms.staged(w).unwrap())));
                assert(index.spec_alternatives_to(w) == mid.spec_alternatives_to(w));
            }
            assert forall|w: Seq<u8>| !has_key(self.synonyms.keys@, w)
                implies #[trigger] index.spec_alternatives_to(w) == old(index).spec_alternatives_to(w) by {
                assert(mid.spec_alternatives_to(w) == old(index).spec_alternatives_to(w));
                assert(index.spec_alternatives_to(w) == mid.spec_alternatives_to(w));
            }
        }
        index.updates
    }
}

/// A closed batch of synonym rules, ready to be applied to the index.
pub struct FinalSynonymsAddition {
    pub synonyms: SynonymsMap,
}

impl FinalSynonymsAddition {
    pub fn new() -> (sa: FinalSynonymsAddition)
        ensures
            sa.synonyms.wf(),
            sa.synonyms.keys@.len() == 0,
    {
        FinalSynonymsAddition { synonyms: SynonymsMap::new() }
    }

    pub fn from_map(synonyms: SynonymsMap) -> (sa: FinalSynonymsAddition)
        ensures
            sa.synonyms == synonyms,
    {
        FinalSynonymsAddition { synonyms }
    }

    /// Stage one more rule into the closed batch.
    pub fn add_synonym(&mut self, synonym: &str, alternatives: Vec<String>)
        requires
            old(self).synonyms.wf(),
        ensures
            final(self).synonyms.wf(),
            final(self).synonyms.staged(normal_bytes(synonym@)) == Some(
                match old(self).synonyms.staged(normal_bytes(synonym@)) {
                    Some(l) => l + normalized_alts(alternatives@),
                    None => normalized_alts(alternatives@),
                },
            ),
            forall|w: Seq<u8>| w != normal_bytes(synonym@)
                ==> #[trigger] final(self).synonyms.staged(w) == old(self).synonyms.staged(w),
            forall|w: Seq<u8>| #[trigger] has_key(final(self).synonyms.keys@, w)
                <==> has_key(old(self).synonyms.keys@, w) || w == normal_bytes(synonym@),
    {
        let key = normalize_str(synonym);
        let new_alts = normalize_alternatives(alternatives);
        self.synonyms.push_entry(key, new_alts);
    }

    /// Apply the batch: each staged key's alternatives, duplicates dropped,
    /// replace whatever the index held for that key; the key joins the
    /// synonym set.  Everything else in the index is untouched.
    pub fn finalize(self, index: &mut Index)
        requires
            old(index).wf(),
            self.synonyms.wf(),
        ensures
            final(index).wf(),
            final(index).words@ == old(index).words@,
            final(index).postings@ == old(index).postings@,
            final(index).updates == old(index).updates,
            forall|w: Seq<u8>| #[trigger] has_key(final(index).synonyms@, w)
                <==> has_key(old(index).synonyms@, w) || has_key(self.synonyms.keys@, w),
            forall|w: Seq<u8>| has_key(self.synonyms.keys@, w)
                ==> #[trigger] alts_of(*final(index), w)
                    == Some(dedup_view(self.synonyms.staged(w).unwrap())),
            forall|w: Seq<u8>| !has_key(self.synonyms.keys@, w)
                ==> #[trigger] final(index).spec_alternatives_to(w) == old(index).spec_alternatives_to(w),
    {
        let ghost k_all = self.synonyms.keys@;
        let ghost a_all = self.synonyms.alts@;
        let ghost ix0 = *index;
        let SynonymsMap { keys: mut keys, alts: mut alts } = self.synonyms;
        while keys.len() > 0
            invariant
                index.wf(),
                keys_unique(k_all),
                a_all.len() == k_all.len(),
                keys@.len() <= k_all.len(),
                alts@.len() == keys@.len(),
                keys@ =~= k_all.skip(k_all.len() - keys@.len()),
                alts@ =~= a_all.skip(k_all.len() - keys@.len()),
                index.words@ == ix0.words@,
                index.postings@ == ix0.postings@,
                index.updates == ix0.updates,
                forall|w: Seq<u8>| #[trigger] has_key(index.synonyms@, w)
                    <==> has_key(ix0.synonyms@, w) || has_key(k_all.take(k_all.len() - keys@.len()), w),
                forall|w: Seq<u8>| has_key(k_all.take(k_all.len() - keys@.len()), w)
                    ==> #[trigger] alts_of(*index, w)
                        == Some(dedup_view(alts_view(a_all[find_key(k_all, w)]@))),
                forall|w: Seq<u8>| !has_key(k_all.take(k_all.len() - keys@.len()), w)
                    ==> #[trigger] index.spec_alternatives_to(w) == ix0.spec_alternatives_to(w),
            decreases keys@.len(),
        {
            let ghost done: int = k_all.len() - keys@.len();
            let ghost kpre = keys@;
            let ghost apre = alts@;
            let key = keys.remove(0);
            let l = alts.remove(0);
            proof {
                assert(kpre == k_all.skip(done));
                assert(k_all.skip(done)[0] == k_all[done]);
                assert(key == k_all[done]);
                assert(apre == a_all.skip(done));
                assert(a_all.skip(done)[0] == a_all[done]);
                assert(l == a_all[done]);
                assert(keys@ =~= k_all.skip(done + 1)) by {
                    assert(keys@ == kpre.remove(0));
                }
                assert(alts@ =~= a_all.skip(done + 1)) by {
                    assert(alts@ == apre.remove(0));
                }
                lemma_assoc_at(k_all, key@, done);
            }
            let deduped = dedup_alternatives(l);
            let ghost before = *index;
            index.set_alternatives_to(key, deduped);
            proof {
                let t1 = k_all.take(done + 1);
                let t0 = k_all.take(done);
                assert(t1.drop_last() =~= t0);
                assert(t1.last() == k_all[done]);
                assert forall|w: Seq<u8>| #[trigger] has_key(t1, w)
                    implies has_key(t0, w) || w == key@ by {
                    lemma_find_key(t1, w);
                    let f = find_key(t1, w);
                    assert(t1[f]@ == w);
                    if f < done {
                        assert(t0[f] == t1[f]);
                        lemma_assoc_at(t0, w, f);
                        lemma_find_key(t0, w);
                    }
                }
                assert forall|w: Seq<u8>| has_key(t0, w) || w == key@
                    implies #[trigger] has_key(t1, w) by {
                    if has_key(t0, w) {
                        lemma_find_key(t0, w);
                        let f = find_key(t0, w);
                        assert(t1[f] == t0[f]);
                        lemma_assoc_at(t1, w, f);
                        lemma_find_key(t1, w);
                    } else {
                        assert(t1[done]@ == key@);
                        lemma_assoc_at(t1, w, done);
                        lemma_find_key(t1, w);
                    }
                }
                assert forall|w: Seq<u8>| has_key(t1, w)
                    implies #[trigger] alts_of(*index, w)
                        == Some(dedup_view(alts_view(a_all[find_key(k_all, w)]@))) by {
                    if w == key@ {
                        assert(find_key(k_all, w) == done);
                        assert(index.spec_alternatives_to(w) == Some(deduped@));
                        assert(alts_view(deduped@) == dedup_view(alts_view(l@)));
                    } else {
                        assert(has_key(t0, w));
                        assert(alts_of(before, w) == Some(dedup_view(alts_view(a_all[find_key(k_all, w)]@))));
                        assert(index.spec_alternatives_to(w) == before.spec_alternatives_to(w));
                    }
                }
                assert forall|w: Seq<u8>| has_key(t0, w) implies #[trigger] has_key(t1, w) by {}
            }
        }
        proof {
            assert(k_all.take(k_all.len() as int) =~= k_all);
            assert forall|w: Seq<u8>| has_key(self.synonyms.keys@, w)
                implies #[trigger] alts_of(*index, w)
                    == Some(dedup_view(self.synonyms.staged(w).unwrap())) by {
                lemma_find_key(k_all, w);
            }
        }
    }
}

} // verus!
