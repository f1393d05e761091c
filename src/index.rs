//! Per-document word-frequency index.
use vstd::prelude::*;

use crate::text::{texts, tokenize, tokens_of};

verus! {

/// How many times `w` occurs in `toks`.
pub open spec fn occurrences(toks: Seq<Seq<char>>, w: Seq<char>) -> nat
    decreases toks.len(),
{
    if toks.len() == 0 {
        0
    } else {
        occurrences(toks.drop_last(), w) + if toks.last() == w {
            1nat
        } else {
            0nat
        }
    }
}

/// The frequency map of a token sequence: each token that occurs, with its
/// number of occurrences.
pub open spec fn frequencies(toks: Seq<Seq<char>>) -> Map<Seq<char>, nat> {
    Map::new(|w: Seq<char>| occurrences(toks, w) > 0, |w: Seq<char>| occurrences(toks, w))
}

/// The sum of a sequence of counts.
pub open spec fn sum_of(s: Seq<usize>) -> nat
    decreases s.len(),
{
    if s.len() == 0 {
        0
    } else {
        sum_of(s.drop_last()) + s.last() as nat
    }
}

/// The count recorded for `w` among parallel `keys` and `counts` (the last
/// entry for `w`, or 0 when there is none).
pub open spec fn lookup(keys: Seq<Seq<char>>, counts: Seq<usize>, w: Seq<char>) -> nat
    decreases keys.len(),
{
    if keys.len() == 0 || counts.len() == 0 {
        0
    } else if keys.last() == w {
        counts.last() as nat
    } else {
        lookup(keys.drop_last(), counts.drop_last(), w)
    }
}

/// Map from token to its number of occurrences in one document.
pub struct WordCounts {
    words: Vec<String>,
    counts: Vec<usize>,
}

impl WordCounts {
    /// The distinct tokens, in order of first occurrence.
    pub closed spec fn keys(&self) -> Seq<Seq<char>> {
        texts(self.words@)
    }

    /// The count recorded for `w`, or 0.
    pub closed spec fn count(&self, w: Seq<char>) -> nat {
        lookup(texts(self.words@), self.counts@, w)
    }

    /// The sum of all recorded counts.
    pub closed spec fn total(&self) -> nat {
        sum_of(self.counts@)
    }

    /// Keys are distinct, counts positive, and their sum fits in `usize`.
    pub closed spec fn wf(&self) -> bool {
        &&& self.words@.len() == self.counts@.len()
        &&& forall|i: int, j: int|
            0 <= i < j < self.words@.len() ==> self.words@[i]@ != self.words@[j]@
        &&& forall|i: int| 0 <= i < self.counts@.len() ==> self.counts@[i] > 0
        &&& sum_of(self.counts@) <= usize::MAX
    }

    /// An index of no tokens.
    pub fn new() -> (r: WordCounts)
        ensures
            r.wf(),
            r.total() == 0,
            forall|w: Seq<char>| r.count(w) == 0,
    {
        WordCounts { words: Vec::new(), counts: Vec::new() }
    }

    /// Where `word` stands among the keys.
    fn position(&self, word: &String) -> (r: Option<usize>)
        requires
            self.wf(),
        ensures
            match r {
                Some(k) => k < self.words@.len() && self.words@[k as int]@ == word@,
                None => !self.keys().contains(word@),
            },
    {
        let mut i: usize = 0;
        while i < self.words.len()
            invariant
                i <= self.words@.len(),
                forall|j: int| 0 <= j < i ==> self.words@[j]@ != word@,
            decreases self.words@.len() - i,
        {
            if self.words[i] == *word {
                return Some(i);
            }
            i = i + 1;
        }
        None
    }

    /// The number of occurrences recorded for `word` (0 when absent).
    pub fn get(&self, word: &String) -> (r: usize)
        requires
            self.wf(),
        ensures
            r == self.count(word@),
    {
        match self.position(word) {
            Some(k) => {
                proof {
                    lemma_lookup_at(texts(self.words@), self.counts@, k as int);
                    lemma_le_sum(self.counts@, k as int);
                }
                self.counts[k]
            },
            None => {
                proof {
                    lemma_lookup_absent(texts(self.words@), self.counts@, word@);
                }
                0
            },
        }
    }

    /// The sum of all counts.
    pub fn total_words(&self) -> (r: usize)
        requires
            self.wf(),
        ensures
            r == self.total(),
    {
        let mut acc: usize = 0;
        for i in 0..self.counts.len()
            invariant
                self.wf(),
                acc == sum_of(self.counts@.take(i as int)),
        {
            proof {
                assert(self.counts@.take(i + 1).drop_last() =~= self.counts@.take(i as int));
                lemma_sum_prefix_le(self.counts@, i + 1);
            }
            acc = acc + self.counts[i];
        }
        proof {
            assert(self.counts@.take(self.counts@.len() as int) =~= self.counts@);
        }
        acc
    }

    /// Adds one occurrence of `word`.
    fn add_one(&mut self, word: String)
        requires
            old(self).wf(),
            old(self).total() < usize::MAX,
        ensures
            final(self).wf(),
            final(self).total() == old(self).total() + 1,
            forall|w: Seq<char>|
                #[trigger] final(self).count(w) == old(self).count(w) + if w == word@ {
                    1nat
                } else {
                    0nat
                },
    {
        match self.position(&word) {
            Some(k) => {
                let ghost keys = texts(self.words@);
                let ghost before = self.counts@;
                proof {
                    lemma_le_sum(before, k as int);
                }
                let v = self.counts[k];
                self.counts.set(k, v + 1);
                proof {
                    lemma_sum_update(before, k as int, (v + 1) as usize);
                    assert forall|w: Seq<char>|
                        #[trigger] lookup(keys, self.counts@, w) == lookup(keys, before, w) + if w
                            == word@ {
                            1nat
                        } else {
                            0nat
                        } by {
                        lemma_lookup_update(keys, before, k as int, (v + 1) as usize, w);
                    }
                }
            },
            None => {
                let ghost old_keys = texts(self.words@);
                let ghost old_counts = self.counts@;
                let ghost wv = word@;
                self.words.push(word);
                self.counts.push(1);
                proof {
                    assert(texts(self.words@) =~= old_keys.push(wv));
                    assert(self.counts@.drop_last() =~= old_counts);
                    assert(texts(self.words@).drop_last() =~= old_keys);
                    lemma_lookup_absent(old_keys, old_counts, wv);
                    assert forall|w: Seq<char>|
                        #[trigger] lookup(texts(self.words@), self.counts@, w) == lookup(
                            old_keys,
                            old_counts,
                            w,
                        ) + if w == wv {
                            1nat
                        } else {
                            0nat
                        } by {}
                    assert forall|i: int, j: int|
                        0 <= i < j < self.words@.len() implies self.words@[i]@
                        != self.words@[j]@ by {
                        if j == self.words@.len() - 1 {
                            assert(old_keys[i] == self.words@[i]@);
                        }
                    }
                }
            },
        }
    }
}

impl WordCounts {
    /// No single count exceeds the total.
    pub proof fn lemma_count_le_total(&self, w: Seq<char>)
        requires
            self.wf(),
        ensures
            self.count(w) <= self.total(),
    {
        lemma_lookup_le_sum(texts(self.words@), self.counts@, w);
    }
}

proof fn lemma_lookup_le_sum(keys: Seq<Seq<char>>, counts: Seq<usize>, w: Seq<char>)
    requires
        keys.len() == counts.len(),
    ensures
        lookup(keys, counts, w) <= sum_of(counts),
    decreases keys.len(),
{
    if keys.len() > 0 {
        lemma_lookup_le_sum(keys.drop_last(), counts.drop_last(), w);
    }
}

impl View for WordCounts {
    type V = Map<Seq<char>, nat>;

    /// Each token with a positive count, mapped to that count.
    open spec fn view(&self) -> Map<Seq<char>, nat> {
        Map::new(|w: Seq<char>| self.count(w) > 0, |w: Seq<char>| self.count(w))
    }
}

proof fn lemma_le_sum(s: Seq<usize>, k: int)
    requires
        0 <= k < s.len(),
    ensures
        s[k] <= sum_of(s),
    decreases s.len(),
{
    if k < s.len() - 1 {
        lemma_le_sum(s.drop_last(), k);
    }
}

proof fn lemma_sum_prefix_le(s: Seq<usize>, n: int)
    requires
        0 <= n <= s.len(),
    ensures
        sum_of(s.take(n)) <= sum_of(s),
    decreases s.len() - n,
{
    if n < s.len() {
        lemma_sum_prefix_le(s, n + 1);
        assert(s.take(n + 1).drop_last() =~= s.take(n));
    } else {
        assert(s.take(n) =~= s);
    }
}

proof fn lemma_sum_update(s: Seq<usize>, k: int, v: usize)
    requires
        0 <= k < s.len(),
    ensures
        sum_of(s.update(k, v)) + s[k] == sum_of(s) + v,
    decreases s.len(),
{
    if k < s.len() - 1 {
        assert(s.update(k, v).drop_last() =~= s.drop_last().update(k, v));
        lemma_sum_update(s.drop_last(), k, v);
    } else {
        assert(s.update(k, v).drop_last() =~= s.drop_last());
    }
}

proof fn lemma_lookup_at(keys: Seq<Seq<char>>, counts: Seq<usize>, k: int)
    requires
        keys.len() == counts.len(),
        0 <= k < keys.len(),
        forall|i: int, j: int| 0 <= i < j < keys.len() ==> keys[i] != keys[j],
    ensures
        lookup(keys, counts, keys[k]) == counts[k],
    decreases keys.len(),
{
    if k < keys.len() - 1 {
        lemma_lookup_at(keys.drop_last(), counts.drop_last(), k);
    }
}

proof fn lemma_lookup_absent(keys: Seq<Seq<char>>, counts: Seq<usize>, w: Seq<char>)
    requires
        !keys.contains(w),
    ensures
        lookup(keys, counts, w) == 0,
    decreases keys.len(),
{
    if keys.len() > 0 && counts.len() > 0 {
        assert(keys.last() == keys[keys.len() - 1]);
        assert(!keys.drop_last().contains(w)) by {
            if keys.drop_last().contains(w) {
                let j = choose|j: int| 0 <= j < keys.drop_last().len() && keys.drop_last()[j] == w;
                assert(keys[j] == w);
            }
        }
        lemma_lookup_absent(keys.drop_last(), counts.drop_last(), w);
    }
}

proof fn lemma_lookup_update(
    keys: Seq<Seq<char>>,
    counts: Seq<usize>,
    k: int,
    v: usize,
    w: Seq<char>,
)
    requires
        keys.len() == counts.len(),
        0 <= k < keys.len(),
        forall|i: int, j: int| 0 <= i < j < keys.len() ==> keys[i] != keys[j],
        v == counts[k] + 1,
    ensures
        lookup(keys, counts.update(k, v), w) == lookup(keys, counts, w) + if w == keys[k] {
            1nat
        } else {
            0nat
        },
    decreases keys.len(),
{
    if k < keys.len() - 1 {
        assert(counts.update(k, v).drop_last() =~= counts.drop_last().update(k, v));
        lemma_lookup_update(keys.drop_last(), counts.drop_last(), k, v, w);
    } else {
        assert(counts.update(k, v).drop_last() =~= counts.drop_last());
    }
}

/// Counts the tokens of `text`: each token maps to its number of
/// occurrences, and the counts add up to the number of tokens.
pub fn build_word_counts(text: &str) -> (r: WordCounts)
    ensures
        r.wf(),
        forall|w: Seq<char>| #[trigger] r.count(w) == occurrences(tokens_of(text@), w),
        r@ == frequencies(tokens_of(text@)),
        r.total() == tokens_of(text@).len(),
{
    let toks = tokenize(text);
    let ghost tv = tokens_of(text@);
    let mut acc = WordCounts::new();
    for i in 0..toks.len()
        invariant
            texts(toks@) == tv,
            acc.wf(),
            acc.total() == i,
            forall|w: Seq<char>| #[trigger] acc.count(w) == occurrences(tv.take(i as int), w),
    {
        proof {
            assert(tv.take(i + 1).drop_last() =~= tv.take(i as int));
            assert(tv[i as int] == toks@[i as int]@);
        }
        acc.add_one(toks[i].clone());
    }
    proof {
        assert(tv.take(toks@.len() as int) =~= tv);
        assert(acc@ =~= frequencies(tv));
    }
    acc
}

} // verus!
