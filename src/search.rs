//! Query engine: single-word search with snippets, multi-word search in
//! sequential or parallel mode, and the documents that hold all query words.
use rayon::iter::{IntoParallelRefIterator, ParallelIterator};
use vstd::prelude::*;

use crate::document::{docs_fit, words_in, DocId, Document};
use crate::text::{
    chars_of, clean_words, nonempty_only, normalize_token, normalized, normalized_all, split_on,
    split_pieces, split_query_into_words, texts, trim, trimmed, trimmed_all, words_of,
};

verus! {

/// Longest snippet kept whole, in characters.
pub const SNIPPET_MAX_CHARS: usize = 150;

/// Most snippets reported per document.
pub const SNIPPETS_PER_DOC: usize = 3;

/// A snippet: cut to its first `SNIPPET_MAX_CHARS` characters, with `...`
/// appended, when longer than that.
pub open spec fn shortened(t: Seq<char>) -> Seq<char> {
    if t.len() > SNIPPET_MAX_CHARS {
        t.take(SNIPPET_MAX_CHARS as int) + seq!['.', '.', '.']
    } else {
        t
    }
}

/// Whether one of the normalized words of `sentence` is `q`.
pub open spec fn sentence_has(sentence: Seq<char>, q: Seq<char>) -> bool {
    normalized_all(words_of(sentence)).contains(q)
}

/// From `sents`, in order, the first `max` sentences that mention `q`,
/// trimmed and shortened.
pub open spec fn pick_snippets(sents: Seq<Seq<char>>, q: Seq<char>, max: nat) -> Seq<Seq<char>>
    decreases sents.len(),
{
    if sents.len() == 0 || max == 0 {
        Seq::empty()
    } else if sentence_has(sents[0], q) {
        seq![shortened(trimmed(sents[0]))] + pick_snippets(sents.drop_first(), q, (max - 1) as nat)
    } else {
        pick_snippets(sents.drop_first(), q, max)
    }
}

/// The snippets of `content` for the query word `raw`: sentences split at
/// `.`, `!` and `?` that mention the normalized word, at most `max` of them.
pub open spec fn snippets_of(content: Seq<char>, raw: Seq<char>, max: nat) -> Seq<Seq<char>> {
    pick_snippets(split_on(content, true), normalized(raw), max)
}

/// `t`, shortened to `SNIPPET_MAX_CHARS` characters and `...` when longer.
fn shorten(t: String) -> (r: String)
    ensures
        r@ == shortened(t@),
{
    let cs = chars_of(t.as_str());
    if cs.len() > SNIPPET_MAX_CHARS {
        let mut out = String::new();
        let mut k: usize = 0;
        while k < SNIPPET_MAX_CHARS
            invariant
                k <= SNIPPET_MAX_CHARS < cs@.len(),
                cs@ == t@,
                out@ == cs@.take(k as int),
            decreases SNIPPET_MAX_CHARS - k,
        {
            proof {
                assert(cs@.take(k + 1) =~= cs@.take(k as int).push(cs@[k as int]));
            }
            out.push(cs[k]);
            k = k + 1;
        }
        out.push('.');
        out.push('.');
        out.push('.');
        proof {
            assert(out@ =~= t@.take(SNIPPET_MAX_CHARS as int) + seq!['.', '.', '.']);
        }
        out
    } else {
        t
    }
}

/// Whether one of the normalized words of `sentence` equals `q`.
fn sentence_mentions(sentence: &str, q: &String) -> (r: bool)
    ensures
        r == sentence_has(sentence@, q@),
{
    let words = split_query_into_words(sentence);
    let ghost ns = normalized_all(words_of(sentence@));
    let mut i: usize = 0;
    while i < words.len()
        invariant
            i <= words@.len(),
            texts(words@) == words_of(sentence@),
            ns == normalized_all(words_of(sentence@)),
            ns.len() == words@.len(),
            forall|j: int| 0 <= j < i ==> ns[j] != q@,
        decreases words@.len() - i,
    {
        let n = normalize_token(words[i].as_str());
        proof {
            assert(texts(words@)[i as int] == words@[i as int]@);
            assert(ns[i as int] == normalized(words@[i as int]@));
        }
        if n == *q {
            proof {
                assert(ns[i as int] == q@);
            }
            return true;
        }
        i = i + 1;
    }
    false
}

/// Up to `max_snippets` sentences of `content` that mention `search_word`
/// once normalized, in order, trimmed and shortened.
pub fn extract_snippets(content: &str, search_word: &str, max_snippets: usize) -> (r: Vec<String>)
    ensures
        texts(r@) == snippets_of(content@, search_word@, max_snippets as nat),
{
    let q = normalize_token(search_word);
    let sents = split_pieces(content, true);
    let ghost sv = split_on(content@, true);
    let mut out: Vec<String> = Vec::new();
    let mut i: usize = 0;
    proof {
        assert(sv.skip(0) =~= sv);
        assert(texts(out@) =~= Seq::<Seq<char>>::empty());
        assert(Seq::<Seq<char>>::empty() + pick_snippets(sv, q@, max_snippets as nat) =~= pick_snippets(
            sv,
            q@,
            max_snippets as nat,
        ));
    }
    while i < sents.len() && out.len() < max_snippets
        invariant
            i <= sents@.len(),
            texts(sents@) == sv,
            out@.len() <= max_snippets,
            texts(out@) + pick_snippets(sv.skip(i as int), q@, (max_snippets - out@.len()) as nat)
                == pick_snippets(sv, q@, max_snippets as nat),
        decreases sents@.len() - i,
    {
        let ghost rest = sv.skip(i as int);
        let ghost m = (max_snippets - out@.len()) as nat;
        proof {
            assert(rest[0] == sents@[i as int]@);
            assert(rest.drop_first() =~= sv.skip(i + 1));
        }
        if sentence_mentions(sents[i].as_str(), &q) {
            let snip = shorten(trim(sents[i].as_str()));
            let ghost before = texts(out@);
            out.push(snip);
            proof {
                assert(texts(out@) =~= before.push(snip@));
                assert(before.push(snip@) + pick_snippets(sv.skip(i + 1), q@, (m - 1) as nat)
                    =~= before + (seq![snip@] + pick_snippets(sv.skip(i + 1), q@, (m - 1) as nat)));
            }
        }
        i = i + 1;
    }
    proof {
        assert(pick_snippets(sv.skip(i as int), q@, (max_snippets - out@.len()) as nat)
            =~= Seq::<Seq<char>>::empty());
        assert(texts(out@) + Seq::<Seq<char>>::empty() =~= texts(out@));
    }
    out
}

/// One document's share of a word's occurrences.
pub struct PerDocCount {
    pub doc_id: DocId,
    pub doc_name: String,
    pub count: usize,
    pub snippets: Vec<String>,
}

/// A query word's occurrences across the documents.
pub struct WordResult {
    pub word: String,
    pub total_count: usize,
    pub per_doc: Vec<PerDocCount>,
}

/// A document that holds every query word.
pub struct DocumentMatch {
    pub doc_id: DocId,
    pub doc_name: String,
    pub matched_words: usize,
}

/// How a multi-word query is run.
#[derive(Clone, Copy, Debug, PartialEq, Eq, Structural)]
pub enum ExecutionMode {
    Sequential,
    Parallel,
}

/// The value of a `PerDocCount`.
pub struct HitView {
    pub doc_id: DocId,
    pub doc_name: Seq<char>,
    pub count: nat,
    pub snippets: Seq<Seq<char>>,
}

/// The value of a `WordResult`.
pub struct WordResultView {
    pub word: Seq<char>,
    pub total_count: nat,
    pub per_doc: Seq<HitView>,
}

/// The value of a `DocumentMatch`.
pub struct MatchView {
    pub doc_id: DocId,
    pub doc_name: Seq<char>,
    pub matched_words: nat,
}

impl View for PerDocCount {
    type V = HitView;

    open spec fn view(&self) -> HitView {
        HitView {
            doc_id: self.doc_id,
            doc_name: self.doc_name@,
            count: self.count as nat,
            snippets: texts(self.snippets@),
        }
    }
}

/// The values of a sequence of `PerDocCount`s.
pub open spec fn hit_views(v: Seq<PerDocCount>) -> Seq<HitView> {
    v.map_values(|h: PerDocCount| h@)
}

impl View for WordResult {
    type V = WordResultView;

    open spec fn view(&self) -> WordResultView {
        WordResultView {
            word: self.word@,
            total_count: self.total_count as nat,
            per_doc: hit_views(self.per_doc@),
        }
    }
}

/// The values of a sequence of `WordResult`s.
pub open spec fn result_views(v: Seq<WordResult>) -> Seq<WordResultView> {
    v.map_values(|r: WordResult| r@)
}

impl View for DocumentMatch {
    type V = MatchView;

    open spec fn view(&self) -> MatchView {
        MatchView {
            doc_id: self.doc_id,
            doc_name: self.doc_name@,
            matched_words: self.matched_words as nat,
        }
    }
}

/// The values of a sequence of `DocumentMatch`es.
pub open spec fn match_views(v: Seq<DocumentMatch>) -> Seq<MatchView> {
    v.map_values(|m: DocumentMatch| m@)
}

/// The occurrences of `w` in all of `docs`, added up.
pub open spec fn word_total(docs: Seq<Document>, w: Seq<char>) -> nat
    decreases docs.len(),
{
    if docs.len() == 0 {
        0
    } else {
        word_total(docs.drop_last(), w) + docs.last().word_counts.count(w)
    }
}

/// What a search for `raw` reports of document `d`.
pub open spec fn hit_of(d: Document, raw: Seq<char>) -> HitView {
    HitView {
        doc_id: d.id,
        doc_name: d.name@,
        count: d.word_counts.count(normalized(raw)),
        snippets: snippets_of(d.content@, raw, SNIPPETS_PER_DOC as nat),
    }
}

/// The documents of `docs` that hold the normalized `raw`, in order, as hits.
pub open spec fn hits_of(docs: Seq<Document>, raw: Seq<char>) -> Seq<HitView>
    decreases docs.len(),
{
    if docs.len() == 0 {
        Seq::empty()
    } else if docs.last().word_counts.count(normalized(raw)) > 0 {
        hits_of(docs.drop_last(), raw).push(hit_of(docs.last(), raw))
    } else {
        hits_of(docs.drop_last(), raw)
    }
}

/// The counts of `hits`, added up.
pub open spec fn hits_total(hits: Seq<HitView>) -> nat
    decreases hits.len(),
{
    if hits.len() == 0 {
        0
    } else {
        hits_total(hits.drop_last()) + hits.last().count
    }
}

/// The result of searching `docs` for `raw`.
pub open spec fn search_one_view(docs: Seq<Document>, raw: Seq<char>) -> WordResultView {
    WordResultView {
        word: normalized(raw),
        total_count: word_total(docs, normalized(raw)),
        per_doc: hits_of(docs, raw),
    }
}

/// The results for `words`, one after the other.
pub open spec fn sequential_view(docs: Seq<Document>, words: Seq<Seq<char>>) -> Seq<WordResultView>
    decreases words.len(),
{
    if words.len() == 0 {
        Seq::empty()
    } else {
        sequential_view(docs, words.drop_last()).push(search_one_view(docs, words.last()))
    }
}

/// The results for `words`, each computed on its own, at its word's place.
pub open spec fn parallel_view(docs: Seq<Document>, words: Seq<Seq<char>>) -> Seq<WordResultView> {
    Seq::new(words.len(), |i: int| search_one_view(docs, words[i]))
}

/// The reported total of a word is the sum of the counts of its hits.
pub proof fn lemma_total_is_sum_of_hits(docs: Seq<Document>, raw: Seq<char>)
    ensures
        hits_total(hits_of(docs, raw)) == word_total(docs, normalized(raw)),
    decreases docs.len(),
{
    if docs.len() > 0 {
        lemma_total_is_sum_of_hits(docs.drop_last(), raw);
        let h = hits_of(docs.drop_last(), raw);
        if docs.last().word_counts.count(normalized(raw)) > 0 {
            assert(h.push(hit_of(docs.last(), raw)).drop_last() =~= h);
        }
    }
}

/// Counting a word one document at a time from the first, as
/// `count_word_recursive(docs, w, 0, 0)` does, gives the total that a search
/// for it reports.
pub proof fn lemma_recount_agrees(docs: Seq<Document>, raw: Seq<char>)
    ensures
        word_total(docs.subrange(0, docs.len() as int), normalized(raw)) == search_one_view(
            docs,
            raw,
        ).total_count,
        search_one_view(docs, raw).total_count == hits_total(search_one_view(docs, raw).per_doc),
{
    assert(docs.subrange(0, docs.len() as int) =~= docs);
    lemma_total_is_sum_of_hits(docs, raw);
}

/// A word's occurrences never exceed the words of all documents.
proof fn lemma_word_total_le(docs: Seq<Document>, w: Seq<char>)
    requires
        forall|i: int| 0 <= i < docs.len() ==> (#[trigger] docs[i]).wf(),
    ensures
        word_total(docs, w) <= words_in(docs),
    decreases docs.len(),
{
    if docs.len() > 0 {
        assert(docs.last().wf());
        docs.last().word_counts.lemma_count_le_total(w);
        lemma_word_total_le(docs.drop_last(), w);
    }
}

proof fn lemma_word_total_concat(a: Seq<Document>, b: Seq<Document>, w: Seq<char>)
    ensures
        word_total(a + b, w) == word_total(a, w) + word_total(b, w),
    decreases b.len(),
{
    if b.len() == 0 {
        assert(a + b =~= a);
    } else {
        lemma_word_total_concat(a, b.drop_last(), w);
        assert((a + b).drop_last() =~= a + b.drop_last());
    }
}

/// A word that no document holds has a zero total and no hits.
pub proof fn lemma_absent_word(docs: Seq<Document>, raw: Seq<char>)
    requires
        forall|i: int| 0 <= i < docs.len() ==> (#[trigger] docs[i]).word_counts.count(
            normalized(raw),
        ) == 0,
    ensures
        search_one_view(docs, raw).total_count == 0,
        search_one_view(docs, raw).per_doc.len() == 0,
    decreases docs.len(),
{
    if docs.len() > 0 {
        assert(docs.last() == docs[docs.len() - 1]);
        assert forall|i: int| 0 <= i < docs.drop_last().len() implies (
        #[trigger] docs.drop_last()[i]).word_counts.count(normalized(raw)) == 0 by {
            assert(docs.drop_last()[i] == docs[i]);
        }
        lemma_absent_word(docs.drop_last(), raw);
    }
}

/// Running the words one after the other gives, at each place, the result
/// of that word computed on its own: sequential and parallel runs agree.
pub proof fn lemma_modes_agree(docs: Seq<Document>, words: Seq<Seq<char>>)
    ensures
        sequential_view(docs, words) == parallel_view(docs, words),
    decreases words.len(),
{
    if words.len() > 0 {
        lemma_modes_agree(docs, words.drop_last());
        assert(sequential_view(docs, words) =~= parallel_view(docs, words));
    }
}

/// The counts of `per_doc`, added up.
pub fn calculate_total_count(per_doc: &[PerDocCount]) -> (r: usize)
    requires
        hits_total(hit_views(per_doc@)) <= usize::MAX,
    ensures
        r == hits_total(hit_views(per_doc@)),
{
    let mut acc: usize = 0;
    for i in 0..per_doc.len()
        invariant
            hits_total(hit_views(per_doc@)) <= usize::MAX,
            acc == hits_total(hit_views(per_doc@.take(i as int))),
    {
        proof {
            assert(hit_views(per_doc@.take(i + 1)).drop_last() =~= hit_views(
                per_doc@.take(i as int),
            ));
            lemma_hits_prefix_le(hit_views(per_doc@), i + 1);
            assert(hit_views(per_doc@).take(i + 1) =~= hit_views(per_doc@.take(i + 1)));
        }
        acc = acc + per_doc[i].count;
    }
    proof {
        assert(per_doc@.take(per_doc@.len() as int) =~= per_doc@);
    }
    acc
}

proof fn lemma_hits_prefix_le(h: Seq<HitView>, n: int)
    requires
        0 <= n <= h.len(),
    ensures
        hits_total(h.take(n)) <= hits_total(h),
    decreases h.len() - n,
{
    if n < h.len() {
        lemma_hits_prefix_le(h, n + 1);
        assert(h.take(n + 1).drop_last() =~= h.take(n));
    } else {
        assert(h.take(n) =~= h);
    }
}

/// The occurrences of `word` in `docs[index..]` (none when `index` is past
/// the end), added to `acc`, counted one document at a time by recursion.
pub fn count_word_recursive(docs: &[Document], word: &String, index: usize, acc: usize) -> (r:
    usize)
    requires
        docs_fit(docs@),
        acc + (if index < docs@.len() {
            word_total(docs@.subrange(index as int, docs@.len() as int), word@)
        } else {
            0
        }) <= usize::MAX,
    ensures
        r == acc + (if index < docs@.len() {
            word_total(docs@.subrange(index as int, docs@.len() as int), word@)
        } else {
            0
        }),
    decreases docs@.len() - index,
{
    if index >= docs.len() {
        return acc;
    }
    let ghost rest = docs@.subrange(index as int + 1, docs@.len() as int);
    let ghost one = seq![docs@[index as int]];
    proof {
        assert(docs@.subrange(index as int, docs@.len() as int) =~= one + rest);
        lemma_word_total_concat(one, rest, word@);
        assert(one.drop_last() =~= Seq::<Document>::empty());
        assert(word_total(one.drop_last(), word@) == 0);
        assert(one.last() == docs@[index as int]);
        assert(word_total(one, word@) == docs@[index as int].word_counts.count(word@));
        assert(docs@[index as int].wf());
        if index + 1 == docs@.len() {
            assert(rest =~= Seq::<Document>::empty());
        }
    }
    let count = docs[index].word_counts.get(word);
    count_word_recursive(docs, word, index + 1, acc + count)
}

/// Searches `docs` for the normalized `raw_word`: each document that holds
/// it, in order, with its count and snippets, and the total count.
pub fn search_single_word(docs: &[Document], raw_word: &str) -> (r: WordResult)
    requires
        docs_fit(docs@),
    ensures
        r@ == search_one_view(docs@, raw_word@),
        r@.total_count == hits_total(r@.per_doc),
{
    let word = normalize_token(raw_word);
    let mut per_doc: Vec<PerDocCount> = Vec::new();
    for i in 0..docs.len()
        invariant
            docs_fit(docs@),
            word@ == normalized(raw_word@),
            hit_views(per_doc@) == hits_of(docs@.take(i as int), raw_word@),
    {
        proof {
            assert(docs@.take(i + 1).drop_last() =~= docs@.take(i as int));
            assert(docs@.take(i + 1).last() == docs@[i as int]);
            assert(docs@[i as int].wf());
        }
        let count = docs[i].word_counts.get(&word);
        if count > 0 {
            let snippets = extract_snippets(docs[i].content.as_str(), raw_word, SNIPPETS_PER_DOC);
            let hit = PerDocCount {
                doc_id: docs[i].id,
                doc_name: docs[i].name.clone(),
                count,
                snippets,
            };
            let ghost before = per_doc@;
            per_doc.push(hit);
            proof {
                assert(hit_views(per_doc@) =~= hit_views(before).push(hit@));
            }
        }
    }
    proof {
        assert(docs@.take(docs@.len() as int) =~= docs@);
        lemma_total_is_sum_of_hits(docs@, raw_word@);
        lemma_word_total_le(docs@, word@);
    }
    let total_count = calculate_total_count(per_doc.as_slice());
    WordResult { word, total_count, per_doc }
}

/// Searches for each word in turn; results in the order of the words.
pub fn search_words_sequential(docs: &[Document], words: &[String]) -> (r: Vec<WordResult>)
    requires
        docs_fit(docs@),
    ensures
        result_views(r@) == sequential_view(docs@, texts(words@)),
{
    let mut out: Vec<WordResult> = Vec::new();
    for i in 0..words.len()
        invariant
            docs_fit(docs@),
            result_views(out@) == sequential_view(docs@, texts(words@).take(i as int)),
    {
        let res = search_single_word(docs, words[i].as_str());
        proof {
            let ws = texts(words@);
            assert(ws.take(i + 1).drop_last() =~= ws.take(i as int));
            assert(ws.take(i + 1).last() == words@[i as int]@);
            assert(result_views(out@.push(res)) =~= result_views(out@).push(res@));
        }
        out.push(res);
    }
    proof {
        assert(texts(words@).take(words@.len() as int) =~= texts(words@));
    }
    out
}

/// Relies on rayon's `par_iter().map(..).collect()` into a `Vec`: an indexed
/// parallel iterator collects one result per word, at the word's position,
/// each the value of the closure (a verified search) on that word.
#[verifier::external_body]
fn par_search(docs: &[Document], words: &[String]) -> (r: Vec<WordResult>)
    requires
        docs_fit(docs@),
    ensures
        r@.len() == words@.len(),
        forall|i: int| 0 <= i < words@.len() ==> r@[i]@ == search_one_view(docs@, words@[i]@),
{
    words.par_iter().map(|w| search_single_word(docs, w)).collect()
}

/// Searches for every word at once on a thread pool; results in the order
/// of the words.
pub fn search_words_parallel(docs: &[Document], words: &[String]) -> (r: Vec<WordResult>)
    requires
        docs_fit(docs@),
    ensures
        result_views(r@) == parallel_view(docs@, texts(words@)),
{
    let r = par_search(docs, words);
    proof {
        assert(result_views(r@) =~= parallel_view(docs@, texts(words@)));
    }
    r
}

/// The mode for a query of `word_count` words: sequential for at most one
/// word, parallel otherwise.
pub fn choose_mode(word_count: usize) -> (r: ExecutionMode)
    ensures
        r == (if word_count <= 1 {
            ExecutionMode::Sequential
        } else {
            ExecutionMode::Parallel
        }),
{
    if word_count <= 1 {
        ExecutionMode::Sequential
    } else {
        ExecutionMode::Parallel
    }
}

/// Searches for `words` in the given mode; the results are the same in
/// either mode.
pub fn search_words(docs: &[Document], words: &[String], mode: ExecutionMode) -> (r: Vec<
    WordResult,
>)
    requires
        docs_fit(docs@),
    ensures
        result_views(r@) == parallel_view(docs@, texts(words@)),
        result_views(r@) == sequential_view(docs@, texts(words@)),
{
    proof {
        lemma_modes_agree(docs@, texts(words@));
    }
    match mode {
        ExecutionMode::Sequential => search_words_sequential(docs, words),
        ExecutionMode::Parallel => search_words_parallel(docs, words),
    }
}

/// The query words of a raw list: each trimmed, the blank ones dropped.
pub open spec fn cleaned(words: Seq<Seq<char>>) -> Seq<Seq<char>> {
    nonempty_only(trimmed_all(words))
}

/// Searches for each word of a raw list, trimmed and with blank words
/// dropped; sequentially for at most one remaining word and in parallel
/// otherwise; one result per remaining word, in order.
pub fn search_many(docs: &[Document], raw_words: &[String]) -> (r: Vec<WordResult>)
    requires
        docs_fit(docs@),
    ensures
        result_views(r@) == parallel_view(docs@, cleaned(texts(raw_words@))),
{
    let words = clean_words(raw_words);
    search_words(docs, words.as_slice(), choose_mode(words.len()))
}

/// Searches for the whitespace-separated words of `query`, sequentially for
/// at most one word and in parallel otherwise; one result per word, in order.
pub fn search_query(docs: &[Document], query: &str) -> (r: Vec<WordResult>)
    requires
        docs_fit(docs@),
    ensures
        result_views(r@) == parallel_view(docs@, words_of(query@)),
{
    let words = split_query_into_words(query);
    search_words(docs, words.as_slice(), choose_mode(words.len()))
}

/// `qs` with repeated entries dropped, first occurrences kept in order.
pub open spec fn distinct(qs: Seq<Seq<char>>) -> Seq<Seq<char>>
    decreases qs.len(),
{
    if qs.len() == 0 {
        Seq::empty()
    } else if distinct(qs.drop_last()).contains(qs.last()) {
        distinct(qs.drop_last())
    } else {
        distinct(qs.drop_last()).push(qs.last())
    }
}

/// Whether `d` holds every word of `qs`.
pub open spec fn has_all(d: Document, qs: Seq<Seq<char>>) -> bool {
    forall|i: int| 0 <= i < qs.len() ==> (#[trigger] d.word_counts.count(qs[i])) > 0
}

/// The documents of `docs` that hold every word of `qs`, in order.
pub open spec fn matches_of(docs: Seq<Document>, qs: Seq<Seq<char>>) -> Seq<MatchView>
    decreases docs.len(),
{
    if docs.len() == 0 {
        Seq::empty()
    } else if has_all(docs.last(), qs) {
        matches_of(docs.drop_last(), qs).push(
            MatchView { doc_id: docs.last().id, doc_name: docs.last().name@, matched_words: qs.len() },
        )
    } else {
        matches_of(docs.drop_last(), qs)
    }
}

/// The documents that hold every normalized query word, each with the number
/// of distinct query words; none for an empty query.
pub open spec fn all_words_view(docs: Seq<Document>, words: Seq<Seq<char>>) -> Seq<MatchView> {
    if words.len() == 0 {
        Seq::empty()
    } else {
        matches_of(docs, distinct(normalized_all(words)))
    }
}

/// Whether `s` is one of `v`.
fn contains_text(v: &Vec<String>, s: &String) -> (r: bool)
    ensures
        r == texts(v@).contains(s@),
{
    let mut i: usize = 0;
    while i < v.len()
        invariant
            i <= v@.len(),
            forall|j: int| 0 <= j < i ==> v@[j]@ != s@,
        decreases v@.len() - i,
    {
        if v[i] == *s {
            proof {
                assert(texts(v@)[i as int] == s@);
            }
            return true;
        }
        i = i + 1;
    }
    proof {
        assert forall|j: int| 0 <= j < texts(v@).len() implies texts(v@)[j] != s@ by {
            assert(texts(v@)[j] == v@[j]@);
        }
    }
    false
}

/// Whether `d` holds every word of `qs`.
fn holds_all(d: &Document, qs: &Vec<String>) -> (r: bool)
    requires
        d.wf(),
    ensures
        r == has_all(*d, texts(qs@)),
{
    let mut i: usize = 0;
    while i < qs.len()
        invariant
            d.wf(),
            i <= qs@.len(),
            forall|j: int| 0 <= j < i ==> (#[trigger] d.word_counts.count(texts(qs@)[j])) > 0,
        decreases qs@.len() - i,
    {
        proof {
            assert(texts(qs@)[i as int] == qs@[i as int]@);
        }
        if d.word_counts.get(&qs[i]) == 0 {
            return false;
        }
        i = i + 1;
    }
    true
}

/// The documents that hold every query word once normalized, in order, each
/// with the number of distinct normalized query words; none when `words` is
/// empty.
pub fn find_docs_with_all_words(docs: &[Document], words: &[String]) -> (r: Vec<DocumentMatch>)
    requires
        docs_fit(docs@),
    ensures
        match_views(r@) == all_words_view(docs@, texts(words@)),
{
    if words.len() == 0 {
        let none: Vec<DocumentMatch> = Vec::new();
        proof {
            assert(match_views(none@) =~= Seq::<MatchView>::empty());
        }
        return none;
    }
    let ghost ns = normalized_all(texts(words@));
    let mut qs: Vec<String> = Vec::new();
    for i in 0..words.len()
        invariant
            ns == normalized_all(texts(words@)),
            texts(qs@) == distinct(ns.take(i as int)),
    {
        let n = normalize_token(words[i].as_str());
        proof {
            assert(ns.take(i + 1).drop_last() =~= ns.take(i as int));
            assert(ns.take(i + 1).last() == n@);
        }
        if !contains_text(&qs, &n) {
            proof {
                assert(texts(qs@.push(n)) =~= texts(qs@).push(n@));
            }
            qs.push(n);
        }
    }
    proof {
        assert(ns.take(words@.len() as int) =~= ns);
    }
    let mut out: Vec<DocumentMatch> = Vec::new();
    for k in 0..docs.len()
        invariant
            docs_fit(docs@),
            texts(qs@) == distinct(ns),
            ns == normalized_all(texts(words@)),
            match_views(out@) == matches_of(docs@.take(k as int), texts(qs@)),
    {
        proof {
            assert(docs@.take(k + 1).drop_last() =~= docs@.take(k as int));
            assert(docs@.take(k + 1).last() == docs@[k as int]);
            assert(docs@[k as int].wf());
        }
        if holds_all(&docs[k], &qs) {
            let m = DocumentMatch {
                doc_id: docs[k].id,
                doc_name: docs[k].name.clone(),
                matched_words: qs.len(),
            };
            proof {
                assert(match_views(out@.push(m)) =~= match_views(out@).push(m@));
            }
            out.push(m);
        }
    }
    proof {
        assert(docs@.take(docs@.len() as int) =~= docs@);
    }
    out
}

} // verus!
