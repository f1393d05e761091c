//! Documents and the document store that owns them and assigns their ids.
use vstd::prelude::*;

use crate::index::{build_word_counts, occurrences, WordCounts};
use crate::text::{is_blank, tokens_of, trimmed};
use rayon::iter::{IntoParallelIterator, ParallelIterator};
use vstd::utf8::encode_utf8;

verus! {

/// Identifier of a document in a store.
pub type DocId = usize;

/// The size in bytes of the UTF-8 encoding of `s`.
pub open spec fn byte_size(s: Seq<char>) -> nat {
    encode_utf8(s).len()
}

/// A text that has been indexed but not yet placed in a store.
pub struct PreparedDocument {
    pub name: String,
    pub content: String,
    pub word_counts: WordCounts,
}

impl PreparedDocument {
    /// The index is exactly the word counts of the content.
    pub open spec fn wf(&self) -> bool {
        indexes(&self.word_counts, self.content@)
    }
}

/// `wc` holds exactly the token counts of `content`.
pub open spec fn indexes(wc: &WordCounts, content: Seq<char>) -> bool {
    &&& wc.wf()
    &&& forall|w: Seq<char>| #[trigger] wc.count(w) == occurrences(tokens_of(content), w)
    &&& wc.total() == tokens_of(content).len()
}

/// A stored document: its id, display name, text and word counts.
pub struct Document {
    pub id: DocId,
    pub name: String,
    pub content: String,
    pub word_counts: WordCounts,
}

impl Document {
    /// The index is exactly the word counts of the content.
    pub open spec fn wf(&self) -> bool {
        indexes(&self.word_counts, self.content@)
    }
}

/// Id and name of a stored document.
pub struct DocumentInfo {
    pub id: DocId,
    pub name: String,
}

/// Corpus-wide counters: documents, words (tokens) and bytes of content.
#[derive(Clone, Copy, Debug, PartialEq, Eq, Structural)]
pub struct DocStats {
    pub total_documents: usize,
    pub total_words: usize,
    pub total_bytes: usize,
}

/// Why a store operation failed.
#[derive(Clone, Copy, Debug, PartialEq, Eq, Structural)]
pub enum StoreError {
    /// No document has the given id.
    NotFound(DocId),
    /// The id counter or the word or byte totals would overflow.
    CapacityExceeded,
}

/// The words of all documents, added up.
pub open spec fn words_in(docs: Seq<Document>) -> nat
    decreases docs.len(),
{
    if docs.len() == 0 {
        0
    } else {
        words_in(docs.drop_last()) + docs.last().word_counts.total()
    }
}

/// The content bytes of all documents, added up.
pub open spec fn bytes_in(docs: Seq<Document>) -> nat
    decreases docs.len(),
{
    if docs.len() == 0 {
        0
    } else {
        bytes_in(docs.drop_last()) + byte_size(docs.last().content@)
    }
}

/// The statistics of a sequence of documents.
pub open spec fn stats_of(docs: Seq<Document>) -> DocStats {
    DocStats {
        total_documents: docs.len() as usize,
        total_words: words_in(docs) as usize,
        total_bytes: bytes_in(docs) as usize,
    }
}

/// The document with id `id`, if there is one (the last such).
pub open spec fn doc_with_id(docs: Seq<Document>, id: DocId) -> Option<Document>
    decreases docs.len(),
{
    if docs.len() == 0 {
        None
    } else if docs.last().id == id {
        Some(docs.last())
    } else {
        doc_with_id(docs.drop_last(), id)
    }
}

/// Every document is well formed and the totals fit in `usize`.
pub open spec fn docs_fit(docs: Seq<Document>) -> bool {
    &&& forall|i: int| 0 <= i < docs.len() ==> (#[trigger] docs[i]).wf()
    &&& words_in(docs) <= usize::MAX
    &&& bytes_in(docs) <= usize::MAX
}

/// Whether a store holding `docs`, with next id `next_id`, has room for one
/// more document with content `content`.
pub open spec fn accepts(docs: Seq<Document>, next_id: nat, content: Seq<char>) -> bool {
    &&& next_id < usize::MAX
    &&& words_in(docs) + tokens_of(content).len() <= usize::MAX
    &&& bytes_in(docs) + byte_size(content) <= usize::MAX
}

/// The documents a batch becomes when stored in order with ids counted from
/// `first_id`.
pub open spec fn stored(batch: Seq<PreparedDocument>, first_id: nat) -> Seq<Document> {
    Seq::new(
        batch.len(),
        |i: int|
            Document {
                id: (first_id + i) as DocId,
                name: batch[i].name,
                content: batch[i].content,
                word_counts: batch[i].word_counts,
            },
    )
}

/// Whether a store holding `docs`, with next id `next_id`, has room for a
/// whole batch: its ids and the new totals fit in `usize`.
pub open spec fn accepts_batch(docs: Seq<Document>, next_id: nat, batch: Seq<PreparedDocument>) -> bool {
    &&& next_id + batch.len() <= usize::MAX
    &&& words_in(docs + stored(batch, next_id)) <= usize::MAX
    &&& bytes_in(docs + stored(batch, next_id)) <= usize::MAX
}

/// The ids `first_id`, `first_id + 1`, ..., one per document of a batch of
/// `n`.
pub open spec fn consecutive_ids(first_id: nat, n: nat) -> Seq<DocId> {
    Seq::new(n, |i: int| (first_id + i) as DocId)
}

/// The tokens in the contents of `files`, added up.
pub open spec fn files_words(files: Seq<(String, String)>) -> nat
    decreases files.len(),
{
    if files.len() == 0 {
        0
    } else {
        files_words(files.drop_last()) + tokens_of(files.last().1@).len()
    }
}

/// The content bytes of `files`, added up.
pub open spec fn files_bytes(files: Seq<(String, String)>) -> nat
    decreases files.len(),
{
    if files.len() == 0 {
        0
    } else {
        files_bytes(files.drop_last()) + byte_size(files.last().1@)
    }
}

/// Whether a store holding `docs`, with next id `next_id`, has room for all
/// of `files`: their ids and the new totals fit in `usize`.
pub open spec fn accepts_files(docs: Seq<Document>, next_id: nat, files: Seq<(String, String)>) -> bool {
    &&& next_id + files.len() <= usize::MAX
    &&& words_in(docs) + files_words(files) <= usize::MAX
    &&& bytes_in(docs) + files_bytes(files) <= usize::MAX
}

/// Builds a document from its parts.
pub fn create_document(id: DocId, name: String, content: String, word_counts: WordCounts) -> (r:
    Document)
    ensures
        r == (Document { id, name, content, word_counts }),
{
    Document { id, name, content, word_counts }
}

/// Indexes `content` under the display name `name`.
pub fn prepare_document(name: String, content: String) -> (r: PreparedDocument)
    ensures
        r.wf(),
        r.name == name,
        r.content == content,
{
    let word_counts = build_word_counts(content.as_str());
    PreparedDocument { name, content, word_counts }
}

/// Why an extracted text was not indexed.
#[derive(Clone, Debug)]
pub enum IngestError {
    /// The text extractor could not decode the document.
    ExtractionFailure(String),
    /// The extracted text is blank.
    EmptyContent,
}

/// Indexes the outcome of a text extraction: a failure or a blank text is
/// skipped with the matching error.
pub fn prepare_extracted(name: String, extracted: Result<String, String>) -> (r: Result<
    PreparedDocument,
    IngestError,
>)
    ensures
        match extracted {
            Err(e) => r == Err::<PreparedDocument, IngestError>(IngestError::ExtractionFailure(e)),
            Ok(t) => if trimmed(t@).len() == 0 {
                r == Err::<PreparedDocument, IngestError>(IngestError::EmptyContent)
            } else {
                r is Ok && r->Ok_0.wf() && r->Ok_0.name == name && r->Ok_0.content == t
            },
        },
{
    match extracted {
        Err(e) => Err(IngestError::ExtractionFailure(e)),
        Ok(t) => {
            if is_blank(t.as_str()) {
                Err(IngestError::EmptyContent)
            } else {
                Ok(prepare_document(name, t))
            }
        },
    }
}

/// Relies on rayon's `into_par_iter().map(..).collect()` into a `Vec`: an
/// indexed parallel iterator collects one result per file, at the file's
/// position, each the value of the closure (a verified indexing) on it.
#[verifier::external_body]
fn par_prepare(files: Vec<(String, String)>) -> (r: Vec<PreparedDocument>)
    ensures
        r@.len() == files@.len(),
        forall|i: int|
            0 <= i < files@.len() ==> (#[trigger] r@[i]).wf() && r@[i].name == files@[i].0
                && r@[i].content == files@[i].1,
{
    files.into_par_iter().map(|(name, content)| prepare_document(name, content)).collect()
}

/// Indexes a batch of `(name, content)` files, in order; on a thread pool
/// when there are at least two.
pub fn prepare_batch(files: Vec<(String, String)>) -> (r: Vec<PreparedDocument>)
    ensures
        r@.len() == files@.len(),
        forall|i: int|
            0 <= i < files@.len() ==> (#[trigger] r@[i]).wf() && r@[i].name == files@[i].0
                && r@[i].content == files@[i].1,
{
    if files.len() >= 2 {
        par_prepare(files)
    } else {
        let mut out: Vec<PreparedDocument> = Vec::new();
        for i in 0..files.len()
            invariant
                out@.len() == i,
                forall|j: int|
                    0 <= j < i ==> (#[trigger] out@[j]).wf() && out@[j].name == files@[j].0
                        && out@[j].content == files@[j].1,
        {
            let name = files[i].0.clone();
            let content = files[i].1.clone();
            out.push(prepare_document(name, content));
        }
        out
    }
}

/// The size in bytes of `s`.
pub fn content_bytes(s: &String) -> (r: usize)
    ensures
        r == byte_size(s@),
{
    s.as_str().as_bytes().len()
}

/// Counts the documents, their words and their content bytes.
pub fn calculate_doc_stats(docs: &[Document]) -> (r: DocStats)
    requires
        docs_fit(docs@),
    ensures
        r == stats_of(docs@),
        r.total_documents == docs@.len(),
        r.total_words == words_in(docs@),
        r.total_bytes == bytes_in(docs@),
{
    let mut words: usize = 0;
    let mut bytes: usize = 0;
    for i in 0..docs.len()
        invariant
            docs_fit(docs@),
            words == words_in(docs@.take(i as int)),
            bytes == bytes_in(docs@.take(i as int)),
    {
        proof {
            assert(docs@.take(i + 1).drop_last() =~= docs@.take(i as int));
            lemma_prefix_totals_le(docs@, i + 1);
        }
        let w = docs[i].word_counts.total_words();
        let b = content_bytes(&docs[i].content);
        words = words + w;
        bytes = bytes + b;
    }
    proof {
        assert(docs@.take(docs@.len() as int) =~= docs@);
    }
    DocStats { total_documents: docs.len(), total_words: words, total_bytes: bytes }
}

/// The totals of a prefix do not exceed the totals of the whole.
proof fn lemma_prefix_totals_le(docs: Seq<Document>, n: int)
    requires
        0 <= n <= docs.len(),
    ensures
        words_in(docs.take(n)) <= words_in(docs),
        bytes_in(docs.take(n)) <= bytes_in(docs),
    decreases docs.len() - n,
{
    if n < docs.len() {
        lemma_prefix_totals_le(docs, n + 1);
        assert(docs.take(n + 1).drop_last() =~= docs.take(n));
    } else {
        assert(docs.take(n) =~= docs);
    }
}

/// The totals of a concatenation are the sums of the totals.
proof fn lemma_totals_concat(a: Seq<Document>, b: Seq<Document>)
    ensures
        words_in(a + b) == words_in(a) + words_in(b),
        bytes_in(a + b) == bytes_in(a) + bytes_in(b),
    decreases b.len(),
{
    if b.len() == 0 {
        assert(a + b =~= a);
    } else {
        lemma_totals_concat(a, b.drop_last());
        assert((a + b).drop_last() =~= a + b.drop_last());
    }
}

/// The totals after removing the document at `k`.
proof fn lemma_totals_remove(docs: Seq<Document>, k: int)
    requires
        0 <= k < docs.len(),
    ensures
        words_in(docs.remove(k)) + docs[k].word_counts.total() == words_in(docs),
        bytes_in(docs.remove(k)) + byte_size(docs[k].content@) == bytes_in(docs),
{
    let a = docs.take(k);
    let b = docs.skip(k + 1);
    assert(docs.remove(k) =~= a + b);
    assert(docs =~= (a + seq![docs[k]]) + b);
    lemma_totals_concat(a, b);
    lemma_totals_concat(a + seq![docs[k]], b);
    lemma_totals_concat(a, seq![docs[k]]);
    let one = seq![docs[k]];
    assert(one.drop_last() =~= Seq::<Document>::empty());
    assert(one.last() == docs[k]);
    assert(words_in(one.drop_last()) == 0);
    assert(bytes_in(one.drop_last()) == 0);
    assert(words_in(one) == docs[k].word_counts.total());
    assert(bytes_in(one) == byte_size(docs[k].content@));
}

/// The documents of a store, in insertion order, with the id counter.
pub struct DocumentStore {
    docs: Vec<Document>,
    next_id: DocId,
    words: usize,
    bytes: usize,
}

impl DocumentStore {
    /// The stored documents, in insertion order.
    pub closed spec fn documents(&self) -> Seq<Document> {
        self.docs@
    }

    /// The id the next document will get.
    pub closed spec fn next_id(&self) -> nat {
        self.next_id as nat
    }

    /// Documents are well formed, their ids increase and stay below the next
    /// id, and the cached totals are those of the documents.
    pub closed spec fn wf(&self) -> bool {
        &&& docs_fit(self.docs@)
        &&& forall|i: int, j: int|
            0 <= i < j < self.docs@.len() ==> self.docs@[i].id < self.docs@[j].id
        &&& forall|i: int| 0 <= i < self.docs@.len() ==> self.docs@[i].id < self.next_id
        &&& self.words == words_in(self.docs@)
        &&& self.bytes == bytes_in(self.docs@)
    }

    /// An empty store whose first document gets id 0.
    pub fn new() -> (r: DocumentStore)
        ensures
            r.wf(),
            r.documents().len() == 0,
            r.next_id() == 0,
    {
        DocumentStore { docs: Vec::new(), next_id: 0, words: 0, bytes: 0 }
    }

    /// The stored documents, for queries.
    pub fn docs(&self) -> (r: &[Document])
        requires
            self.wf(),
        ensures
            r@ == self.documents(),
            docs_fit(r@),
    {
        self.docs.as_slice()
    }

    /// The number of stored documents.
    pub fn len(&self) -> (r: usize)
        ensures
            r == self.documents().len(),
    {
        self.docs.len()
    }

    /// Places an indexed document in the store under the next id, unless the
    /// id counter or the totals would overflow.
    pub fn insert_prepared(&mut self, doc: PreparedDocument) -> (r: Result<DocId, StoreError>)
        requires
            old(self).wf(),
            doc.wf(),
        ensures
            final(self).wf(),
            tokens_of(doc.content@).len() <= usize::MAX,
            byte_size(doc.content@) <= usize::MAX,
            accepts(old(self).documents(), old(self).next_id(), doc.content@) ==> {
                &&& r == Ok::<DocId, StoreError>(old(self).next_id() as DocId)
                &&& final(self).next_id() == old(self).next_id() + 1
                &&& final(self).documents() == old(self).documents().push(
                    Document {
                        id: old(self).next_id() as DocId,
                        name: doc.name,
                        content: doc.content,
                        word_counts: doc.word_counts,
                    },
                )
            },
            !accepts(old(self).documents(), old(self).next_id(), doc.content@) ==> {
                &&& r == Err::<DocId, StoreError>(StoreError::CapacityExceeded)
                &&& final(self).documents() == old(self).documents()
                &&& final(self).next_id() == old(self).next_id()
            },
    {
        let w = doc.word_counts.total_words();
        let b = content_bytes(&doc.content);
        if self.next_id == usize::MAX || w > usize::MAX - self.words || b > usize::MAX
            - self.bytes {
            return Err(StoreError::CapacityExceeded);
        }
        let id = self.next_id;
        let ghost before = self.docs@;
        let PreparedDocument { name, content, word_counts } = doc;
        self.docs.push(Document { id, name, content, word_counts });
        self.next_id = id + 1;
        self.words = self.words + w;
        self.bytes = self.bytes + b;
        proof {
            assert(self.docs@.drop_last() =~= before);
            assert forall|i: int| 0 <= i < self.docs@.len() implies (#[trigger] self.docs@[i]).wf() by {
                if i < before.len() {
                    assert(self.docs@[i] == before[i]);
                }
            }
        }
        Ok(id)
    }

    /// Indexes `content` and stores it under `name` with the next id, unless
    /// the id counter or the totals would overflow.
    pub fn ingest(&mut self, name: String, content: String) -> (r: Result<DocId, StoreError>)
        requires
            old(self).wf(),
        ensures
            final(self).wf(),
            tokens_of(content@).len() <= usize::MAX,
            byte_size(content@) <= usize::MAX,
            accepts(old(self).documents(), old(self).next_id(), content@) ==> {
                &&& r == Ok::<DocId, StoreError>(old(self).next_id() as DocId)
                &&& final(self).next_id() == old(self).next_id() + 1
                &&& final(self).documents().len() == old(self).documents().len() + 1
                &&& final(self).documents().drop_last() == old(self).documents()
                &&& final(self).documents().last().id == old(self).next_id()
                &&& final(self).documents().last().name == name
                &&& final(self).documents().last().content == content
                &&& final(self).documents().last().wf()
            },
            !accepts(old(self).documents(), old(self).next_id(), content@) ==> {
                &&& r == Err::<DocId, StoreError>(StoreError::CapacityExceeded)
                &&& final(self).documents() == old(self).documents()
                &&& final(self).next_id() == old(self).next_id()
            },
    {
        let prepared = prepare_document(name, content);
        let r = self.insert_prepared(prepared);
        proof {
            if r is Ok {
                assert(self.docs@.drop_last() =~= old(self).docs@);
            }
        }
        r
    }

    /// Stores a batch of indexed documents in order under consecutive ids
    /// from the next id, and returns those ids; when the batch does not fit
    /// as a whole, stores none of it.
    pub fn insert_batch(&mut self, batch: Vec<PreparedDocument>) -> (r: Result<
        Vec<DocId>,
        StoreError,
    >)
        requires
            old(self).wf(),
            forall|i: int| 0 <= i < batch@.len() ==> (#[trigger] batch@[i]).wf(),
        ensures
            final(self).wf(),
            accepts_batch(old(self).documents(), old(self).next_id(), batch@) ==> {
                &&& r is Ok
                &&& r->Ok_0@ == consecutive_ids(old(self).next_id(), batch@.len())
                &&& final(self).documents() == old(self).documents() + stored(
                    batch@,
                    old(self).next_id(),
                )
                &&& final(self).next_id() == old(self).next_id() + batch@.len()
            },
            !accepts_batch(old(self).documents(), old(self).next_id(), batch@) ==> {
                &&& r == Err::<Vec<DocId>, StoreError>(StoreError::CapacityExceeded)
                &&& final(self).documents() == old(self).documents()
                &&& final(self).next_id() == old(self).next_id()
            },
    {
        let ghost orig = batch@;
        let ghost old_docs = self.docs@;
        let ghost first = self.next_id as nat;
        if batch.len() > usize::MAX - self.next_id {
            return Err(StoreError::CapacityExceeded);
        }
        let mut w: usize = self.words;
        let mut b: usize = self.bytes;
        proof {
            assert(old_docs + stored(orig.take(0), first) =~= old_docs);
        }
        for i in 0..batch.len()
            invariant
                self.wf(),
                self.docs@ == old_docs,
                self.next_id == first,
                batch@ == orig,
                forall|j: int| 0 <= j < orig.len() ==> (#[trigger] orig[j]).wf(),
                first + orig.len() <= usize::MAX,
                w == words_in(old_docs + stored(orig.take(i as int), first)),
                b == bytes_in(old_docs + stored(orig.take(i as int), first)),
        {
            let ghost prev = old_docs + stored(orig.take(i as int), first);
            let ghost next = old_docs + stored(orig.take(i + 1), first);
            let ghost all = old_docs + stored(orig, first);
            proof {
                assert(next.drop_last() =~= prev);
                assert(next.last() == stored(orig, first)[i as int]);
                assert(all.take(next.len() as int) =~= next);
                lemma_prefix_totals_le(all, next.len() as int);
                assert(orig[i as int].wf());
            }
            let wi = batch[i].word_counts.total_words();
            let bi = content_bytes(&batch[i].content);
            if wi > usize::MAX - w || bi > usize::MAX - b {
                return Err(StoreError::CapacityExceeded);
            }
            w = w + wi;
            b = b + bi;
        }
        proof {
            assert(orig.take(orig.len() as int) =~= orig);
        }
        let mut ids: Vec<DocId> = Vec::new();
        for d in it: batch
            invariant
                it.seq() == orig,
                forall|j: int| 0 <= j < orig.len() ==> (#[trigger] orig[j]).wf(),
                first + orig.len() <= usize::MAX,
                self.next_id == first + it.index(),
                self.docs@ == old_docs + stored(orig.take(it.index()), first),
                ids@ == consecutive_ids(first, it.index() as nat),
        {
            let id = self.next_id;
            let ghost k = it.index();
            let PreparedDocument { name, content, word_counts } = d;
            self.docs.push(Document { id, name, content, word_counts });
            ids.push(id);
            self.next_id = id + 1;
            proof {
                assert(stored(orig.take(k + 1), first) =~= stored(orig.take(k), first).push(
                    stored(orig, first)[k],
                ));
                assert(self.docs@ =~= old_docs + stored(orig.take(k + 1), first));
                assert(ids@ =~= consecutive_ids(first, (k + 1) as nat));
            }
        }
        self.words = w;
        self.bytes = b;
        proof {
            let all = old_docs + stored(orig, first);
            assert(orig.take(orig.len() as int) =~= orig);
            assert(self.docs@ == all);
            assert forall|i: int| 0 <= i < all.len() implies (#[trigger] all[i]).wf() by {
                if i >= old_docs.len() {
                    assert(orig[i - old_docs.len()].wf());
                }
            }
            assert forall|i: int, j: int| 0 <= i < j < all.len() implies all[i].id < all[j].id by {
                if j < old_docs.len() {
                } else if i < old_docs.len() {
                    assert(old_docs[i].id < first);
                } else {
                }
            }
        }
        Ok(ids)
    }

    /// Indexes a batch of `(name, content)` files (on a thread pool when
    /// there are at least two) and stores them in order under consecutive ids
    /// from the next id; when they do not fit as a whole, stores none.
    pub fn upload(&mut self, files: Vec<(String, String)>) -> (r: Result<Vec<DocId>, StoreError>)
        requires
            old(self).wf(),
        ensures
            final(self).wf(),
            accepts_files(old(self).documents(), old(self).next_id(), files@) ==> {
                &&& r is Ok
                &&& r->Ok_0@ == consecutive_ids(old(self).next_id(), files@.len())
                &&& final(self).next_id() == old(self).next_id() + files@.len()
                &&& final(self).documents().len() == old(self).documents().len() + files@.len()
                &&& final(self).documents().take(old(self).documents().len() as int) == old(
                    self,
                ).documents()
                &&& forall|i: int|
                    0 <= i < files@.len() ==> {
                        let d = #[trigger] final(self).documents()[old(self).documents().len() + i];
                        &&& d.id == old(self).next_id() + i
                        &&& d.name == files@[i].0
                        &&& d.content == files@[i].1
                        &&& d.wf()
                    }
            },
            !accepts_files(old(self).documents(), old(self).next_id(), files@) ==> {
                &&& r == Err::<Vec<DocId>, StoreError>(StoreError::CapacityExceeded)
                &&& final(self).documents() == old(self).documents()
                &&& final(self).next_id() == old(self).next_id()
            },
    {
        let ghost fs = files@;
        let batch = prepare_batch(files);
        let ghost bs = batch@;
        let ghost first = self.next_id as nat;
        proof {
            lemma_stored_totals(bs, fs, first);
            lemma_totals_concat(self.docs@, stored(bs, first));
        }
        let r = self.insert_batch(batch);
        proof {
            if r is Ok {
                let olds = old(self).docs@;
                assert(self.docs@.take(olds.len() as int) =~= olds);
                assert forall|i: int| 0 <= i < fs.len() implies {
                    let d = #[trigger] self.docs@[olds.len() + i];
                    &&& d.id == first + i
                    &&& d.name == fs[i].0
                    &&& d.content == fs[i].1
                    &&& d.wf()
                } by {
                    assert(self.docs@[olds.len() + i] == stored(bs, first)[i]);
                    assert(bs[i].wf());
                }
            }
        }
        r
    }

    /// Id and name of each document, in insertion order.
    pub fn list(&self) -> (r: Vec<DocumentInfo>)
        ensures
            r@.len() == self.documents().len(),
            forall|i: int|
                0 <= i < r@.len() ==> (#[trigger] r@[i]).id == self.documents()[i].id
                    && r@[i].name@ == self.documents()[i].name@,
    {
        let mut out: Vec<DocumentInfo> = Vec::new();
        for i in 0..self.docs.len()
            invariant
                out@.len() == i,
                forall|j: int|
                    0 <= j < i ==> (#[trigger] out@[j]).id == self.docs@[j].id && out@[j].name@
                        == self.docs@[j].name@,
        {
            out.push(DocumentInfo { id: self.docs[i].id, name: self.docs[i].name.clone() });
        }
        out
    }

    /// Where the document with id `id` stands, if anywhere.
    fn position_of(&self, id: DocId) -> (r: Option<usize>)
        requires
            self.wf(),
        ensures
            match r {
                Some(k) => k < self.docs@.len() && self.docs@[k as int].id == id
                    && doc_with_id(self.docs@, id) == Some(self.docs@[k as int]),
                None => doc_with_id(self.docs@, id) is None,
            },
    {
        let mut i: usize = 0;
        while i < self.docs.len()
            invariant
                self.wf(),
                i <= self.docs@.len(),
                forall|j: int| 0 <= j < i ==> self.docs@[j].id != id,
            decreases self.docs@.len() - i,
        {
            if self.docs[i].id == id {
                proof {
                    lemma_doc_with_id_at(self.docs@, i as int);
                }
                return Some(i);
            }
            i = i + 1;
        }
        proof {
            lemma_doc_with_id_absent(self.docs@, id);
        }
        None
    }

    /// The document with id `id`.
    pub fn get(&self, id: DocId) -> (r: Result<&Document, StoreError>)
        requires
            self.wf(),
        ensures
            match r {
                Ok(d) => doc_with_id(self.documents(), id) == Some(*d),
                Err(e) => doc_with_id(self.documents(), id) is None && e == StoreError::NotFound(
                    id,
                ),
            },
    {
        match self.position_of(id) {
            Some(k) => Ok(&self.docs[k]),
            None => Err(StoreError::NotFound(id)),
        }
    }

    /// Removes the document with id `id` and returns how many remain; fails
    /// with `NotFound` and leaves the store unchanged when there is none.
    pub fn delete_one(&mut self, id: DocId) -> (r: Result<usize, StoreError>)
        requires
            old(self).wf(),
        ensures
            final(self).wf(),
            final(self).next_id() == old(self).next_id(),
            doc_with_id(old(self).documents(), id) is None ==> {
                &&& r == Err::<usize, StoreError>(StoreError::NotFound(id))
                &&& final(self).documents() == old(self).documents()
            },
            doc_with_id(old(self).documents(), id) is Some ==> {
                &&& r == Ok::<usize, StoreError>(final(self).documents().len() as usize)
                &&& exists|k: int|
                    0 <= k < old(self).documents().len() && old(self).documents()[k].id == id
                        && final(self).documents() == old(self).documents().remove(k)
                &&& doc_with_id(final(self).documents(), id) is None
            },
    {
        match self.position_of(id) {
            None => Err(StoreError::NotFound(id)),
            Some(k) => {
                let ghost before = self.docs@;
                proof {
                    lemma_totals_remove(before, k as int);
                }
                let w = self.docs[k].word_counts.total_words();
                let b = content_bytes(&self.docs[k].content);
                self.docs.remove(k);
                self.words = self.words - w;
                self.bytes = self.bytes - b;
                proof {
                    assert(self.docs@ =~= before.remove(k as int));
                    assert forall|i: int| 0 <= i < self.docs@.len() implies (#[trigger] self.docs@[i]).wf() by {
                        if i < k {
                            assert(self.docs@[i] == before[i]);
                        } else {
                            assert(self.docs@[i] == before[i + 1]);
                        }
                    }
                    assert forall|i: int, j: int|
                        0 <= i < j < self.docs@.len() implies self.docs@[i].id
                        < self.docs@[j].id by {
                        let i2 = if i < k { i } else { i + 1 };
                        let j2 = if j < k { j } else { j + 1 };
                        assert(before[i2].id < before[j2].id);
                    }
                    assert forall|i: int| 0 <= i < self.docs@.len() implies self.docs@[i].id
                        != id by {
                        let i2 = if i < k { i } else { i + 1 };
                        if i2 < k {
                            assert(before[i2].id < before[k as int].id);
                        } else {
                            assert(before[k as int].id < before[i2].id);
                        }
                    }
                    lemma_doc_with_id_absent(self.docs@, id);
                }
                Ok(self.docs.len())
            },
        }
    }

    /// Removes every document and restarts ids at 0.
    pub fn delete_all(&mut self)
        ensures
            final(self).wf(),
            final(self).documents().len() == 0,
            final(self).next_id() == 0,
    {
        self.docs.clear();
        self.next_id = 0;
        self.words = 0;
        self.bytes = 0;
        proof {
            assert(self.docs@ =~= Seq::<Document>::empty());
        }
    }

    /// Document count, total words and total content bytes.
    pub fn stats(&self) -> (r: DocStats)
        requires
            self.wf(),
        ensures
            r == stats_of(self.documents()),
            r.total_documents == self.documents().len(),
            r.total_words == words_in(self.documents()),
            r.total_bytes == bytes_in(self.documents()),
    {
        calculate_doc_stats(self.docs.as_slice())
    }
}

proof fn lemma_doc_with_id_at(docs: Seq<Document>, k: int)
    requires
        0 <= k < docs.len(),
        forall|i: int, j: int| 0 <= i < j < docs.len() ==> docs[i].id < docs[j].id,
    ensures
        doc_with_id(docs, docs[k].id) == Some(docs[k]),
    decreases docs.len(),
{
    if k < docs.len() - 1 {
        assert(docs.last().id != docs[k].id) by {
            assert(docs[k].id < docs[docs.len() - 1].id);
        }
        lemma_doc_with_id_at(docs.drop_last(), k);
    }
}

proof fn lemma_doc_with_id_absent(docs: Seq<Document>, id: DocId)
    requires
        forall|j: int| 0 <= j < docs.len() ==> docs[j].id != id,
    ensures
        doc_with_id(docs, id) is None,
    decreases docs.len(),
{
    if docs.len() > 0 {
        assert(docs.last().id != id) by {
            assert(docs[docs.len() - 1].id != id);
        }
        lemma_doc_with_id_absent(docs.drop_last(), id);
    }
}

/// The totals of a stored batch are those of the files it was indexed from.
proof fn lemma_stored_totals(batch: Seq<PreparedDocument>, files: Seq<(String, String)>, first: nat)
    requires
        batch.len() == files.len(),
        forall|i: int|
            0 <= i < files.len() ==> (#[trigger] batch[i]).wf() && batch[i].content == files[i].1,
    ensures
        words_in(stored(batch, first)) == files_words(files),
        bytes_in(stored(batch, first)) == files_bytes(files),
    decreases batch.len(),
{
    if batch.len() > 0 {
        let n = batch.len() - 1;
        assert(stored(batch, first).drop_last() =~= stored(batch.drop_last(), first));
        assert(batch[n].wf());
        lemma_stored_totals(batch.drop_last(), files.drop_last(), first);
    }
}

/// After a batch is stored behind existing documents, looking up the id of
/// any of its documents finds that document, with its content.
pub proof fn lemma_get_after_upload(docs: Seq<Document>, added: Seq<Document>, i: int)
    requires
        0 <= i < added.len(),
        forall|a: int, b: int|
            0 <= a < b < (docs + added).len() ==> (docs + added)[a].id < (docs + added)[b].id,
    ensures
        doc_with_id(docs + added, added[i].id) == Some(added[i]),
        doc_with_id(docs + added, added[i].id).unwrap().content@ == added[i].content@,
{
    assert((docs + added)[docs.len() + i] == added[i]);
    lemma_doc_with_id_at(docs + added, docs.len() + i);
}

/// An emptied store, with its id counter reset, accepts any batch whose own
/// size, word and byte counts fit in `usize`, and gives it the ids 0, 1, ...
pub proof fn lemma_upload_after_clear(files: Seq<(String, String)>)
    requires
        files.len() <= usize::MAX,
        files_words(files) <= usize::MAX,
        files_bytes(files) <= usize::MAX,
    ensures
        accepts_files(Seq::<Document>::empty(), 0, files),
        forall|i: int| 0 <= i < files.len() ==> consecutive_ids(0, files.len())[i] == i,
{
}

/// After ingesting a document, looking up its id finds it, with the content
/// that was ingested.
pub proof fn lemma_get_after_ingest(docs: Seq<Document>, d: Document)
    ensures
        doc_with_id(docs.push(d), d.id) == Some(d),
        doc_with_id(docs.push(d), d.id).unwrap().content@ == d.content@,
{
    assert(docs.push(d).last() == d);
}

/// An emptied store, with its id counter reset, accepts any document whose
/// own word and byte counts fit in `usize` (as those of every stored string
/// do), and gives it id 0.
pub proof fn lemma_first_id_after_clear(content: Seq<char>)
    requires
        tokens_of(content).len() <= usize::MAX,
        byte_size(content) <= usize::MAX,
    ensures
        accepts(Seq::<Document>::empty(), 0, content),
{
}

/// Two statistics computed over the same documents, with nothing changed in
/// between, are equal.
pub proof fn lemma_stats_repeatable(docs: Seq<Document>, first: DocStats, second: DocStats)
    requires
        first == stats_of(docs),
        second == stats_of(docs),
    ensures
        first == second,
{
}

} // verus!
