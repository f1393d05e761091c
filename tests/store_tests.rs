use text_search::{
    decode_payload, prepare_batch, prepare_extracted, DocStats, DocumentStore, IngestError,
    PayloadError, StoreError,
};

#[test]
fn empty_store_stats_are_zero() {
    let store = DocumentStore::new();
    assert_eq!(
        store.stats(),
        DocStats { total_documents: 0, total_words: 0, total_bytes: 0 }
    );
}

#[test]
fn stats_count_documents_words_and_bytes() {
    let mut store = DocumentStore::new();
    store.ingest("a.txt".to_string(), "apple banana".to_string()).unwrap();
    store.ingest("b.txt".to_string(), "héllo".to_string()).unwrap();
    let s = store.stats();
    assert_eq!(s.total_documents, 2);
    assert_eq!(s.total_words, 3);
    assert_eq!(s.total_bytes, 12 + 6);
}

#[test]
fn stats_twice_are_equal() {
    let mut store = DocumentStore::new();
    store.ingest("a.txt".to_string(), "one two three".to_string()).unwrap();
    let first = store.stats();
    let second = store.stats();
    assert_eq!(first, second);
}

#[test]
fn ingest_then_get_returns_content() {
    let mut store = DocumentStore::new();
    store.ingest("x.txt".to_string(), "first".to_string()).unwrap();
    let id = store.ingest("a.txt".to_string(), "Some text here.".to_string()).unwrap();
    assert_eq!(id, 1);
    let doc = store.get(id).unwrap();
    assert_eq!(doc.id, 1);
    assert_eq!(doc.name, "a.txt");
    assert_eq!(doc.content, "Some text here.");
    assert_eq!(doc.word_counts.get(&"text".to_string()), 1);
}

#[test]
fn get_missing_id_is_not_found() {
    let store = DocumentStore::new();
    assert!(matches!(store.get(3), Err(StoreError::NotFound(3))));
}

#[test]
fn delete_all_restarts_ids() {
    let mut store = DocumentStore::new();
    store.ingest("a".to_string(), "x".to_string()).unwrap();
    store.ingest("b".to_string(), "y".to_string()).unwrap();
    store.delete_all();
    assert_eq!(store.len(), 0);
    let id = store.ingest("c".to_string(), "z".to_string()).unwrap();
    assert_eq!(id, 0);
}

#[test]
fn delete_missing_id_leaves_store_unchanged() {
    let mut store = DocumentStore::new();
    store.ingest("a.txt".to_string(), "apple".to_string()).unwrap();
    assert_eq!(store.delete_one(999), Err(StoreError::NotFound(999)));
    assert_eq!(store.len(), 1);
}

#[test]
fn delete_one_removes_and_ids_are_not_reused() {
    let mut store = DocumentStore::new();
    store.ingest("a".to_string(), "x".to_string()).unwrap();
    store.ingest("b".to_string(), "y".to_string()).unwrap();
    assert_eq!(store.delete_one(0), Ok(1));
    assert!(store.get(0).is_err());
    let id = store.ingest("c".to_string(), "z".to_string()).unwrap();
    assert_eq!(id, 2);
    let listed: Vec<(usize, String)> = store.list().into_iter().map(|d| (d.id, d.name)).collect();
    assert_eq!(listed, vec![(1, "b".to_string()), (2, "c".to_string())]);
}

#[test]
fn batch_preparation_keeps_order() {
    let files = vec![
        ("a.txt".to_string(), "one two two".to_string()),
        ("b.txt".to_string(), "three".to_string()),
        ("c.txt".to_string(), "".to_string()),
    ];
    let prepared = prepare_batch(files);
    assert_eq!(prepared.len(), 3);
    assert_eq!(prepared[0].name, "a.txt");
    assert_eq!(prepared[0].word_counts.get(&"two".to_string()), 2);
    assert_eq!(prepared[1].name, "b.txt");
    assert_eq!(prepared[1].word_counts.total_words(), 1);
    assert_eq!(prepared[2].word_counts.total_words(), 0);
    let mut store = DocumentStore::new();
    let ids: Vec<usize> = prepared
        .into_iter()
        .map(|p| store.insert_prepared(p).unwrap())
        .collect();
    assert_eq!(ids, vec![0, 1, 2]);
}

#[test]
fn single_file_batch() {
    let prepared = prepare_batch(vec![("a".to_string(), "Hi hi".to_string())]);
    assert_eq!(prepared.len(), 1);
    assert_eq!(prepared[0].word_counts.get(&"hi".to_string()), 2);
}

#[test]
fn extracted_text_policy() {
    match prepare_extracted("a.pdf".to_string(), Err("bad pdf".to_string())) {
        Err(IngestError::ExtractionFailure(e)) => assert_eq!(e, "bad pdf"),
        _ => panic!("expected an extraction failure"),
    }
    assert!(matches!(
        prepare_extracted("b.pdf".to_string(), Ok("  \n ".to_string())),
        Err(IngestError::EmptyContent)
    ));
    match prepare_extracted("c.pdf".to_string(), Ok("Text here".to_string())) {
        Ok(p) => {
            assert_eq!(p.name, "c.pdf");
            assert_eq!(p.word_counts.get(&"here".to_string()), 1);
        }
        Err(_) => panic!("expected a prepared document"),
    }
}

#[test]
fn payload_decodes_base64() {
    assert_eq!(decode_payload("aGVsbG8=").unwrap(), b"hello".to_vec());
    assert_eq!(decode_payload("").unwrap(), Vec::<u8>::new());
    assert_eq!(decode_payload("not base64!"), Err(PayloadError::InvalidBase64));
}

#[test]
fn upload_assigns_consecutive_ids_in_order() {
    let mut store = DocumentStore::new();
    store.ingest("first".to_string(), "zero".to_string()).unwrap();
    let files = vec![
        ("a.txt".to_string(), "apple banana".to_string()),
        ("b.txt".to_string(), "banana cherry".to_string()),
        ("c.txt".to_string(), "".to_string()),
    ];
    let ids = store.upload(files).unwrap();
    assert_eq!(ids, vec![1, 2, 3]);
    assert_eq!(store.len(), 4);
    assert_eq!(store.get(2).unwrap().content, "banana cherry");
    assert_eq!(store.get(2).unwrap().name, "b.txt");
    assert_eq!(store.get(1).unwrap().word_counts.get(&"apple".to_string()), 1);
}

#[test]
fn upload_after_delete_all_starts_at_zero() {
    let mut store = DocumentStore::new();
    store.upload(vec![("x".to_string(), "x".to_string())]).unwrap();
    store.delete_all();
    let ids = store
        .upload(vec![
            ("a".to_string(), "one".to_string()),
            ("b".to_string(), "two".to_string()),
        ])
        .unwrap();
    assert_eq!(ids, vec![0, 1]);
    assert_eq!(store.get(1).unwrap().content, "two");
}

#[test]
fn insert_batch_of_prepared_documents() {
    let mut store = DocumentStore::new();
    let prepared = prepare_batch(vec![
        ("a".to_string(), "p q".to_string()),
        ("b".to_string(), "q".to_string()),
    ]);
    assert_eq!(store.insert_batch(prepared).unwrap(), vec![0, 1]);
    assert_eq!(store.insert_batch(Vec::new()).unwrap(), Vec::<usize>::new());
    assert_eq!(store.stats().total_words, 3);
}
