use text_search::{
    choose_mode, count_word_recursive, extract_snippets, find_docs_with_all_words, search_many,
    search_query,
    search_single_word, search_words, search_words_parallel, search_words_sequential,
    DocumentStore, ExecutionMode, WordResult,
};

fn store_of(files: &[(&str, &str)]) -> DocumentStore {
    let mut store = DocumentStore::new();
    for (name, content) in files.iter() {
        store.ingest(name.to_string(), content.to_string()).unwrap();
    }
    store
}

fn strings(v: &[&str]) -> Vec<String> {
    v.iter().map(|s| s.to_string()).collect()
}

type Flat = (String, usize, Vec<(usize, String, usize, Vec<String>)>);

fn flatten(results: &[WordResult]) -> Vec<Flat> {
    results
        .iter()
        .map(|r| {
            (
                r.word.clone(),
                r.total_count,
                r.per_doc
                    .iter()
                    .map(|p| (p.doc_id, p.doc_name.clone(), p.count, p.snippets.clone()))
                    .collect(),
            )
        })
        .collect()
}

#[test]
fn search_cat_in_one_document() {
    let store = store_of(&[("a.txt", "The cat sat. The cat ran.")]);
    let r = search_single_word(store.docs(), "cat");
    assert_eq!(r.word, "cat");
    assert_eq!(r.total_count, 2);
    assert_eq!(r.per_doc.len(), 1);
    assert_eq!(r.per_doc[0].doc_id, 0);
    assert_eq!(r.per_doc[0].doc_name, "a.txt");
    assert_eq!(r.per_doc[0].count, 2);
    assert_eq!(r.per_doc[0].snippets, strings(&["The cat sat", "The cat ran"]));
}

#[test]
fn search_normalizes_query_word() {
    let store = store_of(&[("a.txt", "Cats, CAT; cat!"), ("b.txt", "dog")]);
    let r = search_single_word(store.docs(), "  \"CAT\"");
    assert_eq!(r.word, "cat");
    assert_eq!(r.total_count, 2);
    assert_eq!(r.per_doc.len(), 1);
}

#[test]
fn search_absent_word() {
    let store = store_of(&[("a.txt", "apple banana"), ("b.txt", "banana cherry")]);
    let r = search_single_word(store.docs(), "zebra");
    assert_eq!(r.total_count, 0);
    assert!(r.per_doc.is_empty());
    let empty = DocumentStore::new();
    let r = search_single_word(empty.docs(), "apple");
    assert_eq!(r.total_count, 0);
    assert!(r.per_doc.is_empty());
}

#[test]
fn total_is_sum_of_per_doc_counts() {
    let store = store_of(&[
        ("a.txt", "x y x"),
        ("b.txt", "y"),
        ("c.txt", "x x x x"),
    ]);
    let r = search_single_word(store.docs(), "x");
    assert_eq!(r.total_count, 6);
    let sum: usize = r.per_doc.iter().map(|p| p.count).sum();
    assert_eq!(sum, r.total_count);
    let ids: Vec<usize> = r.per_doc.iter().map(|p| p.doc_id).collect();
    assert_eq!(ids, vec![0, 2]);
    assert_eq!(count_word_recursive(store.docs(), &"x".to_string(), 0, 0), 6);
    assert_eq!(count_word_recursive(store.docs(), &"x".to_string(), 1, 10), 14);
}

#[test]
fn sequential_and_parallel_agree() {
    let store = store_of(&[
        ("a.txt", "The cat sat. A dog barked! Why?"),
        ("b.txt", "dog dog cat. fish"),
        ("c.txt", "nothing here"),
    ]);
    let words = strings(&["cat", "DOG", "fish", "zebra", "cat"]);
    let seq = search_words_sequential(store.docs(), &words);
    let par = search_words_parallel(store.docs(), &words);
    assert_eq!(flatten(&seq), flatten(&par));
    assert_eq!(seq.len(), 5);
    assert_eq!(seq[1].word, "dog");
    assert_eq!(seq[1].total_count, 3);
    let by_mode = search_words(store.docs(), &words, ExecutionMode::Parallel);
    assert_eq!(flatten(&by_mode), flatten(&seq));
    let by_mode = search_words(store.docs(), &words, ExecutionMode::Sequential);
    assert_eq!(flatten(&by_mode), flatten(&seq));
}

#[test]
fn mode_policy() {
    assert_eq!(choose_mode(0), ExecutionMode::Sequential);
    assert_eq!(choose_mode(1), ExecutionMode::Sequential);
    assert_eq!(choose_mode(2), ExecutionMode::Parallel);
}

#[test]
fn docs_with_all_words() {
    let store = store_of(&[("a.txt", "apple banana"), ("b.txt", "banana cherry")]);
    let m = find_docs_with_all_words(store.docs(), &strings(&["banana"]));
    let got: Vec<(usize, String, usize)> =
        m.into_iter().map(|d| (d.doc_id, d.doc_name, d.matched_words)).collect();
    assert_eq!(got, vec![(0, "a.txt".to_string(), 1), (1, "b.txt".to_string(), 1)]);
    let m = find_docs_with_all_words(store.docs(), &strings(&["apple", "cherry"]));
    assert!(m.is_empty());
}

#[test]
fn docs_with_all_words_edge_cases() {
    let store = store_of(&[("a.txt", "apple banana"), ("b.txt", "banana cherry")]);
    assert!(find_docs_with_all_words(store.docs(), &[]).is_empty());
    let m = find_docs_with_all_words(store.docs(), &strings(&["Banana", "banana!", "apple"]));
    assert_eq!(m.len(), 1);
    assert_eq!(m[0].doc_id, 0);
    assert_eq!(m[0].matched_words, 2);
    assert!(find_docs_with_all_words(store.docs(), &strings(&["..."])).is_empty());
}

#[test]
fn snippets_are_limited_and_truncated() {
    let long = "word ".repeat(40);
    let content = format!("{}. word one! word two? word three. word four", long);
    let snippets = extract_snippets(&content, "Word", 3);
    assert_eq!(snippets.len(), 3);
    let first_expected: String = long.trim().chars().take(150).collect::<String>() + "...";
    assert_eq!(snippets[0], first_expected);
    assert_eq!(snippets[1], "word one");
    assert_eq!(snippets[2], "word two");
    assert!(extract_snippets(&content, "word", 0).is_empty());
    assert!(extract_snippets(&content, "absent", 3).is_empty());
}

#[test]
fn snippet_of_exactly_max_length_is_kept_whole() {
    let sentence = "b".repeat(148) + " a";
    assert_eq!(sentence.chars().count(), 150);
    let snippets = extract_snippets(&sentence, "A", 3);
    assert_eq!(snippets, vec![sentence.clone()]);
}

#[test]
fn recount_past_the_end_returns_acc() {
    let store = store_of(&[("a.txt", "x")]);
    assert_eq!(count_word_recursive(store.docs(), &"x".to_string(), 5, 7), 7);
    assert_eq!(count_word_recursive(store.docs(), &"x".to_string(), 1, 7), 7);
}

#[test]
fn search_many_cleans_words() {
    let store = store_of(&[("a.txt", "apple banana apple"), ("b.txt", "banana")]);
    let raw = strings(&[" apple ", "", "   ", "Banana"]);
    let r = search_many(store.docs(), &raw);
    assert_eq!(r.len(), 2);
    assert_eq!(r[0].word, "apple");
    assert_eq!(r[0].total_count, 2);
    assert_eq!(r[1].word, "banana");
    assert_eq!(r[1].total_count, 2);
    let q = search_query(store.docs(), "  apple\tbanana ");
    assert_eq!(flatten(&q), flatten(&r));
    assert!(search_query(store.docs(), "   ").is_empty());
}

#[test]
fn dotted_capital_i_lowercases_to_single_char() {
    let store = store_of(&[("a.txt", "İstanbul")]);
    let r = search_single_word(store.docs(), "istanbul");
    assert_eq!(r.total_count, 1);
}
