use qmd::lexical::SearchError;
use qmd::store::Store;
use qmd::sync::ScannedFile;

fn file(path: &str, content: &str) -> ScannedFile {
    ScannedFile { path: path.to_string(), content: Some(content.to_string()) }
}

fn two_documents() -> Store {
    let mut s = Store::new();
    let files = vec![
        file("errors.md", "# Error Handling\nHandle each error where it happens; error handling matters."),
        file("async.md", "# Async Await\nAn async task may fail with an error."),
    ];
    s.sync_collection("docs", &files, "t1");
    s
}

#[test]
fn end_to_end_search_then_cleanup() {
    let mut s = two_documents();
    let results = s.search_fts("error handling", 5, None).unwrap();
    assert_eq!(results.len(), 2);
    assert_eq!(results[0].doc.path, "errors.md");
    assert_eq!(results[0].doc.title, "Error Handling");
    assert_eq!(results[1].doc.path, "async.md");
    assert!(results[0].score > results[1].score);
    assert_eq!(results[0].doc.docid, Store::make_docid("docs", "errors.md"));

    s.deactivate_document("docs", "errors.md");
    s.deactivate_document("docs", "async.md");
    assert_eq!(s.search_fts("error handling", 5, None).unwrap().len(), 0);
    s.delete_inactive_documents();
    assert_eq!(s.cleanup_orphaned_content(), 2);
    assert_eq!(s.contents.len(), 0);
}

#[test]
fn search_is_case_insensitive_and_filtered() {
    let mut s = two_documents();
    s.sync_collection("other", &vec![file("x.md", "# ERROR\nerror error")], "t1");
    let all = s.search_fts("ERROR", 10, None).unwrap();
    assert_eq!(all.len(), 3);
    let only_docs = s.search_fts("error", 10, Some("docs")).unwrap();
    assert_eq!(only_docs.len(), 2);
    assert!(only_docs.iter().all(|r| r.doc.collection_name == "docs"));
    let none = s.search_fts("error", 10, Some("missing")).unwrap();
    assert!(none.is_empty());
}

#[test]
fn search_respects_limit_and_misses() {
    let s = two_documents();
    let one = s.search_fts("error", 1, None).unwrap();
    assert_eq!(one.len(), 1);
    assert_eq!(one[0].doc.path, "errors.md");
    assert!(s.search_fts("kubernetes", 5, None).unwrap().is_empty());
    assert!(s.search_fts("", 5, None).unwrap().is_empty());
    let _unused: Option<SearchError> = None;
}

#[test]
fn ties_go_to_shorter_documents_then_paths() {
    let mut s = Store::new();
    let files = vec![
        file("b.md", "# T\nsame"),
        file("a.md", "# T\nsame"),
        file("c.md", "# T\nsame words here"),
    ];
    s.sync_collection("docs", &files, "t1");
    let results = s.search_fts("same", 5, None).unwrap();
    let paths: Vec<&str> = results.iter().map(|r| r.doc.path.as_str()).collect();
    assert_eq!(paths[0], "a.md");
    assert_eq!(paths[1], "b.md");
}

fn embedded_store() -> Store {
    let mut s = Store::new();
    let files = vec![
        file("a.md", "# A\nalpha"),
        file("b.md", "# B\nbeta beta"),
        file("c.md", "# C\ngamma"),
    ];
    s.sync_collection("docs", &files, "t1");
    s.ensure_vector_table(2).unwrap();
    let ha = Store::hash_content("# A\nalpha");
    let hb = Store::hash_content("# B\nbeta beta");
    // a: one chunk pointing away from the query, one close to it.
    s.insert_embedding(&ha, 0, 0, vec![-10, 0], "m", "t").unwrap();
    s.insert_embedding(&ha, 1, 5, vec![10, 1], "m", "t").unwrap();
    // b: a single chunk exactly along the query.
    s.insert_embedding(&hb, 0, 0, vec![20, 0], "m", "t").unwrap();
    s
}

#[test]
fn vector_search_takes_best_chunk() {
    let s = embedded_store();
    let results = s.search_vec(&vec![1, 0], 10, None).unwrap();
    let paths: Vec<&str> = results.iter().map(|r| r.doc.path.as_str()).collect();
    // c has no embedding; b matches exactly; a by its best chunk.
    assert_eq!(paths, vec!["b.md", "a.md"]);
    assert_eq!(results[0].score.dot, 20);
    assert_eq!(results[0].score.norms, 400);
    assert_eq!(results[1].score.dot, 10);
    assert_eq!(results[1].score.norms, 101);
}

#[test]
fn vector_search_guards_dimension_and_limit() {
    let s = embedded_store();
    assert!(matches!(
        s.search_vec(&vec![1, 0, 0], 10, None),
        Err(qmd::vectors::VectorError::DimensionMismatch { expected: 2, got: 3 })
    ));
    assert_eq!(s.search_vec(&vec![1, 0], 1, None).unwrap().len(), 1);
    assert!(s.search_vec(&vec![1, 0], 10, Some("other")).unwrap().is_empty());
    let empty = Store::new();
    assert!(matches!(empty.search_vec(&vec![1], 1, None), Err(qmd::vectors::VectorError::NoVectorTable)));
}

#[test]
fn vector_search_skips_inactive_documents() {
    let mut s = embedded_store();
    s.deactivate_document("docs", "b.md");
    let results = s.search_vec(&vec![1, 0], 10, None).unwrap();
    assert_eq!(results.len(), 1);
    assert_eq!(results[0].doc.path, "a.md");
}

#[test]
fn bm25_score_is_exact() {
    let mut s = Store::new();
    s.sync_collection("docs", &vec![file("t.md", "# T\nsame")], "t1");
    let results = s.search_fts("same", 5, None).unwrap();
    assert_eq!(results.len(), 1);
    // idf = 1024 * 1 / 3 = 341; tf part = 1024 * 44 * 1 * 2 / (40 + 12 + 36) = 1024.
    assert_eq!(results[0].score, 341 * 1024);
    assert_eq!(results[0].doc.body_length, "# T\nsame".len());
}

#[test]
fn unsupported_dimensions_are_refused() {
    let mut s = Store::new();
    assert_eq!(s.ensure_vector_table(0), Err(qmd::vectors::VectorError::UnsupportedDimension));
    assert_eq!(s.ensure_vector_table(65537), Err(qmd::vectors::VectorError::UnsupportedDimension));
    assert!(s.dimension.is_none());
}

#[test]
fn threshold_drops_low_scores() {
    let s = two_documents();
    let all = s.search_fts("error handling", 5, None).unwrap();
    let cut = all[1].score + 1;
    let above = s.search_fts_above("error handling", 5, None, cut).unwrap();
    assert_eq!(above.len(), 1);
    assert_eq!(above[0].doc.path, "errors.md");
    assert!(s.search_fts_above("error handling", 5, None, u128::MAX).unwrap().is_empty());
}
