use qmd::embed::{plan_chunks, start_progress, ChunkPlan, EmbedProgress};
use qmd::context::{find_context, ContextEntry};
use qmd::store::Store;
use qmd::sync::ScannedFile;

fn file(path: &str, content: &str) -> ScannedFile {
    ScannedFile { path: path.to_string(), content: Some(content.to_string()) }
}

#[test]
fn get_document_returns_live_body() {
    let mut s = Store::new();
    s.sync_collection("notes", &vec![file("a.md", "# A\nbody text")], "t1");
    let d = s.get_document("notes", "a.md").unwrap();
    assert_eq!(d.title, "A");
    assert_eq!(d.body, "# A\nbody text");
    assert_eq!(d.docid, Store::make_docid("notes", "a.md"));
    assert!(s.get_document("notes", "missing.md").is_none());
    s.deactivate_document("notes", "a.md");
    assert!(s.get_document("notes", "a.md").is_none());
}

#[test]
fn status_counts_documents_and_pending_embeddings() {
    let mut s = Store::new();
    s.sync_collection("notes", &vec![file("a.md", "# A\none"), file("b.md", "# B\ntwo")], "t1");
    s.sync_collection("other", &vec![file("c.md", "# C\nthree")], "t1");
    let st = s.get_status();
    assert_eq!(st.total_documents, 3);
    assert_eq!(st.needs_embedding, 3);
    assert!(!st.has_vector_index);
    s.ensure_vector_table(2).unwrap();
    s.insert_embedding(&Store::hash_content("# A\none"), 0, 0, vec![1, 2], "m", "t").unwrap();
    let st = s.get_status();
    assert_eq!(st.needs_embedding, 2);
    assert!(st.has_vector_index);
    let counts = s.collection_counts(&vec!["notes".to_string(), "other".to_string(), "none".to_string()]);
    assert_eq!(counts, vec![2, 1, 0]);
}

#[test]
fn maintenance_clears_derived_data() {
    let mut s = Store::new();
    s.sync_collection("notes", &vec![file("a.md", "# A\none")], "t1");
    s.ensure_vector_table(2).unwrap();
    let h = Store::hash_content("# A\none");
    s.insert_embedding(&h, 0, 0, vec![1, 2], "m", "t").unwrap();
    s.insert_embedding("gone", 0, 0, vec![3, 4], "m", "t").unwrap();
    assert_eq!(s.cleanup_orphaned_vectors(), 1);
    assert_eq!(s.embeddings.len(), 1);
    assert_eq!(s.clear_cache(), 0);
    assert_eq!(s.clear_embeddings(), 1);
    assert!(s.dimension.is_none());
    assert_eq!(s.ensure_vector_table(3), Ok(()));
}

#[test]
fn list_files_is_ordered_and_filtered() {
    let mut s = Store::new();
    let files = vec![
        file("z.md", "# Z\nlast"),
        file("guides/b.md", "# B\nb"),
        file("guides/a.md", "# A\na"),
    ];
    s.sync_collection("notes", &files, "t1");
    s.sync_collection("other", &vec![file("guides/c.md", "# C\nc")], "t1");
    let all = s.list_files("notes", None);
    let paths: Vec<&str> = all.iter().map(|f| f.path.as_str()).collect();
    assert_eq!(paths, vec!["guides/a.md", "guides/b.md", "z.md"]);
    assert_eq!(all[2].title, "Z");
    assert_eq!(all[2].size, "# Z\nlast".len());
    let guides = s.list_files("notes", Some("guides/"));
    assert_eq!(guides.len(), 2);
    s.deactivate_document("notes", "guides/a.md");
    assert_eq!(s.list_files("notes", Some("guides/")).len(), 1);
}

#[test]
fn references_resolve_by_docid_or_path() {
    let mut s = Store::new();
    s.sync_collection("notes", &vec![file("a/b.md", "# B\nb")], "t1");
    let docid = Store::make_docid("notes", "a/b.md");
    assert_eq!(s.resolve_document(&format!("#{docid}")), Some(("notes".to_string(), "a/b.md".to_string())));
    assert_eq!(s.resolve_document("notes/a/b.md"), Some(("notes".to_string(), "a/b.md".to_string())));
    assert_eq!(s.resolve_document("#ffffffff"), None);
    assert_eq!(s.resolve_document("nonsense"), None);
}

#[test]
fn pending_embeddings_lists_each_body_once() {
    let mut s = Store::new();
    s.sync_collection("notes", &vec![file("a.md", "same"), file("b.md", "same"), file("c.md", "other")], "t1");
    let pending = s.pending_embeddings();
    assert_eq!(pending.len(), 2);
    assert_eq!(pending[0].path, "a.md");
    assert_eq!(pending[1].hash, Store::hash_content("other"));
    s.ensure_vector_table(1).unwrap();
    s.insert_embedding(&Store::hash_content("same"), 0, 0, vec![1], "m", "t").unwrap();
    let pending = s.pending_embeddings();
    assert_eq!(pending.len(), 1);
    assert_eq!(pending[0].path, "c.md");
}

#[test]
fn context_is_found_by_nearest_prefix() {
    let entry = |c: &str, p: &str, t: &str| ContextEntry { collection: c.to_string(), path: p.to_string(), text: t.to_string() };
    let entries = vec![
        entry("notes", "", "all notes"),
        entry("notes", "work/", "work notes"),
        entry("notes", "work/2024/", "this year"),
        entry("other", "work/", "elsewhere"),
    ];
    assert_eq!(find_context(&entries, Some("global"), "notes", "work/2024/a.md"), Some("this year".to_string()));
    assert_eq!(find_context(&entries, Some("global"), "notes", "work/b.md"), Some("work notes".to_string()));
    assert_eq!(find_context(&entries, Some("global"), "notes", "home/c.md"), Some("all notes".to_string()));
    assert_eq!(find_context(&entries, Some("global"), "misc", "x.md"), Some("global".to_string()));
    assert_eq!(find_context(&entries, None, "misc", "x.md"), None);
    let dirs = vec![entry("c", "docs", "docs note"), entry("c", "docs/a.md", "file note")];
    assert_eq!(find_context(&dirs, None, "c", "docs2/x.md"), None);
    assert_eq!(find_context(&dirs, None, "c", "docs/x.md"), Some("docs note".to_string()));
    assert_eq!(find_context(&dirs, None, "c", "docs/a.md"), Some("file note".to_string()));
}

#[test]
fn removing_a_collection_deletes_its_rows_and_content() {
    let mut s = Store::new();
    s.sync_collection("notes", &vec![file("a.md", "shared"), file("b.md", "only notes")], "t1");
    s.sync_collection("other", &vec![file("c.md", "shared")], "t1");
    let (deleted, cleaned) = s.remove_collection_documents("notes");
    assert_eq!(deleted, 2);
    assert_eq!(cleaned, 1);
    assert_eq!(s.documents.len(), 1);
    assert_eq!(s.contents.len(), 1);
    assert!(s.find_active_document("other", "c.md").is_some());
}

#[test]
fn documents_match_by_glob_on_keys() {
    let mut s = Store::new();
    s.sync_collection("notes", &vec![file("a.md", "a"), file("sub/b.md", "b"), file("c.txt", "c")], "t1");
    s.deactivate_document("notes", "a.md");
    let keys = s.match_files_by_glob("notes/**/*.md").unwrap();
    assert_eq!(keys, vec![("notes".to_string(), "sub/b.md".to_string())]);
    assert!(s.match_files_by_glob("[").is_err());
    let picked = s.documents_selected(&vec![true, false, true]);
    assert_eq!(picked, vec![("notes".to_string(), "c.txt".to_string())]);
}

#[test]
fn embedding_batch_counts_failures_and_reports_mismatches() {
    let mut s = Store::new();
    s.sync_collection("notes", &vec![file("a.md", "# A\none")], "t1");
    let h = Store::hash_content("# A\none");
    let chunk = |seq: usize| ChunkPlan { hash: h.clone(), text: "# A\none".to_string(), seq, pos: 0, bytes: 10 };
    let p = start_progress();
    let p = s.apply_embedding(p, &chunk(0), Some(vec![1, 2, 3]), "m", "t").unwrap();
    assert_eq!(p, EmbedProgress { embedded: 1, errors: 0, bytes_done: 10 });
    assert_eq!(s.dimension, Some(3));
    let p = s.apply_embedding(p, &chunk(1), None, "m", "t").unwrap();
    assert_eq!(p, EmbedProgress { embedded: 1, errors: 1, bytes_done: 20 });
    assert_eq!(
        s.apply_embedding(p, &chunk(2), Some(vec![1, 2]), "m", "t"),
        Err(qmd::vectors::VectorError::DimensionMismatch { expected: 3, got: 2 })
    );
    assert_eq!(
        s.apply_embedding(p, &chunk(2), Some(vec![]), "m", "t"),
        Err(qmd::vectors::VectorError::UnsupportedDimension)
    );
    assert_eq!(s.embeddings.len(), 1);
    let p = s.apply_embedding(p, &chunk(3), Some(vec![4, 5, 6]), "m", "t").unwrap();
    assert_eq!(p.embedded, 2);
    assert_eq!(s.embeddings.len(), 2);
    assert_eq!(s.embeddings[0].seq, 0);
    assert_eq!(s.get_status().needs_embedding, 0);
}

#[test]
fn cache_keeps_one_value_per_key() {
    let mut s = Store::new();
    assert_eq!(s.cache_get("q"), None);
    s.cache_put("q", "first");
    s.cache_put("r", "other");
    s.cache_put("q", "second");
    assert_eq!(s.cache_get("q"), Some("second".to_string()));
    assert_eq!(s.cache_get("r"), Some("other".to_string()));
    assert_eq!(s.cache.len(), 2);
    assert_eq!(s.clear_cache(), 2);
    assert_eq!(s.cache_get("q"), None);
}

#[test]
fn renaming_moves_rows_and_their_docids() {
    let mut s = Store::new();
    s.sync_collection("old", &vec![file("a.md", "# A\na")], "t1");
    s.sync_collection("keep", &vec![file("b.md", "# B\nb")], "t1");
    assert_eq!(s.rename_collection_documents("old", "keep"), Err(qmd::maintenance::RenameError::NameTaken));
    assert_eq!(s.rename_collection_documents("old", "old"), Err(qmd::maintenance::RenameError::NameTaken));
    assert_eq!(s.rename_collection_documents("old", "new"), Ok(1));
    assert!(s.find_active_document("old", "a.md").is_none());
    assert!(s.find_active_document("new", "a.md").is_some());
    let docid = Store::make_docid("new", "a.md");
    assert_eq!(s.find_document_by_docid(&format!("#{docid}")), Some(("new".to_string(), "a.md".to_string())));
}

#[test]
fn chunk_plans_number_windows_or_fall_back() {
    assert!(plan_chunks("h", "", None, 200, 50).is_empty());
    let whole = plan_chunks("h", "héllo", None, 200, 50);
    assert_eq!(whole.len(), 1);
    assert_eq!(whole[0].seq, 0);
    assert_eq!(whole[0].text, "héllo");
    assert_eq!(whole[0].bytes, 6);
    let bounds = vec![0, 2, 4, 6];
    let plan = plan_chunks("h", "aébbcc", Some(&bounds), 2, 1);
    let seqs: Vec<usize> = plan.iter().map(|c| c.seq).collect();
    assert_eq!(seqs, vec![0, 1]);
    assert_eq!(plan[1].text, "bbcc");
    assert_eq!(plan[1].pos, 3);
    assert_eq!(plan[0].bytes, 5);
    // A bad overlap falls back to the whole body.
    let fallback = plan_chunks("h", "aébbcc", Some(&bounds), 2, 2);
    assert_eq!(fallback.len(), 1);
    assert_eq!(fallback[0].text, "aébbcc");
}
