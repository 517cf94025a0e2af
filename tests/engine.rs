use qmd::chunk::{chunk_document_by_tokens, whole_document_chunk, ChunkError};
use qmd::fusion::{hybrid_search_rrf, RankedDoc, RRF_K, RRF_SCALE};
use qmd::params::{add_line_numbers, default_limit, default_true, document_excerpt, GetParams};
use qmd::paths::{
    handelize, is_docid, is_virtual_path, parse_virtual_path, select_files, should_exclude,
    select_matching, split_collection_path, SelectError,
};
use qmd::query::{apply_rerank, expand_query_simple, route_queries, QueryType, Queryable};
use qmd::store::Store;
use qmd::sync::{FileKind, ScannedFile, SyncReport};
use qmd::text::extract_title;
use qmd::vectors::{cosine_similarity, similarity_ge, Similarity, VectorError};

fn file(path: &str, content: &str) -> ScannedFile {
    ScannedFile { path: path.to_string(), content: Some(content.to_string()) }
}

fn ranked(file: &str) -> RankedDoc {
    RankedDoc {
        file: file.to_string(),
        display_path: file.to_string(),
        title: file.to_string(),
        body: String::new(),
    }
}

#[test]
fn defaults_of_requests() {
    assert_eq!(default_limit(), 10);
    assert!(default_true());
    let p = GetParams::new("notes/a.md");
    assert_eq!(p.file, "notes/a.md");
    assert!(p.line_numbers);
    assert_eq!(p.from_line, None);
}

#[test]
fn line_numbers_count_from_start() {
    assert_eq!(add_line_numbers("alpha\nbeta\ngamma", 1), "1: alpha\n2: beta\n3: gamma");
    assert_eq!(add_line_numbers("x\r\ny\n", 9), "9: x\n10: y");
    assert_eq!(add_line_numbers("", 1), "");
}

#[test]
fn excerpt_selects_line_ranges() {
    let body = "l1\nl2\nl3\nl4\nl5";
    assert_eq!(document_excerpt(body, None, None, false), body);
    assert_eq!(document_excerpt(body, Some(2), Some(2), false), "l2\nl3");
    assert_eq!(document_excerpt(body, Some(2), Some(2), true), "2: l2\n3: l3");
    assert_eq!(document_excerpt(body, Some(4), None, true), "4: l4\n5: l5");
    assert_eq!(document_excerpt(body, Some(9), Some(3), false), "");
    assert_eq!(document_excerpt(body, Some(0), Some(1), false), "l1");
    assert_eq!(document_excerpt(body, None, Some(2), false), "l1\nl2");
    assert_eq!(document_excerpt(body, None, Some(2), true), "1: l1\n2: l2");
    assert_eq!(document_excerpt(body, None, Some(9), false), body);
}

#[test]
fn title_is_first_heading() {
    assert_eq!(extract_title("intro\n# Error Handling\n## Later"), "Error Handling");
    assert_eq!(extract_title("##   Async Await  \nbody"), "Async Await");
    assert_eq!(extract_title("no heading here"), "Untitled");
    assert_eq!(extract_title("#\n# Real"), "Real");
}

#[test]
fn hash_is_sha256_hex() {
    let h = Store::hash_content("hello world");
    assert_eq!(h, "b94d27b9934d3e08a52e52d7da7dabfac484efe37a5380ee9088f7ace2efcde9");
    assert_eq!(Store::hash_content("hello world"), h);
    assert_ne!(Store::hash_content("hello world!"), h);
}

#[test]
fn content_inserted_twice_is_stored_once() {
    let mut s = Store::new();
    let h = Store::hash_content("same text");
    s.insert_content(&h, "same text", "t1");
    s.insert_content(&h, "same text", "t2");
    assert_eq!(s.contents.len(), 1);
    assert_eq!(s.contents[0].created_at, "t1");
    assert_eq!(s.get_content(&h), Some("same text".to_string()));
}

#[test]
fn docid_depends_on_key_only() {
    let a = Store::make_docid("notes", "a.md");
    assert_eq!(a.len(), 8);
    assert!(is_docid(&format!("#{a}")));
    assert_eq!(Store::make_docid("notes", "a.md"), a);
    assert_ne!(Store::make_docid("notes", "b.md"), a);
}

#[test]
fn sync_indexes_then_is_idempotent() {
    let mut s = Store::new();
    let files = vec![file("a.md", "# A\nalpha"), file("b.md", "# B\nbeta")];
    let first = s.sync_collection("notes", &files, "t1");
    assert_eq!(first, SyncReport { indexed: 2, updated: 0, unchanged: 0, deactivated: 0, skipped: 0 });
    let second = s.sync_collection("notes", &files, "t2");
    assert_eq!(second, SyncReport { indexed: 0, updated: 0, unchanged: 2, deactivated: 0, skipped: 0 });
    assert_eq!(s.contents.len(), 2);
}

#[test]
fn sync_reconciles_removed_and_added_files() {
    let mut s = Store::new();
    s.sync_collection("notes", &vec![file("a.md", "# A\nalpha"), file("b.md", "# B\nbeta")], "t1");
    let b_docid = Store::make_docid("notes", "b.md");
    assert_eq!(s.find_document_by_docid(&format!("#{b_docid}")), Some(("notes".to_string(), "b.md".to_string())));
    let report = s.sync_collection("notes", &vec![file("a.md", "# A\nalpha"), file("c.md", "# C\ngamma")], "t2");
    assert_eq!(report, SyncReport { indexed: 1, updated: 0, unchanged: 1, deactivated: 1, skipped: 0 });
    assert!(s.find_active_document("notes", "b.md").is_none());
    assert!(s.find_active_document("notes", "c.md").is_some());
    // The row of b.md is kept, with its docid, but no longer resolves.
    assert!(s.documents.iter().any(|d| d.path == "b.md" && !d.active && d.docid == b_docid));
    assert_eq!(s.find_document_by_docid(&format!("#{b_docid}")), None);
    assert_eq!(s.get_active_document_paths("notes"), vec!["a.md".to_string(), "c.md".to_string()]);
}

#[test]
fn editing_keeps_docid_and_changes_hash() {
    let mut s = Store::new();
    s.sync_collection("notes", &vec![file("a.md", "# A\nold")], "t1");
    let (id1, hash1, _) = s.find_active_document("notes", "a.md").unwrap();
    let docid1 = s.documents[0].docid.clone();
    let report = s.sync_collection("notes", &vec![file("a.md", "# A\nnew")], "t2");
    assert_eq!(report, SyncReport { indexed: 0, updated: 1, unchanged: 0, deactivated: 0, skipped: 0 });
    let (id2, hash2, _) = s.find_active_document("notes", "a.md").unwrap();
    assert_eq!(id1, id2);
    assert_ne!(hash1, hash2);
    assert_eq!(hash2, Store::hash_content("# A\nnew"));
    assert_eq!(s.documents[0].docid, docid1);
    assert_eq!(s.documents[0].modified_at, "t2");
    assert_eq!(s.documents[0].created_at, "t1");
}

#[test]
fn unreadable_file_is_skipped_not_removed() {
    let mut s = Store::new();
    s.sync_collection("notes", &vec![file("a.md", "# A\nalpha")], "t1");
    let unreadable = vec![ScannedFile { path: "a.md".to_string(), content: None }];
    let report = s.sync_collection("notes", &unreadable, "t2");
    assert_eq!(report, SyncReport { indexed: 0, updated: 0, unchanged: 0, deactivated: 0, skipped: 1 });
    assert!(s.find_active_document("notes", "a.md").is_some());
}

#[test]
fn reactivation_keeps_the_row() {
    let mut s = Store::new();
    s.sync_collection("notes", &vec![file("a.md", "# A\none")], "t1");
    s.sync_collection("notes", &vec![], "t2");
    assert!(s.find_active_document("notes", "a.md").is_none());
    let report = s.sync_collection("notes", &vec![file("a.md", "# A\ntwo")], "t3");
    assert_eq!(report.indexed, 1);
    assert_eq!(s.documents.len(), 1);
    assert!(s.documents[0].active);
    assert_eq!(s.documents[0].modified_at, "t3");
}

#[test]
fn cleanup_removes_inactive_rows_and_orphans() {
    let mut s = Store::new();
    s.sync_collection("docs", &vec![file("e.md", "# Error Handling\nerrors"), file("a.md", "# Async Await\nfutures")], "t1");
    s.sync_collection("docs", &vec![], "t2");
    assert_eq!(s.cleanup_orphaned_content(), 0);
    assert_eq!(s.delete_inactive_documents(), 2);
    assert_eq!(s.cleanup_orphaned_content(), 2);
    assert_eq!(s.contents.len(), 0);
}

#[test]
fn paths_are_normalized() {
    assert_eq!(handelize("\\notes\\\\2024//a.md"), "notes/2024/a.md");
    assert_eq!(handelize("/a/b.md"), "a/b.md");
    assert_eq!(handelize("plain.md"), "plain.md");
}

#[test]
fn noise_paths_are_excluded() {
    assert!(should_exclude(".git/config"));
    assert!(should_exclude("docs/node_modules/x.md"));
    assert!(should_exclude("a/.hidden/b.md"));
    assert!(!should_exclude("docs/guide.md"));
}

#[test]
fn walk_is_filtered_by_glob() {
    let rels = vec![
        "a.md".to_string(),
        "b.txt".to_string(),
        ".git/c.md".to_string(),
        "sub/d.md".to_string(),
        "sub\\d.md".to_string(),
    ];
    let chosen = select_files("**/*.md", &rels).unwrap();
    let keys: Vec<&str> = chosen.iter().map(|f| f.path.as_str()).collect();
    assert_eq!(keys, vec!["a.md", "sub/d.md"]);
    assert!(matches!(select_files("[", &rels), Err(SelectError::InvalidPattern)));
}

#[test]
fn notations_are_parsed() {
    assert!(is_virtual_path("qmd://notes/a.md"));
    assert!(!is_virtual_path("notes/a.md"));
    assert_eq!(parse_virtual_path("qmd://notes/sub/a.md"), Some(("notes".to_string(), "sub/a.md".to_string())));
    assert_eq!(parse_virtual_path("qmd://notes"), Some(("notes".to_string(), String::new())));
    assert_eq!(parse_virtual_path("qmd:///a.md"), None);
    assert_eq!(split_collection_path("notes/sub/a.md"), Some(("notes".to_string(), "sub/a.md".to_string())));
    assert_eq!(split_collection_path("notes"), None);
    assert!(is_docid("#0a1b2c3d"));
    assert!(!is_docid("#0a1b2c3"));
    assert!(!is_docid("0a1b2c3d9"));
}

#[test]
fn fusion_favours_documents_in_both_lists() {
    // X at rank 1 lexically; Y only at rank 1 in vectors; Z at rank 2 in both.
    let lex = vec![ranked("X"), ranked("Z")];
    let vec_list = vec![ranked("Y"), ranked("Z")];
    let fused = hybrid_search_rrf(lex, vec_list, RRF_K);
    let order: Vec<&str> = fused.iter().map(|r| r.file.as_str()).collect();
    assert_eq!(order, vec!["Z", "X", "Y"]);
    let z = &fused[0];
    assert_eq!(z.score, 2 * (RRF_SCALE / 62));
    assert_eq!(fused[2].score, RRF_SCALE / 61);
    assert_eq!(z.best_rank, 2);
    // X and Y tie on score; both are first in their list.
    assert_eq!(fused[1].score, fused[2].score);
}

#[test]
fn fusion_sums_repeated_appearances() {
    let fused = hybrid_search_rrf(vec![ranked("A"), ranked("B"), ranked("A")], vec![], 0);
    assert_eq!(fused.len(), 2);
    assert_eq!(fused[0].file, "A");
    assert_eq!(fused[0].score, RRF_SCALE / 1 + RRF_SCALE / 3);
    assert_eq!(fused[1].score, RRF_SCALE / 2);
}

#[test]
fn chunks_of_450_tokens() {
    let text: String = (0..450).map(|_| "ab").collect();
    let bounds: Vec<usize> = (0..=450).map(|i| 2 * i).collect();
    let chunks = chunk_document_by_tokens(&text, &bounds, 200, 50).unwrap();
    assert_eq!(chunks.len(), 3);
    assert_eq!(chunks[0].tokens, 200);
    assert_eq!(chunks[1].pos, 300);
    assert_eq!(chunks[2].tokens, 150);
    assert!(chunks[2].tokens < 200);
    // Rejoin without overlaps.
    let mut rebuilt = String::new();
    let mut covered = 0usize;
    for c in &chunks {
        let skip = covered - c.char_pos;
        rebuilt.push_str(&c.text[skip..]);
        covered = c.char_pos + c.text.len();
    }
    assert_eq!(rebuilt, text);
}

#[test]
fn short_document_is_one_chunk() {
    let chunks = chunk_document_by_tokens("one two", &vec![0, 4, 7], 200, 50).unwrap();
    assert_eq!(chunks.len(), 1);
    assert_eq!(chunks[0].text, "one two");
    assert_eq!(chunks[0].tokens, 2);
}

#[test]
fn chunking_rejects_bad_input() {
    assert!(matches!(chunk_document_by_tokens("abc", &vec![0, 3], 50, 50), Err(ChunkError::OverlapTooLarge)));
    assert!(matches!(chunk_document_by_tokens("abc", &vec![0, 2], 50, 10), Err(ChunkError::InvalidBoundaries)));
    assert!(matches!(chunk_document_by_tokens("abc", &vec![0, 2, 2, 3], 50, 10), Err(ChunkError::InvalidBoundaries)));
    let whole = whole_document_chunk("abcdefgh");
    assert_eq!(whole.tokens, 2);
    assert_eq!(whole.text, "abcdefgh");
    let wide = whole_document_chunk("éééé");
    assert_eq!(wide.bytes, 8);
    assert_eq!(wide.tokens, 2);
    let split = chunk_document_by_tokens("éa", &vec![0, 1, 2], 1, 0).unwrap();
    assert_eq!(split[1].pos, 2);
    assert_eq!(split[1].char_pos, 1);
    assert_eq!(split[0].bytes, 2);
}

#[test]
fn cosine_is_exact() {
    let v: Vec<i8> = vec![3, -4, 12];
    let neg: Vec<i8> = vec![-3, 4, -12];
    let zero: Vec<i8> = vec![0, 0, 0];
    let same = cosine_similarity(&v, &v);
    assert_eq!(same, Similarity { dot: 169, norms: 169 * 169 });
    let opposite = cosine_similarity(&v, &neg);
    assert_eq!(opposite, Similarity { dot: -169, norms: 169 * 169 });
    let z = cosine_similarity(&zero, &v);
    assert_eq!(z.norms, 0);
    assert!(similarity_ge(same, z));
    assert!(similarity_ge(z, opposite));
    assert!(!similarity_ge(opposite, z));
    let half = Similarity { dot: 1, norms: 4 };
    let third = Similarity { dot: 1, norms: 9 };
    assert!(similarity_ge(half, third));
    assert!(!similarity_ge(third, half));
}

#[test]
fn dimension_is_guarded() {
    let mut s = Store::new();
    assert_eq!(s.insert_embedding("h", 0, 0, vec![1; 4], "m", "t"), Err(VectorError::NoVectorTable));
    assert_eq!(s.ensure_vector_table(768), Ok(()));
    assert_eq!(s.ensure_vector_table(768), Ok(()));
    assert_eq!(s.insert_embedding("h", 0, 0, vec![1; 768], "m", "t"), Ok(()));
    let before = s.embeddings.len();
    assert_eq!(
        s.insert_embedding("h", 1, 10, vec![1; 384], "m", "t"),
        Err(VectorError::DimensionMismatch { expected: 768, got: 384 })
    );
    assert_eq!(s.embeddings.len(), before);
    assert_eq!(s.ensure_vector_table(384), Err(VectorError::DimensionMismatch { expected: 768, got: 384 }));
    assert_eq!(s.insert_embedding("h", 0, 5, vec![2; 768], "m", "t2"), Ok(()));
    assert_eq!(s.embeddings.len(), 1);
    assert_eq!(s.embeddings[0].pos, 5);
}

#[test]
fn simple_expansion_and_routing() {
    let qs = expand_query_simple("error handling");
    assert_eq!(qs.len(), 2);
    assert_eq!(qs[0].query_type, QueryType::Lex);
    assert_eq!(qs[1].query_type, QueryType::Vec);
    let mut all = qs;
    all.push(Queryable { text: "answer".to_string(), query_type: QueryType::Hyde });
    let (lex, vecs) = route_queries(&all);
    assert_eq!(lex, vec!["error handling".to_string()]);
    assert_eq!(vecs, vec!["error handling".to_string(), "answer".to_string()]);
}

#[test]
fn rerank_reorders_and_drops() {
    let fused = hybrid_search_rrf(vec![ranked("A"), ranked("B"), ranked("C")], vec![], RRF_K);
    let order = vec!["C".to_string(), "missing".to_string(), "A".to_string()];
    let out = apply_rerank(&fused, &order);
    let files: Vec<&str> = out.iter().map(|r| r.file.as_str()).collect();
    assert_eq!(files, vec!["C", "A"]);
    assert_eq!(out[0].score, fused[2].score);
}

#[test]
fn reconcile_uses_the_given_hash() {
    let mut s = Store::new();
    let h1 = Store::hash_content("# A\nx");
    let h2 = Store::hash_content("# A\ny");
    assert_eq!(s.reconcile_file("notes", "a.md", "# A\nx", &h1, "t1"), FileKind::New);
    assert_eq!(s.contents.len(), 1);
    assert_eq!(s.contents[0].hash, h1);
    assert_eq!(s.reconcile_file("notes", "a.md", "# A\nx", &h1, "t2"), FileKind::Unchanged);
    assert_eq!(s.documents[0].modified_at, "t1");
    assert_eq!(s.reconcile_file("notes", "a.md", "# A\ny", &h2, "t3"), FileKind::Updated);
    let (_, hash, title) = s.find_active_document("notes", "a.md").unwrap();
    assert_eq!(hash, h2);
    assert_eq!(title, "A");
    assert_eq!(s.documents[0].modified_at, "t3");
    assert_eq!(s.contents.len(), 2);
}

#[test]
fn selection_follows_given_matches() {
    let rels = vec!["a.md".to_string(), ".git/b.md".to_string(), "c.txt".to_string(), "\\a.md".to_string()];
    let chosen = select_matching(&rels, &vec![true, true, false, true]);
    assert_eq!(chosen.len(), 1);
    assert_eq!(chosen[0].rel_path, "a.md");
    let chosen = select_matching(&rels, &vec![false, true, true, true]);
    let keys: Vec<&str> = chosen.iter().map(|f| f.path.as_str()).collect();
    assert_eq!(keys, vec!["c.txt", "a.md"]);
}

#[test]
fn line_suffix_is_split_off() {
    assert_eq!(qmd::params::split_line_suffix("notes/a.md:12"), ("notes/a.md".to_string(), Some(12)));
    assert_eq!(qmd::params::split_line_suffix("notes/a.md:+3"), ("notes/a.md".to_string(), Some(3)));
    assert_eq!(qmd::params::split_line_suffix("notes/a.md"), ("notes/a.md".to_string(), None));
    assert_eq!(qmd::params::split_line_suffix("a:b:x"), ("a:b:x".to_string(), None));
    assert_eq!(qmd::params::split_line_suffix("a.md:"), ("a.md:".to_string(), None));
    assert_eq!(qmd::params::split_line_suffix("a.md:99999999999999999999999"), ("a.md:99999999999999999999999".to_string(), None));
    assert_eq!(qmd::params::split_line_suffix("qmd://c/a.md:7"), ("qmd://c/a.md".to_string(), Some(7)));
}

#[test]
fn file_lists_are_trimmed_and_resolved() {
    let r = qmd::paths::resolve_file_list(" notes/a.md ,, qmd://c/b.md,bad,\tx/y\u{3000}");
    assert_eq!(
        r,
        vec![
            ("notes".to_string(), "a.md".to_string()),
            ("c".to_string(), "b.md".to_string()),
            ("x".to_string(), "y".to_string()),
        ]
    );
    assert!(qmd::paths::resolve_file_list("").is_empty());
}
