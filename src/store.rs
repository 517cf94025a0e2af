//! The content-addressed store and the document catalog.
//!
//! Bodies are kept once per distinct content hash; documents are keyed by
//! (collection, normalized path), carry a short docid derived from that key,
//! and are deactivated rather than deleted.
use vstd::prelude::*;
use crate::text::{chars_of, string_of};

verus! {

/// The SHA-256 digest of the UTF-8 encoding of `s`, in lower-case hex.
pub uninterp spec fn sha256_hex(s: Seq<char>) -> Seq<char>;

/// Relies on sha2's `Sha256::digest` over the UTF-8 bytes of `s`, printed with
/// generic-array's `LowerHex`: two hex digits for each of the 32 digest bytes.
#[verifier::external_body]
fn sha256_hex_of(s: &str) -> (r: String)
    ensures
        r@ == sha256_hex(s@),
        r@.len() == 64,
{
    format!("{:x}", <sha2::Sha256 as sha2::Digest>::digest(s.as_bytes()))
}

/// Number of hex digits of a docid.
pub const DOCID_LEN: usize = 8;

/// The catalog key of a document: `collection/path`.
pub open spec fn doc_key(collection: Seq<char>, path: Seq<char>) -> Seq<char> {
    collection + seq!['/'] + path
}

/// The docid of the document at (collection, path): the first hex digits of
/// the digest of its key. It does not depend on the document's content.
pub open spec fn docid_of(collection: Seq<char>, path: Seq<char>) -> Seq<char> {
    sha256_hex(doc_key(collection, path)).take(DOCID_LEN as int)
}

/// The key `collection/path` as a string.
pub fn string_of_key(collection: &str, path: &str) -> (r: String)
    ensures
        r@ == doc_key(collection@, path@),
{
    let mut key = chars_of(collection);
    key.push('/');
    let p = chars_of(path);
    let mut j: usize = 0;
    let ghost head = key@;
    while j < p.len()
        invariant
            j <= p@.len(),
            key@ == head + p@.take(j as int),
        decreases p@.len() - j,
    {
        key.push(p[j]);
        proof {
            assert(p@.take(j as int + 1) =~= p@.take(j as int).push(p@[j as int]));
        }
        j = j + 1;
    }
    proof {
        assert(p@.take(p@.len() as int) =~= p@);
        assert(key@ =~= doc_key(collection@, path@));
    }
    string_of(&key)
}

/// Whether two strings hold the same characters.
pub fn same_text(a: &str, b: &String) -> (r: bool)
    ensures
        r == (a@ == b@),
{
    let t = a.to_owned();
    t == *b
}

/// A stored body.
pub struct ContentRow {
    pub hash: String,
    pub body: String,
    pub created_at: String,
}

pub struct ContentView {
    pub hash: Seq<char>,
    pub body: Seq<char>,
    pub created_at: Seq<char>,
}

impl View for ContentRow {
    type V = ContentView;

    open spec fn view(&self) -> ContentView {
        ContentView { hash: self.hash@, body: self.body@, created_at: self.created_at@ }
    }
}

/// A catalog row.
pub struct DocumentRow {
    pub id: u64,
    pub collection: String,
    pub path: String,
    pub title: String,
    pub hash: String,
    pub docid: String,
    pub active: bool,
    pub created_at: String,
    pub modified_at: String,
}

pub struct DocView {
    pub id: u64,
    pub collection: Seq<char>,
    pub path: Seq<char>,
    pub title: Seq<char>,
    pub hash: Seq<char>,
    pub docid: Seq<char>,
    pub active: bool,
    pub created_at: Seq<char>,
    pub modified_at: Seq<char>,
}

impl View for DocumentRow {
    type V = DocView;

    open spec fn view(&self) -> DocView {
        DocView {
            id: self.id,
            collection: self.collection@,
            path: self.path@,
            title: self.title@,
            hash: self.hash@,
            docid: self.docid@,
            active: self.active,
            created_at: self.created_at@,
            modified_at: self.modified_at@,
        }
    }
}

/// One embedded chunk of a body.
pub struct EmbeddingRow {
    pub hash: String,
    pub seq: usize,
    pub pos: usize,
    pub vector: Vec<i8>,
    pub model: String,
    pub embedded_at: String,
}

/// What an embedding row holds, as plain values.
pub struct EmbeddingView {
    pub hash: Seq<char>,
    pub seq: usize,
    pub pos: usize,
    pub vector: Seq<i8>,
    pub model: Seq<char>,
    pub embedded_at: Seq<char>,
}

pub open spec fn emb_view(e: EmbeddingRow) -> EmbeddingView {
    EmbeddingView { hash: e.hash@, seq: e.seq, pos: e.pos, vector: e.vector@, model: e.model@, embedded_at: e.embedded_at@ }
}

pub open spec fn emb_views(embs: Seq<EmbeddingRow>) -> Seq<EmbeddingView> {
    embs.map_values(|e: EmbeddingRow| emb_view(e))
}

/// The embedding rows after storing `v`: it replaces the first row of the
/// same chunk (hash and sequence number), or is appended.
pub open spec fn put_embedding(rows: Seq<EmbeddingView>, v: EmbeddingView) -> Seq<EmbeddingView> {
    if exists|i: int| 0 <= i < rows.len() && rows[i].hash == v.hash && rows[i].seq == v.seq {
        rows.update(choose|i: int| 0 <= i < rows.len() && rows[i].hash == v.hash && rows[i].seq == v.seq
            && forall|j: int| 0 <= j < i ==> !(rows[j].hash == v.hash && rows[j].seq == v.seq), v)
    } else {
        rows.push(v)
    }
}

/// One entry of the disposable cache of derived results.
pub struct CacheEntry {
    pub key: String,
    pub value: String,
}

/// The whole index: content, catalog, embeddings and cache.
pub struct Store {
    pub contents: Vec<ContentRow>,
    pub documents: Vec<DocumentRow>,
    pub embeddings: Vec<EmbeddingRow>,
    pub dimension: Option<usize>,
    pub cache: Vec<CacheEntry>,
    pub next_id: u64,
}

pub open spec fn content_views(rows: Seq<ContentRow>) -> Seq<ContentView> {
    rows.map_values(|r: ContentRow| r@)
}

pub open spec fn doc_views(rows: Seq<DocumentRow>) -> Seq<DocView> {
    rows.map_values(|r: DocumentRow| r@)
}

/// Row `i` is the catalog row of (collection, path).
pub open spec fn is_row_of(docs: Seq<DocView>, i: int, collection: Seq<char>, path: Seq<char>) -> bool {
    0 <= i < docs.len() && docs[i].collection == collection && docs[i].path == path
}

/// Row `i` is the active document at (collection, path).
pub open spec fn is_active_row_of(docs: Seq<DocView>, i: int, collection: Seq<char>, path: Seq<char>) -> bool {
    is_row_of(docs, i, collection, path) && docs[i].active
}

/// Some document row, active or not, references `hash`.
pub open spec fn is_referenced(docs: Seq<DocView>, hash: Seq<char>) -> bool {
    exists|i: int| 0 <= i < docs.len() && #[trigger] docs[i].hash == hash
}

/// The body stored under `hash`, or nothing.
pub open spec fn body_of(rows: Seq<ContentView>, hash: Seq<char>) -> Seq<char> {
    if has_hash(rows, hash) {
        rows[choose|i: int| 0 <= i < rows.len() && #[trigger] rows[i].hash == hash].body
    } else {
        seq![]
    }
}

/// Number of content rows that hold `hash`.
pub open spec fn rows_with_hash(rows: Seq<ContentView>, hash: Seq<char>) -> nat
    decreases rows.len(),
{
    if rows.len() == 0 {
        0
    } else {
        rows_with_hash(rows.drop_last(), hash) + if rows.last().hash == hash { 1nat } else { 0nat }
    }
}

pub open spec fn has_hash(rows: Seq<ContentView>, hash: Seq<char>) -> bool {
    exists|i: int| 0 <= i < rows.len() && #[trigger] rows[i].hash == hash
}

/// The content rows after an idempotent insert of (hash, body, timestamp).
pub open spec fn put_content(rows: Seq<ContentView>, hash: Seq<char>, body: Seq<char>, at: Seq<char>) -> Seq<ContentView> {
    if has_hash(rows, hash) {
        rows
    } else {
        rows.push(ContentView { hash, body, created_at: at })
    }
}

/// No two cache entries share a key.
pub open spec fn cache_keys_unique(cache: Seq<CacheEntry>) -> bool {
    forall|i: int, j: int| 0 <= i < j < cache.len() ==> cache[i].key@ != cache[j].key@
}

/// Every body is stored under its own content hash.
pub open spec fn content_intact(rows: Seq<ContentView>) -> bool {
    forall|i: int| 0 <= i < rows.len() ==> #[trigger] rows[i].hash == sha256_hex(rows[i].body)
}

pub open spec fn hashes_unique(rows: Seq<ContentView>) -> bool {
    forall|i: int, j: int| 0 <= i < j < rows.len() ==> rows[i].hash != rows[j].hash
}

/// The paths of the active rows of `collection`, in row order.
pub open spec fn active_paths(docs: Seq<DocView>, collection: Seq<char>) -> Seq<Seq<char>>
    decreases docs.len(),
{
    if docs.len() == 0 {
        seq![]
    } else {
        let rest = active_paths(docs.drop_last(), collection);
        if docs.last().active && docs.last().collection == collection {
            rest.push(docs.last().path)
        } else {
            rest
        }
    }
}

/// The content rows that some document row still references, in order.
pub open spec fn referenced_content(rows: Seq<ContentView>, docs: Seq<DocView>) -> Seq<ContentView>
    decreases rows.len(),
{
    if rows.len() == 0 {
        seq![]
    } else {
        let rest = referenced_content(rows.drop_last(), docs);
        if is_referenced(docs, rows.last().hash) {
            rest.push(rows.last())
        } else {
            rest
        }
    }
}

/// A row that a deletion pass keeps: an active one when inactive rows go,
/// one of another collection when a collection goes.
pub open spec fn keeps_row(d: DocView, gone: Option<Seq<char>>) -> bool {
    match gone {
        None => d.active,
        Some(c) => d.collection != c,
    }
}

/// The rows a deletion pass keeps, in order.
pub open spec fn retained_rows(docs: Seq<DocView>, gone: Option<Seq<char>>) -> Seq<DocView>
    decreases docs.len(),
{
    if docs.len() == 0 {
        seq![]
    } else {
        let rest = retained_rows(docs.drop_last(), gone);
        if keeps_row(docs.last(), gone) {
            rest.push(docs.last())
        } else {
            rest
        }
    }
}

/// The active rows, in order.
pub open spec fn active_rows(docs: Seq<DocView>) -> Seq<DocView> {
    retained_rows(docs, None)
}

/// The identifier part of a docid reference: without its leading `#`.
pub open spec fn docid_ref(s: Seq<char>) -> Seq<char> {
    if s.len() > 0 && s[0] == '#' {
        s.skip(1)
    } else {
        s
    }
}

/// Row `i` is the first active row with this docid.
pub open spec fn is_first_active_with_docid(docs: Seq<DocView>, i: int, docid: Seq<char>) -> bool {
    &&& 0 <= i < docs.len()
    &&& docs[i].active
    &&& docs[i].docid == docid
    &&& forall|k: int| 0 <= k < i ==> !(docs[k].active && docs[k].docid == docid)
}

/// Each row kept by `referenced_content` is a row of `rows`, in the same order.
pub proof fn lemma_referenced_content_sub(rows: Seq<ContentView>, docs: Seq<DocView>)
    ensures
        forall|i: int| 0 <= i < referenced_content(rows, docs).len() ==> exists|j: int|
            0 <= j < rows.len() && #[trigger] referenced_content(rows, docs)[i] == rows[j],
        referenced_content(rows, docs).len() <= rows.len(),
        hashes_unique(rows) ==> hashes_unique(referenced_content(rows, docs)),
    decreases rows.len(),
{
    if rows.len() > 0 {
        lemma_referenced_content_sub(rows.drop_last(), docs);
        let rest = referenced_content(rows.drop_last(), docs);
        let out = referenced_content(rows, docs);
        assert forall|i: int| 0 <= i < out.len() implies exists|j: int|
            0 <= j < rows.len() && #[trigger] out[i] == rows[j] by {
            if i < rest.len() {
                let j = choose|j: int| 0 <= j < rows.drop_last().len() && rest[i] == rows.drop_last()[j];
                assert(out[i] == rows[j]);
            } else {
                assert(out[i] == rows[rows.len() - 1]);
            }
        }
        if hashes_unique(rows) {
            assert(hashes_unique(rows.drop_last()));
            if is_referenced(docs, rows.last().hash) {
                assert forall|a: int, b: int| 0 <= a < b < out.len() implies out[a].hash != out[b].hash by {
                    if b == out.len() - 1 {
                        let j = choose|j: int| 0 <= j < rows.drop_last().len() && rest[a] == rows.drop_last()[j];
                        assert(rows[j].hash != rows[rows.len() - 1].hash);
                    } else {
                        assert(out[a] == rest[a] && out[b] == rest[b]);
                    }
                }
            }
        }
    }
}

/// A stored hash that some document references survives the cleanup.
pub proof fn lemma_referenced_content_keeps(rows: Seq<ContentView>, docs: Seq<DocView>, hash: Seq<char>)
    requires
        has_hash(rows, hash),
        is_referenced(docs, hash),
    ensures
        has_hash(referenced_content(rows, docs), hash),
    decreases rows.len(),
{
    let out = referenced_content(rows, docs);
    if rows.last().hash == hash {
        assert(out[out.len() - 1].hash == hash);
    } else {
        let w = choose|w: int| 0 <= w < rows.len() && #[trigger] rows[w].hash == hash;
        assert(rows.drop_last()[w].hash == hash);
        lemma_referenced_content_keeps(rows.drop_last(), docs, hash);
        let rest = referenced_content(rows.drop_last(), docs);
        let x = choose|x: int| 0 <= x < rest.len() && #[trigger] rest[x].hash == hash;
        assert(out[x].hash == hash);
    }
}

/// Each row kept by `retained_rows` is a row of `docs`.
pub proof fn lemma_retained_rows_sub(docs: Seq<DocView>, gone: Option<Seq<char>>)
    ensures
        forall|i: int| 0 <= i < retained_rows(docs, gone).len() ==> exists|j: int|
            0 <= j < docs.len() && #[trigger] retained_rows(docs, gone)[i] == docs[j],
        retained_rows(docs, gone).len() <= docs.len(),
    decreases docs.len(),
{
    if docs.len() > 0 {
        lemma_retained_rows_sub(docs.drop_last(), gone);
        let rest = retained_rows(docs.drop_last(), gone);
        let out = retained_rows(docs, gone);
        assert forall|i: int| 0 <= i < out.len() implies exists|j: int|
            0 <= j < docs.len() && #[trigger] out[i] == docs[j] by {
            if i < rest.len() {
                let j = choose|j: int| 0 <= j < docs.drop_last().len() && rest[i] == docs.drop_last()[j];
                assert(out[i] == docs[j]);
            } else {
                assert(out[i] == docs[docs.len() - 1]);
            }
        }
    }
}

/// Two rows kept by `retained_rows` come from two rows of `docs` in the same order.
pub proof fn lemma_retained_rows_order(docs: Seq<DocView>, gone: Option<Seq<char>>, a: int, b: int)
    requires
        0 <= a < b < retained_rows(docs, gone).len(),
    ensures
        exists|x: int, y: int| 0 <= x < y < docs.len() && docs[x] == retained_rows(docs, gone)[a]
            && docs[y] == retained_rows(docs, gone)[b],
    decreases docs.len(),
{
    lemma_retained_rows_sub(docs, gone);
    let rest = retained_rows(docs.drop_last(), gone);
    lemma_retained_rows_sub(docs.drop_last(), gone);
    if b < rest.len() {
        lemma_retained_rows_order(docs.drop_last(), gone, a, b);
        let (x, y) = choose|x: int, y: int| 0 <= x < y < docs.drop_last().len()
            && docs.drop_last()[x] == rest[a] && docs.drop_last()[y] == rest[b];
        assert(docs[x] == retained_rows(docs, gone)[a] && docs[y] == retained_rows(docs, gone)[b]);
    } else {
        let x = choose|x: int| 0 <= x < docs.drop_last().len() && #[trigger] rest[a] == docs.drop_last()[x];
        assert(docs[x] == retained_rows(docs, gone)[a]);
        assert(docs[docs.len() - 1] == retained_rows(docs, gone)[b]);
    }
}

/// No two catalog rows share a (collection, path) key.
pub open spec fn keys_unique(docs: Seq<DocView>) -> bool {
    forall|i: int, j: int| 0 <= i < j < docs.len() ==>
        !(docs[i].collection == docs[j].collection && docs[i].path == docs[j].path)
}

/// The catalog row of (collection, path), active or not.
pub open spec fn row_for(docs: Seq<DocView>, collection: Seq<char>, path: Seq<char>) -> Option<DocView> {
    if exists|i: int| is_row_of(docs, i, collection, path) {
        Some(docs[choose|i: int| is_row_of(docs, i, collection, path)])
    } else {
        None
    }
}

/// The row as a deactivation leaves it.
pub open spec fn deactivated(r: Option<DocView>) -> Option<DocView> {
    match r {
        Some(d) => Some(DocView { active: false, ..d }),
        None => None,
    }
}

/// The active document at (collection, path), if any.
pub open spec fn active_row_for(docs: Seq<DocView>, collection: Seq<char>, path: Seq<char>) -> Option<DocView> {
    match row_for(docs, collection, path) {
        Some(d) => if d.active { Some(d) } else { None },
        None => None,
    }
}

pub proof fn lemma_row_for_index(docs: Seq<DocView>, i: int)
    requires
        keys_unique(docs),
        0 <= i < docs.len(),
    ensures
        row_for(docs, docs[i].collection, docs[i].path) == Some(docs[i]),
{
    let c = docs[i].collection;
    let p = docs[i].path;
    assert(is_row_of(docs, i, c, p));
    let k = choose|k: int| is_row_of(docs, k, c, p);
    if k < i {
        assert(!(docs[k].collection == docs[i].collection && docs[k].path == docs[i].path));
    }
    if k > i {
        assert(!(docs[i].collection == docs[k].collection && docs[i].path == docs[k].path));
    }
}

pub proof fn lemma_row_for_none(docs: Seq<DocView>, collection: Seq<char>, path: Seq<char>)
    requires
        forall|i: int| !is_row_of(docs, i, collection, path),
    ensures
        row_for(docs, collection, path) is None,
{
}

/// Replacing a row by one of the same key changes the row of that key alone.
pub proof fn lemma_row_for_update(docs: Seq<DocView>, i: int, v: DocView)
    requires
        keys_unique(docs),
        0 <= i < docs.len(),
        v.collection == docs[i].collection,
        v.path == docs[i].path,
    ensures
        keys_unique(docs.update(i, v)),
        forall|c: Seq<char>, p: Seq<char>| #[trigger] row_for(docs.update(i, v), c, p) ==
            if c == v.collection && p == v.path { Some(v) } else { row_for(docs, c, p) },
{
    let d2 = docs.update(i, v);
    assert forall|a: int, b: int| 0 <= a < b < d2.len() implies
        !(d2[a].collection == d2[b].collection && d2[a].path == d2[b].path) by {
        assert(!(docs[a].collection == docs[b].collection && docs[a].path == docs[b].path));
    }
    assert forall|c: Seq<char>, p: Seq<char>| #[trigger] row_for(d2, c, p) ==
        if c == v.collection && p == v.path { Some(v) } else { row_for(docs, c, p) } by {
        if c == v.collection && p == v.path {
            lemma_row_for_index(d2, i);
        } else {
            assert forall|k: int| is_row_of(d2, k, c, p) <==> is_row_of(docs, k, c, p) by {}
            if exists|k: int| is_row_of(docs, k, c, p) {
                let k = choose|k: int| is_row_of(docs, k, c, p);
                lemma_row_for_index(docs, k);
                lemma_row_for_index(d2, k);
            }
        }
    }
}

/// Appending a row of a new key adds the row of that key alone.
pub proof fn lemma_row_for_push(docs: Seq<DocView>, v: DocView)
    requires
        keys_unique(docs),
        forall|i: int| !is_row_of(docs, i, v.collection, v.path),
    ensures
        keys_unique(docs.push(v)),
        forall|c: Seq<char>, p: Seq<char>| #[trigger] row_for(docs.push(v), c, p) ==
            if c == v.collection && p == v.path { Some(v) } else { row_for(docs, c, p) },
{
    let d2 = docs.push(v);
    assert forall|a: int, b: int| 0 <= a < b < d2.len() implies
        !(d2[a].collection == d2[b].collection && d2[a].path == d2[b].path) by {
        if b == docs.len() {
            assert(!is_row_of(docs, a, v.collection, v.path));
        } else {
            assert(!(docs[a].collection == docs[b].collection && docs[a].path == docs[b].path));
        }
    }
    assert forall|c: Seq<char>, p: Seq<char>| #[trigger] row_for(d2, c, p) ==
        if c == v.collection && p == v.path { Some(v) } else { row_for(docs, c, p) } by {
        if c == v.collection && p == v.path {
            lemma_row_for_index(d2, docs.len() as int);
        } else {
            assert forall|k: int| is_row_of(d2, k, c, p) <==> is_row_of(docs, k, c, p) by {}
            if exists|k: int| is_row_of(docs, k, c, p) {
                let k = choose|k: int| is_row_of(docs, k, c, p);
                lemma_row_for_index(docs, k);
                lemma_row_for_index(d2, k);
            }
        }
    }
}

/// The active rows of a collection are listed by `active_paths`.
pub proof fn lemma_active_paths_lists(docs: Seq<DocView>, collection: Seq<char>, i: int)
    requires
        0 <= i < docs.len(),
        docs[i].active,
        docs[i].collection == collection,
    ensures
        active_paths(docs, collection).contains(docs[i].path),
    decreases docs.len(),
{
    if i < docs.len() - 1 {
        lemma_active_paths_lists(docs.drop_last(), collection, i);
        let rest = active_paths(docs.drop_last(), collection);
        let k = choose|k: int| 0 <= k < rest.len() && rest[k] == docs[i].path;
        assert(active_paths(docs, collection)[k] == docs[i].path);
    } else {
        let out = active_paths(docs, collection);
        assert(out[out.len() - 1] == docs[i].path);
    }
}

/// With unique hashes, a hash is held by at most one row, and by one exactly when it is stored.
pub proof fn lemma_rows_with_hash_unique(rows: Seq<ContentView>, hash: Seq<char>)
    requires
        hashes_unique(rows),
    ensures
        rows_with_hash(rows, hash) == if has_hash(rows, hash) { 1nat } else { 0nat },
    decreases rows.len(),
{
    if rows.len() > 0 {
        let init = rows.drop_last();
        assert(hashes_unique(init));
        lemma_rows_with_hash_unique(init, hash);
        if has_hash(init, hash) {
            let w = choose|w: int| 0 <= w < init.len() && #[trigger] init[w].hash == hash;
            assert(rows[w].hash == hash);
            assert(rows[w].hash != rows[rows.len() - 1].hash);
        } else if rows.last().hash == hash {
            assert(rows[rows.len() - 1].hash == hash);
        } else {
            assert forall|w: int| 0 <= w < rows.len() implies #[trigger] rows[w].hash != hash by {
                if w < init.len() {
                    assert(init[w] == rows[w]);
                }
            }
        }
    }
}

/// Content hashing is deterministic and storing is idempotent: the same text
/// always has the same hash, and storing a text twice (with any timestamps)
/// leaves exactly one row under its hash.
pub proof fn lemma_put_content_twice(rows: Seq<ContentView>, text: Seq<char>, first_at: Seq<char>, second_at: Seq<char>)
    requires
        hashes_unique(rows),
        content_intact(rows),
    ensures
        sha256_hex(text) == sha256_hex(text),
        rows_with_hash(put_content(put_content(rows, sha256_hex(text), text, first_at), sha256_hex(text), text, second_at),
            sha256_hex(text)) == 1,
        sha256_hex(body_of(put_content(put_content(rows, sha256_hex(text), text, first_at), sha256_hex(text), text, second_at),
            sha256_hex(text))) == sha256_hex(text),
        !has_hash(rows, sha256_hex(text)) ==> body_of(put_content(put_content(rows, sha256_hex(text), text, first_at),
            sha256_hex(text), text, second_at), sha256_hex(text)) == text,
{
    let h = sha256_hex(text);
    let once = put_content(rows, h, text, first_at);
    assert(has_hash(once, h)) by {
        if !has_hash(rows, h) {
            assert(once[rows.len() as int].hash == h);
        }
    }
    assert(hashes_unique(once)) by {
        if !has_hash(rows, h) {
            assert forall|i: int, j: int| 0 <= i < j < once.len() implies once[i].hash != once[j].hash by {
                if j == rows.len() {
                    assert(once[i] == rows[i]);
                }
            }
        }
    }
    let twice = put_content(once, h, text, second_at);
    assert(twice == once);
    lemma_rows_with_hash_unique(once, h);
    let w = choose|w: int| 0 <= w < once.len() && #[trigger] once[w].hash == h;
    if has_hash(rows, h) {
        assert(once == rows);
        assert(once[w].hash == sha256_hex(once[w].body));
    } else {
        let n = rows.len() as int;
        assert(once[n].hash == h);
        if w != n {
            assert(once[w] == rows[w]);
            assert(has_hash(rows, h));
        }
    }
}

impl Store {
    pub open spec fn docs(&self) -> Seq<DocView> {
        doc_views(self.documents@)
    }

    pub open spec fn content(&self) -> Seq<ContentView> {
        content_views(self.contents@)
    }

    /// The catalog holds one row per (collection, path), with distinct ids
    /// below `next_id` and the docid of its key; bodies are stored once per
    /// hash, under the hash of that body, and the body of every row is stored; every embedding has the
    /// table's dimension; cache keys are distinct.
    pub open spec fn wf(&self) -> bool {
        &&& hashes_unique(self.content())
        &&& content_intact(self.content())
        &&& keys_unique(self.docs())
        &&& forall|i: int, j: int| 0 <= i < j < self.docs().len() ==> self.docs()[i].id != self.docs()[j].id
        &&& forall|i: int| 0 <= i < self.docs().len() ==> #[trigger] self.docs()[i].id < self.next_id
        &&& forall|i: int| 0 <= i < self.docs().len() ==>
            #[trigger] self.docs()[i].docid == docid_of(self.docs()[i].collection, self.docs()[i].path)
        &&& forall|i: int| 0 <= i < self.docs().len() ==> has_hash(self.content(), #[trigger] self.docs()[i].hash)
        &&& self.vectors_wf()
        &&& cache_keys_unique(self.cache@)
    }

    pub open spec fn vectors_wf(&self) -> bool {
        match self.dimension {
            None => self.embeddings@.len() == 0,
            Some(d) => d <= 65536 && forall|i: int| 0 <= i < self.embeddings@.len() ==> #[trigger] self.embeddings@[i].vector@.len() == d,
        }
    }

    /// An empty index.
    pub fn new() -> (r: Store)
        ensures
            r.wf(),
            r.docs().len() == 0,
            r.content().len() == 0,
            r.embeddings@.len() == 0,
            r.dimension is None,
            r.cache@.len() == 0,
    {
        Store {
            contents: Vec::new(),
            documents: Vec::new(),
            embeddings: Vec::new(),
            dimension: None,
            cache: Vec::new(),
            next_id: 1,
        }
    }

    /// The content hash of a body.
    pub fn hash_content(content: &str) -> (r: String)
        ensures
            r@ == sha256_hex(content@),
            r@.len() == 64,
    {
        sha256_hex_of(content)
    }

    /// The docid of the document at (collection, path).
    pub fn make_docid(collection: &str, path: &str) -> (r: String)
        ensures
            r@ == docid_of(collection@, path@),
    {
        let key_text = string_of_key(collection, path);
        let digest = chars_of(sha256_hex_of(key_text.as_str()).as_str());
        let mut out: Vec<char> = Vec::new();
        let mut k: usize = 0;
        while k < DOCID_LEN
            invariant
                k <= DOCID_LEN,
                digest@.len() == 64,
                out@ == digest@.take(k as int),
            decreases DOCID_LEN - k,
        {
            out.push(digest[k]);
            proof {
                assert(digest@.take(k as int + 1) =~= digest@.take(k as int).push(digest@[k as int]));
            }
            k = k + 1;
        }
        string_of(&out)
    }

    /// Index of the content row holding `hash`.
    pub fn content_index(&self, hash: &str) -> (r: Option<usize>)
        ensures
            r matches Some(i) ==> i < self.content().len() && self.content()[i as int].hash == hash@,
            r is None ==> !has_hash(self.content(), hash@),
    {
        let mut i: usize = 0;
        while i < self.contents.len()
            invariant
                i <= self.content().len(),
                forall|k: int| 0 <= k < i ==> self.content()[k].hash != hash@,
            decreases self.contents@.len() - i,
        {
            if same_text(hash, &self.contents[i].hash) {
                return Some(i);
            }
            i = i + 1;
        }
        None
    }

    /// Stores a body under its hash; does nothing when the hash is already stored.
    pub fn insert_content(&mut self, hash: &str, body: &str, now: &str)
        requires
            old(self).wf(),
            hash@ == sha256_hex(body@),
        ensures
            final(self).wf(),
            final(self).content() == put_content(old(self).content(), hash@, body@, now@),
            has_hash(final(self).content(), hash@),
            final(self).docs() == old(self).docs(),
            final(self).next_id == old(self).next_id,
            final(self).embeddings@ == old(self).embeddings@,
            final(self).dimension == old(self).dimension,
    {
        match self.content_index(hash) {
            Some(i) => {
                proof {
                    assert(self.content()[i as int].hash == hash@);
                }
            },
            None => {
                let row = ContentRow { hash: hash.to_owned(), body: body.to_owned(), created_at: now.to_owned() };
                self.contents.push(row);
                proof {
                    assert(self.content() =~= put_content(old(self).content(), hash@, body@, now@));
                    assert(self.docs() =~= old(self).docs());
                    let c = self.content();
                    assert forall|i: int, j: int| 0 <= i < j < c.len() implies c[i].hash != c[j].hash by {
                        if j == c.len() - 1 {
                            assert(old(self).content()[i].hash == c[i].hash);
                        }
                    }
                    assert(c[c.len() - 1].hash == hash@);
                    assert forall|i: int| 0 <= i < c.len() implies #[trigger] c[i].hash == sha256_hex(c[i].body) by {
                        if i < c.len() - 1 { assert(c[i] == old(self).content()[i]); }
                    }
                    assert forall|i: int| 0 <= i < self.docs().len() implies has_hash(c, #[trigger] self.docs()[i].hash) by {
                        let h = self.docs()[i].hash;
                        assert(has_hash(old(self).content(), h));
                        let w = choose|w: int| 0 <= w < old(self).content().len() && #[trigger] old(self).content()[w].hash == h;
                        assert(c[w].hash == h);
                    }
                }
            },
        }
    }

    /// The body stored under `hash`.
    pub fn get_content(&self, hash: &str) -> (r: Option<String>)
        requires
            self.wf(),
        ensures
            r matches Some(b) ==> b@ == body_of(self.content(), hash@),
            r is None ==> body_of(self.content(), hash@) == Seq::<char>::empty(),
            r matches Some(b) ==> exists|i: int| 0 <= i < self.content().len() && self.content()[i].hash == hash@ && self.content()[i].body == b@,
            r is None ==> !has_hash(self.content(), hash@),
    {
        match self.content_index(hash) {
            Some(i) => {
                proof {
                    let c = self.content();
                    let k = choose|k: int| 0 <= k < c.len() && #[trigger] c[k].hash == hash@;
                    if k < i { assert(c[k].hash != c[i as int].hash); }
                    if k > i { assert(c[i as int].hash != c[k].hash); }
                }
                Some(self.contents[i].body.clone())
            },
            None => None,
        }
    }

    /// Index of the catalog row of (collection, path), active or not.
    pub fn row_index(&self, collection: &str, path: &str) -> (r: Option<usize>)
        ensures
            r matches Some(i) ==> is_row_of(self.docs(), i as int, collection@, path@),
            r is None ==> forall|i: int| !is_row_of(self.docs(), i, collection@, path@),
    {
        let mut i: usize = 0;
        while i < self.documents.len()
            invariant
                i <= self.docs().len(),
                forall|k: int| 0 <= k < i ==> !is_row_of(self.docs(), k, collection@, path@),
            decreases self.documents@.len() - i,
        {
            if same_text(collection, &self.documents[i].collection) && same_text(path, &self.documents[i].path) {
                return Some(i);
            }
            i = i + 1;
        }
        None
    }

    /// The active row of (collection, path), if any: its id, hash and title.
    pub fn find_active_document(&self, collection: &str, path: &str) -> (r: Option<(u64, String, String)>)
        requires
            self.wf(),
        ensures
            r matches Some((id, h, t)) ==> exists|i: int| #[trigger] is_active_row_of(self.docs(), i, collection@, path@)
                && self.docs()[i].id == id && self.docs()[i].hash == h@ && self.docs()[i].title == t@,
            r is None ==> forall|i: int| !#[trigger] is_active_row_of(self.docs(), i, collection@, path@),
    {
        match self.row_index(collection, path) {
            Some(i) => {
                if self.documents[i].active {
                    let d = &self.documents[i];
                    proof {
                        assert(is_active_row_of(self.docs(), i as int, collection@, path@));
                    }
                    Some((d.id, d.hash.clone(), d.title.clone()))
                } else {
                    proof {
                        assert forall|k: int| !#[trigger] is_active_row_of(self.docs(), k, collection@, path@) by {
                            if is_row_of(self.docs(), k, collection@, path@) && k != i {
                                if k < i { assert(!(self.docs()[k].collection == self.docs()[i as int].collection && self.docs()[k].path == self.docs()[i as int].path)); }
                                else { assert(!(self.docs()[i as int].collection == self.docs()[k].collection && self.docs()[i as int].path == self.docs()[k].path)); }
                            }
                        }
                    }
                    None
                }
            },
            None => None,
        }
    }

    /// Inserts the document at (collection, path) as active. Where a row for
    /// that key exists (an inactive one is reactivated), its id, docid and
    /// creation time are kept and its title, hash and modification time set.
    pub fn insert_document(&mut self, collection: &str, path: &str, title: &str, hash: &str, created_at: &str, modified_at: &str)
        requires
            old(self).wf(),
            old(self).next_id < u64::MAX,
            has_hash(old(self).content(), hash@),
        ensures
            final(self).wf(),
            final(self).content() == old(self).content(),
            final(self).embeddings@ == old(self).embeddings@,
            final(self).dimension == old(self).dimension,
            (exists|i: int| is_row_of(old(self).docs(), i, collection@, path@)) ==> exists|i: int|
                #[trigger] is_row_of(old(self).docs(), i, collection@, path@)
                && final(self).docs() == old(self).docs().update(i, DocView {
                    active: true, title: title@, hash: hash@, modified_at: modified_at@, ..old(self).docs()[i] })
                && final(self).next_id == old(self).next_id,
            (forall|i: int| !is_row_of(old(self).docs(), i, collection@, path@)) ==>
                final(self).docs() == old(self).docs().push(DocView {
                    id: old(self).next_id, collection: collection@, path: path@, title: title@, hash: hash@,
                    docid: docid_of(collection@, path@), active: true, created_at: created_at@, modified_at: modified_at@ })
                && final(self).next_id == old(self).next_id + 1,
    {
        match self.row_index(collection, path) {
            Some(i) => {
                let old_row = &self.documents[i];
                let row = DocumentRow {
                    id: old_row.id,
                    collection: old_row.collection.clone(),
                    path: old_row.path.clone(),
                    title: title.to_owned(),
                    hash: hash.to_owned(),
                    docid: old_row.docid.clone(),
                    active: true,
                    created_at: old_row.created_at.clone(),
                    modified_at: modified_at.to_owned(),
                };
                self.documents.set(i, row);
                proof {
                    assert(self.docs() =~= old(self).docs().update(i as int, DocView {
                        active: true, title: title@, hash: hash@, modified_at: modified_at@, ..old(self).docs()[i as int] }));
                    assert(is_row_of(old(self).docs(), i as int, collection@, path@));
                }
            },
            None => {
                let docid = Self::make_docid(collection, path);
                let row = DocumentRow {
                    id: self.next_id,
                    collection: collection.to_owned(),
                    path: path.to_owned(),
                    title: title.to_owned(),
                    hash: hash.to_owned(),
                    docid,
                    active: true,
                    created_at: created_at.to_owned(),
                    modified_at: modified_at.to_owned(),
                };
                self.documents.push(row);
                self.next_id = self.next_id + 1;
                proof {
                    assert(self.docs() =~= old(self).docs().push(DocView {
                        id: old(self).next_id, collection: collection@, path: path@, title: title@, hash: hash@,
                        docid: docid_of(collection@, path@), active: true, created_at: created_at@, modified_at: modified_at@ }));
                    let d = self.docs();
                    assert forall|a: int, b: int| 0 <= a < b < d.len() implies
                        !(d[a].collection == d[b].collection && d[a].path == d[b].path) by {
                        if b == d.len() - 1 {
                            assert(!is_row_of(old(self).docs(), a, collection@, path@));
                        } else {
                            assert(old(self).docs()[a] == d[a] && old(self).docs()[b] == d[b]);
                        }
                    }
                    assert forall|a: int, b: int| 0 <= a < b < d.len() implies d[a].id != d[b].id by {
                        assert(old(self).docs()[a] == d[a]);
                        if b < d.len() - 1 {
                            assert(old(self).docs()[b] == d[b]);
                        }
                    }
                    assert forall|a: int| 0 <= a < d.len() implies #[trigger] d[a].id < self.next_id by {
                        if a < d.len() - 1 {
                            assert(old(self).docs()[a] == d[a]);
                        }
                    }
                    assert forall|a: int| 0 <= a < d.len() implies
                        #[trigger] d[a].docid == docid_of(d[a].collection, d[a].path) by {
                        if a < d.len() - 1 {
                            assert(old(self).docs()[a] == d[a]);
                        }
                    }
                }
            },
        }
    }

    /// Sets the hash, title and modification time of the row with this id.
    pub fn update_document(&mut self, id: u64, title: &str, hash: &str, now: &str)
        requires
            old(self).wf(),
            has_hash(old(self).content(), hash@),
        ensures
            final(self).wf(),
            final(self).content() == old(self).content(),
            final(self).embeddings@ == old(self).embeddings@,
            final(self).dimension == old(self).dimension,
            final(self).next_id == old(self).next_id,
            (forall|i: int| 0 <= i < old(self).docs().len() ==> old(self).docs()[i].id != id) ==> final(self).docs() == old(self).docs(),
            forall|i: int| 0 <= i < old(self).docs().len() && old(self).docs()[i].id == id ==>
                final(self).docs() == old(self).docs().update(i, DocView {
                    title: title@, hash: hash@, modified_at: now@, ..old(self).docs()[i] }),
    {
        match self.id_index(id) {
            Some(i) => {
                let old_row = &self.documents[i];
                let row = DocumentRow {
                    id: old_row.id,
                    collection: old_row.collection.clone(),
                    path: old_row.path.clone(),
                    title: title.to_owned(),
                    hash: hash.to_owned(),
                    docid: old_row.docid.clone(),
                    active: old_row.active,
                    created_at: old_row.created_at.clone(),
                    modified_at: now.to_owned(),
                };
                self.documents.set(i, row);
                proof {
                    assert(self.docs() =~= old(self).docs().update(i as int, DocView {
                        title: title@, hash: hash@, modified_at: now@, ..old(self).docs()[i as int] }));
                    assert forall|k: int| 0 <= k < old(self).docs().len() && old(self).docs()[k].id == id implies k == i by {
                        if k < i { assert(old(self).docs()[k].id != old(self).docs()[i as int].id); }
                        if k > i { assert(old(self).docs()[i as int].id != old(self).docs()[k].id); }
                    }
                }
            },
            None => {},
        }
    }

    /// Sets the title and modification time of the row with this id.
    pub fn update_document_title(&mut self, id: u64, title: &str, now: &str)
        requires
            old(self).wf(),
        ensures
            final(self).wf(),
            final(self).content() == old(self).content(),
            final(self).embeddings@ == old(self).embeddings@,
            final(self).dimension == old(self).dimension,
            final(self).next_id == old(self).next_id,
            (forall|i: int| 0 <= i < old(self).docs().len() ==> old(self).docs()[i].id != id) ==> final(self).docs() == old(self).docs(),
            forall|i: int| 0 <= i < old(self).docs().len() && old(self).docs()[i].id == id ==>
                final(self).docs() == old(self).docs().update(i, DocView {
                    title: title@, modified_at: now@, ..old(self).docs()[i] }),
    {
        match self.id_index(id) {
            Some(i) => {
                let old_row = &self.documents[i];
                let row = DocumentRow {
                    id: old_row.id,
                    collection: old_row.collection.clone(),
                    path: old_row.path.clone(),
                    title: title.to_owned(),
                    hash: old_row.hash.clone(),
                    docid: old_row.docid.clone(),
                    active: old_row.active,
                    created_at: old_row.created_at.clone(),
                    modified_at: now.to_owned(),
                };
                self.documents.set(i, row);
                proof {
                    assert(self.docs() =~= old(self).docs().update(i as int, DocView {
                        title: title@, modified_at: now@, ..old(self).docs()[i as int] }));
                    assert forall|k: int| 0 <= k < old(self).docs().len() && old(self).docs()[k].id == id implies k == i by {
                        if k < i { assert(old(self).docs()[k].id != old(self).docs()[i as int].id); }
                        if k > i { assert(old(self).docs()[i as int].id != old(self).docs()[k].id); }
                    }
                }
            },
            None => {},
        }
    }

    /// Marks the row of (collection, path) inactive; the row is kept.
    pub fn deactivate_document(&mut self, collection: &str, path: &str)
        requires
            old(self).wf(),
        ensures
            final(self).wf(),
            final(self).content() == old(self).content(),
            final(self).embeddings@ == old(self).embeddings@,
            final(self).dimension == old(self).dimension,
            final(self).next_id == old(self).next_id,
            (forall|i: int| !is_row_of(old(self).docs(), i, collection@, path@)) ==> final(self).docs() == old(self).docs(),
            forall|i: int| #[trigger] is_row_of(old(self).docs(), i, collection@, path@) ==>
                final(self).docs() == old(self).docs().update(i, DocView { active: false, ..old(self).docs()[i] }),
            forall|c: Seq<char>, p: Seq<char>| #[trigger] row_for(final(self).docs(), c, p) ==
                if c == collection@ && p == path@ { deactivated(row_for(old(self).docs(), c, p)) } else { row_for(old(self).docs(), c, p) },
    {
        match self.row_index(collection, path) {
            Some(i) => {
                let old_row = &self.documents[i];
                let row = DocumentRow {
                    id: old_row.id,
                    collection: old_row.collection.clone(),
                    path: old_row.path.clone(),
                    title: old_row.title.clone(),
                    hash: old_row.hash.clone(),
                    docid: old_row.docid.clone(),
                    active: false,
                    created_at: old_row.created_at.clone(),
                    modified_at: old_row.modified_at.clone(),
                };
                self.documents.set(i, row);
                proof {
                    assert(self.docs() =~= old(self).docs().update(i as int, DocView { active: false, ..old(self).docs()[i as int] }));
                    lemma_row_for_update(old(self).docs(), i as int, DocView { active: false, ..old(self).docs()[i as int] });
                    lemma_row_for_index(old(self).docs(), i as int);
                    assert forall|k: int| #[trigger] is_row_of(old(self).docs(), k, collection@, path@) implies k == i by {
                        if k < i { assert(!(old(self).docs()[k].collection == old(self).docs()[i as int].collection && old(self).docs()[k].path == old(self).docs()[i as int].path)); }
                        if k > i { assert(!(old(self).docs()[i as int].collection == old(self).docs()[k].collection && old(self).docs()[i as int].path == old(self).docs()[k].path)); }
                    }
                }
            },
            None => {
                proof {
                    lemma_row_for_none(old(self).docs(), collection@, path@);
                }
            },
        }
    }

    /// The paths of the active documents of `collection`, in catalog order.
    pub fn get_active_document_paths(&self, collection: &str) -> (r: Vec<String>)
        ensures
            r@.map_values(|p: String| p@) == active_paths(self.docs(), collection@),
    {
        let mut out: Vec<String> = Vec::new();
        let mut i: usize = 0;
        while i < self.documents.len()
            invariant
                i <= self.docs().len(),
                out@.map_values(|p: String| p@) == active_paths(self.docs().take(i as int), collection@),
            decreases self.documents@.len() - i,
        {
            proof {
                assert(self.docs().take(i as int + 1).drop_last() =~= self.docs().take(i as int));
            }
            if self.documents[i].active && same_text(collection, &self.documents[i].collection) {
                out.push(self.documents[i].path.clone());
                proof {
                    assert(out@.map_values(|p: String| p@) =~= active_paths(self.docs().take(i as int + 1), collection@));
                }
            }
            i = i + 1;
        }
        proof {
            assert(self.docs().take(self.docs().len() as int) =~= self.docs());
        }
        out
    }

    /// Resolves a docid (`#abcd1234` or `abcd1234`) to the (collection, path)
    /// of the first active document that has it; inactive documents do not resolve.
    pub fn find_document_by_docid(&self, docid: &str) -> (r: Option<(String, String)>)
        ensures
            r matches Some((c, p)) ==> exists|i: int| #[trigger] is_first_active_with_docid(self.docs(), i, docid_ref(docid@))
                && self.docs()[i].collection == c@ && self.docs()[i].path == p@,
            r is None ==> forall|i: int| 0 <= i < self.docs().len() ==>
                !(#[trigger] self.docs()[i].active && self.docs()[i].docid == docid_ref(docid@)),
    {
        let chars = chars_of(docid);
        let mut want: Vec<char> = Vec::new();
        let start: usize = if chars.len() > 0 && chars[0] == '#' { 1 } else { 0 };
        let mut j: usize = start;
        while j < chars.len()
            invariant
                start <= j <= chars@.len(),
                want@ == chars@.subrange(start as int, j as int),
            decreases chars@.len() - j,
        {
            want.push(chars[j]);
            proof {
                assert(chars@.subrange(start as int, j as int + 1) =~= chars@.subrange(start as int, j as int).push(chars@[j as int]));
            }
            j = j + 1;
        }
        proof {
            assert(want@ =~= docid_ref(docid@));
        }
        let want_text = string_of(&want);
        let mut i: usize = 0;
        while i < self.documents.len()
            invariant
                i <= self.docs().len(),
                want_text@ == docid_ref(docid@),
                forall|k: int| 0 <= k < i ==> !(self.docs()[k].active && self.docs()[k].docid == want_text@),
            decreases self.documents@.len() - i,
        {
            if self.documents[i].active && self.documents[i].docid == want_text {
                proof {
                    assert(is_first_active_with_docid(self.docs(), i as int, docid_ref(docid@)));
                }
                return Some((self.documents[i].collection.clone(), self.documents[i].path.clone()));
            }
            i = i + 1;
        }
        None
    }

    /// Whether some document row, active or not, references `hash`.
    pub fn is_hash_referenced(&self, hash: &String) -> (r: bool)
        ensures
            r == is_referenced(self.docs(), hash@),
    {
        let mut i: usize = 0;
        while i < self.documents.len()
            invariant
                i <= self.docs().len(),
                forall|k: int| 0 <= k < i ==> self.docs()[k].hash != hash@,
            decreases self.documents@.len() - i,
        {
            if self.documents[i].hash == *hash {
                proof {
                    assert(self.docs()[i as int].hash == hash@);
                }
                return true;
            }
            i = i + 1;
        }
        false
    }

    /// Deletes the content rows that no document row references, and returns
    /// how many were deleted.
    pub fn cleanup_orphaned_content(&mut self) -> (r: usize)
        requires
            old(self).wf(),
        ensures
            final(self).wf(),
            final(self).content() == referenced_content(old(self).content(), old(self).docs()),
            r == old(self).content().len() - final(self).content().len(),
            final(self).docs() == old(self).docs(),
            final(self).next_id == old(self).next_id,
            final(self).embeddings@ == old(self).embeddings@,
            final(self).dimension == old(self).dimension,
    {
        let mut kept: Vec<ContentRow> = Vec::new();
        let mut i: usize = 0;
        while i < self.contents.len()
            invariant
                self.wf(),
                self.docs() == old(self).docs(),
                self.content() == old(self).content(),
                self.next_id == old(self).next_id,
                self.embeddings@ == old(self).embeddings@,
                self.dimension == old(self).dimension,
                i <= self.content().len(),
                content_views(kept@) == referenced_content(self.content().take(i as int), self.docs()),
                kept@.len() <= i,
            decreases self.contents@.len() - i,
        {
            proof {
                assert(self.content().take(i as int + 1).drop_last() =~= self.content().take(i as int));
            }
            if self.is_hash_referenced(&self.contents[i].hash) {
                let r = &self.contents[i];
                kept.push(ContentRow { hash: r.hash.clone(), body: r.body.clone(), created_at: r.created_at.clone() });
                proof {
                    assert(content_views(kept@) =~= referenced_content(self.content().take(i as int + 1), self.docs()));
                }
            }
            i = i + 1;
        }
        proof {
            assert(self.content().take(self.content().len() as int) =~= self.content());
            lemma_referenced_content_sub(old(self).content(), old(self).docs());
        }
        let removed = self.contents.len() - kept.len();
        self.contents = kept;
        proof {
            assert forall|i: int| 0 <= i < self.docs().len() implies has_hash(self.content(), #[trigger] self.docs()[i].hash) by {
                let h = self.docs()[i].hash;
                assert(is_referenced(old(self).docs(), h));
                lemma_referenced_content_keeps(old(self).content(), old(self).docs(), h);
            }
            let c = self.content();
            assert forall|i: int| 0 <= i < c.len() implies #[trigger] c[i].hash == sha256_hex(c[i].body) by {
                let j = choose|j: int| 0 <= j < old(self).content().len() && #[trigger] c[i] == old(self).content()[j];
                assert(old(self).content()[j].hash == sha256_hex(old(self).content()[j].body));
            }
        }
        removed
    }

    /// Deletes the catalog rows that `keeps_row` does not keep, and returns
    /// how many were deleted.
    fn delete_rows(&mut self, gone: Option<&str>) -> (r: usize)
        requires
            old(self).wf(),
        ensures
            final(self).wf(),
            final(self).docs() == retained_rows(old(self).docs(), match gone { Some(c) => Some(c@), None => None }),
            r == old(self).docs().len() - final(self).docs().len(),
            final(self).content() == old(self).content(),
            final(self).next_id == old(self).next_id,
            final(self).embeddings@ == old(self).embeddings@,
            final(self).dimension == old(self).dimension,
    {
        let ghost g: Option<Seq<char>> = match gone { Some(c) => Some(c@), None => None };
        let mut kept: Vec<DocumentRow> = Vec::new();
        let mut i: usize = 0;
        while i < self.documents.len()
            invariant
                self.wf(),
                self.docs() == old(self).docs(),
                self.content() == old(self).content(),
                self.next_id == old(self).next_id,
                self.embeddings@ == old(self).embeddings@,
                self.dimension == old(self).dimension,
                i <= self.docs().len(),
                g == (match gone { Some(c) => Some(c@), None => None::<Seq<char>> }),
                doc_views(kept@) == retained_rows(self.docs().take(i as int), g),
                kept@.len() <= i,
            decreases self.documents@.len() - i,
        {
            proof {
                assert(self.docs().take(i as int + 1).drop_last() =~= self.docs().take(i as int));
            }
            let keep = match gone {
                None => self.documents[i].active,
                Some(c) => !same_text(c, &self.documents[i].collection),
            };
            if keep {
                let d = &self.documents[i];
                kept.push(DocumentRow {
                    id: d.id,
                    collection: d.collection.clone(),
                    path: d.path.clone(),
                    title: d.title.clone(),
                    hash: d.hash.clone(),
                    docid: d.docid.clone(),
                    active: d.active,
                    created_at: d.created_at.clone(),
                    modified_at: d.modified_at.clone(),
                });
                proof {
                    assert(doc_views(kept@) =~= retained_rows(self.docs().take(i as int + 1), g));
                }
            }
            i = i + 1;
        }
        proof {
            assert(self.docs().take(self.docs().len() as int) =~= self.docs());
            lemma_retained_rows_sub(old(self).docs(), g);
        }
        let removed = self.documents.len() - kept.len();
        self.documents = kept;
        proof {
            let d = self.docs();
            let o = old(self).docs();
            assert forall|a: int, b: int| 0 <= a < b < d.len() implies
                !(d[a].collection == d[b].collection && d[a].path == d[b].path) && d[a].id != d[b].id by {
                lemma_retained_rows_order(o, g, a, b);
            }
            assert forall|a: int| 0 <= a < d.len() implies #[trigger] d[a].id < self.next_id
                && d[a].docid == docid_of(d[a].collection, d[a].path) && has_hash(self.content(), d[a].hash) by {
                let j = choose|j: int| 0 <= j < o.len() && #[trigger] d[a] == o[j];
            }
        }
        removed
    }

    /// Deletes the inactive catalog rows, and returns how many were deleted.
    pub fn delete_inactive_documents(&mut self) -> (r: usize)
        requires
            old(self).wf(),
        ensures
            final(self).wf(),
            final(self).docs() == active_rows(old(self).docs()),
            r == old(self).docs().len() - final(self).docs().len(),
            final(self).content() == old(self).content(),
            final(self).next_id == old(self).next_id,
            final(self).embeddings@ == old(self).embeddings@,
            final(self).dimension == old(self).dimension,
    {
        self.delete_rows(None)
    }

    /// Deletes every catalog row of `collection`, then the content no row
    /// references any more; returns how many rows and how many bodies went.
    pub fn remove_collection_documents(&mut self, collection: &str) -> (r: (usize, usize))
        requires
            old(self).wf(),
        ensures
            final(self).wf(),
            final(self).docs() == retained_rows(old(self).docs(), Some(collection@)),
            r.0 == old(self).docs().len() - final(self).docs().len(),
            final(self).content() == referenced_content(old(self).content(), final(self).docs()),
            r.1 == old(self).content().len() - final(self).content().len(),
            final(self).embeddings@ == old(self).embeddings@,
            final(self).dimension == old(self).dimension,
    {
        let deleted = self.delete_rows(Some(collection));
        let cleaned = self.cleanup_orphaned_content();
        (deleted, cleaned)
    }

    /// Index of the catalog row with this id.
    pub fn id_index(&self, id: u64) -> (r: Option<usize>)
        ensures
            r matches Some(i) ==> i < self.docs().len() && self.docs()[i as int].id == id,
            r is None ==> forall|i: int| 0 <= i < self.docs().len() ==> self.docs()[i].id != id,
    {
        let mut i: usize = 0;
        while i < self.documents.len()
            invariant
                i <= self.docs().len(),
                forall|k: int| 0 <= k < i ==> self.docs()[k].id != id,
            decreases self.documents@.len() - i,
        {
            if self.documents[i].id == id {
                return Some(i);
            }
            i = i + 1;
        }
        None
    }
}

} // verus!
