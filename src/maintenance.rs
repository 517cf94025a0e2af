//! Document retrieval, maintenance passes and the status of the index.
use vstd::prelude::*;
use crate::fusion::hits;
use crate::rank::{lemma_seq_le_total, lemma_seq_le_trans, seq_le, text_le};
use crate::text::chars_of;
use crate::paths::{collection_path_of, glob_compiles, glob_match, glob_matches, glob_valid, split_collection_path, SelectError};
use crate::store::{doc_key, docid_of, string_of_key, DocumentRow};
use crate::store::{docid_ref, is_first_active_with_docid};
use crate::store::{cache_keys_unique, emb_view, emb_views, same_text, CacheEntry, EmbeddingView};
use crate::store::{active_row_for, body_of, has_hash, lemma_row_for_index, row_for, ContentView, DocView, EmbeddingRow, Store};

verus! {

/// A live document with its body.
pub struct DocumentBody {
    pub docid: String,
    pub title: String,
    pub hash: String,
    pub body: String,
    pub modified_at: String,
}

/// The embeddings whose body is still stored, in order.
pub open spec fn stored_embeddings(embs: Seq<EmbeddingView>, content: Seq<ContentView>) -> Seq<EmbeddingView>
    decreases embs.len(),
{
    if embs.len() == 0 {
        seq![]
    } else {
        let rest = stored_embeddings(embs.drop_last(), content);
        if has_hash(content, embs.last().hash) { rest.push(embs.last()) } else { rest }
    }
}

pub proof fn lemma_stored_embeddings_sub(embs: Seq<EmbeddingView>, content: Seq<ContentView>)
    ensures
        stored_embeddings(embs, content).len() <= embs.len(),
        forall|i: int| 0 <= i < stored_embeddings(embs, content).len() ==> exists|j: int|
            0 <= j < embs.len() && #[trigger] stored_embeddings(embs, content)[i] == embs[j],
    decreases embs.len(),
{
    if embs.len() > 0 {
        lemma_stored_embeddings_sub(embs.drop_last(), content);
        let rest = stored_embeddings(embs.drop_last(), content);
        let out = stored_embeddings(embs, content);
        assert forall|i: int| 0 <= i < out.len() implies exists|j: int| 0 <= j < embs.len() && #[trigger] out[i] == embs[j] by {
            if i < rest.len() {
                let j = choose|j: int| 0 <= j < embs.drop_last().len() && rest[i] == embs.drop_last()[j];
                assert(out[i] == embs[j]);
            } else {
                assert(out[i] == embs[embs.len() - 1]);
            }
        }
    }
}

fn copy_embedding(e: &EmbeddingRow) -> (r: EmbeddingRow)
    ensures
        emb_view(r) == emb_view(*e),
{
    let mut v: Vec<i8> = Vec::new();
    let mut i: usize = 0;
    while i < e.vector.len()
        invariant
            i <= e.vector@.len(),
            v@ == e.vector@.take(i as int),
        decreases e.vector@.len() - i,
    {
        v.push(e.vector[i]);
        proof {
            assert(e.vector@.take(i as int + 1) =~= e.vector@.take(i as int).push(e.vector@[i as int]));
        }
        i = i + 1;
    }
    proof {
        assert(e.vector@.take(e.vector@.len() as int) =~= e.vector@);
    }
    EmbeddingRow {
        hash: e.hash.clone(),
        seq: e.seq,
        pos: e.pos,
        vector: v,
        model: e.model.clone(),
        embedded_at: e.embedded_at.clone(),
    }
}

/// Number of active rows.
pub open spec fn active_count(docs: Seq<DocView>) -> nat
    decreases docs.len(),
{
    if docs.len() == 0 { 0 } else { active_count(docs.drop_last()) + if docs.last().active { 1nat } else { 0nat } }
}

/// Number of active rows of `collection`.
pub open spec fn collection_count(docs: Seq<DocView>, collection: Seq<char>) -> nat
    decreases docs.len(),
{
    if docs.len() == 0 {
        0
    } else {
        collection_count(docs.drop_last(), collection)
            + if docs.last().active && docs.last().collection == collection { 1nat } else { 0nat }
    }
}

/// Some embedding belongs to the body with this hash.
pub open spec fn is_embedded(embs: Seq<EmbeddingRow>, hash: Seq<char>) -> bool {
    exists|i: int| 0 <= i < embs.len() && #[trigger] embs[i].hash@ == hash
}

/// Number of active rows whose body has no embedding yet.
pub open spec fn unembedded_count(docs: Seq<DocView>, embs: Seq<EmbeddingRow>) -> nat
    decreases docs.len(),
{
    if docs.len() == 0 {
        0
    } else {
        unembedded_count(docs.drop_last(), embs)
            + if docs.last().active && !is_embedded(embs, docs.last().hash) { 1nat } else { 0nat }
    }
}

/// Counts of the index for external reporting.
#[derive(Clone, Copy, Debug, PartialEq, Eq)]
pub struct IndexStatus {
    pub total_documents: usize,
    pub needs_embedding: usize,
    pub has_vector_index: bool,
}

impl Store {
    /// The live document at (collection, path), with its body; inactive
    /// documents are not found.
    pub fn get_document(&self, collection: &str, path: &str) -> (r: Option<DocumentBody>)
        requires
            self.wf(),
        ensures
            r is None <==> active_row_for(self.docs(), collection@, path@) is None,
            r matches Some(d) ==> {
                let row = active_row_for(self.docs(), collection@, path@)->0;
                &&& d.docid@ == row.docid
                &&& d.title@ == row.title
                &&& d.hash@ == row.hash
                &&& d.modified_at@ == row.modified_at
                &&& d.body@ == body_of(self.content(), row.hash)
            },
    {
        match self.row_index(collection, path) {
            Some(i) => {
                proof {
                    lemma_row_for_index(self.docs(), i as int);
                }
                let row = &self.documents[i];
                if !row.active {
                    return None;
                }
                let body = match self.get_content(row.hash.as_str()) {
                    Some(b) => b,
                    None => String::new(),
                };
                Some(DocumentBody {
                    docid: row.docid.clone(),
                    title: row.title.clone(),
                    hash: row.hash.clone(),
                    body,
                    modified_at: row.modified_at.clone(),
                })
            },
            None => {
                proof {
                    crate::store::lemma_row_for_none(self.docs(), collection@, path@);
                }
                None
            },
        }
    }

    /// Deletes every embedding and frees the table's dimension; returns how
    /// many were deleted.
    pub fn clear_embeddings(&mut self) -> (r: usize)
        requires
            old(self).wf(),
        ensures
            final(self).wf(),
            r == old(self).embeddings@.len(),
            final(self).embeddings@.len() == 0,
            final(self).dimension is None,
            final(self).docs() == old(self).docs(),
            final(self).content() == old(self).content(),
            final(self).next_id == old(self).next_id,
    {
        let n = self.embeddings.len();
        self.embeddings = Vec::new();
        self.dimension = None;
        n
    }

    /// Empties the cache of derived results; returns how many entries it held.
    pub fn clear_cache(&mut self) -> (r: usize)
        requires
            old(self).wf(),
        ensures
            final(self).wf(),
            r == old(self).cache@.len(),
            final(self).cache@.len() == 0,
            final(self).docs() == old(self).docs(),
            final(self).content() == old(self).content(),
            final(self).embeddings@ == old(self).embeddings@,
            final(self).dimension == old(self).dimension,
            final(self).next_id == old(self).next_id,
    {
        let n = self.cache.len();
        self.cache = Vec::new();
        n
    }

    /// Deletes the embeddings whose body is no longer stored; returns how
    /// many were deleted.
    pub fn cleanup_orphaned_vectors(&mut self) -> (r: usize)
        requires
            old(self).wf(),
        ensures
            final(self).wf(),
            emb_views(final(self).embeddings@) == stored_embeddings(emb_views(old(self).embeddings@), old(self).content()),
            r == old(self).embeddings@.len() - final(self).embeddings@.len(),
            final(self).docs() == old(self).docs(),
            final(self).content() == old(self).content(),
            final(self).dimension == old(self).dimension,
            final(self).next_id == old(self).next_id,
    {
        let mut kept: Vec<EmbeddingRow> = Vec::new();
        let mut i: usize = 0;
        while i < self.embeddings.len()
            invariant
                self.wf(),
                self.embeddings@ == old(self).embeddings@,
                self.docs() == old(self).docs(),
                self.content() == old(self).content(),
                self.dimension == old(self).dimension,
                self.next_id == old(self).next_id,
                i <= self.embeddings@.len(),
                kept@.len() <= i,
                emb_views(kept@) == stored_embeddings(emb_views(self.embeddings@).take(i as int), self.content()),
            decreases self.embeddings@.len() - i,
        {
            let ghost ev = emb_views(self.embeddings@);
            proof {
                assert(ev.take(i as int + 1).drop_last() =~= ev.take(i as int));
                assert(ev.take(i as int + 1).last() == emb_view(self.embeddings@[i as int]));
            }
            let e = &self.embeddings[i];
            if self.content_index(e.hash.as_str()).is_some() {
                let copy = copy_embedding(e);
                let ghost before = kept@;
                kept.push(copy);
                proof {
                    assert(emb_views(kept@) =~= emb_views(before).push(emb_view(self.embeddings@[i as int])));
                }
            }
            i = i + 1;
        }
        proof {
            assert(emb_views(self.embeddings@).take(self.embeddings@.len() as int) =~= emb_views(self.embeddings@));
            lemma_stored_embeddings_sub(emb_views(old(self).embeddings@), old(self).content());
        }
        let removed = self.embeddings.len() - kept.len();
        self.embeddings = kept;
        proof {
            if let Some(d) = self.dimension {
                assert forall|k: int| 0 <= k < self.embeddings@.len() implies #[trigger] self.embeddings@[k].vector@.len() == d by {
                    let ov = emb_views(old(self).embeddings@);
                    let nv = emb_views(self.embeddings@);
                    assert(nv[k] == emb_view(self.embeddings@[k]));
                    let j = choose|j: int| 0 <= j < ov.len() && #[trigger] stored_embeddings(ov, old(self).content())[k] == ov[j];
                    assert(ov[j] == emb_view(old(self).embeddings@[j]));
                }
            }
        }
        removed
    }

    /// Counts for reporting: active documents, active documents whose body
    /// has no embedding yet, and whether a vector table exists.
    pub fn get_status(&self) -> (r: IndexStatus)
        requires
            self.wf(),
        ensures
            r.total_documents == active_count(self.docs()),
            r.needs_embedding == unembedded_count(self.docs(), self.embeddings@),
            r.has_vector_index == self.dimension is Some,
    {
        let mut total: usize = 0;
        let mut pending: usize = 0;
        let mut i: usize = 0;
        while i < self.documents.len()
            invariant
                i <= self.docs().len(),
                total as nat == active_count(self.docs().take(i as int)),
                pending as nat == unembedded_count(self.docs().take(i as int), self.embeddings@),
                total <= i,
                pending <= i,
            decreases self.documents@.len() - i,
        {
            proof {
                assert(self.docs().take(i as int + 1).drop_last() =~= self.docs().take(i as int));
                assert(self.docs().take(i as int + 1).last() == self.docs()[i as int]);
            }
            let d = &self.documents[i];
            if d.active {
                total = total + 1;
                if !self.has_embedding(&d.hash) {
                    pending = pending + 1;
                }
            }
            i = i + 1;
        }
        proof {
            assert(self.docs().take(self.docs().len() as int) =~= self.docs());
        }
        IndexStatus { total_documents: total, needs_embedding: pending, has_vector_index: self.dimension.is_some() }
    }

    /// Number of active documents of each collection named.
    pub fn collection_counts(&self, names: &Vec<String>) -> (r: Vec<usize>)
        ensures
            r@.len() == names@.len(),
            forall|k: int| 0 <= k < names@.len() ==> #[trigger] r@[k] as nat == collection_count(self.docs(), names@[k]@),
    {
        let mut out: Vec<usize> = Vec::new();
        let mut k: usize = 0;
        while k < names.len()
            invariant
                k <= names@.len(),
                out@.len() == k,
                forall|x: int| 0 <= x < k ==> #[trigger] out@[x] as nat == collection_count(self.docs(), names@[x]@),
            decreases names@.len() - k,
        {
            let name = &names[k];
            let mut count: usize = 0;
            let mut i: usize = 0;
            while i < self.documents.len()
                invariant
                    i <= self.docs().len(),
                    count as nat == collection_count(self.docs().take(i as int), name@),
                    count <= i,
                decreases self.documents@.len() - i,
            {
                proof {
                    assert(self.docs().take(i as int + 1).drop_last() =~= self.docs().take(i as int));
                    assert(self.docs().take(i as int + 1).last() == self.docs()[i as int]);
                }
                let d = &self.documents[i];
                if d.active && d.collection == *name {
                    count = count + 1;
                }
                i = i + 1;
            }
            proof {
                assert(self.docs().take(self.docs().len() as int) =~= self.docs());
            }
            out.push(count);
            k = k + 1;
        }
        out
    }

    /// Whether some embedding belongs to the body with this hash.
    pub fn has_embedding(&self, hash: &String) -> (r: bool)
        ensures
            r == is_embedded(self.embeddings@, hash@),
    {
        let mut i: usize = 0;
        while i < self.embeddings.len()
            invariant
                i <= self.embeddings@.len(),
                forall|k: int| 0 <= k < i ==> self.embeddings@[k].hash@ != hash@,
            decreases self.embeddings@.len() - i,
        {
            if self.embeddings[i].hash == *hash {
                proof {
                    assert(self.embeddings@[i as int].hash@ == hash@);
                }
                return true;
            }
            i = i + 1;
        }
        false
    }
}

/// A listed file.
pub struct FileEntry {
    pub path: String,
    pub title: String,
    pub modified_at: String,
    pub size: usize,
}

/// `path` starts with `prefix`.
pub open spec fn has_prefix(path: Seq<char>, prefix: Seq<char>) -> bool {
    prefix.len() <= path.len() && path.take(prefix.len() as int) == prefix
}

/// Row `i` is listed for (collection, prefix).
pub open spec fn is_listed_row(docs: Seq<DocView>, i: int, collection: Seq<char>, prefix: Option<Seq<char>>) -> bool {
    &&& 0 <= i < docs.len()
    &&& docs[i].active
    &&& docs[i].collection == collection
    &&& match prefix { Some(p) => has_prefix(docs[i].path, p), None => true }
}

/// `f` describes row `i`.
pub open spec fn entry_of(f: FileEntry, docs: Seq<DocView>, content: Seq<ContentView>, i: int) -> bool {
    &&& f.path@ == docs[i].path
    &&& f.title@ == docs[i].title
    &&& f.modified_at@ == docs[i].modified_at
    &&& f.size == body_of(content, docs[i].hash).len()
}

pub open spec fn lists_row(out: Seq<FileEntry>, docs: Seq<DocView>, content: Seq<ContentView>, i: int) -> bool {
    exists|a: int| 0 <= a < out.len() && #[trigger] entry_of(out[a], docs, content, i)
}

pub open spec fn entry_from(f: FileEntry, docs: Seq<DocView>, content: Seq<ContentView>, collection: Seq<char>, prefix: Option<Seq<char>>) -> bool {
    exists|i: int| #[trigger] is_listed_row(docs, i, collection, prefix) && entry_of(f, docs, content, i)
}

pub open spec fn paths_ordered(out: Seq<FileEntry>) -> bool {
    forall|a: int, b: int| 0 <= a < b < out.len() ==> seq_le(out[a].path@, out[b].path@)
}

fn entry_before(a: &FileEntry, b: &FileEntry) -> (r: bool)
    ensures
        r == seq_le(a.path@, b.path@),
{
    text_le(&chars_of(a.path.as_str()), &chars_of(b.path.as_str()))
}

fn insert_entry(out: &mut Vec<FileEntry>, e: FileEntry) -> (p: usize)
    requires
        paths_ordered(old(out)@),
    ensures
        p <= old(out)@.len(),
        final(out)@ == old(out)@.insert(p as int, e),
        paths_ordered(final(out)@),
{
    let mut p: usize = 0;
    while p < out.len() && entry_before(&out[p], &e)
        invariant
            p <= out@.len(),
            out@ == old(out)@,
            paths_ordered(out@),
            forall|x: int| 0 <= x < p ==> seq_le((#[trigger] out@[x]).path@, e.path@),
        decreases out@.len() - p,
    {
        p = p + 1;
    }
    let ghost o = out@;
    proof {
        assert forall|x: int| p <= x < o.len() implies !seq_le((#[trigger] o[x]).path@, e.path@) by {
            assert(!seq_le(o[p as int].path@, e.path@));
            if x > p && seq_le(o[x].path@, e.path@) {
                lemma_seq_le_trans(o[p as int].path@, o[x].path@, e.path@);
            }
        }
    }
    out.insert(p, e);
    proof {
        let n = out@;
        assert forall|a: int, b: int| 0 <= a < b < n.len() implies seq_le(n[a].path@, n[b].path@) by {
            if a < p && b == p {
            } else if a == p {
                assert(!seq_le(o[b - 1].path@, e.path@));
                lemma_seq_le_total(o[b - 1].path@, e.path@);
            } else if a < p && b > p {
                assert(seq_le(o[a].path@, o[b - 1].path@));
            } else if a > p {
                assert(seq_le(o[a - 1].path@, o[b - 1].path@));
            } else {
                assert(seq_le(o[a].path@, o[b].path@));
            }
        }
    }
    p
}

pub open spec fn prefix_view(prefix: Option<&str>) -> Option<Seq<char>> {
    match prefix {
        Some(p) => Some(p@),
        None => None,
    }
}

/// Whether `path` starts with `prefix`.
pub fn starts_with(path: &String, prefix: &str) -> (r: bool)
    ensures
        r == has_prefix(path@, prefix@),
{
    let a = chars_of(path.as_str());
    let b = chars_of(prefix);
    if b.len() > a.len() {
        return false;
    }
    let mut i: usize = 0;
    while i < b.len()
        invariant
            i <= b@.len() <= a@.len(),
            a@ == path@,
            b@ == prefix@,
            forall|j: int| 0 <= j < i ==> a@[j] == b@[j],
        decreases b@.len() - i,
    {
        if a[i] != b[i] {
            proof {
                assert(a@.take(b@.len() as int)[i as int] != b@[i as int]);
            }
            return false;
        }
        i = i + 1;
    }
    proof {
        assert(a@.take(b@.len() as int) =~= b@);
    }
    true
}

impl Store {
    /// The live documents of `collection` (under `prefix`, where given),
    /// ordered by path, each with its title, modification time and size.
    pub fn list_files(&self, collection: &str, prefix: Option<&str>) -> (r: Vec<FileEntry>)
        requires
            self.wf(),
        ensures
            paths_ordered(r@),
            forall|a: int, b: int| 0 <= a < b < r@.len() ==> r@[a].path@ != r@[b].path@,
            forall|a: int| 0 <= a < r@.len() ==> #[trigger] entry_from(r@[a], self.docs(), self.content(), collection@, prefix_view(prefix)),
            forall|i: int| #[trigger] is_listed_row(self.docs(), i, collection@, prefix_view(prefix))
                ==> lists_row(r@, self.docs(), self.content(), i),
    {
        let ghost docs = self.docs();
        let ghost content = self.content();
        let ghost pv = prefix_view(prefix);
        let mut found: Vec<FileEntry> = Vec::new();
        let ghost mut src: Seq<int> = seq![];
        let mut i: usize = 0;
        while i < self.documents.len()
            invariant
                self.wf(),
                docs == self.docs(),
                content == self.content(),
                pv == prefix_view(prefix),
                i <= docs.len(),
                src.len() == found@.len(),
                forall|c: int| 0 <= c < found@.len() ==> is_listed_row(docs, #[trigger] src[c], collection@, pv)
                    && entry_of(found@[c], docs, content, src[c]),
                forall|c: int| 0 <= c < src.len() ==> #[trigger] src[c] < i,
                forall|a: int, b: int| 0 <= a < b < src.len() ==> src[a] < src[b],
                forall|k: int| 0 <= k < i && #[trigger] is_listed_row(docs, k, collection@, pv) ==>
                    exists|c: int| 0 <= c < src.len() && src[c] == k,
            decreases docs.len() - i,
        {
            let d = &self.documents[i];
            let keep = d.active && crate::store::same_text(collection, &d.collection) && match prefix {
                Some(p) => starts_with(&d.path, p),
                None => true,
            };
            if keep {
                let size = match self.get_content(d.hash.as_str()) {
                    Some(b) => chars_of(b.as_str()).len(),
                    None => 0,
                };
                let ghost before_src = src;
                let ghost before = found@;
                found.push(FileEntry { path: d.path.clone(), title: d.title.clone(), modified_at: d.modified_at.clone(), size });
                proof {
                    src = src.push(i as int);
                    assert(is_listed_row(docs, i as int, collection@, pv));
                    assert forall|a: int, b: int| 0 <= a < b < src.len() implies src[a] < src[b] by {
                        assert(src[a] == before_src[a]);
                        if b < before_src.len() { assert(src[b] == before_src[b]); }
                    }
                    assert forall|c: int| 0 <= c < src.len() implies #[trigger] src[c] < i + 1 by {
                        if c < before_src.len() { assert(src[c] == before_src[c]); }
                    }
                    assert forall|c: int| 0 <= c < found@.len() implies is_listed_row(docs, #[trigger] src[c], collection@, pv)
                        && entry_of(found@[c], docs, content, src[c]) by {
                        if c < before.len() {
                            assert(found@[c] == before[c] && src[c] == before_src[c]);
                        }
                    }
                    assert forall|k: int| 0 <= k < i + 1 && #[trigger] is_listed_row(docs, k, collection@, pv) implies
                        exists|c: int| 0 <= c < src.len() && src[c] == k by {
                        if k < i {
                            let c = choose|c: int| 0 <= c < before_src.len() && before_src[c] == k;
                            assert(src[c] == k);
                        } else {
                            assert(src[src.len() - 1] == k);
                        }
                    }
                }
            } else {
                proof {
                    assert(!is_listed_row(docs, i as int, collection@, pv));
                }
            }
            i = i + 1;
        }
        // Order by path.
        let ghost all = found@;
        let ghost all_src = src;
        let mut sorted: Vec<FileEntry> = Vec::new();
        let ghost mut perm: Seq<int> = seq![];
        while found.len() > 0
            invariant
                found@ == all.take(found@.len() as int),
                paths_ordered(sorted@),
                sorted@.len() + found@.len() == all.len(),
                perm.len() == sorted@.len(),
                forall|x: int| 0 <= x < sorted@.len() ==> found@.len() <= #[trigger] perm[x] < all.len()
                    && sorted@[x] == all[perm[x]],
                forall|x: int, y: int| 0 <= x < y < sorted@.len() ==> perm[x] != perm[y],
                forall|t: int| found@.len() <= t < all.len() ==> #[trigger] hits(perm, sorted@.len() as int, t),
            decreases found@.len(),
        {
            let ghost n = found@.len() - 1;
            let e = found.pop().unwrap();
            proof {
                assert(e == all[n]);
                assert(found@ =~= all.take(n));
            }
            let ghost o = sorted@;
            let p = insert_entry(&mut sorted, e);
            proof {
                let old_perm = perm;
                let q = perm.insert(p as int, n);
                assert forall|x: int, y: int| 0 <= x < y < sorted@.len() implies q[x] != q[y] by {
                    if x < p && y > p {
                        assert(q[x] == old_perm[x] && q[y] == old_perm[y - 1]);
                    } else if x > p {
                        assert(q[x] == old_perm[x - 1] && q[y] == old_perm[y - 1]);
                    } else if y < p {
                        assert(q[x] == old_perm[x] && q[y] == old_perm[y]);
                    } else if x == p {
                        assert(q[y] == old_perm[y - 1]);
                    } else {
                        assert(q[x] == old_perm[x]);
                    }
                }
            }
            proof {
                let old_perm = perm;
                perm = perm.insert(p as int, n);
                let m = sorted@;
                assert forall|x: int| 0 <= x < m.len() implies found@.len() <= #[trigger] perm[x] < all.len()
                    && m[x] == all[perm[x]] by {
                    if x < p {
                        assert(perm[x] == old_perm[x] && m[x] == o[x]);
                    } else if x > p {
                        assert(perm[x] == old_perm[x - 1] && m[x] == o[x - 1]);
                    }
                }
                assert forall|t: int| found@.len() <= t < all.len() implies #[trigger] hits(perm, m.len() as int, t) by {
                    if t == n {
                        assert(perm[p as int] == t);
                    } else {
                        assert(hits(old_perm, o.len() as int, t));
                        let x = choose|x: int| 0 <= x < o.len() && #[trigger] old_perm[x] == t;
                        if x < p {
                            assert(perm[x] == t);
                        } else {
                            assert(perm[x + 1] == t);
                        }
                    }
                }
            }
        }
        proof {
            let out = sorted@;
            assert forall|a: int, b: int| 0 <= a < b < out.len() implies out[a].path@ != out[b].path@ by {
                let ca = perm[a];
                let cb = perm[b];
                let ra = all_src[ca];
                let rb = all_src[cb];
                assert(entry_of(all[ca], docs, content, ra) && entry_of(all[cb], docs, content, rb));
                assert(is_listed_row(docs, ra, collection@, pv) && is_listed_row(docs, rb, collection@, pv));
                assert(crate::store::keys_unique(docs));
                if ca < cb {
                    assert(ra < rb);
                    assert(!(docs[ra].collection == docs[rb].collection && docs[ra].path == docs[rb].path));
                } else {
                    assert(rb < ra);
                    assert(!(docs[rb].collection == docs[ra].collection && docs[rb].path == docs[ra].path));
                }
            }
            assert forall|a: int| 0 <= a < out.len() implies #[trigger] entry_from(out[a], docs, content, collection@, pv) by {
                let c = perm[a];
                assert(is_listed_row(docs, all_src[c], collection@, pv) && entry_of(all[c], docs, content, all_src[c]));
            }
            assert forall|k: int| #[trigger] is_listed_row(docs, k, collection@, pv) implies lists_row(out, docs, content, k) by {
                let c = choose|c: int| 0 <= c < all_src.len() && all_src[c] == k;
                assert(hits(perm, out.len() as int, c));
                let x = choose|x: int| 0 <= x < out.len() && #[trigger] perm[x] == c;
                assert(entry_of(out[x], docs, content, k));
            }
        }
        sorted
    }
}

impl Store {
    /// Resolves what a caller names a document by: a docid reference
    /// (`#abcd1234`) through the catalog, which finds live documents only,
    /// or `collection/path` split at its first `/`.
    pub fn resolve_document(&self, file: &str) -> (r: Option<(String, String)>)
        ensures
            (file@.len() > 0 && file@[0] == '#') ==> {
                &&& r matches Some((c, p)) ==> exists|i: int| #[trigger] is_first_active_with_docid(self.docs(), i, docid_ref(file@))
                    && self.docs()[i].collection == c@ && self.docs()[i].path == p@
                &&& r is None ==> forall|i: int| 0 <= i < self.docs().len() ==>
                    !(#[trigger] self.docs()[i].active && self.docs()[i].docid == docid_ref(file@))
            },
            !(file@.len() > 0 && file@[0] == '#') ==> {
                &&& r matches Some((c, p)) ==> collection_path_of(file@) == Some((c@, p@))
                &&& r is None ==> collection_path_of(file@) is None
            },
    {
        let chars = chars_of(file);
        if chars.len() > 0 && chars[0] == '#' {
            self.find_document_by_docid(file)
        } else {
            split_collection_path(file)
        }
    }
}

/// A body waiting to be embedded: its hash, and the path of a document that has it.
pub struct PendingBody {
    pub hash: String,
    pub path: String,
}

pub open spec fn needs_embedding(docs: Seq<DocView>, embs: Seq<EmbeddingRow>, i: int) -> bool {
    0 <= i < docs.len() && docs[i].active && !is_embedded(embs, docs[i].hash)
}

/// `p` names a body of a live document that has no embedding.
pub open spec fn pending_from(p: PendingBody, docs: Seq<DocView>, embs: Seq<EmbeddingRow>) -> bool {
    exists|i: int| #[trigger] needs_embedding(docs, embs, i) && docs[i].hash == p.hash@ && docs[i].path == p.path@
}

/// Some entry of `out` names this hash.
pub open spec fn lists_hash(out: Seq<PendingBody>, hash: Seq<char>) -> bool {
    exists|a: int| 0 <= a < out.len() && #[trigger] out[a].hash@ == hash
}

impl Store {
    /// The bodies of live documents that have no embedding yet, one entry per
    /// hash, in catalog order.
    pub fn pending_embeddings(&self) -> (r: Vec<PendingBody>)
        ensures
            forall|a: int, b: int| 0 <= a < b < r@.len() ==> r@[a].hash@ != r@[b].hash@,
            forall|a: int| 0 <= a < r@.len() ==> #[trigger] pending_from(r@[a], self.docs(), self.embeddings@),
            forall|i: int| #[trigger] needs_embedding(self.docs(), self.embeddings@, i) ==>
                lists_hash(r@, self.docs()[i].hash),
    {
        let ghost docs = self.docs();
        let ghost embs = self.embeddings@;
        let mut out: Vec<PendingBody> = Vec::new();
        let mut i: usize = 0;
        while i < self.documents.len()
            invariant
                docs == self.docs(),
                embs == self.embeddings@,
                i <= docs.len(),
                forall|a: int, b: int| 0 <= a < b < out@.len() ==> out@[a].hash@ != out@[b].hash@,
                forall|a: int| 0 <= a < out@.len() ==> #[trigger] pending_from(out@[a], docs, embs),
                forall|k: int| 0 <= k < i && #[trigger] needs_embedding(docs, embs, k) ==> lists_hash(out@, docs[k].hash),
            decreases docs.len() - i,
        {
            let d = &self.documents[i];
            if d.active && !self.has_embedding(&d.hash) {
                let mut seen = false;
                let mut j: usize = 0;
                while j < out.len()
                    invariant
                        j <= out@.len(),
                        !seen ==> forall|x: int| 0 <= x < j ==> out@[x].hash@ != d.hash@,
                        seen ==> lists_hash(out@, d.hash@),
                    decreases out@.len() - j,
                {
                    if out[j].hash == d.hash {
                        proof {
                            assert(out@[j as int].hash@ == d.hash@);
                        }
                        seen = true;
                    }
                    j = j + 1;
                }
                if !seen {
                    let ghost before = out@;
                    out.push(PendingBody { hash: d.hash.clone(), path: d.path.clone() });
                    proof {
                        assert(needs_embedding(docs, embs, i as int));
                        assert forall|a: int| 0 <= a < out@.len() implies #[trigger] pending_from(out@[a], docs, embs) by {
                            if a < before.len() {
                                assert(out@[a] == before[a]);
                            } else {
                                assert(docs[i as int].hash == out@[a].hash@);
                            }
                        }
                        assert forall|k: int| 0 <= k < i + 1 && #[trigger] needs_embedding(docs, embs, k) implies
                            lists_hash(out@, docs[k].hash) by {
                            if k < i {
                                let a = choose|a: int| 0 <= a < before.len() && #[trigger] before[a].hash@ == docs[k].hash;
                                assert(out@[a] == before[a]);
                            } else {
                                assert(out@[before.len() as int].hash@ == docs[k].hash);
                            }
                        }
                    }
                }
            }
            i = i + 1;
        }
        out
    }
}

/// Row `i` is live and selected.
pub open spec fn selected_row(docs: Seq<DocView>, matched: Seq<bool>, i: int) -> bool {
    0 <= i < docs.len() && docs[i].active && matched[i]
}

/// The (collection, path) of the live rows selected by `matched`, in catalog order.
pub open spec fn selected_keys(docs: Seq<DocView>, matched: Seq<bool>) -> Seq<(Seq<char>, Seq<char>)>
    decreases docs.len(),
{
    if docs.len() == 0 {
        seq![]
    } else {
        let rest = selected_keys(docs.drop_last(), matched.take(docs.len() - 1));
        if docs.last().active && matched[docs.len() - 1] { rest.push((docs.last().collection, docs.last().path)) } else { rest }
    }
}

/// Whether the glob `pattern` matches the key of each row.
pub open spec fn key_matches(pattern: Seq<char>, docs: Seq<DocView>) -> Seq<bool> {
    Seq::new(docs.len(), |i: int| glob_matches(pattern, doc_key(docs[i].collection, docs[i].path)))
}

pub open spec fn key_views(keys: Seq<(String, String)>) -> Seq<(Seq<char>, Seq<char>)> {
    keys.map_values(|k: (String, String)| (k.0@, k.1@))
}

impl Store {
    /// The (collection, path) of the live documents selected by `matched`,
    /// one flag per catalog row, in catalog order.
    pub fn documents_selected(&self, matched: &Vec<bool>) -> (r: Vec<(String, String)>)
        requires
            matched@.len() == self.docs().len(),
        ensures
            key_views(r@) == selected_keys(self.docs(), matched@),
    {
        let ghost docs = self.docs();
        let mut out: Vec<(String, String)> = Vec::new();
        let mut i: usize = 0;
        while i < self.documents.len()
            invariant
                docs == self.docs(),
                matched@.len() == docs.len(),
                i <= docs.len(),
                key_views(out@) == selected_keys(docs.take(i as int), matched@.take(i as int)),
            decreases docs.len() - i,
        {
            proof {
                assert(docs.take(i as int + 1).drop_last() =~= docs.take(i as int));
                assert(matched@.take(i as int + 1).take(i as int) =~= matched@.take(i as int));
                assert(docs.take(i as int + 1).last() == docs[i as int]);
            }
            let d = &self.documents[i];
            if d.active && matched[i] {
                let ghost before = out@;
                out.push((d.collection.clone(), d.path.clone()));
                proof {
                    assert(key_views(out@) =~= key_views(before).push((docs[i as int].collection, docs[i as int].path)));
                }
            }
            i = i + 1;
        }
        proof {
            assert(docs.take(docs.len() as int) =~= docs);
            assert(matched@.take(matched@.len() as int) =~= matched@);
        }
        out
    }

    /// The (collection, path) of the live documents whose key
    /// `collection/path` matches the glob `pattern`, in catalog order. A
    /// malformed pattern is an error.
    pub fn match_files_by_glob(&self, pattern: &str) -> (r: Result<Vec<(String, String)>, SelectError>)
        ensures
            r is Err <==> !glob_valid(pattern@),
            r matches Ok(keys) ==> key_views(keys@) == selected_keys(self.docs(), key_matches(pattern@, self.docs())),
    {
        if !glob_compiles(pattern) {
            return Err(SelectError::InvalidPattern);
        }
        let ghost docs = self.docs();
        let mut matched: Vec<bool> = Vec::new();
        let mut i: usize = 0;
        while i < self.documents.len()
            invariant
                docs == self.docs(),
                glob_valid(pattern@),
                i <= docs.len(),
                matched@ == key_matches(pattern@, docs).take(i as int),
            decreases docs.len() - i,
        {
            let d = &self.documents[i];
            let key = string_of_key(d.collection.as_str(), d.path.as_str());
            let m = glob_match(pattern, key.as_str());
            matched.push(m);
            proof {
                assert(matched@ =~= key_matches(pattern@, docs).take(i as int + 1));
            }
            i = i + 1;
        }
        proof {
            assert(matched@ =~= key_matches(pattern@, docs));
        }
        Ok(self.documents_selected(&matched))
    }
}

/// The value cached under `key`, if any.
pub open spec fn cached(cache: Seq<CacheEntry>, key: Seq<char>) -> Option<Seq<char>> {
    if exists|i: int| 0 <= i < cache.len() && #[trigger] cache[i].key@ == key {
        Some(cache[choose|i: int| 0 <= i < cache.len() && #[trigger] cache[i].key@ == key].value@)
    } else {
        None
    }
}


impl Store {
    /// The value cached under `key`.
    pub fn cache_get(&self, key: &str) -> (r: Option<String>)
        requires
            self.wf(),
        ensures
            match r {
                Some(v) => cached(self.cache@, key@) == Some(v@),
                None => cached(self.cache@, key@) is None,
            },
    {
        let mut i: usize = 0;
        while i < self.cache.len()
            invariant
                i <= self.cache@.len(),
                cache_keys_unique(self.cache@),
                forall|k: int| 0 <= k < i ==> self.cache@[k].key@ != key@,
            decreases self.cache@.len() - i,
        {
            if same_text(key, &self.cache[i].key) {
                proof {
                    let c = self.cache@;
                    let k = choose|k: int| 0 <= k < c.len() && #[trigger] c[k].key@ == key@;
                    if k < i { assert(c[k].key@ != key@); }
                    if k > i { assert(c[i as int].key@ != c[k].key@); }
                }
                return Some(self.cache[i].value.clone());
            }
            i = i + 1;
        }
        None
    }

    /// Caches `value` under `key`, replacing what was cached there; other
    /// keys keep their values.
    pub fn cache_put(&mut self, key: &str, value: &str)
        requires
            old(self).wf(),
        ensures
            final(self).wf(),
            cached(final(self).cache@, key@) == Some(value@),
            forall|k: Seq<char>| k != key@ ==> #[trigger] cached(final(self).cache@, k) == cached(old(self).cache@, k),
            final(self).docs() == old(self).docs(),
            final(self).content() == old(self).content(),
            final(self).embeddings@ == old(self).embeddings@,
            final(self).dimension == old(self).dimension,
            final(self).next_id == old(self).next_id,
    {
        let ghost o = self.cache@;
        let mut i: usize = 0;
        while i < self.cache.len()
            invariant
                self.cache@ == o,
                o == old(self).cache@,
                cache_keys_unique(o),
                self.wf(),
                self.docs() == old(self).docs(),
                self.content() == old(self).content(),
                self.embeddings@ == old(self).embeddings@,
                self.dimension == old(self).dimension,
                self.next_id == old(self).next_id,
                i <= o.len(),
                forall|k: int| 0 <= k < i ==> o[k].key@ != key@,
            decreases o.len() - i,
        {
            if same_text(key, &self.cache[i].key) {
                self.cache.set(i, CacheEntry { key: key.to_owned(), value: value.to_owned() });
                proof {
                    let n = self.cache@;
                    assert forall|a: int, b: int| 0 <= a < b < n.len() implies n[a].key@ != n[b].key@ by {
                        if a != i && b != i { assert(n[a] == o[a] && n[b] == o[b]); }
                        else if a == i { assert(n[b] == o[b]); assert(o[a].key@ != o[b].key@); }
                        else { assert(n[a] == o[a]); assert(o[a].key@ != o[b].key@); }
                    }
                    assert(n[i as int].key@ == key@);
                    let w = choose|w: int| 0 <= w < n.len() && #[trigger] n[w].key@ == key@;
                    if w != i as int {
                        if w < i { assert(n[w].key@ != n[i as int].key@); } else { assert(n[i as int].key@ != n[w].key@); }
                    }
                    assert forall|k: Seq<char>| k != key@ implies #[trigger] cached(n, k) == cached(o, k) by {
                        assert forall|x: int| 0 <= x < n.len() implies (n[x].key@ == k <==> o[x].key@ == k) by {
                            if x != i { assert(n[x] == o[x]); }
                        }
                        if exists|x: int| 0 <= x < o.len() && #[trigger] o[x].key@ == k {
                            let x1 = choose|x: int| 0 <= x < o.len() && #[trigger] o[x].key@ == k;
                            let x2 = choose|x: int| 0 <= x < n.len() && #[trigger] n[x].key@ == k;
                            assert(x1 != i && x2 != i);
                            assert(n[x2] == o[x2]);
                            if x1 < x2 { assert(o[x1].key@ != o[x2].key@); }
                            if x2 < x1 { assert(o[x2].key@ != o[x1].key@); }
                            assert(x1 == x2);
                        }
                    }
                }
                return;
            }
            i = i + 1;
        }
        self.cache.push(CacheEntry { key: key.to_owned(), value: value.to_owned() });
        proof {
            let n = self.cache@;
            let last = o.len() as int;
            assert forall|a: int, b: int| 0 <= a < b < n.len() implies n[a].key@ != n[b].key@ by {
                assert(n[a] == o[a]);
                if b < last { assert(n[b] == o[b]); }
            }
            assert(n[last].key@ == key@);
            let w = choose|w: int| 0 <= w < n.len() && #[trigger] n[w].key@ == key@;
            if w != last { assert(n[w] == o[w]); }
            assert forall|k: Seq<char>| k != key@ implies #[trigger] cached(n, k) == cached(o, k) by {
                assert forall|x: int| 0 <= x < o.len() implies n[x] == o[x] by {}
                if exists|x: int| 0 <= x < n.len() && #[trigger] n[x].key@ == k {
                    let x2 = choose|x: int| 0 <= x < n.len() && #[trigger] n[x].key@ == k;
                    assert(x2 != last);
                    assert(o[x2].key@ == k);
                    let x1 = choose|x: int| 0 <= x < o.len() && #[trigger] o[x].key@ == k;
                    if x1 < x2 { assert(o[x1].key@ != o[x2].key@); }
                    if x2 < x1 { assert(o[x2].key@ != o[x1].key@); }
                }
            }
        }
    }
}

/// Why a collection could not be renamed.
#[derive(Clone, Copy, Debug, PartialEq, Eq)]
pub enum RenameError {
    /// The new name is the old one, or already has documents.
    NameTaken,
}

/// A row after renaming collection `from` to `to`.
pub open spec fn renamed(d: DocView, from: Seq<char>, to: Seq<char>) -> DocView {
    if d.collection == from {
        DocView { collection: to, docid: docid_of(to, d.path), ..d }
    } else {
        d
    }
}

pub open spec fn has_collection(docs: Seq<DocView>, c: Seq<char>) -> bool {
    exists|i: int| 0 <= i < docs.len() && #[trigger] docs[i].collection == c
}

impl Store {
    /// Moves every row of collection `from` to collection `to`; each moved
    /// row takes the docid of its new key. Refused, with nothing changed,
    /// where `to` is `from` or already has rows. Returns how many rows moved.
    pub fn rename_collection_documents(&mut self, from: &str, to: &str) -> (r: Result<usize, RenameError>)
        requires
            old(self).wf(),
        ensures
            final(self).wf(),
            r is Err <==> (from@ == to@ || has_collection(old(self).docs(), to@)),
            r is Err ==> final(self).docs() == old(self).docs(),
            r is Ok ==> final(self).docs() == old(self).docs().map_values(|d: DocView| renamed(d, from@, to@)),
            final(self).content() == old(self).content(),
            final(self).embeddings@ == old(self).embeddings@,
            final(self).dimension == old(self).dimension,
            final(self).next_id == old(self).next_id,
    {
        if same_text(from, &to.to_owned()) {
            return Err(RenameError::NameTaken);
        }
        let mut k: usize = 0;
        while k < self.documents.len()
            invariant
                self.wf(),
                self.docs() == old(self).docs(),
                self.content() == old(self).content(),
                self.embeddings@ == old(self).embeddings@,
                self.dimension == old(self).dimension,
                self.next_id == old(self).next_id,
                from@ != to@,
                k <= self.docs().len(),
                forall|x: int| 0 <= x < k ==> self.docs()[x].collection != to@,
            decreases self.docs().len() - k,
        {
            if same_text(to, &self.documents[k].collection) {
                proof {
                    assert(self.docs()[k as int].collection == to@);
                }
                return Err(RenameError::NameTaken);
            }
            k = k + 1;
        }
        let ghost o = self.docs();
        let mut moved: usize = 0;
        let mut i: usize = 0;
        while i < self.documents.len()
            invariant
                i <= o.len(),
                self.docs().len() == o.len(),
                from@ != to@,
                !has_collection(o, to@),
                moved <= i,
                forall|x: int| 0 <= x < i ==> #[trigger] self.docs()[x] == renamed(o[x], from@, to@),
                forall|x: int| i <= x < o.len() ==> #[trigger] self.docs()[x] == o[x],
                self.content() == old(self).content(),
                self.embeddings@ == old(self).embeddings@,
                self.dimension == old(self).dimension,
                self.next_id == old(self).next_id,
                self.cache@ == old(self).cache@,
                o == old(self).docs(),
            decreases o.len() - i,
        {
            if same_text(from, &self.documents[i].collection) {
                let d = &self.documents[i];
                let docid = Self::make_docid(to, d.path.as_str());
                let row = DocumentRow {
                    id: d.id,
                    collection: to.to_owned(),
                    path: d.path.clone(),
                    title: d.title.clone(),
                    hash: d.hash.clone(),
                    docid,
                    active: d.active,
                    created_at: d.created_at.clone(),
                    modified_at: d.modified_at.clone(),
                };
                let ghost before = self.docs();
                let ghost view = row@;
                proof {
                    assert(before[i as int] == o[i as int]);
                    assert(before[i as int] == self.documents@[i as int]@);
                    assert(o[i as int].collection == from@);
                }
                self.documents.set(i, row);
                moved = moved + 1;
                proof {
                    assert(self.docs() =~= before.update(i as int, view));
                    assert(view == renamed(o[i as int], from@, to@));
                }
            }
            i = i + 1;
        }
        proof {
            let n = self.docs();
            assert(n =~= o.map_values(|d: DocView| renamed(d, from@, to@)));
            assert forall|a: int, b: int| 0 <= a < b < n.len() implies
                !(n[a].collection == n[b].collection && n[a].path == n[b].path) by {
                assert(!(o[a].collection == o[b].collection && o[a].path == o[b].path));
                if o[a].collection != from@ && n[a].collection == to@ {
                    assert(o[a].collection == to@);
                }
                if o[b].collection != from@ && n[b].collection == to@ {
                    assert(o[b].collection == to@);
                }
            }
            assert forall|a: int, b: int| 0 <= a < b < n.len() implies n[a].id != n[b].id by {}
            assert forall|a: int| 0 <= a < n.len() implies #[trigger] n[a].id < self.next_id
                && n[a].docid == docid_of(n[a].collection, n[a].path) && has_hash(self.content(), n[a].hash) by {
                assert(o[a].id < self.next_id);
                assert(o[a].docid == docid_of(o[a].collection, o[a].path));
                assert(has_hash(self.content(), o[a].hash));
            }
        }
        Ok(moved)
    }
}

} // verus!
