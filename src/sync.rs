//! Reconciling a collection's catalog with the files found under its root.
use vstd::prelude::*;
use crate::store::{
    active_paths, active_row_for, deactivated, docid_of, has_hash, is_active_row_of, is_row_of,
    lemma_active_paths_lists, lemma_row_for_index, lemma_row_for_none, lemma_row_for_push,
    keys_unique, lemma_row_for_update, put_content, row_for, same_text, sha256_hex, ContentView, DocView, Store,
};
use crate::text::{extract_title, title_of};

verus! {

/// A file found by the walk: its normalized path, and its text, or `None`
/// where it could not be read as text.
pub struct ScannedFile {
    pub path: String,
    pub content: Option<String>,
}

pub struct FileView {
    pub path: Seq<char>,
    pub content: Option<Seq<char>>,
}

impl View for ScannedFile {
    type V = FileView;

    open spec fn view(&self) -> FileView {
        FileView {
            path: self.path@,
            content: match &self.content {
                Some(c) => Some(c@),
                None => None,
            },
        }
    }
}

/// The counters of one sync pass.
#[derive(Clone, Copy, Debug, PartialEq, Eq)]
pub struct SyncReport {
    pub indexed: usize,
    pub updated: usize,
    pub unchanged: usize,
    pub deactivated: usize,
    pub skipped: usize,
}

pub open spec fn file_views(files: Seq<ScannedFile>) -> Seq<FileView> {
    files.map_values(|f: ScannedFile| f@)
}

/// No two files share a path.
pub open spec fn paths_distinct(files: Seq<FileView>) -> bool {
    forall|a: int, b: int| 0 <= a < b < files.len() ==> files[a].path != files[b].path
}

/// The walk listed `path` (whether it could be read or not).
pub open spec fn listed(files: Seq<FileView>, path: Seq<char>) -> bool {
    exists|k: int| 0 <= k < files.len() && #[trigger] files[k].path == path
}

/// How a sync treats one listed file.
#[derive(Clone, Copy, Debug, PartialEq, Eq)]
pub enum FileKind {
    New,
    Updated,
    Unchanged,
    Skipped,
}

/// How a sync treats a file, given the catalog before the sync: a readable
/// file with no active document is new, one whose active document has the
/// same hash is unchanged, one with another hash is updated; an unreadable
/// one is skipped.
pub open spec fn file_kind(docs: Seq<DocView>, collection: Seq<char>, f: FileView) -> FileKind {
    match f.content {
        None => FileKind::Skipped,
        Some(body) => hash_kind(docs, collection, f.path, sha256_hex(body)),
    }
}

/// How a body with hash `h` at `path` is treated: new where no document is
/// active there, unchanged where the active one has this hash, else updated.
pub open spec fn hash_kind(docs: Seq<DocView>, collection: Seq<char>, path: Seq<char>, h: Seq<char>) -> FileKind {
    match active_row_for(docs, collection, path) {
        None => FileKind::New,
        Some(r) => if r.hash == h { FileKind::Unchanged } else { FileKind::Updated },
    }
}

/// Number of files of the given kind.
pub open spec fn count_kind(files: Seq<FileView>, docs: Seq<DocView>, collection: Seq<char>, kind: FileKind) -> nat
    decreases files.len(),
{
    if files.len() == 0 {
        0
    } else {
        count_kind(files.drop_last(), docs, collection, kind)
            + if file_kind(docs, collection, files.last()) == kind { 1nat } else { 0nat }
    }
}

/// Number of paths that the walk did not list.
pub open spec fn count_unlisted(paths: Seq<Seq<char>>, files: Seq<FileView>) -> nat
    decreases paths.len(),
{
    if paths.len() == 0 {
        0
    } else {
        count_unlisted(paths.drop_last(), files) + if listed(files, paths.last()) { 0nat } else { 1nat }
    }
}

/// The row of a readable file after the sync, given its row before.
pub open spec fn synced_row(v: DocView, before: Option<DocView>, collection: Seq<char>, path: Seq<char>,
    body: Seq<char>, now: Seq<char>) -> bool
{
    reconciled_row(v, before, collection, path, sha256_hex(body), title_of(body), now)
}

/// The row of a body with hash `h` and title `t` after reconciling, given
/// the row of its key before.
pub open spec fn reconciled_row(v: DocView, before: Option<DocView>, collection: Seq<char>, path: Seq<char>,
    h: Seq<char>, t: Seq<char>, now: Seq<char>) -> bool
{
    match before {
        Some(r) => if r.active && r.hash == h {
            if r.title == t { v == r } else { v == DocView { title: t, modified_at: now, ..r } }
        } else {
            v == DocView { active: true, title: t, hash: h, modified_at: now, ..r }
        },
        None => v.collection == collection && v.path == path && v.active && v.hash == h && v.title == t
            && v.docid == docid_of(collection, path) && v.created_at == now && v.modified_at == now,
    }
}

/// The row of (collection, path) after a sync that saw `files`, for a key
/// that is not a readable file of the walk.
pub open spec fn untouched_row(before: Seq<DocView>, collection: Seq<char>, files: Seq<FileView>,
    c: Seq<char>, p: Seq<char>) -> Option<DocView>
{
    if c == collection && !listed(files, p) {
        deactivated(row_for(before, c, p))
    } else {
        row_for(before, c, p)
    }
}

/// Counting kinds against two catalogs that agree on every file gives the same numbers.
pub proof fn lemma_count_kind_same(files: Seq<FileView>, d1: Seq<DocView>, d2: Seq<DocView>, collection: Seq<char>, kind: FileKind)
    requires
        forall|k: int| 0 <= k < files.len() ==> #[trigger] file_kind(d1, collection, files[k]) == file_kind(d2, collection, files[k]),
    ensures
        count_kind(files, d1, collection, kind) == count_kind(files, d2, collection, kind),
    decreases files.len(),
{
    if files.len() > 0 {
        assert forall|k: int| 0 <= k < files.drop_last().len() implies
            #[trigger] file_kind(d1, collection, files.drop_last()[k]) == file_kind(d2, collection, files.drop_last()[k]) by {
            assert(files.drop_last()[k] == files[k]);
        }
        lemma_count_kind_same(files.drop_last(), d1, d2, collection, kind);
        assert(file_kind(d1, collection, files[files.len() - 1]) == file_kind(d2, collection, files[files.len() - 1]));
    }
}

pub proof fn lemma_contains_push(s: Seq<Seq<char>>, q: Seq<char>, p: Seq<char>)
    ensures
        s.push(q).contains(p) == (s.contains(p) || p == q),
{
    if s.contains(p) {
        let x = choose|x: int| 0 <= x < s.len() && s[x] == p;
        assert(s.push(q)[x] == p);
    }
    if p == q {
        assert(s.push(q)[s.len() as int] == p);
    }
    if s.push(q).contains(p) && p != q {
        let x = choose|x: int| 0 <= x < s.len() + 1 && s.push(q)[x] == p;
        assert(s[x] == p);
    }
}

/// Some readable file among the first `k` has this path.
#[verifier::opaque]
pub open spec fn read_before(files: Seq<FileView>, k: int, path: Seq<char>) -> bool {
    exists|x: int| 0 <= x < k && files[x].path == path && (#[trigger] files[x]).content is Some
}

/// What a sync guarantees, after the first `k` files, of the rows of readable files.
pub open spec fn rows_synced(docs: Seq<DocView>, content: Seq<ContentView>, before: Seq<DocView>,
    collection: Seq<char>, files: Seq<FileView>, k: int, now: Seq<char>) -> bool
{
    forall|x: int| 0 <= x < k && (#[trigger] files[x]).content is Some ==> {
        &&& row_for(docs, collection, files[x].path) is Some
        &&& synced_row(row_for(docs, collection, files[x].path)->0, row_for(before, collection, files[x].path),
                collection, files[x].path, files[x].content->0, now)
        &&& has_hash(content, sha256_hex(files[x].content->0))
    }
}

/// Rows of keys that no readable file among the first `k` has are as before.
pub open spec fn rows_framed(docs: Seq<DocView>, before: Seq<DocView>, collection: Seq<char>,
    files: Seq<FileView>, k: int) -> bool
{
    forall|cc: Seq<char>, pp: Seq<char>| !(cc == collection && read_before(files, k, pp)) ==>
        #[trigger] row_for(docs, cc, pp) == row_for(before, cc, pp)
}

/// One step of the reconciliation loop keeps both guarantees.
pub proof fn lemma_sync_step(cur: Seq<DocView>, next: Seq<DocView>, content_cur: Seq<ContentView>,
    content_next: Seq<ContentView>, before: Seq<DocView>, collection: Seq<char>, files: Seq<FileView>,
    k: int, now: Seq<char>, kind: FileKind)
    requires
        0 <= k < files.len(),
        paths_distinct(files),
        rows_synced(cur, content_cur, before, collection, files, k, now),
        rows_framed(cur, before, collection, files, k),
        kind == file_kind(cur, collection, files[k]),
        files[k].content is None ==> next == cur && content_next == content_cur,
        files[k].content is Some ==> row_for(next, collection, files[k].path) is Some
            && synced_row(row_for(next, collection, files[k].path)->0,
                row_for(cur, collection, files[k].path), collection, files[k].path, files[k].content->0, now),
        forall|cc: Seq<char>, pp: Seq<char>| !(cc == collection && pp == files[k].path) ==>
            #[trigger] row_for(next, cc, pp) == row_for(cur, cc, pp),
        files[k].content is Some ==> has_hash(content_next, sha256_hex(files[k].content->0)),
        content_cur.len() <= content_next.len(),
        forall|i: int| 0 <= i < content_cur.len() ==> content_next[i] == content_cur[i],
    ensures
        rows_synced(next, content_next, before, collection, files, k + 1, now),
        rows_framed(next, before, collection, files, k + 1),
        row_for(cur, collection, files[k].path) == row_for(before, collection, files[k].path),
{
    reveal(read_before);
    let p = files[k].path;
    assert(!read_before(files, k, p));
    assert(row_for(cur, collection, p) == row_for(before, collection, p));
    assert forall|x: int| 0 <= x < k + 1 && (#[trigger] files[x]).content is Some implies {
        &&& row_for(next, collection, files[x].path) is Some
        &&& synced_row(row_for(next, collection, files[x].path)->0, row_for(before, collection, files[x].path),
                collection, files[x].path, files[x].content->0, now)
        &&& has_hash(content_next, sha256_hex(files[x].content->0))
    } by {
        if x < k {
            assert(files[x].path != p);
            let hh = sha256_hex(files[x].content->0);
            let w = choose|w: int| 0 <= w < content_cur.len() && #[trigger] content_cur[w].hash == hh;
            assert(content_next[w].hash == hh);
        }
    }
    assert forall|cc: Seq<char>, pp: Seq<char>| !(cc == collection && read_before(files, k + 1, pp)) implies
        #[trigger] row_for(next, cc, pp) == row_for(before, cc, pp) by {
        if cc == collection && pp == p && files[k].content is Some {
            assert(files[k].path == pp);
        }
        if cc == collection && read_before(files, k, pp) {
            let x = choose|x: int| 0 <= x < k && files[x].path == pp && (#[trigger] files[x]).content is Some;
            assert(files[x].path == pp);
        }
    }
}

/// The catalog `after` is what a sync of `collection` over `files` leaves of
/// the catalog `before`: each readable file has its synced row and its body
/// stored (unless it was unchanged), each unreadable file keeps its row, and
/// every other key keeps its row, deactivated where it is an unlisted path
/// of the collection.
pub open spec fn sync_outcome(before: Seq<DocView>, after: Seq<DocView>, content: Seq<ContentView>,
    collection: Seq<char>, files: Seq<FileView>, now: Seq<char>) -> bool
{
    &&& forall|k: int| 0 <= k < files.len() && (#[trigger] files[k]).content is Some ==> {
        &&& row_for(after, collection, files[k].path) is Some
        &&& synced_row(row_for(after, collection, files[k].path)->0,
                row_for(before, collection, files[k].path), collection, files[k].path, files[k].content->0, now)
        &&& has_hash(content, sha256_hex(files[k].content->0))
    }
    &&& forall|k: int| 0 <= k < files.len() && (#[trigger] files[k]).content is None ==>
        row_for(after, collection, files[k].path) == row_for(before, collection, files[k].path)
    &&& forall|c: Seq<char>, p: Seq<char>| !(c == collection && listed(files, p)) ==>
        #[trigger] row_for(after, c, p) == untouched_row(before, collection, files, c, p)
}

/// When every file has one kind, the count of that kind is the number of
/// files and the count of any other kind is zero.
pub proof fn lemma_count_kind_all(files: Seq<FileView>, docs: Seq<DocView>, collection: Seq<char>, kind: FileKind, other: FileKind)
    requires
        forall|k: int| 0 <= k < files.len() ==> #[trigger] file_kind(docs, collection, files[k]) == kind,
        other != kind,
    ensures
        count_kind(files, docs, collection, kind) == files.len(),
        count_kind(files, docs, collection, other) == 0,
    decreases files.len(),
{
    if files.len() > 0 {
        assert forall|k: int| 0 <= k < files.drop_last().len() implies
            #[trigger] file_kind(docs, collection, files.drop_last()[k]) == kind by {
            assert(files.drop_last()[k] == files[k]);
        }
        lemma_count_kind_all(files.drop_last(), docs, collection, kind, other);
        assert(file_kind(docs, collection, files[files.len() - 1]) == kind);
    }
}

/// Every path listed by `active_paths` is the path of an active row of the collection.
pub proof fn lemma_active_paths_active(docs: Seq<DocView>, collection: Seq<char>, k: int)
    requires
        0 <= k < active_paths(docs, collection).len(),
    ensures
        exists|i: int| #[trigger] is_active_row_of(docs, i, collection, active_paths(docs, collection)[k]),
    decreases docs.len(),
{
    let rest = active_paths(docs.drop_last(), collection);
    if k < rest.len() {
        lemma_active_paths_active(docs.drop_last(), collection, k);
        let i = choose|i: int| #[trigger] is_active_row_of(docs.drop_last(), i, collection, rest[k]);
        assert(is_active_row_of(docs, i, collection, active_paths(docs, collection)[k]));
    } else {
        assert(is_active_row_of(docs, docs.len() - 1, collection, active_paths(docs, collection)[k]));
    }
}

/// Paths that the walk all listed leave nothing to count.
pub proof fn lemma_count_unlisted_zero(paths: Seq<Seq<char>>, files: Seq<FileView>)
    requires
        forall|k: int| 0 <= k < paths.len() ==> listed(files, #[trigger] paths[k]),
    ensures
        count_unlisted(paths, files) == 0,
    decreases paths.len(),
{
    if paths.len() > 0 {
        assert forall|k: int| 0 <= k < paths.drop_last().len() implies listed(files, #[trigger] paths.drop_last()[k]) by {
            assert(paths.drop_last()[k] == paths[k]);
        }
        lemma_count_unlisted_zero(paths.drop_last(), files);
        assert(listed(files, paths[paths.len() - 1]));
    }
}

/// Sync is idempotent: on a tree where every file reads as before, a second
/// sync finds every file unchanged, nothing new, nothing updated, nothing
/// skipped, and no active document to deactivate.
pub proof fn lemma_sync_idempotent(before: Seq<DocView>, after: Seq<DocView>, content: Seq<ContentView>,
    collection: Seq<char>, files: Seq<FileView>, now: Seq<char>)
    requires
        keys_unique(after),
        forall|k: int| 0 <= k < files.len() ==> (#[trigger] files[k]).content is Some,
        sync_outcome(before, after, content, collection, files, now),
    ensures
        count_kind(files, after, collection, FileKind::Unchanged) == files.len(),
        count_kind(files, after, collection, FileKind::New) == 0,
        count_kind(files, after, collection, FileKind::Updated) == 0,
        count_kind(files, after, collection, FileKind::Skipped) == 0,
        count_unlisted(active_paths(after, collection), files) == 0,
{
    assert forall|k: int| 0 <= k < files.len() implies
        #[trigger] file_kind(after, collection, files[k]) == FileKind::Unchanged by {
        assert(files[k].content is Some);
        let v = row_for(after, collection, files[k].path)->0;
        assert(v.active && v.hash == sha256_hex(files[k].content->0));
    }
    lemma_count_kind_all(files, after, collection, FileKind::Unchanged, FileKind::New);
    lemma_count_kind_all(files, after, collection, FileKind::Unchanged, FileKind::Updated);
    lemma_count_kind_all(files, after, collection, FileKind::Unchanged, FileKind::Skipped);
    let paths = active_paths(after, collection);
    assert forall|k: int| 0 <= k < paths.len() implies listed(files, #[trigger] paths[k]) by {
        lemma_active_paths_active(after, collection, k);
        let i = choose|i: int| #[trigger] is_active_row_of(after, i, collection, paths[k]);
        lemma_row_for_index(after, i);
        if !listed(files, paths[k]) {
            assert(row_for(after, collection, paths[k]) == untouched_row(before, collection, files, collection, paths[k]));
        }
    }
    lemma_count_unlisted_zero(paths, files);
}

/// A second sync over a tree where every file reads as before leaves every
/// catalog row as the first sync left it (same docids, hashes, titles,
/// active flags and times).
pub proof fn lemma_sync_idempotent_rows(before: Seq<DocView>, after: Seq<DocView>, again: Seq<DocView>,
    content: Seq<ContentView>, content_again: Seq<ContentView>, collection: Seq<char>, files: Seq<FileView>,
    now: Seq<char>, later: Seq<char>)
    requires
        forall|k: int| 0 <= k < files.len() ==> (#[trigger] files[k]).content is Some,
        sync_outcome(before, after, content, collection, files, now),
        sync_outcome(after, again, content_again, collection, files, later),
    ensures
        forall|c: Seq<char>, p: Seq<char>| #[trigger] row_for(again, c, p) == row_for(after, c, p),
{
    assert forall|c: Seq<char>, p: Seq<char>| #[trigger] row_for(again, c, p) == row_for(after, c, p) by {
        if c == collection && listed(files, p) {
            let k = choose|k: int| 0 <= k < files.len() && #[trigger] files[k].path == p;
            assert(files[k].content is Some);
            let v1 = row_for(after, c, p)->0;
            assert(v1.active && v1.hash == sha256_hex(files[k].content->0) && v1.title == title_of(files[k].content->0));
        } else {
            assert(row_for(again, c, p) == untouched_row(after, collection, files, c, p));
            assert(row_for(after, c, p) == untouched_row(before, collection, files, c, p));
        }
    }
}

/// Docids are stable: where a readable file's key already had a row, the
/// row after the sync keeps its id and docid, and holds the file's new hash.
pub proof fn lemma_docid_stable(before: Seq<DocView>, after: Seq<DocView>, content: Seq<ContentView>,
    collection: Seq<char>, files: Seq<FileView>, now: Seq<char>, k: int)
    requires
        sync_outcome(before, after, content, collection, files, now),
        0 <= k < files.len(),
        files[k].content is Some,
        row_for(before, collection, files[k].path) is Some,
    ensures
        row_for(after, collection, files[k].path) is Some,
        row_for(after, collection, files[k].path)->0.docid == row_for(before, collection, files[k].path)->0.docid,
        row_for(after, collection, files[k].path)->0.id == row_for(before, collection, files[k].path)->0.id,
        row_for(after, collection, files[k].path)->0.hash == sha256_hex(files[k].content->0),
{
    assert(files[k].content is Some);
}

/// Whether the walk listed `path`.
pub fn is_listed(files: &Vec<ScannedFile>, path: &String) -> (r: bool)
    ensures
        r == listed(file_views(files@), path@),
{
    let ghost fv = file_views(files@);
    let mut k: usize = 0;
    while k < files.len()
        invariant
            k <= files@.len(),
            fv == file_views(files@),
            forall|j: int| 0 <= j < k ==> fv[j].path != path@,
        decreases files@.len() - k,
    {
        if files[k].path == *path {
            proof {
                assert(fv[k as int].path == path@);
            }
            return true;
        }
        k = k + 1;
    }
    false
}

impl Store {
    /// Reconciles the catalog with one listed file (see `sync_collection`),
    /// and says how the file was treated. Only the row of the file's key changes.
    pub fn sync_file(&mut self, collection: &str, file: &ScannedFile, now: &str) -> (kind: FileKind)
        requires
            old(self).wf(),
            old(self).next_id + 1 < u64::MAX,
        ensures
            final(self).wf(),
            kind == file_kind(old(self).docs(), collection@, file@),
            file@.content is None ==> final(self).docs() == old(self).docs() && final(self).content() == old(self).content(),
            file@.content is Some ==> row_for(final(self).docs(), collection@, file@.path) is Some
                && synced_row(row_for(final(self).docs(), collection@, file@.path)->0,
                    row_for(old(self).docs(), collection@, file@.path), collection@, file@.path, file@.content->0, now@),
            forall|cc: Seq<char>, pp: Seq<char>| !(cc == collection@ && pp == file@.path) ==>
                #[trigger] row_for(final(self).docs(), cc, pp) == row_for(old(self).docs(), cc, pp),
            file@.content is Some ==> has_hash(final(self).content(), sha256_hex(file@.content->0)),
            kind == FileKind::Unchanged ==> final(self).content() == old(self).content(),
            old(self).content().len() <= final(self).content().len(),
            forall|i: int| 0 <= i < old(self).content().len() ==> final(self).content()[i] == old(self).content()[i],
            final(self).next_id <= old(self).next_id + 1,
            final(self).embeddings@ == old(self).embeddings@,
            final(self).dimension == old(self).dimension,
    {
        match &file.content {
            None => FileKind::Skipped,
            Some(body) => {
                let hash = Self::hash_content(body.as_str());
                self.reconcile_file(collection, file.path.as_str(), body.as_str(), hash.as_str(), now)
            },
        }
    }

    /// Reconciles the catalog with a readable file at `path` whose body has
    /// the content hash `hash` (as `Store::hash_content` gives it): stores the body under the hash unless the
    /// active document there already has it, then inserts, reactivates,
    /// updates or retitles the row of (collection, path), and says which case
    /// it was. Only the row of that key changes.
    pub fn reconcile_file(&mut self, collection: &str, path: &str, body: &str, hash: &str, now: &str) -> (kind: FileKind)
        requires
            old(self).wf(),
            hash@ == sha256_hex(body@),
            old(self).next_id + 1 < u64::MAX,
        ensures
            final(self).wf(),
            kind == hash_kind(old(self).docs(), collection@, path@, hash@),
            row_for(final(self).docs(), collection@, path@) is Some,
            reconciled_row(row_for(final(self).docs(), collection@, path@)->0,
                row_for(old(self).docs(), collection@, path@), collection@, path@, hash@, title_of(body@), now@),
            forall|cc: Seq<char>, pp: Seq<char>| !(cc == collection@ && pp == path@) ==>
                #[trigger] row_for(final(self).docs(), cc, pp) == row_for(old(self).docs(), cc, pp),
            has_hash(final(self).content(), hash@),
            kind != FileKind::Unchanged ==> final(self).content() == put_content(old(self).content(), hash@, body@, now@),
            kind == FileKind::Unchanged ==> final(self).content() == old(self).content(),
            final(self).next_id <= old(self).next_id + 1,
            final(self).embeddings@ == old(self).embeddings@,
            final(self).dimension == old(self).dimension,
    {
        let ghost cur = self.docs();
        let ghost c = collection@;
        let ghost p = path@;
        let ghost content_before = self.content();
        let title = extract_title(body);
        let ghost v: DocView;
        let kind;
        match self.find_active_document(collection, path) {
            Some((id, existing_hash, existing_title)) => {
                let ghost i = choose|i: int| #[trigger] is_active_row_of(cur, i, c, p)
                    && cur[i].id == id && cur[i].hash == existing_hash@ && cur[i].title == existing_title@;
                proof {
                    lemma_row_for_index(cur, i);
                }
                if same_text(hash, &existing_hash) {
                    if existing_title != title {
                        self.update_document_title(id, title.as_str(), now);
                        proof {
                            v = DocView { title: title@, modified_at: now@, ..cur[i] };
                            lemma_row_for_update(cur, i, v);
                        }
                    } else {
                        proof {
                            v = cur[i];
                        }
                    }
                    kind = FileKind::Unchanged;
                } else {
                    self.insert_content(hash, body, now);
                    self.update_document(id, title.as_str(), hash, now);
                    proof {
                        v = DocView { title: title@, hash: hash@, modified_at: now@, ..cur[i] };
                        lemma_row_for_update(cur, i, v);
                    }
                    kind = FileKind::Updated;
                }
            },
            None => {
                self.insert_content(hash, body, now);
                self.insert_document(collection, path, title.as_str(), hash, now, now);
                proof {
                    if exists|i: int| is_row_of(cur, i, c, p) {
                        let i = choose|i: int| #[trigger] is_row_of(cur, i, c, p)
                            && self.docs() == cur.update(i, DocView {
                                active: true, title: title@, hash: hash@, modified_at: now@, ..cur[i] });
                        v = DocView { active: true, title: title@, hash: hash@, modified_at: now@, ..cur[i] };
                        lemma_row_for_update(cur, i, v);
                        lemma_row_for_index(cur, i);
                        assert(!is_active_row_of(cur, i, c, p));
                    } else {
                        lemma_row_for_none(cur, c, p);
                        v = DocView {
                            id: (self.next_id - 1) as u64, collection: c, path: p, title: title@, hash: hash@,
                            docid: docid_of(c, p), active: true, created_at: now@, modified_at: now@ };
                        lemma_row_for_push(cur, v);
                    }
                }
                kind = FileKind::New;
            },
        }
        proof {
            assert(forall|cc: Seq<char>, pp: Seq<char>| #[trigger] row_for(self.docs(), cc, pp) ==
                if cc == c && pp == p { Some(v) } else { row_for(cur, cc, pp) });
            assert(reconciled_row(v, row_for(cur, c, p), c, p, hash@, title_of(body@), now@));
            if kind == FileKind::Unchanged {
                assert(row_for(self.docs(), c, p) == Some(v));
                assert(exists|j: int| is_row_of(self.docs(), j, c, p));
                let j = choose|j: int| is_row_of(self.docs(), j, c, p);
                assert(self.docs()[j] == v);
                assert(v.hash == hash@);
                assert(has_hash(self.content(), self.docs()[j].hash));
            } else {
                let hh = hash@;
                if has_hash(content_before, hh) {
                    let w = choose|w: int| 0 <= w < content_before.len() && #[trigger] content_before[w].hash == hh;
                    assert(self.content()[w].hash == hh);
                } else {
                    assert(self.content()[self.content().len() - 1].hash == hh);
                }
            }
        }
        kind
    }

    /// Deactivates the active documents of `collection` whose path the walk
    /// did not list, and returns how many it deactivated.
    pub fn deactivate_unlisted(&mut self, collection: &str, files: &Vec<ScannedFile>) -> (r: usize)
        requires
            old(self).wf(),
        ensures
            final(self).wf(),
            r == count_unlisted(active_paths(old(self).docs(), collection@), file_views(files@)),
            forall|cc: Seq<char>, pp: Seq<char>| #[trigger] row_for(final(self).docs(), cc, pp)
                == untouched_row(old(self).docs(), collection@, file_views(files@), cc, pp),
            final(self).content() == old(self).content(),
            final(self).next_id == old(self).next_id,
            final(self).embeddings@ == old(self).embeddings@,
            final(self).dimension == old(self).dimension,
    {
        let ghost fv = file_views(files@);
        let ghost docs0 = self.docs();
        let ghost content0 = self.content();
        let ghost c = collection@;
        let ghost next0 = self.next_id;
        let paths = self.get_active_document_paths(collection);
        let ghost pv = paths@.map_values(|p: String| p@);
        let mut deactivated_count: usize = 0;
        let mut j: usize = 0;
        while j < paths.len()
            invariant
                self.wf(),
                j <= paths@.len(),
                pv == paths@.map_values(|p: String| p@),
                pv == active_paths(docs0, c),
                c == collection@,
                fv == file_views(files@),
                deactivated_count == count_unlisted(pv.take(j as int), fv),
                deactivated_count <= j,
                self.content() == content0,
                self.next_id == next0,
                self.embeddings@ == old(self).embeddings@,
                self.dimension == old(self).dimension,
                forall|cc: Seq<char>, pp: Seq<char>| #[trigger] row_for(self.docs(), cc, pp) ==
                    if cc == c && !listed(fv, pp) && pv.take(j as int).contains(pp) {
                        deactivated(row_for(docs0, cc, pp))
                    } else {
                        row_for(docs0, cc, pp)
                    },
            decreases paths@.len() - j,
        {
            proof {
                assert(pv.take(j as int + 1).drop_last() =~= pv.take(j as int));
                assert(pv.take(j as int + 1).last() == pv[j as int]);
            }
            let ghost before = self.docs();
            let path_j = &paths[j];
            assert(path_j@ == pv[j as int]);
            let is_in = is_listed(files, path_j);
            if !is_in {
                self.deactivate_document(collection, path_j.as_str());
                deactivated_count = deactivated_count + 1;
                proof {
                    assert(forall|cc: Seq<char>, pp: Seq<char>| #[trigger] row_for(self.docs(), cc, pp) ==
                        if cc == c && pp == pv[j as int] { deactivated(row_for(before, cc, pp)) } else { row_for(before, cc, pp) });
                }
            }
            proof {
                let q = pv[j as int];
                assert(paths@[j as int]@ == q);
                assert(pv.take(j as int + 1) =~= pv.take(j as int).push(q));
                assert forall|cc: Seq<char>, pp: Seq<char>| #[trigger] row_for(self.docs(), cc, pp) ==
                    if cc == c && !listed(fv, pp) && pv.take(j as int + 1).contains(pp) {
                        deactivated(row_for(docs0, cc, pp))
                    } else {
                        row_for(docs0, cc, pp)
                    } by {
                    lemma_contains_push(pv.take(j as int), q, pp);
                    assert(row_for(before, cc, pp) ==
                        if cc == c && !listed(fv, pp) && pv.take(j as int).contains(pp) {
                            deactivated(row_for(docs0, cc, pp))
                        } else {
                            row_for(docs0, cc, pp)
                        });
                    if is_in {
                        assert(self.docs() == before);
                    } else {
                    }
                }
            }
            j = j + 1;
        }
        proof {
            assert(pv.take(pv.len() as int) =~= pv);
            assert forall|cc: Seq<char>, pp: Seq<char>| #[trigger] row_for(self.docs(), cc, pp) ==
                (if cc == c && !listed(fv, pp) { deactivated(row_for(docs0, cc, pp)) } else { row_for(docs0, cc, pp) }) by {
                if cc == c && !listed(fv, pp) && !pv.contains(pp) {
                    if exists|i: int| is_row_of(docs0, i, cc, pp) {
                        let i = choose|i: int| is_row_of(docs0, i, cc, pp);
                        lemma_row_for_index(docs0, i);
                        if docs0[i].active {
                            lemma_active_paths_lists(docs0, c, i);
                        }
                        assert(deactivated(row_for(docs0, cc, pp)) == row_for(docs0, cc, pp));
                    }
                }
            }
        }
        deactivated_count
    }

    /// Reconciles the catalog with each listed file in turn; returns the
    /// numbers of new, updated, unchanged and skipped files.
    #[verifier::rlimit(60)]
    pub fn sync_listed(&mut self, collection: &str, files: &Vec<ScannedFile>, now: &str) -> (r: (usize, usize, usize, usize))
        requires
            old(self).wf(),
            paths_distinct(file_views(files@)),
            old(self).next_id + files@.len() < u64::MAX,
        ensures
            final(self).wf(),
            r.0 == count_kind(file_views(files@), old(self).docs(), collection@, FileKind::New),
            r.1 == count_kind(file_views(files@), old(self).docs(), collection@, FileKind::Updated),
            r.2 == count_kind(file_views(files@), old(self).docs(), collection@, FileKind::Unchanged),
            r.3 == count_kind(file_views(files@), old(self).docs(), collection@, FileKind::Skipped),
            forall|k: int| 0 <= k < files@.len() && (#[trigger] file_views(files@)[k]).content is Some ==> {
                let f = file_views(files@)[k];
                &&& row_for(final(self).docs(), collection@, f.path) is Some
                &&& synced_row(row_for(final(self).docs(), collection@, f.path)->0,
                        row_for(old(self).docs(), collection@, f.path), collection@, f.path, f.content->0, now@)
                &&& has_hash(final(self).content(), sha256_hex(f.content->0))
            },
            forall|cc: Seq<char>, pp: Seq<char>|
                !(cc == collection@ && exists|x: int| 0 <= x < files@.len() && file_views(files@)[x].path == pp
                    && (#[trigger] file_views(files@)[x]).content is Some) ==>
                #[trigger] row_for(final(self).docs(), cc, pp) == row_for(old(self).docs(), cc, pp),
            old(self).content().len() <= final(self).content().len(),
            forall|i: int| 0 <= i < old(self).content().len() ==> final(self).content()[i] == old(self).content()[i],
            final(self).embeddings@ == old(self).embeddings@,
            final(self).dimension == old(self).dimension,
            final(self).next_id <= old(self).next_id + files@.len(),
            r.0 == 0 && r.1 == 0 ==> final(self).content() == old(self).content(),
    {
        let ghost fv = file_views(files@);
        let ghost docs0 = self.docs();
        let ghost content0 = self.content();
        let ghost c = collection@;
        let ghost next0 = self.next_id;
        let mut indexed: usize = 0;
        let mut updated: usize = 0;
        let mut unchanged: usize = 0;
        let mut skipped: usize = 0;
        let mut k: usize = 0;
        proof {
            reveal(read_before);
            assert(fv.take(0) =~= seq![]);
        }
        while k < files.len()
            invariant
                self.wf(),
                k <= files@.len(),
                fv == file_views(files@),
                c == collection@,
                paths_distinct(fv),
                next0 + files@.len() < u64::MAX,
                self.next_id <= next0 + k,
                indexed == count_kind(fv.take(k as int), docs0, c, FileKind::New),
                updated == count_kind(fv.take(k as int), docs0, c, FileKind::Updated),
                unchanged == count_kind(fv.take(k as int), docs0, c, FileKind::Unchanged),
                skipped == count_kind(fv.take(k as int), docs0, c, FileKind::Skipped),
                indexed + updated + unchanged + skipped == k,
                indexed == 0 && updated == 0 ==> self.content() == content0,
                content0.len() <= self.content().len(),
                forall|i: int| 0 <= i < content0.len() ==> self.content()[i] == content0[i],
                self.embeddings@ == old(self).embeddings@,
                self.dimension == old(self).dimension,
                rows_synced(self.docs(), self.content(), docs0, c, fv, k as int, now@),
                rows_framed(self.docs(), docs0, c, fv, k as int),
            decreases files@.len() - k,
        {
            proof {
                assert(fv.take(k as int + 1).drop_last() =~= fv.take(k as int));
                assert(fv.take(k as int + 1).last() == fv[k as int]);
                assert(files@[k as int]@ == fv[k as int]);
            }
            let ghost cur = self.docs();
            let ghost content_cur = self.content();
            let file = &files[k];
            assert(file@ == fv[k as int]);
            let kind = self.sync_file(collection, file, now);
            proof {
                lemma_sync_step(cur, self.docs(), content_cur, self.content(), docs0, c, fv, k as int, now@, kind);
                assert(file_kind(cur, c, fv[k as int]) == file_kind(docs0, c, fv[k as int]));
            }
            match kind {
                FileKind::New => { indexed = indexed + 1; },
                FileKind::Updated => { updated = updated + 1; },
                FileKind::Unchanged => { unchanged = unchanged + 1; },
                FileKind::Skipped => { skipped = skipped + 1; },
            }
            k = k + 1;
        }
        proof {
            assert(fv.take(fv.len() as int) =~= fv);
            reveal(read_before);
        }
        (indexed, updated, unchanged, skipped)
    }

    /// Reconciles the catalog of `collection` with the files of one walk.
    ///
    /// Active documents whose path the walk did not list are deactivated. A
    /// readable file with no active document is inserted (or its old row
    /// reactivated, keeping its docid); one whose hash changed gets the new
    /// hash, title and modification time; one whose hash is unchanged keeps
    /// its row, but for a changed title. Unreadable files leave their row as
    /// it was. Every readable body is stored under its hash.
    pub fn sync_collection(&mut self, collection: &str, files: &Vec<ScannedFile>, now: &str) -> (r: SyncReport)
        requires
            old(self).wf(),
            paths_distinct(file_views(files@)),
            old(self).next_id + files@.len() < u64::MAX,
        ensures
            final(self).wf(),
            r.indexed == count_kind(file_views(files@), old(self).docs(), collection@, FileKind::New),
            r.updated == count_kind(file_views(files@), old(self).docs(), collection@, FileKind::Updated),
            r.unchanged == count_kind(file_views(files@), old(self).docs(), collection@, FileKind::Unchanged),
            r.skipped == count_kind(file_views(files@), old(self).docs(), collection@, FileKind::Skipped),
            r.deactivated == count_unlisted(active_paths(old(self).docs(), collection@), file_views(files@)),
            sync_outcome(old(self).docs(), final(self).docs(), final(self).content(), collection@, file_views(files@), now@),
            old(self).content().len() <= final(self).content().len(),
            forall|i: int| 0 <= i < old(self).content().len() ==> final(self).content()[i] == old(self).content()[i],
            final(self).next_id <= old(self).next_id + files@.len(),
            r.indexed == 0 && r.updated == 0 ==> final(self).content() == old(self).content(),
            final(self).embeddings@ == old(self).embeddings@,
            final(self).dimension == old(self).dimension,
    {
        let ghost fv = file_views(files@);
        let ghost docs0 = self.docs();
        let ghost c = collection@;
        let deactivated = self.deactivate_unlisted(collection, files);
        let ghost docs_a = self.docs();
        let (indexed, updated, unchanged, skipped) = self.sync_listed(collection, files, now);
        proof {
            assert forall|k: int| 0 <= k < fv.len() implies
                #[trigger] file_kind(docs_a, c, fv[k]) == file_kind(docs0, c, fv[k])
                && row_for(docs_a, c, fv[k].path) == row_for(docs0, c, fv[k].path) by {
                assert(listed(fv, fv[k].path));
            }
            lemma_count_kind_same(fv, docs_a, docs0, c, FileKind::New);
            lemma_count_kind_same(fv, docs_a, docs0, c, FileKind::Updated);
            lemma_count_kind_same(fv, docs_a, docs0, c, FileKind::Unchanged);
            lemma_count_kind_same(fv, docs_a, docs0, c, FileKind::Skipped);
            assert forall|k: int| 0 <= k < fv.len() && (#[trigger] fv[k]).content is None implies
                row_for(self.docs(), c, fv[k].path) == row_for(docs0, c, fv[k].path) by {
                if exists|x: int| 0 <= x < fv.len() && fv[x].path == fv[k].path && (#[trigger] fv[x]).content is Some {
                    let x = choose|x: int| 0 <= x < fv.len() && fv[x].path == fv[k].path && (#[trigger] fv[x]).content is Some;
                    assert(x != k);
                }
                assert(listed(fv, fv[k].path));
            }
            assert forall|cc: Seq<char>, pp: Seq<char>| !(cc == c && listed(fv, pp)) implies
                #[trigger] row_for(self.docs(), cc, pp) == untouched_row(docs0, c, fv, cc, pp) by {
                if cc == c && exists|x: int| 0 <= x < fv.len() && fv[x].path == pp && (#[trigger] fv[x]).content is Some {
                    let x = choose|x: int| 0 <= x < fv.len() && fv[x].path == pp && (#[trigger] fv[x]).content is Some;
                    assert(listed(fv, pp));
                }
            }
        }
        SyncReport { indexed, updated, unchanged, deactivated, skipped }
    }
}

} // verus!
