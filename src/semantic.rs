//! Vector search: the active documents ranked by the best cosine similarity
//! between the query vector and any of their embedded chunks.
use vstd::prelude::*;
use crate::fusion::hits;
use crate::lexical::{filter_view, rows_view, scope_rows, DocumentResult};
use crate::rank::{lemma_seq_le_total, lemma_seq_le_trans, seq_le, text_le};
use crate::store::{body_of, keys_unique, ContentView, DocView, EmbeddingRow, Store};
use crate::text::chars_of;
use crate::vectors::{
    cosine_of, cosine_similarity, lemma_value_ge_total, lemma_value_ge_trans, similarity_ge, value_ge,
    Similarity, VectorError, DOT_BOUND, NORMS_BOUND,
};

verus! {

/// The best similarity between `q` and the embedded chunks of the body with
/// this hash (the first of equal ones), if it has any.
pub open spec fn best_similarity(embs: Seq<EmbeddingRow>, hash: Seq<char>, q: Seq<i8>) -> Option<(int, int)>
    decreases embs.len(),
{
    if embs.len() == 0 {
        None
    } else {
        let rest = best_similarity(embs.drop_last(), hash, q);
        let e = embs.last();
        if e.hash@ == hash && e.vector@.len() == q.len() {
            let c = cosine_of(e.vector@, q);
            match rest {
                None => Some(c),
                Some(r) => if value_ge(r.0, r.1, c.0, c.1) { Some(r) } else { Some(c) },
            }
        } else {
            rest
        }
    }
}

/// The vector candidates among the first `m` documents of the scope: each
/// with an embedded chunk, with its best similarity.
pub open spec fn vector_candidates_upto(docs: Seq<DocView>, embs: Seq<EmbeddingRow>, rows: Seq<int>, q: Seq<i8>, m: int)
    -> Seq<(int, (int, int))>
    decreases m,
{
    if m <= 0 {
        seq![]
    } else {
        let rest = vector_candidates_upto(docs, embs, rows, q, m - 1);
        match best_similarity(embs, docs[rows[m - 1]].hash, q) {
            Some(s) => rest.push((m - 1, s)),
            None => rest,
        }
    }
}

pub open spec fn vector_candidates(docs: Seq<DocView>, embs: Seq<EmbeddingRow>, rows: Seq<int>, q: Seq<i8>) -> Seq<(int, (int, int))> {
    vector_candidates_upto(docs, embs, rows, q, rows.len() as int)
}

/// A document found by vector search and its similarity.
pub struct VectorResult {
    pub doc: DocumentResult,
    pub score: Similarity,
}

/// The sort key of a vector result.
pub struct VecKey {
    pub dot: int,
    pub norms: int,
    pub length: nat,
    pub path: Seq<char>,
}

/// `a` ranks at or before `b`: a higher similarity, or an equal one and a
/// shorter body, or equal lengths and a path that comes first.
pub open spec fn vkey_before(a: VecKey, b: VecKey) -> bool {
    let ab = value_ge(a.dot, a.norms, b.dot, b.norms);
    let ba = value_ge(b.dot, b.norms, a.dot, a.norms);
    (ab && !ba) || (ab && ba && (a.length < b.length || (a.length == b.length && seq_le(a.path, b.path))))
}

pub proof fn lemma_vkey_total(a: VecKey, b: VecKey)
    requires
        a.norms >= 0,
        b.norms >= 0,
    ensures
        vkey_before(a, b) || vkey_before(b, a),
{
    lemma_value_ge_total(a.dot, a.norms, b.dot, b.norms);
    lemma_seq_le_total(a.path, b.path);
}

pub proof fn lemma_vkey_trans(a: VecKey, b: VecKey, c: VecKey)
    requires
        a.norms >= 0,
        b.norms >= 0,
        c.norms >= 0,
        vkey_before(a, b),
        vkey_before(b, c),
    ensures
        vkey_before(a, c),
{
    lemma_value_ge_trans(a.dot, a.norms, b.dot, b.norms, c.dot, c.norms);
    if value_ge(c.dot, c.norms, a.dot, a.norms) {
        lemma_value_ge_trans(b.dot, b.norms, c.dot, c.norms, a.dot, a.norms);
        lemma_value_ge_trans(c.dot, c.norms, a.dot, a.norms, b.dot, b.norms);
    }
    if a.length == b.length && b.length == c.length {
        if seq_le(a.path, b.path) && seq_le(b.path, c.path) {
            lemma_seq_le_trans(a.path, b.path, c.path);
        }
    }
}

pub open spec fn vresult_key(r: VectorResult) -> VecKey {
    VecKey { dot: r.score.dot as int, norms: r.score.norms as int, length: r.doc.body_length as nat, path: r.doc.path@ }
}

pub open spec fn ranked_vresults(out: Seq<VectorResult>) -> bool {
    forall|a: int, b: int| 0 <= a < b < out.len() ==> vkey_before(vresult_key(out[a]), vresult_key(out[b]))
}

/// `r` describes catalog row `row` with this similarity.
pub open spec fn describes_v(r: VectorResult, docs: Seq<DocView>, content: Seq<ContentView>, row: int, s: (int, int)) -> bool {
    &&& 0 <= row < docs.len()
    &&& r.doc.docid@ == docs[row].docid
    &&& r.doc.collection_name@ == docs[row].collection
    &&& r.doc.path@ == docs[row].path
    &&& r.doc.title@ == docs[row].title
    &&& r.doc.hash@ == docs[row].hash
    &&& r.doc.body_length == body_of(content, docs[row].hash).len()
    &&& (r.score.dot as int, r.score.norms as int) == s
}

pub open spec fn from_vcandidates(r: VectorResult, docs: Seq<DocView>, content: Seq<ContentView>, rows: Seq<int>,
    cands: Seq<(int, (int, int))>) -> bool
{
    exists|c: int| 0 <= c < cands.len() && #[trigger] describes_v(r, docs, content, rows[cands[c].0], cands[c].1)
}

/// Candidate `row` is among the results, or ranks after every one of them.
pub open spec fn vkept_or_behind(out: Seq<VectorResult>, docs: Seq<DocView>, content: Seq<ContentView>, row: int, s: (int, int)) -> bool {
    (exists|a: int| 0 <= a < out.len() && #[trigger] describes_v(out[a], docs, content, row, s))
    || forall|a: int| 0 <= a < out.len() ==> vkey_before(vresult_key(out[a]),
        VecKey { dot: s.0, norms: s.1, length: body_of(content, docs[row].hash).len(), path: docs[row].path })
}

/// `out` holds the best `limit` vector candidates, one result each, in rank
/// order, and no candidate left out ranks before one kept.
pub open spec fn is_top_vresults(out: Seq<VectorResult>, docs: Seq<DocView>, content: Seq<ContentView>,
    rows: Seq<int>, cands: Seq<(int, (int, int))>, limit: nat) -> bool
{
    &&& out.len() == if limit < cands.len() { limit } else { cands.len() }
    &&& forall|a: int| 0 <= a < out.len() ==> #[trigger] from_vcandidates(out[a], docs, content, rows, cands)
    &&& ranked_vresults(out)
    &&& forall|a: int, b: int| 0 <= a < b < out.len() ==> out[a].doc.path@ != out[b].doc.path@
        || out[a].doc.collection_name@ != out[b].doc.collection_name@
    &&& forall|c: int| 0 <= c < cands.len() ==> #[trigger] vkept_or_behind(out, docs, content, rows[cands[c].0], cands[c].1)
}

/// Whether result `a` ranks at or before `b`.
fn vresult_before(a: &VectorResult, b: &VectorResult) -> (r: bool)
    requires
        -DOT_BOUND <= a.score.dot <= DOT_BOUND,
        -DOT_BOUND <= b.score.dot <= DOT_BOUND,
        a.score.norms <= NORMS_BOUND,
        b.score.norms <= NORMS_BOUND,
    ensures
        r == vkey_before(vresult_key(*a), vresult_key(*b)),
{
    let ab = similarity_ge(a.score, b.score);
    let ba = similarity_ge(b.score, a.score);
    if ab && !ba {
        return true;
    }
    if !ab {
        return false;
    }
    if a.doc.body_length != b.doc.body_length {
        return a.doc.body_length < b.doc.body_length;
    }
    text_le(&chars_of(a.doc.path.as_str()), &chars_of(b.doc.path.as_str()))
}

pub open spec fn bounded(r: VectorResult) -> bool {
    -DOT_BOUND <= r.score.dot <= DOT_BOUND && r.score.norms <= NORMS_BOUND
}

/// Inserts `e` after every result that ranks at or before it.
fn insert_vresult(out: &mut Vec<VectorResult>, e: VectorResult) -> (p: usize)
    requires
        ranked_vresults(old(out)@),
        forall|x: int| 0 <= x < old(out)@.len() ==> bounded(#[trigger] old(out)@[x]),
        bounded(e),
    ensures
        p <= old(out)@.len(),
        final(out)@ == old(out)@.insert(p as int, e),
        ranked_vresults(final(out)@),
        forall|x: int| 0 <= x < final(out)@.len() ==> bounded(#[trigger] final(out)@[x]),
{
    let mut p: usize = 0;
    while p < out.len() && vresult_before(&out[p], &e)
        invariant
            p <= out@.len(),
            out@ == old(out)@,
            ranked_vresults(out@),
            forall|x: int| 0 <= x < out@.len() ==> bounded(#[trigger] out@[x]),
            bounded(e),
            forall|x: int| 0 <= x < p ==> vkey_before(vresult_key(#[trigger] out@[x]), vresult_key(e)),
        decreases out@.len() - p,
    {
        p = p + 1;
    }
    let ghost o = out@;
    proof {
        assert forall|x: int| p <= x < o.len() implies !vkey_before(vresult_key(#[trigger] o[x]), vresult_key(e)) by {
            assert(!vkey_before(vresult_key(o[p as int]), vresult_key(e)));
            assert(bounded(o[x]) && bounded(o[p as int]));
            if x > p && vkey_before(vresult_key(o[x]), vresult_key(e)) {
                lemma_vkey_trans(vresult_key(o[p as int]), vresult_key(o[x]), vresult_key(e));
            }
        }
    }
    out.insert(p, e);
    proof {
        let n = out@;
        assert forall|a: int, b: int| 0 <= a < b < n.len() implies vkey_before(vresult_key(n[a]), vresult_key(n[b])) by {
            if a < p && b == p {
            } else if a == p {
                assert(!vkey_before(vresult_key(o[b - 1]), vresult_key(e)));
                assert(bounded(o[b - 1]));
                lemma_vkey_total(vresult_key(o[b - 1]), vresult_key(e));
            } else if a < p && b > p {
                assert(vkey_before(vresult_key(o[a]), vresult_key(o[b - 1])));
            } else if a > p {
                assert(vkey_before(vresult_key(o[a - 1]), vresult_key(o[b - 1])));
            } else {
                assert(vkey_before(vresult_key(o[a]), vresult_key(o[b])));
            }
        }
        assert forall|x: int| 0 <= x < n.len() implies bounded(#[trigger] n[x]) by {
            if x < p { assert(n[x] == o[x]); } else if x > p { assert(n[x] == o[x - 1]); }
        }
    }
    p
}

impl Store {
    /// The best similarity between `q` and the chunks of the body with this hash.
    pub fn best_chunk_similarity(&self, hash: &String, q: &Vec<i8>) -> (r: Option<Similarity>)
        requires
            self.wf(),
            q@.len() <= 65536,
        ensures
            best_similarity(self.embeddings@, hash@, q@) == match r {
                Some(s) => Some((s.dot as int, s.norms as int)),
                None => None::<(int, int)>,
            },
            r matches Some(s) ==> -DOT_BOUND <= s.dot <= DOT_BOUND && s.norms <= NORMS_BOUND,
    {
        let ghost embs = self.embeddings@;
        let mut best: Option<Similarity> = None;
        let mut i: usize = 0;
        while i < self.embeddings.len()
            invariant
                i <= embs.len(),
                embs == self.embeddings@,
                q@.len() <= 65536,
                best_similarity(embs.take(i as int), hash@, q@) == match best {
                    Some(s) => Some((s.dot as int, s.norms as int)),
                    None => None::<(int, int)>,
                },
                best matches Some(s) ==> -DOT_BOUND <= s.dot <= DOT_BOUND && s.norms <= NORMS_BOUND,
            decreases embs.len() - i,
        {
            proof {
                assert(embs.take(i as int + 1).drop_last() =~= embs.take(i as int));
                assert(embs.take(i as int + 1).last() == embs[i as int]);
            }
            let e = &self.embeddings[i];
            if e.vector.len() == q.len() && e.hash == *hash {
                let c = cosine_similarity(&e.vector, q);
                match best {
                    None => { best = Some(c); },
                    Some(b) => {
                        if !similarity_ge(b, c) {
                            best = Some(c);
                        }
                    },
                }
            }
            i = i + 1;
        }
        proof {
            assert(embs.take(embs.len() as int) =~= embs);
        }
        best
    }
}

pub proof fn lemma_vector_candidates_increasing(docs: Seq<DocView>, embs: Seq<EmbeddingRow>, rows: Seq<int>, q: Seq<i8>, m: int)
    requires
        0 <= m,
    ensures
        forall|a: int, b: int| 0 <= a < b < vector_candidates_upto(docs, embs, rows, q, m).len() ==>
            vector_candidates_upto(docs, embs, rows, q, m)[a].0 < vector_candidates_upto(docs, embs, rows, q, m)[b].0,
        forall|a: int| 0 <= a < vector_candidates_upto(docs, embs, rows, q, m).len() ==>
            0 <= #[trigger] vector_candidates_upto(docs, embs, rows, q, m)[a].0 < m,
    decreases m,
{
    if m > 0 {
        lemma_vector_candidates_increasing(docs, embs, rows, q, m - 1);
        let rest = vector_candidates_upto(docs, embs, rows, q, m - 1);
        let out = vector_candidates_upto(docs, embs, rows, q, m);
        assert forall|a: int| 0 <= a < out.len() implies 0 <= #[trigger] out[a].0 < m by {
            if a < rest.len() {
                assert(out[a] == rest[a]);
            }
        }
        assert forall|a: int, b: int| 0 <= a < b < out.len() implies out[a].0 < out[b].0 by {
            assert(out[a] == rest[a]);
            if b < rest.len() {
                assert(out[b] == rest[b]);
            }
        }
    }
}

impl Store {
    /// Vector search: the active documents (of `collection`, where given)
    /// with an embedded chunk, ranked by their best chunk similarity to
    /// `query`, best `limit` first (see `is_top_vresults`). Without a vector
    /// table, or for a query of another dimension, it is an error.
    #[verifier::rlimit(80)]
    pub fn search_vec(&self, query: &Vec<i8>, limit: usize, collection: Option<&str>) -> (r: Result<Vec<VectorResult>, VectorError>)
        requires
            self.wf(),
        ensures
            self.dimension is None ==> r == Err::<Vec<VectorResult>, VectorError>(VectorError::NoVectorTable),
            self.dimension is Some && query@.len() != self.dimension->0 ==> r == Err::<Vec<VectorResult>, VectorError>(
                VectorError::DimensionMismatch { expected: self.dimension->0, got: query@.len() as usize }),
            self.dimension is Some && query@.len() == self.dimension->0 ==> r is Ok,
            r matches Ok(out) ==> is_top_vresults(out@, self.docs(), self.content(),
                scope_rows(self.docs(), filter_view(collection)),
                vector_candidates(self.docs(), self.embeddings@, scope_rows(self.docs(), filter_view(collection)), query@),
                limit as nat),
    {
        let d = match self.dimension {
            None => { return Err(VectorError::NoVectorTable); },
            Some(d) => d,
        };
        if query.len() != d {
            return Err(VectorError::DimensionMismatch { expected: d, got: query.len() });
        }
        let ghost docs = self.docs();
        let ghost content = self.content();
        let ghost embs = self.embeddings@;
        let rows = self.scope_of(collection);
        let ghost rv = rows_view(rows@);
        let ghost qv = query@;
        let mut found: Vec<VectorResult> = Vec::new();
        let mut k: usize = 0;
        while k < rows.len()
            invariant
                self.wf(),
                docs == self.docs(),
                content == self.content(),
                embs == self.embeddings@,
                qv == query@,
                qv.len() <= 65536,
                rv == rows_view(rows@),
                rv == scope_rows(docs, filter_view(collection)),
                forall|x: int| 0 <= x < rows@.len() ==> #[trigger] rows@[x] < docs.len(),
                k <= rows@.len(),
                found@.len() == vector_candidates_upto(docs, embs, rv, qv, k as int).len(),
                forall|c: int| 0 <= c < found@.len() ==> #[trigger] describes_v(found@[c], docs, content,
                    rv[vector_candidates_upto(docs, embs, rv, qv, k as int)[c].0],
                    vector_candidates_upto(docs, embs, rv, qv, k as int)[c].1),
                forall|c: int| 0 <= c < found@.len() ==> bounded(#[trigger] found@[c]),
            decreases rows@.len() - k,
        {
            let row = rows[k];
            let doc = &self.documents[row];
            proof {
                assert(rv[k as int] == row as int);
            }
            match self.best_chunk_similarity(&doc.hash, query) {
                Some(sim) => {
                    let body_length = match self.get_content(doc.hash.as_str()) {
                        Some(b) => chars_of(b.as_str()).len(),
                        None => 0,
                    };
                    let res = VectorResult {
                        doc: DocumentResult {
                            docid: doc.docid.clone(),
                            collection_name: doc.collection.clone(),
                            path: doc.path.clone(),
                            title: doc.title.clone(),
                            hash: doc.hash.clone(),
                            body_length,
                        },
                        score: sim,
                    };
                    let ghost before = found@;
                    found.push(res);
                    proof {
                        let cands = vector_candidates_upto(docs, embs, rv, qv, k as int + 1);
                        assert(cands == vector_candidates_upto(docs, embs, rv, qv, k as int).push(
                            (k as int, (sim.dot as int, sim.norms as int))));
                        assert forall|c: int| 0 <= c < found@.len() implies #[trigger] describes_v(found@[c], docs, content,
                            rv[cands[c].0], cands[c].1) && bounded(found@[c]) by {
                            if c < before.len() {
                                assert(found@[c] == before[c]);
                            }
                        }
                    }
                },
                None => {
                    proof {
                        assert(vector_candidates_upto(docs, embs, rv, qv, k as int + 1)
                            == vector_candidates_upto(docs, embs, rv, qv, k as int));
                    }
                },
            }
            k = k + 1;
        }
        let ghost cands = vector_candidates_upto(docs, embs, rv, qv, rows@.len() as int);
        // Order the results.
        let ghost all = found@;
        let mut sorted: Vec<VectorResult> = Vec::new();
        let ghost mut perm: Seq<int> = seq![];
        while found.len() > 0
            invariant
                found@ == all.take(found@.len() as int),
                forall|c: int| 0 <= c < all.len() ==> bounded(#[trigger] all[c]),
                ranked_vresults(sorted@),
                forall|x: int| 0 <= x < sorted@.len() ==> bounded(#[trigger] sorted@[x]),
                sorted@.len() + found@.len() == all.len(),
                perm.len() == sorted@.len(),
                forall|x: int| 0 <= x < sorted@.len() ==> found@.len() <= #[trigger] perm[x] < all.len()
                    && sorted@[x] == all[perm[x]],
                forall|x: int, y: int| 0 <= x < y < sorted@.len() ==> perm[x] != perm[y],
                forall|t: int| found@.len() <= t < all.len() ==> #[trigger] hits(perm, sorted@.len() as int, t),
            decreases found@.len(),
        {
            let ghost n = found@.len() - 1;
            let e = found.pop().unwrap();
            proof {
                assert(e == all[n]);
                assert(found@ =~= all.take(n));
            }
            let ghost o = sorted@;
            let p = insert_vresult(&mut sorted, e);
            proof {
                let old_perm = perm;
                perm = perm.insert(p as int, n);
                let m = sorted@;
                assert forall|x: int| 0 <= x < m.len() implies found@.len() <= #[trigger] perm[x] < all.len()
                    && m[x] == all[perm[x]] by {
                    if x < p {
                        assert(perm[x] == old_perm[x] && m[x] == o[x]);
                    } else if x > p {
                        assert(perm[x] == old_perm[x - 1] && m[x] == o[x - 1]);
                    }
                }
                assert forall|x: int, y: int| 0 <= x < y < m.len() implies perm[x] != perm[y] by {
                    if x < p && y > p {
                        assert(perm[x] == old_perm[x] && perm[y] == old_perm[y - 1]);
                    } else if x > p {
                        assert(perm[x] == old_perm[x - 1] && perm[y] == old_perm[y - 1]);
                    } else if y < p {
                        assert(perm[x] == old_perm[x] && perm[y] == old_perm[y]);
                    } else if x == p {
                        assert(perm[y] == old_perm[y - 1]);
                    } else {
                        assert(perm[x] == old_perm[x]);
                    }
                }
                assert forall|t: int| found@.len() <= t < all.len() implies #[trigger] hits(perm, m.len() as int, t) by {
                    if t == n {
                        assert(perm[p as int] == t);
                    } else {
                        assert(hits(old_perm, o.len() as int, t));
                        let x = choose|x: int| 0 <= x < o.len() && #[trigger] old_perm[x] == t;
                        if x < p {
                            assert(perm[x] == t);
                        } else {
                            assert(perm[x + 1] == t);
                        }
                    }
                }
            }
        }
        let ghost full = sorted@;
        sorted.truncate(limit);
        proof {
            let out = sorted@;
            lemma_vector_candidates_increasing(docs, embs, rv, qv, rv.len() as int);
            crate::lexical::lemma_scope_rows_increasing(docs, filter_view(collection));
            assert forall|a: int| 0 <= a < out.len() implies #[trigger] from_vcandidates(out[a], docs, content, rv, cands) by {
                assert(out[a] == full[a]);
                assert(describes_v(all[perm[a]], docs, content, rv[cands[perm[a]].0], cands[perm[a]].1));
            }
            assert forall|a: int, b: int| 0 <= a < b < out.len() implies vkey_before(vresult_key(out[a]), vresult_key(out[b])) by {
                assert(out[a] == full[a] && out[b] == full[b]);
            }
            assert forall|a: int, b: int| 0 <= a < b < out.len() implies out[a].doc.path@ != out[b].doc.path@
                || out[a].doc.collection_name@ != out[b].doc.collection_name@ by {
                assert(out[a] == full[a] && out[b] == full[b]);
                let ca = perm[a];
                let cb = perm[b];
                assert(ca != cb);
                let ra = rv[cands[ca].0];
                let rb = rv[cands[cb].0];
                assert(0 <= cands[ca].0 < rv.len() && 0 <= cands[cb].0 < rv.len());
                assert(describes_v(all[ca], docs, content, ra, cands[ca].1));
                assert(describes_v(all[cb], docs, content, rb, cands[cb].1));
                assert(keys_unique(docs));
                if ca < cb {
                    assert(cands[ca].0 < cands[cb].0);
                    assert(ra < rb);
                    assert(!(docs[ra].collection == docs[rb].collection && docs[ra].path == docs[rb].path));
                } else {
                    assert(cands[cb].0 < cands[ca].0);
                    assert(rb < ra);
                    assert(!(docs[rb].collection == docs[ra].collection && docs[rb].path == docs[ra].path));
                }
            }
            assert forall|c: int| 0 <= c < cands.len() implies #[trigger] vkept_or_behind(out, docs, content, rv[cands[c].0], cands[c].1) by {
                assert(hits(perm, full.len() as int, c));
                let x = choose|x: int| 0 <= x < full.len() && #[trigger] perm[x] == c;
                assert(describes_v(full[x], docs, content, rv[cands[c].0], cands[c].1));
                if x < out.len() {
                    assert(out[x] == full[x]);
                    assert(describes_v(out[x], docs, content, rv[cands[c].0], cands[c].1));
                } else {
                    assert forall|a: int| 0 <= a < out.len() implies vkey_before(vresult_key(out[a]),
                        VecKey { dot: cands[c].1.0, norms: cands[c].1.1, length: body_of(content, docs[rv[cands[c].0]].hash).len(),
                            path: docs[rv[cands[c].0]].path }) by {
                        assert(out[a] == full[a]);
                        assert(vkey_before(vresult_key(full[a]), vresult_key(full[x])));
                    }
                }
            }
        }
        Ok(sorted)
    }
}

} // verus!
