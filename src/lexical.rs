//! Lexical search: BM25-style ranking of the active documents by the terms
//! of a query, over each document's title and body.
//!
//! Terms are runs of letters and digits (any non-ASCII character counts as
//! a letter), compared with ASCII case folded. A term `t` in a document of
//! `dl` terms, in a scope of `n_docs` documents totalling `total` terms,
//! weighs `idf(n_docs, df) * tf_part(tf, dl, total, n_docs)`: the BM25 term
//! saturation and length normalization (k1 = 6/5, b = 3/4), and as inverse
//! document frequency the odds `(N - n + 1/2) / (n + 1/2)` that BM25 takes
//! the logarithm of, kept without it so that scores are exact integers.
use vstd::prelude::*;
use crate::fusion::hits;
use crate::rank::{key_before, lemma_key_total, lemma_key_trans, text_le, RankKey};
use crate::store::{body_of, keys_unique, ContentView, DocView, Store};
use crate::text::chars_of;

verus! {

/// The unit of `idf`.
pub const IDF_ONE: u128 = 1024;

/// The unit of `tf_part`.
pub const TF_ONE: u128 = 1024;

/// Largest number of documents a search scope may hold.
pub const MAX_SCOPE_DOCS: u128 = 4294967296;

/// Largest number of terms a search scope may hold.
pub const MAX_SCOPE_TERMS: u128 = 1099511627776;

pub open spec fn is_word_char(c: char) -> bool {
    ('a' <= c && c <= 'z') || ('A' <= c && c <= 'Z') || ('0' <= c && c <= '9') || (c as u32) > 127
}

/// The code of a character with ASCII case folded.
pub open spec fn fold_code(c: char) -> u32 {
    if 'A' <= c && c <= 'Z' { (c as u32 + 32) as u32 } else { c as u32 }
}

pub open spec fn scan_terms(s: Seq<char>) -> (Seq<Seq<u32>>, Seq<u32>)
    decreases s.len(),
{
    if s.len() == 0 {
        (seq![], seq![])
    } else {
        let (done, cur) = scan_terms(s.drop_last());
        let c = s.last();
        if is_word_char(c) {
            (done, cur.push(fold_code(c)))
        } else if cur.len() > 0 {
            (done.push(cur), seq![])
        } else {
            (done, cur)
        }
    }
}

/// The terms of a text, in order.
pub open spec fn terms_of(s: Seq<char>) -> Seq<Seq<u32>> {
    let (done, cur) = scan_terms(s);
    if cur.len() > 0 { done.push(cur) } else { done }
}

/// Occurrences of `t` among `terms`.
pub open spec fn term_count(terms: Seq<Seq<u32>>, t: Seq<u32>) -> nat
    decreases terms.len(),
{
    if terms.len() == 0 {
        0
    } else {
        term_count(terms.drop_last(), t) + if terms.last() == t { 1nat } else { 0nat }
    }
}

/// Total number of terms of the documents.
pub open spec fn total_terms(docs: Seq<Seq<Seq<u32>>>) -> nat
    decreases docs.len(),
{
    if docs.len() == 0 { 0 } else { total_terms(docs.drop_last()) + docs.last().len() }
}

/// Number of documents that hold `t`.
pub open spec fn doc_freq(docs: Seq<Seq<Seq<u32>>>, t: Seq<u32>) -> nat
    decreases docs.len(),
{
    if docs.len() == 0 {
        0
    } else {
        doc_freq(docs.drop_last(), t) + if term_count(docs.last(), t) > 0 { 1nat } else { 0nat }
    }
}

/// Inverse document frequency of a term found in `n` of `n_docs` documents.
pub open spec fn idf(n_docs: nat, n: nat) -> nat {
    if n > n_docs { 0 } else { ((IDF_ONE as nat) * ((2 * (n_docs - n) + 1) as nat) / ((2 * n + 1) as nat)) as nat }
}

/// Saturated, length-normalized term frequency.
pub open spec fn tf_part(tf: nat, dl: nat, total: nat, n_docs: nat) -> nat {
    if tf == 0 {
        0
    } else {
        ((TF_ONE as nat) * 44 * tf * total / ((20 * tf * total + 6 * total + 18 * dl * n_docs) as nat)) as nat
    }
}

/// The score of document `k` of the scope for the query terms `q`.
pub open spec fn bm25(docs: Seq<Seq<Seq<u32>>>, q: Seq<Seq<u32>>, k: int) -> nat
    decreases q.len(),
{
    if q.len() == 0 {
        0
    } else {
        bm25(docs, q.drop_last(), k) + idf(docs.len(), doc_freq(docs, q.last()))
            * tf_part(term_count(docs[k], q.last()), docs[k].len(), total_terms(docs), docs.len())
    }
}

/// Document `k` holds some query term.
pub open spec fn matches_query(docs: Seq<Seq<Seq<u32>>>, q: Seq<Seq<u32>>, k: int) -> bool {
    exists|j: int| 0 <= j < q.len() && term_count(docs[k], #[trigger] q[j]) > 0
}

/// The terms of a text (see `terms_of`).
pub fn tokenize(s: &Vec<char>) -> (r: Vec<Vec<u32>>)
    ensures
        r@.map_values(|t: Vec<u32>| t@) == terms_of(s@),
{
    let mut done: Vec<Vec<u32>> = Vec::new();
    let mut cur: Vec<u32> = Vec::new();
    let mut i: usize = 0;
    while i < s.len()
        invariant
            i <= s@.len(),
            (done@.map_values(|t: Vec<u32>| t@), cur@) == scan_terms(s@.take(i as int)),
        decreases s@.len() - i,
    {
        proof {
            assert(s@.take(i as int + 1).drop_last() =~= s@.take(i as int));
        }
        let c = s[i];
        let word = ('a' <= c && c <= 'z') || ('A' <= c && c <= 'Z') || ('0' <= c && c <= '9') || (c as u32) > 127;
        if word {
            let code: u32 = if 'A' <= c && c <= 'Z' { (c as u32) + 32 } else { c as u32 };
            cur.push(code);
            proof {
                assert(done@.map_values(|t: Vec<u32>| t@) =~= scan_terms(s@.take(i as int + 1)).0);
            }
        } else if cur.len() > 0 {
            let term = cur;
            done.push(term);
            cur = Vec::new();
            proof {
                assert(done@.map_values(|t: Vec<u32>| t@) =~= scan_terms(s@.take(i as int + 1)).0);
                assert(cur@ =~= scan_terms(s@.take(i as int + 1)).1);
            }
        }
        i = i + 1;
    }
    proof {
        assert(s@.take(s@.len() as int) =~= s@);
    }
    if cur.len() > 0 {
        done.push(cur);
        proof {
            assert(done@.map_values(|t: Vec<u32>| t@) =~= terms_of(s@));
        }
    }
    done
}

pub fn same_term(a: &Vec<u32>, b: &Vec<u32>) -> (r: bool)
    ensures
        r == (a@ == b@),
{
    if a.len() != b.len() {
        return false;
    }
    let mut i: usize = 0;
    while i < a.len()
        invariant
            i <= a@.len(),
            a@.len() == b@.len(),
            forall|j: int| 0 <= j < i ==> a@[j] == b@[j],
        decreases a@.len() - i,
    {
        if a[i] != b[i] {
            return false;
        }
        i = i + 1;
    }
    proof {
        assert(a@ =~= b@);
    }
    true
}

/// Occurrences of `t` among `terms`.
pub fn count_term(terms: &Vec<Vec<u32>>, t: &Vec<u32>) -> (r: u64)
    ensures
        r as nat == term_count(terms@.map_values(|x: Vec<u32>| x@), t@),
{
    let ghost tv = terms@.map_values(|x: Vec<u32>| x@);
    let mut n: u64 = 0;
    let mut i: usize = 0;
    while i < terms.len()
        invariant
            i <= terms@.len(),
            tv == terms@.map_values(|x: Vec<u32>| x@),
            n as nat == term_count(tv.take(i as int), t@),
            n <= i,
        decreases terms@.len() - i,
    {
        proof {
            assert(tv.take(i as int + 1).drop_last() =~= tv.take(i as int));
            assert(tv.take(i as int + 1).last() == terms@[i as int]@);
        }
        if same_term(&terms[i], t) {
            n = n + 1;
        }
        i = i + 1;
    }
    proof {
        assert(tv.take(tv.len() as int) =~= tv);
    }
    n
}

pub proof fn lemma_term_count_le(terms: Seq<Seq<u32>>, t: Seq<u32>)
    ensures
        term_count(terms, t) <= terms.len(),
    decreases terms.len(),
{
    if terms.len() > 0 {
        lemma_term_count_le(terms.drop_last(), t);
    }
}

pub proof fn lemma_doc_freq_le(docs: Seq<Seq<Seq<u32>>>, t: Seq<u32>)
    ensures
        doc_freq(docs, t) <= docs.len(),
    decreases docs.len(),
{
    if docs.len() > 0 {
        lemma_doc_freq_le(docs.drop_last(), t);
    }
}

pub proof fn lemma_doc_len_le_total(docs: Seq<Seq<Seq<u32>>>, k: int)
    requires
        0 <= k < docs.len(),
    ensures
        docs[k].len() <= total_terms(docs),
    decreases docs.len(),
{
    if k < docs.len() - 1 {
        lemma_doc_len_le_total(docs.drop_last(), k);
        assert(docs.drop_last()[k] == docs[k]);
    }
}

/// A document in the scope of a search: active, and in the collection asked for.
pub open spec fn in_scope(d: DocView, filter: Option<Seq<char>>) -> bool {
    d.active && match filter {
        Some(c) => d.collection == c,
        None => true,
    }
}

/// The catalog rows in the scope of a search, in catalog order.
pub open spec fn scope_rows(docs: Seq<DocView>, filter: Option<Seq<char>>) -> Seq<int>
    decreases docs.len(),
{
    if docs.len() == 0 {
        seq![]
    } else {
        let rest = scope_rows(docs.drop_last(), filter);
        if in_scope(docs.last(), filter) { rest.push(docs.len() - 1) } else { rest }
    }
}

/// What a search reads of a document: its title, a space, and its body.
pub open spec fn doc_text(d: DocView, content: Seq<ContentView>) -> Seq<char> {
    d.title + seq![' '] + body_of(content, d.hash)
}

/// The terms of each document in scope.
pub open spec fn scope_terms(docs: Seq<DocView>, content: Seq<ContentView>, rows: Seq<int>) -> Seq<Seq<Seq<u32>>> {
    Seq::new(rows.len(), |k: int| terms_of(doc_text(docs[rows[k]], content)))
}

pub open spec fn filter_view(collection: Option<&str>) -> Option<Seq<char>> {
    match collection {
        Some(c) => Some(c@),
        None => None,
    }
}

/// A found document.
pub struct DocumentResult {
    pub docid: String,
    pub collection_name: String,
    pub path: String,
    pub title: String,
    pub hash: String,
    pub body_length: usize,
}

/// A found document and its score.
pub struct SearchResult {
    pub doc: DocumentResult,
    pub score: u128,
}

/// Why a search could not run.
#[derive(Clone, Copy, Debug, PartialEq, Eq)]
pub enum SearchError {
    /// The scope holds more documents or terms than scores can be computed for.
    ScopeTooLarge,
}

/// `r` describes catalog row `row` with this score.
pub open spec fn describes(r: SearchResult, docs: Seq<DocView>, content: Seq<ContentView>, row: int, score: nat) -> bool {
    &&& 0 <= row < docs.len()
    &&& r.doc.docid@ == docs[row].docid
    &&& r.doc.collection_name@ == docs[row].collection
    &&& r.doc.path@ == docs[row].path
    &&& r.doc.title@ == docs[row].title
    &&& r.doc.hash@ == docs[row].hash
    &&& r.doc.body_length == body_of(content, docs[row].hash).len()
    &&& r.score == score
}

pub open spec fn result_key(r: SearchResult) -> RankKey {
    RankKey { score: r.score as nat, length: r.doc.body_length as nat, path: r.doc.path@ }
}

/// `out` holds the best `limit` of the candidates `cands` (scope indices with
/// their scores), one result each, in rank order, and no candidate left out
/// ranks before one kept.
pub open spec fn is_top_results(out: Seq<SearchResult>, docs: Seq<DocView>, content: Seq<ContentView>,
    rows: Seq<int>, cands: Seq<(int, nat)>, limit: nat) -> bool
{
    &&& out.len() == if limit < cands.len() { limit } else { cands.len() }
    &&& forall|a: int| 0 <= a < out.len() ==> #[trigger] from_candidates(out[a], docs, content, rows, cands)
    &&& forall|a: int, b: int| 0 <= a < b < out.len() ==> key_before(result_key(out[a]), result_key(out[b]))
    &&& forall|a: int, b: int| 0 <= a < b < out.len() ==> out[a].doc.path@ != out[b].doc.path@
        || out[a].doc.collection_name@ != out[b].doc.collection_name@
    &&& forall|c: int| 0 <= c < cands.len() ==> #[trigger] kept_or_behind(out, docs, content, rows[cands[c].0], cands[c].1)
}

/// `r` describes one of the candidates.
pub open spec fn from_candidates(r: SearchResult, docs: Seq<DocView>, content: Seq<ContentView>, rows: Seq<int>, cands: Seq<(int, nat)>) -> bool {
    exists|c: int| 0 <= c < cands.len() && #[trigger] describes(r, docs, content, rows[cands[c].0], cands[c].1)
}

/// Candidate `row` is among the results, or ranks after every one of them.
pub open spec fn kept_or_behind(out: Seq<SearchResult>, docs: Seq<DocView>, content: Seq<ContentView>, row: int, score: nat) -> bool {
    (exists|a: int| 0 <= a < out.len() && #[trigger] describes(out[a], docs, content, row, score))
    || forall|a: int| 0 <= a < out.len() ==> key_before(result_key(out[a]),
        RankKey { score, length: body_of(content, docs[row].hash).len(), path: docs[row].path })
}

/// The candidates among the first `m` documents of the scope: each holding a
/// query term and scoring at least `min`, with its score.
pub open spec fn candidates_upto(terms: Seq<Seq<Seq<u32>>>, q: Seq<Seq<u32>>, min: nat, m: int) -> Seq<(int, nat)>
    decreases m,
{
    if m <= 0 {
        seq![]
    } else {
        let rest = candidates_upto(terms, q, min, m - 1);
        if matches_query(terms, q, m - 1) && bm25(terms, q, m - 1) >= min { rest.push((m - 1, bm25(terms, q, m - 1))) } else { rest }
    }
}

/// The lexical candidates: each document in scope holding a query term and
/// scoring at least `min`, with its score.
pub open spec fn lexical_candidates(terms: Seq<Seq<Seq<u32>>>, q: Seq<Seq<u32>>, min: nat) -> Seq<(int, nat)> {
    candidates_upto(terms, q, min, terms.len() as int)
}

pub open spec fn rows_view(rows: Seq<usize>) -> Seq<int> {
    rows.map_values(|r: usize| r as int)
}

impl Store {
    /// The rows in the scope of a search (see `scope_rows`).
    pub fn scope_of(&self, collection: Option<&str>) -> (r: Vec<usize>)
        ensures
            rows_view(r@) == scope_rows(self.docs(), filter_view(collection)),
            forall|k: int| 0 <= k < r@.len() ==> #[trigger] r@[k] < self.docs().len(),
    {
        let ghost f = filter_view(collection);
        let mut out: Vec<usize> = Vec::new();
        let mut i: usize = 0;
        while i < self.documents.len()
            invariant
                i <= self.docs().len(),
                f == filter_view(collection),
                rows_view(out@) == scope_rows(self.docs().take(i as int), f),
                forall|k: int| 0 <= k < out@.len() ==> #[trigger] out@[k] < i,
            decreases self.documents@.len() - i,
        {
            proof {
                assert(self.docs().take(i as int + 1).drop_last() =~= self.docs().take(i as int));
                assert(self.docs().take(i as int + 1).last() == self.docs()[i as int]);
            }
            let d = &self.documents[i];
            let keep = d.active && match collection {
                Some(c) => crate::store::same_text(c, &d.collection),
                None => true,
            };
            if keep {
                let ghost before = out@;
                out.push(i);
                proof {
                    assert(rows_view(out@) =~= rows_view(before).push(i as int));
                }
            }
            i = i + 1;
        }
        proof {
            assert(self.docs().take(self.docs().len() as int) =~= self.docs());
        }
        out
    }

    /// The terms of what a search reads of a row, and the length of its body.
    pub fn doc_terms(&self, row: usize) -> (r: (Vec<Vec<u32>>, usize))
        requires
            self.wf(),
            row < self.docs().len(),
        ensures
            r.0@.map_values(|t: Vec<u32>| t@) == terms_of(doc_text(self.docs()[row as int], self.content())),
            r.1 == body_of(self.content(), self.docs()[row as int].hash).len(),
    {
        let d = &self.documents[row];
        let mut text = chars_of(d.title.as_str());
        text.push(' ');
        let body = match self.get_content(d.hash.as_str()) {
            Some(b) => chars_of(b.as_str()),
            None => Vec::new(),
        };
        let ghost head = text@;
        let mut j: usize = 0;
        while j < body.len()
            invariant
                j <= body@.len(),
                text@ == head + body@.take(j as int),
            decreases body@.len() - j,
        {
            text.push(body[j]);
            proof {
                assert(body@.take(j as int + 1) =~= body@.take(j as int).push(body@[j as int]));
            }
            j = j + 1;
        }
        proof {
            assert(body@.take(body@.len() as int) =~= body@);
            assert(text@ =~= doc_text(self.docs()[row as int], self.content()));
        }
        (tokenize(&text), body.len())
    }
}

pub open spec fn terms_view(terms: Seq<Vec<Vec<u32>>>) -> Seq<Seq<Seq<u32>>> {
    terms.map_values(|d: Vec<Vec<u32>>| d@.map_values(|t: Vec<u32>| t@))
}

pub open spec fn query_view(q: Seq<Vec<u32>>) -> Seq<Seq<u32>> {
    q.map_values(|t: Vec<u32>| t@)
}

/// Number of documents holding `t`.
pub fn doc_frequency(terms: &Vec<Vec<Vec<u32>>>, t: &Vec<u32>) -> (r: u64)
    ensures
        r as nat == doc_freq(terms_view(terms@), t@),
{
    let ghost tv = terms_view(terms@);
    let mut n: u64 = 0;
    let mut k: usize = 0;
    while k < terms.len()
        invariant
            k <= terms@.len(),
            tv == terms_view(terms@),
            n as nat == doc_freq(tv.take(k as int), t@),
            n <= k,
        decreases terms@.len() - k,
    {
        proof {
            assert(tv.take(k as int + 1).drop_last() =~= tv.take(k as int));
            assert(tv.take(k as int + 1).last() == tv[k as int]);
        }
        if count_term(&terms[k], t) > 0 {
            n = n + 1;
        }
        k = k + 1;
    }
    proof {
        assert(tv.take(tv.len() as int) =~= tv);
    }
    n
}

/// Inverse document frequency (see `idf`).
pub fn idf_of(n_docs: u128, n: u128) -> (r: u128)
    requires
        n <= n_docs <= MAX_SCOPE_DOCS,
    ensures
        r as nat == idf(n_docs as nat, n as nat),
        r <= IDF_ONE * (2 * MAX_SCOPE_DOCS + 1),
{
    proof {
        let a = (IDF_ONE as nat) * ((2 * (n_docs - n) + 1) as nat);
        let b = (2 * n + 1) as nat;
        assert(a / b <= a) by (nonlinear_arith) requires b >= 1;
        assert(a <= (IDF_ONE * (2 * MAX_SCOPE_DOCS + 1)) as nat) by (nonlinear_arith)
            requires a == (IDF_ONE as nat) * ((2 * (n_docs - n) + 1) as nat), n_docs <= MAX_SCOPE_DOCS, n <= n_docs;
    }
    IDF_ONE * (2 * (n_docs - n) + 1) / (2 * n + 1)
}

/// Saturated, length-normalized term frequency (see `tf_part`).
pub fn tf_part_of(tf: u128, dl: u128, total: u128, n_docs: u128) -> (r: u128)
    requires
        tf <= dl <= total <= MAX_SCOPE_TERMS,
        n_docs <= MAX_SCOPE_DOCS,
    ensures
        r as nat == tf_part(tf as nat, dl as nat, total as nat, n_docs as nat),
        r <= 3 * TF_ONE,
{
    if tf == 0 {
        return 0;
    }
    proof {
        assert(tf * total <= MAX_SCOPE_TERMS * MAX_SCOPE_TERMS) by (nonlinear_arith)
            requires tf <= MAX_SCOPE_TERMS, total <= MAX_SCOPE_TERMS;
        assert(dl * n_docs <= MAX_SCOPE_TERMS * MAX_SCOPE_DOCS) by (nonlinear_arith)
            requires dl <= MAX_SCOPE_TERMS, n_docs <= MAX_SCOPE_DOCS;
        assert(tf * total >= 1) by (nonlinear_arith) requires tf >= 1, total >= tf;
    }
    let num: u128 = TF_ONE * 44 * (tf * total);
    let den: u128 = 20 * (tf * total) + 6 * total + 18 * (dl * n_docs);
    proof {
        assert(num <= 3 * TF_ONE * den) by (nonlinear_arith)
            requires num == TF_ONE * 44 * (tf * total), den >= 20 * (tf * total);
        assert(num / den <= 3 * TF_ONE) by (nonlinear_arith)
            requires num <= 3 * TF_ONE * den, den >= 1;
        assert((TF_ONE as nat) * 44 * (tf as nat) * (total as nat) == num as nat) by (nonlinear_arith)
            requires num == TF_ONE * 44 * (tf * total);
        assert((20 * tf * total + 6 * total + 18 * dl * n_docs) as nat == den as nat) by (nonlinear_arith)
            requires den == 20 * (tf * total) + 6 * total + 18 * (dl * n_docs);
    }
    num / den
}

/// Bound on one query term's weight.
pub open spec fn term_weight_bound() -> nat {
    ((IDF_ONE * (2 * MAX_SCOPE_DOCS + 1)) * (3 * TF_ONE)) as nat
}

/// The score of document `k` and whether it holds a query term.
pub fn score_doc(terms: &Vec<Vec<Vec<u32>>>, q: &Vec<Vec<u32>>, idfs: &Vec<u128>, k: usize, total: u128) -> (r: (u128, bool))
    requires
        k < terms@.len(),
        terms@.len() <= MAX_SCOPE_DOCS,
        total as nat == total_terms(terms_view(terms@)),
        total <= MAX_SCOPE_TERMS,
        idfs@.len() == q@.len(),
        forall|j: int| 0 <= j < q@.len() ==> #[trigger] idfs@[j] as nat
            == idf(terms@.len() as nat, doc_freq(terms_view(terms@), q@[j]@)),
        forall|j: int| 0 <= j < q@.len() ==> #[trigger] idfs@[j] <= IDF_ONE * (2 * MAX_SCOPE_DOCS + 1),
    ensures
        r.0 as nat == bm25(terms_view(terms@), query_view(q@), k as int),
        r.1 == matches_query(terms_view(terms@), query_view(q@), k as int),
{
    let ghost tv = terms_view(terms@);
    let ghost qv = query_view(q@);
    let doc = &terms[k];
    let dl = doc.len();
    proof {
        assert(tv[k as int] == doc@.map_values(|t: Vec<u32>| t@));
        lemma_doc_len_le_total(tv, k as int);
    }
    let mut score: u128 = 0;
    let mut matched = false;
    let mut j: usize = 0;
    while j < q.len()
        invariant
            j <= q@.len(),
            k < terms@.len(),
            tv == terms_view(terms@),
            qv == query_view(q@),
            doc@.map_values(|t: Vec<u32>| t@) == tv[k as int],
            dl == tv[k as int].len(),
            dl <= total,
            terms@.len() <= MAX_SCOPE_DOCS,
            total as nat == total_terms(tv),
            total <= MAX_SCOPE_TERMS,
            idfs@.len() == q@.len(),
            forall|x: int| 0 <= x < q@.len() ==> #[trigger] idfs@[x] as nat
                == idf(terms@.len() as nat, doc_freq(tv, q@[x]@)),
            forall|x: int| 0 <= x < q@.len() ==> #[trigger] idfs@[x] <= IDF_ONE * (2 * MAX_SCOPE_DOCS + 1),
            score as nat == bm25(tv, qv.take(j as int), k as int),
            score as nat <= j * term_weight_bound(),
            matched == matches_query(tv, qv.take(j as int), k as int),
        decreases q@.len() - j,
    {
        proof {
            assert(qv.take(j as int + 1).drop_last() =~= qv.take(j as int));
            assert(qv.take(j as int + 1).last() == q@[j as int]@);
        }
        let tf = count_term(doc, &q[j]);
        proof {
            lemma_term_count_le(tv[k as int], q@[j as int]@);
        }
        let part = tf_part_of(tf as u128, dl as u128, total, terms.len() as u128);
        let w = idfs[j];
        proof {
            assert(w * part <= (IDF_ONE * (2 * MAX_SCOPE_DOCS + 1)) * (3 * TF_ONE)) by (nonlinear_arith)
                requires w <= IDF_ONE * (2 * MAX_SCOPE_DOCS + 1), part <= 3 * TF_ONE;
            assert((j + 1) * term_weight_bound() == j * term_weight_bound() + term_weight_bound()) by (nonlinear_arith);
            assert(j * term_weight_bound() <= 18446744073709551616nat * term_weight_bound()) by (nonlinear_arith)
                requires j <= 18446744073709551616nat;
            assert(IDF_ONE * (2 * MAX_SCOPE_DOCS + 1) == 8796093023232);
            assert(3 * TF_ONE == 3072);
            assert(8796093023232nat * 3072nat == 27021597767368704nat) by (nonlinear_arith);
            assert(term_weight_bound() == 27021597767368704nat);
            assert(w * part <= 27021597767368704);
            assert(score + w * part <= (j + 1) * term_weight_bound());
            assert((j + 1) * term_weight_bound() <= 18446744073709551617nat * 27021597767368704nat) by (nonlinear_arith)
                requires j + 1 <= 18446744073709551617nat, term_weight_bound() == 27021597767368704nat;
        }
        score = score + w * part;
        if tf > 0 {
            matched = true;
        }
        proof {
            let qj = qv.take(j as int + 1);
            if tf > 0 {
                assert(qj[j as int] == q@[j as int]@);
                assert(matches_query(tv, qj, k as int));
            } else if matches_query(tv, qj, k as int) {
                let x = choose|x: int| 0 <= x < qj.len() && term_count(tv[k as int], #[trigger] qj[x]) > 0;
                if x < j {
                    assert(qv.take(j as int)[x] == qj[x]);
                }
            }
            if matches_query(tv, qv.take(j as int), k as int) {
                let x = choose|x: int| 0 <= x < j && term_count(tv[k as int], #[trigger] qv.take(j as int)[x]) > 0;
                assert(qj[x] == qv.take(j as int)[x]);
            }
        }
        j = j + 1;
    }
    proof {
        assert(qv.take(qv.len() as int) =~= qv);
    }
    (score, matched)
}

pub open spec fn ranked_results(out: Seq<SearchResult>) -> bool {
    forall|a: int, b: int| 0 <= a < b < out.len() ==> key_before(result_key(out[a]), result_key(out[b]))
}

/// Whether result `a` ranks at or before `b`.
fn result_before(a: &SearchResult, b: &SearchResult) -> (r: bool)
    ensures
        r == key_before(result_key(*a), result_key(*b)),
{
    if a.score != b.score {
        return a.score > b.score;
    }
    if a.doc.body_length != b.doc.body_length {
        return a.doc.body_length < b.doc.body_length;
    }
    text_le(&chars_of(a.doc.path.as_str()), &chars_of(b.doc.path.as_str()))
}

/// Inserts `e` after every result that ranks at or before it.
fn insert_result(out: &mut Vec<SearchResult>, e: SearchResult) -> (p: usize)
    requires
        ranked_results(old(out)@),
    ensures
        p <= old(out)@.len(),
        final(out)@ == old(out)@.insert(p as int, e),
        ranked_results(final(out)@),
{
    let mut p: usize = 0;
    while p < out.len() && result_before(&out[p], &e)
        invariant
            p <= out@.len(),
            out@ == old(out)@,
            ranked_results(out@),
            forall|x: int| 0 <= x < p ==> key_before(result_key(#[trigger] out@[x]), result_key(e)),
        decreases out@.len() - p,
    {
        p = p + 1;
    }
    let ghost o = out@;
    proof {
        assert forall|x: int| p <= x < o.len() implies !key_before(result_key(#[trigger] o[x]), result_key(e)) by {
            assert(!key_before(result_key(o[p as int]), result_key(e)));
            if x > p && key_before(result_key(o[x]), result_key(e)) {
                lemma_key_trans(result_key(o[p as int]), result_key(o[x]), result_key(e));
            }
        }
    }
    out.insert(p, e);
    proof {
        let n = out@;
        assert forall|a: int, b: int| 0 <= a < b < n.len() implies key_before(result_key(n[a]), result_key(n[b])) by {
            if a < p && b == p {
            } else if a == p {
                assert(!key_before(result_key(o[b - 1]), result_key(e)));
                lemma_key_total(result_key(o[b - 1]), result_key(e));
            } else if a < p && b > p {
                assert(key_before(result_key(o[a]), result_key(o[b - 1])));
            } else if a > p {
                assert(key_before(result_key(o[a - 1]), result_key(o[b - 1])));
            } else {
                assert(key_before(result_key(o[a]), result_key(o[b])));
            }
        }
    }
    p
}

pub proof fn lemma_total_terms_prefix(docs: Seq<Seq<Seq<u32>>>, m: int)
    requires
        0 <= m <= docs.len(),
    ensures
        total_terms(docs.take(m)) <= total_terms(docs),
    decreases docs.len(),
{
    if m < docs.len() {
        assert(docs.take(m) =~= docs.drop_last().take(m));
        lemma_total_terms_prefix(docs.drop_last(), m);
    } else {
        assert(docs.take(m) =~= docs);
    }
}

pub proof fn lemma_scope_rows_increasing(docs: Seq<DocView>, filter: Option<Seq<char>>)
    ensures
        forall|a: int, b: int| 0 <= a < b < scope_rows(docs, filter).len() ==>
            scope_rows(docs, filter)[a] < scope_rows(docs, filter)[b],
        forall|a: int| 0 <= a < scope_rows(docs, filter).len() ==>
            0 <= #[trigger] scope_rows(docs, filter)[a] < docs.len(),
    decreases docs.len(),
{
    if docs.len() > 0 {
        lemma_scope_rows_increasing(docs.drop_last(), filter);
        let rest = scope_rows(docs.drop_last(), filter);
        let out = scope_rows(docs, filter);
        assert forall|a: int| 0 <= a < out.len() implies 0 <= #[trigger] out[a] < docs.len() by {
            if a < rest.len() {
                assert(out[a] == rest[a]);
            }
        }
        assert forall|a: int, b: int| 0 <= a < b < out.len() implies out[a] < out[b] by {
            assert(out[a] == rest[a]);
            if b < rest.len() {
                assert(out[b] == rest[b]);
            }
        }
    }
}

pub proof fn lemma_candidates_increasing(terms: Seq<Seq<Seq<u32>>>, q: Seq<Seq<u32>>, min: nat, m: int)
    requires
        0 <= m,
    ensures
        forall|a: int, b: int| 0 <= a < b < candidates_upto(terms, q, min, m).len() ==>
            candidates_upto(terms, q, min, m)[a].0 < candidates_upto(terms, q, min, m)[b].0,
        forall|a: int| 0 <= a < candidates_upto(terms, q, min, m).len() ==>
            0 <= #[trigger] candidates_upto(terms, q, min, m)[a].0 < m,
    decreases m,
{
    if m > 0 {
        lemma_candidates_increasing(terms, q, min, m - 1);
        let rest = candidates_upto(terms, q, min, m - 1);
        let out = candidates_upto(terms, q, min, m);
        assert forall|a: int| 0 <= a < out.len() implies 0 <= #[trigger] out[a].0 < m by {
            if a < rest.len() {
                assert(out[a] == rest[a]);
            }
        }
        assert forall|a: int, b: int| 0 <= a < b < out.len() implies out[a].0 < out[b].0 by {
            assert(out[a] == rest[a]);
            if b < rest.len() {
                assert(out[b] == rest[b]);
            }
        }
    }
}

impl Store {
    /// Lexical search: the active documents (of `collection`, where given)
    /// holding a term of `query`, scored by `bm25`, best `limit` first (see
    /// `is_top_results`). A scope too large to score is an error.
    pub fn search_fts(&self, query: &str, limit: usize, collection: Option<&str>) -> (r: Result<Vec<SearchResult>, SearchError>)
        requires
            self.wf(),
        ensures
            ({
                let rows = scope_rows(self.docs(), filter_view(collection));
                let terms = scope_terms(self.docs(), self.content(), rows);
                &&& r is Err <==> (rows.len() > MAX_SCOPE_DOCS || total_terms(terms) > MAX_SCOPE_TERMS)
                &&& r matches Ok(out) ==> is_top_results(out@, self.docs(), self.content(), rows,
                        lexical_candidates(terms, terms_of(query@), 0), limit as nat)
            }),
    {
        self.search_fts_above(query, limit, collection, 0)
    }

    /// Lexical search with a score threshold: as `search_fts`, among the
    /// documents scoring at least `min_score`.
    #[verifier::rlimit(80)]
    pub fn search_fts_above(&self, query: &str, limit: usize, collection: Option<&str>, min_score: u128)
        -> (r: Result<Vec<SearchResult>, SearchError>)
        requires
            self.wf(),
        ensures
            ({
                let rows = scope_rows(self.docs(), filter_view(collection));
                let terms = scope_terms(self.docs(), self.content(), rows);
                &&& r is Err <==> (rows.len() > MAX_SCOPE_DOCS || total_terms(terms) > MAX_SCOPE_TERMS)
                &&& r matches Ok(out) ==> is_top_results(out@, self.docs(), self.content(), rows,
                        lexical_candidates(terms, terms_of(query@), min_score as nat), limit as nat)
            }),
    {
        let ghost docs = self.docs();
        let ghost content = self.content();
        let rows = self.scope_of(collection);
        let ghost rv = rows_view(rows@);
        let ghost all_terms = scope_terms(docs, content, rv);
        if rows.len() as u128 > MAX_SCOPE_DOCS {
            return Err(SearchError::ScopeTooLarge);
        }
        let mut terms: Vec<Vec<Vec<u32>>> = Vec::new();
        let mut total: u128 = 0;
        let mut k: usize = 0;
        while k < rows.len()
            invariant
                self.wf(),
                docs == self.docs(),
                content == self.content(),
                rv == rows_view(rows@),
                rv == scope_rows(docs, filter_view(collection)),
                forall|x: int| 0 <= x < rows@.len() ==> #[trigger] rows@[x] < docs.len(),
                all_terms == scope_terms(docs, content, rv),
                k <= rows@.len(),
                terms_view(terms@) == all_terms.take(k as int),
                total as nat == total_terms(all_terms.take(k as int)),
                total <= MAX_SCOPE_TERMS,
            decreases rows@.len() - k,
        {
            let (t, _) = self.doc_terms(rows[k]);
            let ghost before = terms@;
            let n = t.len();
            terms.push(t);
            proof {
                assert(all_terms[k as int] == terms_of(doc_text(docs[rv[k as int]], content)));
                assert(terms_view(terms@) =~= all_terms.take(k as int + 1));
                assert(all_terms.take(k as int + 1).drop_last() =~= all_terms.take(k as int));
            }
            if n as u128 > MAX_SCOPE_TERMS - total {
                proof {
                    lemma_total_terms_prefix(all_terms, k as int + 1);
                    assert(all_terms.take(k as int + 1).last() == all_terms[k as int]);
                    assert(total_terms(all_terms.take(k as int + 1)) == total + all_terms[k as int].len());
                    assert(rv == scope_rows(docs, filter_view(collection)));
                }
                return Err(SearchError::ScopeTooLarge);
            }
            total = total + n as u128;
            k = k + 1;
        }
        proof {
            assert(all_terms.take(rows@.len() as int) =~= all_terms);
        }
        let q = tokenize(&chars_of(query));
        let ghost qv = query_view(q@);
        let n_docs = terms.len() as u128;
        let mut idfs: Vec<u128> = Vec::new();
        let mut j: usize = 0;
        while j < q.len()
            invariant
                j <= q@.len(),
                terms_view(terms@) == all_terms,
                n_docs == terms@.len(),
                n_docs <= MAX_SCOPE_DOCS,
                idfs@.len() == j,
                forall|x: int| 0 <= x < j ==> #[trigger] idfs@[x] as nat
                    == idf(terms@.len() as nat, doc_freq(terms_view(terms@), q@[x]@)),
                forall|x: int| 0 <= x < j ==> #[trigger] idfs@[x] <= IDF_ONE * (2 * MAX_SCOPE_DOCS + 1),
            decreases q@.len() - j,
        {
            let df = doc_frequency(&terms, &q[j]);
            proof {
                lemma_doc_freq_le(terms_view(terms@), q@[j as int]@);
            }
            idfs.push(idf_of(n_docs, df as u128));
            j = j + 1;
        }
        let mut found: Vec<SearchResult> = Vec::new();
        let mut k: usize = 0;
        while k < terms.len()
            invariant
                self.wf(),
                docs == self.docs(),
                content == self.content(),
                rv == rows_view(rows@),
                rows@.len() == terms@.len(),
                forall|x: int| 0 <= x < rows@.len() ==> #[trigger] rows@[x] < docs.len(),
                terms_view(terms@) == all_terms,
                qv == query_view(q@),
                total as nat == total_terms(all_terms),
                total <= MAX_SCOPE_TERMS,
                terms@.len() <= MAX_SCOPE_DOCS,
                idfs@.len() == q@.len(),
                forall|x: int| 0 <= x < q@.len() ==> #[trigger] idfs@[x] as nat
                    == idf(terms@.len() as nat, doc_freq(terms_view(terms@), q@[x]@)),
                forall|x: int| 0 <= x < q@.len() ==> #[trigger] idfs@[x] <= IDF_ONE * (2 * MAX_SCOPE_DOCS + 1),
                k <= terms@.len(),
                found@.len() == candidates_upto(all_terms, qv, min_score as nat, k as int).len(),
                forall|c: int| 0 <= c < found@.len() ==> #[trigger] describes(found@[c], docs, content,
                    rv[candidates_upto(all_terms, qv, min_score as nat, k as int)[c].0], candidates_upto(all_terms, qv, min_score as nat, k as int)[c].1),
            decreases terms@.len() - k,
        {
            let (score, matched) = score_doc(&terms, &q, &idfs, k, total);
            if matched && score >= min_score {
                let d = &self.documents[rows[k]];
                let body_length = match self.get_content(d.hash.as_str()) {
                    Some(b) => chars_of(b.as_str()).len(),
                    None => 0,
                };
                let res = SearchResult {
                    doc: DocumentResult {
                        docid: d.docid.clone(),
                        collection_name: d.collection.clone(),
                        path: d.path.clone(),
                        title: d.title.clone(),
                        hash: d.hash.clone(),
                        body_length,
                    },
                    score,
                };
                let ghost before = found@;
                found.push(res);
                proof {
                    let cands = candidates_upto(all_terms, qv, min_score as nat, k as int + 1);
                    assert(cands == candidates_upto(all_terms, qv, min_score as nat, k as int).push((k as int, bm25(all_terms, qv, k as int))));
                    assert forall|c: int| 0 <= c < found@.len() implies #[trigger] describes(found@[c], docs, content,
                        rv[cands[c].0], cands[c].1) by {
                        if c < before.len() {
                            assert(found@[c] == before[c]);
                        } else {
                            assert(rv[k as int] == rows@[k as int] as int);
                        }
                    }
                }
            } else {
                proof {
                    assert(candidates_upto(all_terms, qv, min_score as nat, k as int + 1) == candidates_upto(all_terms, qv, min_score as nat, k as int));
                }
            }
            k = k + 1;
        }
        let ghost cands = candidates_upto(all_terms, qv, min_score as nat, terms@.len() as int);
        proof {
            assert(qv == terms_of(query@));
            assert(cands == lexical_candidates(all_terms, qv, min_score as nat));
        }
        // Order the results.
        let ghost all = found@;
        let mut sorted: Vec<SearchResult> = Vec::new();
        let ghost mut perm: Seq<int> = seq![];
        while found.len() > 0
            invariant
                found@ == all.take(found@.len() as int),
                ranked_results(sorted@),
                sorted@.len() + found@.len() == all.len(),
                perm.len() == sorted@.len(),
                forall|x: int| 0 <= x < sorted@.len() ==> found@.len() <= #[trigger] perm[x] < all.len()
                    && sorted@[x] == all[perm[x]],
                forall|x: int, y: int| 0 <= x < y < sorted@.len() ==> perm[x] != perm[y],
                forall|t: int| found@.len() <= t < all.len() ==> #[trigger] hits(perm, sorted@.len() as int, t),
            decreases found@.len(),
        {
            let ghost n = found@.len() - 1;
            let e = found.pop().unwrap();
            proof {
                assert(e == all[n]);
                assert(found@ =~= all.take(n));
            }
            let ghost o = sorted@;
            let p = insert_result(&mut sorted, e);
            proof {
                let old_perm = perm;
                perm = perm.insert(p as int, n);
                let m = sorted@;
                assert forall|x: int| 0 <= x < m.len() implies found@.len() <= #[trigger] perm[x] < all.len()
                    && m[x] == all[perm[x]] by {
                    if x < p {
                        assert(perm[x] == old_perm[x] && m[x] == o[x]);
                    } else if x > p {
                        assert(perm[x] == old_perm[x - 1] && m[x] == o[x - 1]);
                    }
                }
                assert forall|x: int, y: int| 0 <= x < y < m.len() implies perm[x] != perm[y] by {
                    if x < p && y > p {
                        assert(perm[x] == old_perm[x] && perm[y] == old_perm[y - 1]);
                    } else if x > p {
                        assert(perm[x] == old_perm[x - 1] && perm[y] == old_perm[y - 1]);
                    } else if y < p {
                        assert(perm[x] == old_perm[x] && perm[y] == old_perm[y]);
                    } else if x == p {
                        assert(perm[y] == old_perm[y - 1]);
                    } else {
                        assert(perm[x] == old_perm[x]);
                    }
                }
                assert forall|t: int| found@.len() <= t < all.len() implies #[trigger] hits(perm, m.len() as int, t) by {
                    if t == n {
                        assert(perm[p as int] == t);
                    } else {
                        assert(hits(old_perm, o.len() as int, t));
                        let x = choose|x: int| 0 <= x < o.len() && #[trigger] old_perm[x] == t;
                        if x < p {
                            assert(perm[x] == t);
                        } else {
                            assert(perm[x + 1] == t);
                        }
                    }
                }
            }
        }
        let ghost full = sorted@;
        sorted.truncate(limit);
        proof {
            let out = sorted@;
            lemma_scope_rows_increasing(docs, filter_view(collection));
            lemma_candidates_increasing(all_terms, qv, min_score as nat, all_terms.len() as int);
            assert(out.len() == if (limit as nat) < cands.len() { limit as nat } else { cands.len() });
            assert forall|a: int| 0 <= a < out.len() implies #[trigger] from_candidates(out[a], docs, content, rv, cands) by {
                assert(out[a] == full[a]);
                assert(describes(all[perm[a]], docs, content, rv[cands[perm[a]].0], cands[perm[a]].1));
            }
            assert forall|a: int, b: int| 0 <= a < b < out.len() implies key_before(result_key(out[a]), result_key(out[b])) by {
                assert(out[a] == full[a] && out[b] == full[b]);
            }
            assert forall|a: int, b: int| 0 <= a < b < out.len() implies out[a].doc.path@ != out[b].doc.path@
                || out[a].doc.collection_name@ != out[b].doc.collection_name@ by {
                assert(out[a] == full[a] && out[b] == full[b]);
                let ca = perm[a];
                let cb = perm[b];
                assert(ca != cb);
                let ra = rv[cands[ca].0];
                let rb = rv[cands[cb].0];
                assert(rv == scope_rows(docs, filter_view(collection)));
                assert(0 <= cands[ca].0 < rv.len() && 0 <= cands[cb].0 < rv.len());
                assert(describes(all[ca], docs, content, ra, cands[ca].1));
                assert(describes(all[cb], docs, content, rb, cands[cb].1));
                assert(keys_unique(docs));
                if ca < cb {
                    assert(cands[ca].0 < cands[cb].0);
                    assert(ra < rb);
                } else {
                    assert(cands[cb].0 < cands[ca].0);
                    assert(rb < ra);
                }
                if ra < rb {
                    assert(!(docs[ra].collection == docs[rb].collection && docs[ra].path == docs[rb].path));
                } else {
                    assert(!(docs[rb].collection == docs[ra].collection && docs[rb].path == docs[ra].path));
                }
            }
            assert forall|c: int| 0 <= c < cands.len() implies #[trigger] kept_or_behind(out, docs, content, rv[cands[c].0], cands[c].1) by {
                assert(hits(perm, full.len() as int, c));
                let x = choose|x: int| 0 <= x < full.len() && #[trigger] perm[x] == c;
                assert(describes(full[x], docs, content, rv[cands[c].0], cands[c].1));
                if x < out.len() {
                    assert(out[x] == full[x]);
                    assert(describes(out[x], docs, content, rv[cands[c].0], cands[c].1));
                } else {
                    assert forall|a: int| 0 <= a < out.len() implies key_before(result_key(out[a]),
                        RankKey { score: cands[c].1, length: body_of(content, docs[rv[cands[c].0]].hash).len(),
                            path: docs[rv[cands[c].0]].path }) by {
                        assert(out[a] == full[a]);
                        assert(key_before(result_key(full[a]), result_key(full[x])));
                        assert(result_key(full[x]) == RankKey { score: cands[c].1,
                            length: body_of(content, docs[rv[cands[c].0]].hash).len(), path: docs[rv[cands[c].0]].path });
                    }
                }
            }
        }
        Ok(sorted)
    }
}

} // verus!
