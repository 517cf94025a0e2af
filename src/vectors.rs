//! The embedding table and exact cosine similarity.
//!
//! Vectors are int8-quantized embeddings. A cosine similarity is kept as
//! the exact pair (dot product, product of the squared norms): its value is
//! `dot / sqrt(norms)`, and 0 where either vector is all zero.
use vstd::prelude::*;
use crate::store::{emb_view, emb_views, put_embedding, EmbeddingRow, EmbeddingView, Store};
use crate::store::same_text;

verus! {

/// Largest dimension accepted, so that exact comparisons fit in 128 bits.
pub const MAX_DIMENSION: usize = 65536;

/// Bound on the dot product of two accepted vectors (2^30).
pub const DOT_BOUND: i64 = 1073741824;

/// Bound on the product of the squared norms of two accepted vectors (2^60).
pub const NORMS_BOUND: u64 = 1152921504606846976;

/// An exact cosine similarity: `dot / sqrt(norms)`, or 0 where `norms` is 0.
#[derive(Clone, Copy, Debug, PartialEq, Eq)]
pub struct Similarity {
    pub dot: i64,
    pub norms: u64,
}

/// Why an embedding could not be stored.
#[derive(Clone, Copy, Debug, PartialEq, Eq)]
pub enum VectorError {
    /// The vector's dimension differs from the table's.
    DimensionMismatch { expected: usize, got: usize },
    /// No dimension has been fixed yet.
    NoVectorTable,
    /// The dimension is 0 or above `MAX_DIMENSION`.
    UnsupportedDimension,
}

pub open spec fn dot(a: Seq<i8>, b: Seq<i8>) -> int
    decreases a.len(),
{
    if a.len() == 0 || b.len() == 0 {
        0
    } else {
        dot(a.drop_last(), b.drop_last()) + (a.last() as int) * (b.last() as int)
    }
}

pub open spec fn norm2(a: Seq<i8>) -> int {
    dot(a, a)
}

/// The exact similarity of two vectors of one dimension.
pub open spec fn cosine_of(a: Seq<i8>, b: Seq<i8>) -> (int, int) {
    (dot(a, b), norm2(a) * norm2(b))
}

/// The sign-aware comparison of two exact similarities by value.
pub open spec fn value_ge(d1: int, m1: int, d2: int, m2: int) -> bool {
    let x = if m1 == 0 { 0 } else { d1 };
    let y = if m2 == 0 { 0 } else { d2 };
    let px = if m1 == 0 { 1 } else { m1 };
    let py = if m2 == 0 { 1 } else { m2 };
    if x >= 0 && y < 0 {
        true
    } else if x < 0 && y >= 0 {
        false
    } else if x >= 0 {
        x * x * py >= y * y * px
    } else {
        x * x * py <= y * y * px
    }
}

pub open spec fn sim_ge(a: Similarity, b: Similarity) -> bool {
    value_ge(a.dot as int, a.norms as int, b.dot as int, b.norms as int)
}

/// The similarity is exactly 1.
pub open spec fn is_one(d: int, p: int) -> bool {
    p > 0 && d > 0 && d * d == p
}

/// The similarity is exactly -1.
pub open spec fn is_minus_one(d: int, p: int) -> bool {
    p > 0 && d < 0 && d * d == p
}

/// The similarity is 0.
pub open spec fn is_zero(d: int, p: int) -> bool {
    p == 0 || d == 0
}

pub proof fn lemma_dot_bound(a: Seq<i8>, b: Seq<i8>)
    ensures
        -(a.len() as int) * 16384 <= dot(a, b) <= (a.len() as int) * 16384,
    decreases a.len(),
{
    if a.len() > 0 && b.len() > 0 {
        lemma_dot_bound(a.drop_last(), b.drop_last());
        let x = a.last() as int;
        let y = b.last() as int;
        assert(-16384 <= x * y <= 16384) by (nonlinear_arith)
            requires -128 <= x <= 127, -128 <= y <= 127;
    }
}

pub proof fn lemma_norm_nonneg(a: Seq<i8>)
    ensures
        norm2(a) >= 0,
    decreases a.len(),
{
    if a.len() > 0 {
        lemma_norm_nonneg(a.drop_last());
        let x = a.last() as int;
        assert(x * x >= 0) by (nonlinear_arith);
    }
}

/// The dot product of two vectors of one length.
pub fn dot_product(a: &Vec<i8>, b: &Vec<i8>) -> (r: i64)
    requires
        a@.len() == b@.len(),
        a@.len() <= MAX_DIMENSION,
    ensures
        r as int == dot(a@, b@),
{
    let mut acc: i64 = 0;
    let mut i: usize = 0;
    while i < a.len()
        invariant
            i <= a@.len(),
            a@.len() == b@.len(),
            a@.len() <= MAX_DIMENSION,
            acc as int == dot(a@.take(i as int), b@.take(i as int)),
        decreases a@.len() - i,
    {
        proof {
            assert(a@.take(i as int + 1).drop_last() =~= a@.take(i as int));
            assert(b@.take(i as int + 1).drop_last() =~= b@.take(i as int));
            lemma_dot_bound(a@.take(i as int), b@.take(i as int));
            let x = a@[i as int] as int;
            let y = b@[i as int] as int;
            assert(-16384 <= x * y <= 16384) by (nonlinear_arith)
                requires -128 <= x <= 127, -128 <= y <= 127;
        }
        acc = acc + (a[i] as i64) * (b[i] as i64);
        i = i + 1;
    }
    proof {
        assert(a@.take(a@.len() as int) =~= a@);
        assert(b@.take(b@.len() as int) =~= b@);
    }
    acc
}

/// The exact cosine similarity of two vectors of one dimension.
pub fn cosine_similarity(a: &Vec<i8>, b: &Vec<i8>) -> (r: Similarity)
    requires
        a@.len() == b@.len(),
        a@.len() <= MAX_DIMENSION,
    ensures
        (r.dot as int, r.norms as int) == cosine_of(a@, b@),
        -DOT_BOUND <= r.dot <= DOT_BOUND,
        r.norms <= NORMS_BOUND,
{
    let d = dot_product(a, b);
    let na = dot_product(a, a);
    let nb = dot_product(b, b);
    proof {
        lemma_dot_bound(a@, a@);
        lemma_dot_bound(b@, b@);
        lemma_dot_bound(a@, b@);
        lemma_norm_nonneg(a@);
        lemma_norm_nonneg(b@);
        assert((na as int) * (nb as int) <= (65536 * 16384) * (65536 * 16384)) by (nonlinear_arith)
            requires 0 <= na <= 65536 * 16384, 0 <= nb <= 65536 * 16384;
    }
    Similarity { dot: d, norms: (na as u64) * (nb as u64) }
}

/// Whether similarity `a` is at least `b`, comparing exact values.
pub fn similarity_ge(a: Similarity, b: Similarity) -> (r: bool)
    requires
        -DOT_BOUND <= a.dot <= DOT_BOUND,
        -DOT_BOUND <= b.dot <= DOT_BOUND,
        a.norms <= NORMS_BOUND,
        b.norms <= NORMS_BOUND,
    ensures
        r == sim_ge(a, b),
{
    let x: i128 = if a.norms == 0 { 0 } else { a.dot as i128 };
    let y: i128 = if b.norms == 0 { 0 } else { b.dot as i128 };
    let px: i128 = if a.norms == 0 { 1 } else { a.norms as i128 };
    let py: i128 = if b.norms == 0 { 1 } else { b.norms as i128 };
    if x >= 0 && y < 0 {
        true
    } else if x < 0 && y >= 0 {
        false
    } else {
        proof {
            let xi = x as int;
            let yi = y as int;
            let b40 = DOT_BOUND as int;
            let b60 = NORMS_BOUND as int;
            assert(0 <= xi * xi <= b40 * b40) by (nonlinear_arith)
                requires -b40 <= xi <= b40;
            assert(0 <= yi * yi <= b40 * b40) by (nonlinear_arith)
                requires -b40 <= yi <= b40;
            assert(0 <= xi * xi * (py as int) <= b40 * b40 * b60) by (nonlinear_arith)
                requires 0 <= xi * xi <= b40 * b40, 1 <= py <= b60;
            assert(0 <= yi * yi * (px as int) <= b40 * b40 * b60) by (nonlinear_arith)
                requires 0 <= yi * yi <= b40 * b40, 1 <= px <= b60;
        }
        let lhs = x * x * py;
        let rhs = y * y * px;
        if x >= 0 { lhs >= rhs } else { lhs <= rhs }
    }
}

/// Cosine similarity: a non-zero vector has similarity exactly 1 with
/// itself and exactly -1 with its negation, and an all-zero vector has
/// similarity 0 with any vector.
pub proof fn lemma_cosine_laws(v: Seq<i8>, w: Seq<i8>, z: Seq<i8>)
    requires
        w.len() == v.len(),
        forall|i: int| 0 <= i < v.len() ==> #[trigger] w[i] as int == -(v[i] as int),
        exists|i: int| 0 <= i < v.len() && v[i] != 0,
        z.len() == v.len(),
        forall|i: int| 0 <= i < z.len() ==> #[trigger] z[i] == 0,
    ensures
        is_one(cosine_of(v, v).0, cosine_of(v, v).1),
        is_minus_one(cosine_of(v, w).0, cosine_of(v, w).1),
        is_zero(cosine_of(z, v).0, cosine_of(z, v).1),
{
    lemma_norm_positive(v);
    lemma_dot_neg(v, w);
    lemma_norm_neg(v, w);
    lemma_dot_zero(z, v);
    let n = norm2(v);
    assert(n * n == n * n);
    assert((-n) * (-n) == n * n) by (nonlinear_arith);
    assert(n * n > 0) by (nonlinear_arith) requires n > 0;
}

pub proof fn lemma_norm_positive(v: Seq<i8>)
    requires
        exists|i: int| 0 <= i < v.len() && v[i] != 0,
    ensures
        norm2(v) > 0,
    decreases v.len(),
{
    let init = v.drop_last();
    let x = v.last() as int;
    lemma_norm_nonneg(init);
    if x != 0 {
        assert(x * x > 0) by (nonlinear_arith) requires x != 0;
    } else {
        let i = choose|i: int| 0 <= i < v.len() && v[i] != 0;
        assert(init[i] == v[i]);
        lemma_norm_positive(init);
        assert(x * x == 0);
    }
}

pub proof fn lemma_dot_neg(v: Seq<i8>, w: Seq<i8>)
    requires
        w.len() == v.len(),
        forall|i: int| 0 <= i < v.len() ==> #[trigger] w[i] as int == -(v[i] as int),
    ensures
        dot(v, w) == -norm2(v),
    decreases v.len(),
{
    if v.len() > 0 {
        assert forall|i: int| 0 <= i < v.drop_last().len() implies #[trigger] w.drop_last()[i] as int == -(v.drop_last()[i] as int) by {
            assert(w[i] as int == -(v[i] as int));
        }
        lemma_dot_neg(v.drop_last(), w.drop_last());
        let x = v.last() as int;
        assert(w.last() as int == -x) by {
            assert(w[v.len() - 1] as int == -(v[v.len() - 1] as int));
        }
        assert(x * (-x) == -(x * x)) by (nonlinear_arith);
    }
}

pub proof fn lemma_norm_neg(v: Seq<i8>, w: Seq<i8>)
    requires
        w.len() == v.len(),
        forall|i: int| 0 <= i < v.len() ==> #[trigger] w[i] as int == -(v[i] as int),
    ensures
        norm2(w) == norm2(v),
    decreases v.len(),
{
    if v.len() > 0 {
        assert forall|i: int| 0 <= i < v.drop_last().len() implies #[trigger] w.drop_last()[i] as int == -(v.drop_last()[i] as int) by {
            assert(w[i] as int == -(v[i] as int));
        }
        lemma_norm_neg(v.drop_last(), w.drop_last());
        let x = v.last() as int;
        assert(w.last() as int == -x) by {
            assert(w[v.len() - 1] as int == -(v[v.len() - 1] as int));
        }
        assert((-x) * (-x) == x * x) by (nonlinear_arith);
    }
}

pub proof fn lemma_dot_zero(z: Seq<i8>, v: Seq<i8>)
    requires
        forall|i: int| 0 <= i < z.len() ==> #[trigger] z[i] == 0,
    ensures
        dot(z, v) == 0,
    decreases z.len(),
{
    if z.len() > 0 && v.len() > 0 {
        assert forall|i: int| 0 <= i < z.drop_last().len() implies #[trigger] z.drop_last()[i] == 0 by {
            assert(z[i] == 0);
        }
        lemma_dot_zero(z.drop_last(), v.drop_last());
        assert(z[z.len() - 1] == 0);
        assert(z.last() == 0);
        assert((z.last() as int) * (v.last() as int) == 0) by (nonlinear_arith)
            requires z.last() == 0;
    }
}

pub proof fn lemma_value_ge_total(d1: int, m1: int, d2: int, m2: int)
    requires
        m1 >= 0,
        m2 >= 0,
    ensures
        value_ge(d1, m1, d2, m2) || value_ge(d2, m2, d1, m1),
{
}

pub proof fn lemma_value_ge_trans(d1: int, m1: int, d2: int, m2: int, d3: int, m3: int)
    requires
        m1 >= 0,
        m2 >= 0,
        m3 >= 0,
        value_ge(d1, m1, d2, m2),
        value_ge(d2, m2, d3, m3),
    ensures
        value_ge(d1, m1, d3, m3),
{
    let x = if m1 == 0 { 0 } else { d1 };
    let y = if m2 == 0 { 0 } else { d2 };
    let z = if m3 == 0 { 0 } else { d3 };
    let px = if m1 == 0 { 1 } else { m1 };
    let py = if m2 == 0 { 1 } else { m2 };
    let pz = if m3 == 0 { 1 } else { m3 };
    if x >= 0 && y >= 0 && z >= 0 {
        assert(x * x * pz >= z * z * px) by (nonlinear_arith)
            requires
                px > 0, py > 0, pz > 0,
                x * x * py >= y * y * px,
                y * y * pz >= z * z * py;
    } else if x < 0 && y < 0 && z < 0 {
        assert(x * x * pz <= z * z * px) by (nonlinear_arith)
            requires
                px > 0, py > 0, pz > 0,
                x * x * py <= y * y * px,
                y * y * pz <= z * z * py,
                y != 0;
    }
}

impl Store {
    /// Position of the embedding of chunk `seq` of the body with this hash.
    pub fn embedding_index(&self, hash: &str, seq: usize) -> (r: Option<usize>)
        ensures
            r matches Some(i) ==> i < self.embeddings@.len() && self.embeddings@[i as int].hash@ == hash@
                && self.embeddings@[i as int].seq == seq
                && forall|k: int| 0 <= k < i ==> !(self.embeddings@[k].hash@ == hash@ && self.embeddings@[k].seq == seq),
            r is None ==> forall|i: int| 0 <= i < self.embeddings@.len() ==>
                !(self.embeddings@[i].hash@ == hash@ && self.embeddings@[i].seq == seq),
    {
        let mut i: usize = 0;
        while i < self.embeddings.len()
            invariant
                i <= self.embeddings@.len(),
                forall|k: int| 0 <= k < i ==> !(self.embeddings@[k].hash@ == hash@ && self.embeddings@[k].seq == seq),
            decreases self.embeddings@.len() - i,
        {
            if self.embeddings[i].seq == seq && same_text(hash, &self.embeddings[i].hash) {
                return Some(i);
            }
            i = i + 1;
        }
        None
    }

    /// Fixes the table's dimension on first use; later calls must name the same one.
    pub fn ensure_vector_table(&mut self, dims: usize) -> (r: Result<(), VectorError>)
        requires
            old(self).wf(),
        ensures
            final(self).wf(),
            final(self).docs() == old(self).docs(),
            final(self).content() == old(self).content(),
            final(self).embeddings@ == old(self).embeddings@,
            final(self).next_id == old(self).next_id,
            (dims == 0 || dims > MAX_DIMENSION) ==> r == Err::<(), VectorError>(VectorError::UnsupportedDimension)
                && final(self).dimension == old(self).dimension,
            (0 < dims <= MAX_DIMENSION && old(self).dimension is None) ==> r is Ok && final(self).dimension == Some(dims),
            (0 < dims <= MAX_DIMENSION && old(self).dimension == Some(dims)) ==> r is Ok
                && final(self).dimension == old(self).dimension,
            (0 < dims <= MAX_DIMENSION && old(self).dimension is Some && old(self).dimension->0 != dims) ==>
                r == Err::<(), VectorError>(VectorError::DimensionMismatch { expected: old(self).dimension->0, got: dims })
                && final(self).dimension == old(self).dimension,
    {
        if dims == 0 || dims > MAX_DIMENSION {
            return Err(VectorError::UnsupportedDimension);
        }
        match self.dimension {
            None => {
                self.dimension = Some(dims);
                Ok(())
            },
            Some(d) => {
                if d == dims { Ok(()) } else { Err(VectorError::DimensionMismatch { expected: d, got: dims }) }
            },
        }
    }

    /// Stores the embedding of chunk `seq` of the body with this hash,
    /// replacing an earlier one of the same chunk. A vector whose dimension is
    /// not the table's is refused, and the table is left as it was.
    pub fn insert_embedding(&mut self, hash: &str, seq: usize, pos: usize, vector: Vec<i8>, model: &str, now: &str)
        -> (r: Result<(), VectorError>)
        requires
            old(self).wf(),
        ensures
            final(self).wf(),
            final(self).docs() == old(self).docs(),
            final(self).content() == old(self).content(),
            final(self).next_id == old(self).next_id,
            final(self).dimension == old(self).dimension,
            old(self).dimension is None ==> r == Err::<(), VectorError>(VectorError::NoVectorTable)
                && final(self).embeddings@ == old(self).embeddings@,
            old(self).dimension is Some && vector@.len() != old(self).dimension->0 ==>
                r == Err::<(), VectorError>(VectorError::DimensionMismatch { expected: old(self).dimension->0, got: vector@.len() as usize })
                && final(self).embeddings@ == old(self).embeddings@,
            old(self).dimension is Some && vector@.len() == old(self).dimension->0 ==> r is Ok
                && emb_views(final(self).embeddings@) == put_embedding(emb_views(old(self).embeddings@), EmbeddingView {
                    hash: hash@, seq, pos, vector: vector@, model: model@, embedded_at: now@ }),
    {
        let d = match self.dimension {
            None => { return Err(VectorError::NoVectorTable); },
            Some(d) => d,
        };
        if vector.len() != d {
            return Err(VectorError::DimensionMismatch { expected: d, got: vector.len() });
        }
        let ghost v = vector@;
        let row = EmbeddingRow {
            hash: hash.to_owned(),
            seq,
            pos,
            vector,
            model: model.to_owned(),
            embedded_at: now.to_owned(),
        };
        let ghost nv = EmbeddingView { hash: hash@, seq, pos, vector: v, model: model@, embedded_at: now@ };
        let ghost ov = emb_views(old(self).embeddings@);
        match self.embedding_index(hash, seq) {
            Some(i) => {
                self.embeddings.set(i, row);
                proof {
                    assert(emb_views(self.embeddings@) =~= ov.update(i as int, nv));
                    let w = choose|w: int| 0 <= w < ov.len() && ov[w].hash == nv.hash && ov[w].seq == nv.seq
                        && forall|j: int| 0 <= j < w ==> !(ov[j].hash == nv.hash && ov[j].seq == nv.seq);
                    assert(ov[i as int].hash == nv.hash && ov[i as int].seq == nv.seq);
                    if w < i { assert(!(ov[w].hash == nv.hash && ov[w].seq == nv.seq)); }
                    if w > i { assert(!(ov[i as int].hash == nv.hash && ov[i as int].seq == nv.seq)); }
                    assert(self.embeddings@[i as int].hash@ == hash@);
                    assert forall|k: int| 0 <= k < self.embeddings@.len() implies #[trigger] self.embeddings@[k].vector@.len() == d by {
                        if k != i {
                            assert(self.embeddings@[k] == old(self).embeddings@[k]);
                        }
                    }
                }
            },
            None => {
                self.embeddings.push(row);
                proof {
                    assert(emb_views(self.embeddings@) =~= ov.push(nv));
                    assert(!exists|w: int| 0 <= w < ov.len() && ov[w].hash == nv.hash && ov[w].seq == nv.seq);
                    let n = self.embeddings@.len() - 1;
                    assert(self.embeddings@[n].hash@ == hash@);
                    assert forall|k: int| 0 <= k < self.embeddings@.len() implies #[trigger] self.embeddings@[k].vector@.len() == d by {
                        if k < n {
                            assert(self.embeddings@[k] == old(self).embeddings@[k]);
                        }
                    }
                }
            },
        }
        Ok(())
    }
}

} // verus!
