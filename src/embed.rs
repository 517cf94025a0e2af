//! The decisions of an embedding batch, one chunk at a time: the caller runs
//! the embedding model on each planned chunk and hands the outcome here.
use vstd::prelude::*;
use crate::store::{emb_views, put_embedding, EmbeddingView, Store};
use crate::vectors::{VectorError, MAX_DIMENSION};
use crate::chunk::{chunk_document_by_tokens, chunk_views, is_chunking, utf8_len, valid_bounds, whole_document_chunk, Chunk, ChunkError, ChunkView};

verus! {

/// A chunk waiting for its embedding.
pub struct ChunkPlan {
    pub hash: String,
    pub text: String,
    pub seq: usize,
    pub pos: usize,
    pub bytes: usize,
}

/// `p` is chunk number `seq` of the body with this hash, taken from `c`.
pub open spec fn plans_chunk(p: ChunkPlan, hash: Seq<char>, seq: int, c: ChunkView) -> bool {
    p.hash@ == hash && p.seq == seq && p.text@ == c.text && p.pos == c.pos && p.bytes == c.bytes
}

/// The plan for one body: nothing for an empty body; its token windows where
/// the tokenizer gave valid boundaries (and the window is larger than the
/// overlap); else the whole body as chunk 0.
pub open spec fn is_plan(r: Seq<ChunkPlan>, hash: Seq<char>, body: Seq<char>, bounds: Option<Seq<usize>>,
    target: nat, overlap: nat) -> bool
{
    if body.len() == 0 {
        r.len() == 0
    } else if bounds is Some && overlap < target && valid_bounds(bounds->0, body.len()) {
        exists|cs: Seq<ChunkView>| #[trigger] is_chunking(cs, body, bounds->0, target, overlap)
            && r.len() == cs.len()
            && forall|i: int| 0 <= i < r.len() ==> plans_chunk(#[trigger] r[i], hash, i, cs[i])
    } else {
        r.len() == 1 && r[0].hash@ == hash && r[0].seq == 0 && r[0].text@ == body && r[0].pos == 0
            && r[0].bytes == utf8_len(body)
    }
}

pub open spec fn bounds_view(bounds: Option<&Vec<usize>>) -> Option<Seq<usize>> {
    match bounds {
        Some(b) => Some(b@),
        None => None,
    }
}

/// Plans the chunks of one pending body (see `is_plan`); `bounds` are the
/// token boundaries the embedding model's tokenizer gave, if it could.
pub fn plan_chunks(hash: &str, body: &str, bounds: Option<&Vec<usize>>, target_tokens: usize, overlap_tokens: usize)
    -> (r: Vec<ChunkPlan>)
    requires
        4 * body@.len() <= usize::MAX,
    ensures
        is_plan(r@, hash@, body@, bounds_view(bounds), target_tokens as nat, overlap_tokens as nat),
{
    let mut out: Vec<ChunkPlan> = Vec::new();
    if body.is_empty() {
        proof {
            assert(body@.len() == 0) by {
                if body@.len() > 0 { assert(body@.len() > 0); }
            }
        }
        return out;
    }
    let chunks = match bounds {
        Some(b) => {
            let c = chunk_document_by_tokens(body, b, target_tokens, overlap_tokens);
            proof {
                if c is Err {
                    let e = c->Err_0;
                    if e is OverlapTooLarge {
                        assert(c == Err::<Vec<Chunk>, ChunkError>(ChunkError::OverlapTooLarge));
                    } else {
                        assert(e == ChunkError::InvalidBoundaries);
                        assert(c == Err::<Vec<Chunk>, ChunkError>(ChunkError::InvalidBoundaries));
                    }
                    assert(!(overlap_tokens < target_tokens && valid_bounds(b@, body@.len())));
                }
            }
            c
        },
        None => Err(ChunkError::InvalidBoundaries),
    };
    match chunks {
        Ok(cs) => {
            let ghost cv = chunk_views(cs@);
            let mut i: usize = 0;
            while i < cs.len()
                invariant
                    i <= cs@.len(),
                    cv == chunk_views(cs@),
                    out@.len() == i,
                    forall|x: int| 0 <= x < i ==> plans_chunk(#[trigger] out@[x], hash@, x, cv[x]),
                decreases cs@.len() - i,
            {
                let c = &cs[i];
                out.push(ChunkPlan { hash: hash.to_owned(), text: c.text.clone(), seq: i, pos: c.pos, bytes: c.bytes });
                i = i + 1;
            }
            proof {
                assert(bounds is Some);
                let bv = bounds->0@;
                assert(overlap_tokens < target_tokens);
                assert(valid_bounds(bv, body@.len()));
                assert(is_chunking(cv, body@, bv, target_tokens as nat, overlap_tokens as nat));
                assert(out@.len() == cv.len());
                let ob = bounds_view(bounds);
                assert(ob == Some(bv));
                assert(is_chunking(cv, body@, ob->0, target_tokens as nat, overlap_tokens as nat)
                    && out@.len() == cv.len()
                    && forall|i: int| 0 <= i < out@.len() ==> plans_chunk(#[trigger] out@[i], hash@, i, cv[i]));
                assert(is_plan(out@, hash@, body@, ob, target_tokens as nat, overlap_tokens as nat));
            }
            out
        },
        Err(_) => {
            let whole = whole_document_chunk(body);
            out.push(ChunkPlan { hash: hash.to_owned(), text: whole.text, seq: 0, pos: 0, bytes: whole.bytes });
            proof {
                assert(!(bounds_view(bounds) is Some && overlap_tokens < target_tokens
                    && valid_bounds(bounds_view(bounds)->0, body@.len())));
                assert(out@.len() == 1);
            }
            out
        },
    }
}

/// How far a batch has come.
#[derive(Clone, Copy, Debug, PartialEq, Eq)]
pub struct EmbedProgress {
    pub embedded: usize,
    pub errors: usize,
    pub bytes_done: usize,
}

/// A batch before its first chunk.
pub fn start_progress() -> (r: EmbedProgress)
    ensures
        r.embedded == 0 && r.errors == 0 && r.bytes_done == 0,
{
    EmbedProgress { embedded: 0, errors: 0, bytes_done: 0 }
}

impl Store {
    /// Records the outcome of embedding one planned chunk. A failed
    /// embedding is counted as an error and the batch goes on. A vector is
    /// stored (the first one fixing the table's dimension) and counted as
    /// embedded; a vector whose dimension the table refuses is an error for
    /// the caller, and leaves the table as it was. The chunk's bytes count as
    /// processed.
    pub fn apply_embedding(&mut self, progress: EmbedProgress, chunk: &ChunkPlan, outcome: Option<Vec<i8>>,
        model: &str, now: &str) -> (r: Result<EmbedProgress, VectorError>)
        requires
            old(self).wf(),
            progress.embedded + progress.errors < usize::MAX,
        ensures
            final(self).wf(),
            final(self).docs() == old(self).docs(),
            final(self).content() == old(self).content(),
            r matches Ok(p) ==> p.bytes_done == if progress.bytes_done + chunk.bytes <= usize::MAX {
                (progress.bytes_done + chunk.bytes) as usize } else { usize::MAX },
            outcome is None ==> (r matches Ok(p) && p.errors == progress.errors + 1 && p.embedded == progress.embedded)
                && final(self).embeddings@ == old(self).embeddings@ && final(self).dimension == old(self).dimension,
            outcome matches Some(v) ==> {
                &&& (v@.len() == 0 || v@.len() > MAX_DIMENSION) ==>
                    r == Err::<EmbedProgress, VectorError>(VectorError::UnsupportedDimension)
                &&& (0 < v@.len() <= MAX_DIMENSION && old(self).dimension is Some && old(self).dimension->0 != v@.len()) ==>
                    r == Err::<EmbedProgress, VectorError>(VectorError::DimensionMismatch {
                        expected: old(self).dimension->0, got: v@.len() as usize })
                &&& r is Err ==> final(self).embeddings@ == old(self).embeddings@ && final(self).dimension == old(self).dimension
                &&& (0 < v@.len() <= MAX_DIMENSION && (old(self).dimension is None || old(self).dimension->0 == v@.len())) ==>
                    (r matches Ok(p) && p.embedded == progress.embedded + 1 && p.errors == progress.errors)
                    && final(self).dimension == Some(v@.len() as usize)
                    && emb_views(final(self).embeddings@) == put_embedding(emb_views(old(self).embeddings@), EmbeddingView {
                        hash: chunk.hash@, seq: chunk.seq, pos: chunk.pos, vector: v@, model: model@, embedded_at: now@ })
            },
    {
        let bytes_done = if chunk.bytes <= usize::MAX - progress.bytes_done { progress.bytes_done + chunk.bytes } else { usize::MAX };
        match outcome {
            None => Ok(EmbedProgress { embedded: progress.embedded, errors: progress.errors + 1, bytes_done }),
            Some(v) => {
                match self.ensure_vector_table(v.len()) {
                    Err(e) => Err(e),
                    Ok(()) => {
                        match self.insert_embedding(chunk.hash.as_str(), chunk.seq, chunk.pos, v, model, now) {
                            Ok(()) => Ok(EmbedProgress { embedded: progress.embedded + 1, errors: progress.errors, bytes_done }),
                            Err(e) => Err(e),
                        }
                    },
                }
            },
        }
    }
}

} // verus!
