//! Query expansion, routing of sub-queries to search channels, and the
//! reordering of fused candidates by an external reranker.
use vstd::prelude::*;
use crate::fusion::RrfResult;

verus! {

/// The channel a sub-query is meant for.
#[derive(Clone, Copy, Debug, PartialEq, Eq)]
pub enum QueryType {
    /// Exact-term (lexical) search.
    Lex,
    /// Semantic (vector) search.
    Vec,
    /// A hypothetical answer, searched by its embedding like `Vec`.
    Hyde,
}

/// One sub-query.
pub struct Queryable {
    pub text: String,
    pub query_type: QueryType,
}

impl Queryable {
    pub fn lex(text: &str) -> (r: Queryable)
        ensures
            r.text@ == text@,
            r.query_type == QueryType::Lex,
    {
        Queryable { text: text.to_owned(), query_type: QueryType::Lex }
    }

    pub fn vec(text: &str) -> (r: Queryable)
        ensures
            r.text@ == text@,
            r.query_type == QueryType::Vec,
    {
        Queryable { text: text.to_owned(), query_type: QueryType::Vec }
    }
}

/// The expansion that needs no generation model: the query itself, once for
/// each channel.
pub fn expand_query_simple(query: &str) -> (r: Vec<Queryable>)
    ensures
        r@.len() == 2,
        r@[0].text@ == query@ && r@[0].query_type == QueryType::Lex,
        r@[1].text@ == query@ && r@[1].query_type == QueryType::Vec,
{
    let mut out: Vec<Queryable> = Vec::new();
    out.push(Queryable::lex(query));
    out.push(Queryable::vec(query));
    out
}

/// Whether a sub-query goes to the vector channel.
pub open spec fn uses_vectors(t: QueryType) -> bool {
    t == QueryType::Vec || t == QueryType::Hyde
}

/// The texts of the sub-queries of one channel, in order.
pub open spec fn channel_texts(queries: Seq<Queryable>, vector: bool) -> Seq<Seq<char>>
    decreases queries.len(),
{
    if queries.len() == 0 {
        seq![]
    } else {
        let rest = channel_texts(queries.drop_last(), vector);
        if uses_vectors(queries.last().query_type) == vector { rest.push(queries.last().text@) } else { rest }
    }
}

/// Splits sub-queries by channel: (lexical texts, vector texts); a
/// hypothetical answer is searched like a vector query.
pub fn route_queries(queries: &Vec<Queryable>) -> (r: (Vec<String>, Vec<String>))
    ensures
        r.0@.map_values(|s: String| s@) == channel_texts(queries@, false),
        r.1@.map_values(|s: String| s@) == channel_texts(queries@, true),
{
    let mut lex: Vec<String> = Vec::new();
    let mut vecs: Vec<String> = Vec::new();
    let mut i: usize = 0;
    while i < queries.len()
        invariant
            i <= queries@.len(),
            lex@.map_values(|s: String| s@) == channel_texts(queries@.take(i as int), false),
            vecs@.map_values(|s: String| s@) == channel_texts(queries@.take(i as int), true),
        decreases queries@.len() - i,
    {
        proof {
            assert(queries@.take(i as int + 1).drop_last() =~= queries@.take(i as int));
        }
        let q = &queries[i];
        let is_vector = match q.query_type {
            QueryType::Lex => false,
            QueryType::Vec => true,
            QueryType::Hyde => true,
        };
        if is_vector {
            vecs.push(q.text.clone());
            proof {
                assert(vecs@.map_values(|s: String| s@) =~= channel_texts(queries@.take(i as int + 1), true));
                assert(lex@.map_values(|s: String| s@) =~= channel_texts(queries@.take(i as int + 1), false));
            }
        } else {
            lex.push(q.text.clone());
            proof {
                assert(vecs@.map_values(|s: String| s@) =~= channel_texts(queries@.take(i as int + 1), true));
                assert(lex@.map_values(|s: String| s@) =~= channel_texts(queries@.take(i as int + 1), false));
            }
        }
        i = i + 1;
    }
    proof {
        assert(queries@.take(queries@.len() as int) =~= queries@);
    }
    (lex, vecs)
}

/// The candidate a reranked file names: the first with that file.
pub open spec fn first_with_file(cands: Seq<RrfResult>, file: Seq<char>) -> Option<int> {
    if exists|i: int| 0 <= i < cands.len() && cands[i].file@ == file {
        Some(choose|i: int| 0 <= i < cands.len() && cands[i].file@ == file
            && forall|j: int| 0 <= j < i ==> cands[j].file@ != file)
    } else {
        None
    }
}

/// The candidates in the reranker's order: for each file it returned, the
/// candidate with that file; files that match no candidate are dropped, and
/// candidates it did not return are left out.
pub open spec fn reranked(cands: Seq<RrfResult>, order: Seq<Seq<char>>) -> Seq<Seq<char>>
    decreases order.len(),
{
    if order.len() == 0 {
        seq![]
    } else {
        let rest = reranked(cands, order.drop_last());
        if exists|i: int| 0 <= i < cands.len() && cands[i].file@ == order.last() { rest.push(order.last()) } else { rest }
    }
}

pub open spec fn result_files(rs: Seq<RrfResult>) -> Seq<Seq<char>> {
    rs.map_values(|r: RrfResult| r.file@)
}

/// `x` is one of the candidates, unchanged in file, score, title and body.
pub open spec fn is_candidate(cands: Seq<RrfResult>, x: RrfResult) -> bool {
    exists|i: int| 0 <= i < cands.len() && #[trigger] cands[i].file@ == x.file@ && x.score == cands[i].score
        && x.title@ == cands[i].title@ && x.body@ == cands[i].body@
}

/// Position of the first candidate with this file.
pub fn find_candidate(cands: &Vec<RrfResult>, file: &String) -> (r: Option<usize>)
    ensures
        r matches Some(i) ==> i < cands@.len() && cands@[i as int].file@ == file@,
        r is None ==> forall|j: int| 0 <= j < cands@.len() ==> cands@[j].file@ != file@,
{
    let mut i: usize = 0;
    while i < cands.len()
        invariant
            i <= cands@.len(),
            forall|j: int| 0 <= j < i ==> cands@[j].file@ != file@,
        decreases cands@.len() - i,
    {
        if cands[i].file == *file {
            return Some(i);
        }
        i = i + 1;
    }
    None
}

fn copy_result(r: &RrfResult) -> (c: RrfResult)
    ensures
        c.file@ == r.file@,
        c.display_path@ == r.display_path@,
        c.title@ == r.title@,
        c.body@ == r.body@,
        c.score == r.score,
        c.best_rank == r.best_rank,
{
    RrfResult {
        file: r.file.clone(),
        display_path: r.display_path.clone(),
        title: r.title.clone(),
        body: r.body.clone(),
        score: r.score,
        best_rank: r.best_rank,
    }
}

/// Reorders fused candidates to the order a reranker returned, given as the
/// files it ranked best first (see `reranked`). Each result is the first
/// candidate with that file, unchanged.
pub fn apply_rerank(candidates: &Vec<RrfResult>, order: &Vec<String>) -> (r: Vec<RrfResult>)
    ensures
        result_files(r@) == reranked(candidates@, order@.map_values(|s: String| s@)),
        forall|k: int| 0 <= k < r@.len() ==> is_candidate(candidates@, #[trigger] r@[k]),
{
    let ghost files = order@.map_values(|s: String| s@);
    let mut out: Vec<RrfResult> = Vec::new();
    let mut k: usize = 0;
    while k < order.len()
        invariant
            k <= order@.len(),
            files == order@.map_values(|s: String| s@),
            result_files(out@) == reranked(candidates@, files.take(k as int)),
            forall|x: int| 0 <= x < out@.len() ==> is_candidate(candidates@, #[trigger] out@[x]),
        decreases order@.len() - k,
    {
        proof {
            assert(files.take(k as int + 1).drop_last() =~= files.take(k as int));
            assert(files.take(k as int + 1).last() == order@[k as int]@);
        }
        let want = &order[k];
        match find_candidate(candidates, want) {
            Some(i) => {
                let ghost before = out@;
                let c = copy_result(&candidates[i]);
                out.push(c);
                proof {
                    assert(result_files(out@) =~= result_files(before).push(want@));
                    assert(is_candidate(candidates@, out@[before.len() as int])) by {
                        assert(candidates@[i as int].file@ == out@[before.len() as int].file@);
                    }
                    assert forall|x: int| 0 <= x < out@.len() implies is_candidate(candidates@, #[trigger] out@[x]) by {
                        if x < before.len() {
                            assert(out@[x] == before[x]);
                        }
                    }
                }
            },
            None => {},
        }
        k = k + 1;
    }
    proof {
        assert(files.take(files.len() as int) =~= files);
    }
    out
}

} // verus!
