//! The order of search results: higher score first, then the shorter
//! document, then the path in lexicographic order.
use vstd::prelude::*;

verus! {

/// `a` is lexicographically at most `b`.
pub open spec fn seq_le(a: Seq<char>, b: Seq<char>) -> bool
    decreases a.len(),
{
    if a.len() == 0 {
        true
    } else if b.len() == 0 {
        false
    } else if (a[0] as u32) != (b[0] as u32) {
        (a[0] as u32) < (b[0] as u32)
    } else {
        seq_le(a.skip(1), b.skip(1))
    }
}

pub proof fn lemma_seq_le_total(a: Seq<char>, b: Seq<char>)
    ensures
        seq_le(a, b) || seq_le(b, a),
    decreases a.len(),
{
    if a.len() > 0 && b.len() > 0 && (a[0] as u32) == (b[0] as u32) {
        lemma_seq_le_total(a.skip(1), b.skip(1));
    }
}

pub proof fn lemma_seq_le_trans(a: Seq<char>, b: Seq<char>, c: Seq<char>)
    requires
        seq_le(a, b),
        seq_le(b, c),
    ensures
        seq_le(a, c),
    decreases a.len(),
{
    if a.len() > 0 && b.len() > 0 && c.len() > 0 && (a[0] as u32) == (b[0] as u32) && (b[0] as u32) == (c[0] as u32) {
        lemma_seq_le_trans(a.skip(1), b.skip(1), c.skip(1));
    }
}

/// Whether `a` is lexicographically at most `b`.
pub fn text_le(a: &Vec<char>, b: &Vec<char>) -> (r: bool)
    ensures
        r == seq_le(a@, b@),
{
    let mut i: usize = 0;
    proof {
        assert(a@.skip(0) =~= a@);
        assert(b@.skip(0) =~= b@);
    }
    while i < a.len() && i < b.len() && (a[i] as u32) == (b[i] as u32)
        invariant
            i <= a@.len(),
            i <= b@.len(),
            seq_le(a@, b@) == seq_le(a@.skip(i as int), b@.skip(i as int)),
        decreases a@.len() - i,
    {
        proof {
            assert(a@.skip(i as int).skip(1) =~= a@.skip(i as int + 1));
            assert(b@.skip(i as int).skip(1) =~= b@.skip(i as int + 1));
        }
        i = i + 1;
    }
    proof {
        if i < a@.len() && i < b@.len() {
            assert(a@.skip(i as int)[0] == a@[i as int]);
            assert(b@.skip(i as int)[0] == b@[i as int]);
        }
    }
    if i == a.len() {
        true
    } else if i == b.len() {
        false
    } else {
        (a[i] as u32) < (b[i] as u32)
    }
}

/// The sort key of a result.
pub struct RankKey {
    pub score: nat,
    pub length: nat,
    pub path: Seq<char>,
}

/// `a` ranks at or before `b`.
pub open spec fn key_before(a: RankKey, b: RankKey) -> bool {
    a.score > b.score || (a.score == b.score && (a.length < b.length
        || (a.length == b.length && seq_le(a.path, b.path))))
}

pub proof fn lemma_key_total(a: RankKey, b: RankKey)
    ensures
        key_before(a, b) || key_before(b, a),
{
    lemma_seq_le_total(a.path, b.path);
}

pub proof fn lemma_key_trans(a: RankKey, b: RankKey, c: RankKey)
    requires
        key_before(a, b),
        key_before(b, c),
    ensures
        key_before(a, c),
{
    if a.score == b.score && b.score == c.score && a.length == b.length && b.length == c.length {
        lemma_seq_le_trans(a.path, b.path, c.path);
    }
}

} // verus!
