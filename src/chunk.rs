//! Splitting a document into overlapping token windows for embedding.
//!
//! Tokens are counted by the embedding model's own tokenizer, so the caller
//! hands over the token boundaries: `bounds[i]` is the character offset at
//! which token `i` starts, and the last entry is the length of the text.
use vstd::prelude::*;
use crate::text::{chars_of, string_of};

verus! {

/// The window size used for embeddings, in tokens.
pub const CHUNK_SIZE_TOKENS: usize = 800;

/// How many tokens each window shares with the one before it.
pub const CHUNK_OVERLAP_TOKENS: usize = 120;

/// One window of a document.
pub struct Chunk {
    pub text: String,
    pub tokens: usize,
    /// Byte offset of the chunk in the document's UTF-8 encoding.
    pub pos: usize,
    /// Character offset of the chunk in the document.
    pub char_pos: usize,
    /// Length of the chunk's UTF-8 encoding.
    pub bytes: usize,
}

pub struct ChunkView {
    pub text: Seq<char>,
    pub tokens: nat,
    pub pos: nat,
    pub char_pos: nat,
    pub bytes: nat,
}

impl View for Chunk {
    type V = ChunkView;

    open spec fn view(&self) -> ChunkView {
        ChunkView { text: self.text@, tokens: self.tokens as nat, pos: self.pos as nat,
            char_pos: self.char_pos as nat, bytes: self.bytes as nat }
    }
}

/// Bytes of a character in UTF-8.
pub open spec fn utf8_width(c: char) -> nat {
    if (c as u32) < 0x80 { 1 } else if (c as u32) < 0x800 { 2 } else if (c as u32) < 0x10000 { 3 } else { 4 }
}

/// Bytes of a text in UTF-8.
pub open spec fn utf8_len(s: Seq<char>) -> nat
    decreases s.len(),
{
    if s.len() == 0 { 0 } else { utf8_len(s.drop_last()) + utf8_width(s.last()) }
}

pub proof fn lemma_utf8_len_bound(s: Seq<char>)
    ensures
        utf8_len(s) <= 4 * s.len(),
    decreases s.len(),
{
    if s.len() > 0 {
        lemma_utf8_len_bound(s.drop_last());
    }
}

/// The UTF-8 length of a slice is the difference of the prefix lengths.
pub proof fn lemma_utf8_len_split(s: Seq<char>, a: int, b: int)
    requires
        0 <= a <= b <= s.len(),
    ensures
        utf8_len(s.take(b)) == utf8_len(s.take(a)) + utf8_len(s.subrange(a, b)),
    decreases b - a,
{
    if a < b {
        lemma_utf8_len_split(s, a, b - 1);
        assert(s.take(b).drop_last() =~= s.take(b - 1));
        assert(s.subrange(a, b).drop_last() =~= s.subrange(a, b - 1));
    } else {
        assert(s.subrange(a, b) =~= Seq::<char>::empty());
    }
}

/// UTF-8 lengths of every prefix of `chars`: entry `i` is that of the first `i` characters.
pub fn utf8_offsets(chars: &Vec<char>) -> (r: Vec<usize>)
    requires
        4 * chars@.len() <= usize::MAX,
    ensures
        r@.len() == chars@.len() + 1,
        forall|i: int| 0 <= i <= chars@.len() ==> #[trigger] r@[i] as nat == utf8_len(chars@.take(i)),
{
    let mut out: Vec<usize> = Vec::new();
    out.push(0);
    let mut acc: usize = 0;
    let mut i: usize = 0;
    proof {
        assert(chars@.take(0) =~= Seq::<char>::empty());
    }
    while i < chars.len()
        invariant
            i <= chars@.len(),
            4 * chars@.len() <= usize::MAX,
            out@.len() == i + 1,
            acc as nat == utf8_len(chars@.take(i as int)),
            forall|x: int| 0 <= x <= i ==> #[trigger] out@[x] as nat == utf8_len(chars@.take(x)),
        decreases chars@.len() - i,
    {
        proof {
            assert(chars@.take(i as int + 1).drop_last() =~= chars@.take(i as int));
            lemma_utf8_len_bound(chars@.take(i as int + 1));
        }
        let c = chars[i] as u32;
        let w: usize = if c < 0x80 { 1 } else if c < 0x800 { 2 } else if c < 0x10000 { 3 } else { 4 };
        acc = acc + w;
        out.push(acc);
        i = i + 1;
    }
    out
}

/// Why a document could not be chunked.
#[derive(Clone, Copy, Debug, PartialEq, Eq)]
pub enum ChunkError {
    /// The overlap is not smaller than the window.
    OverlapTooLarge,
    /// The token boundaries do not start at 0, rise strictly and end at the text's length.
    InvalidBoundaries,
}

/// Token boundaries of a text of `len` characters.
pub open spec fn valid_bounds(bounds: Seq<usize>, len: nat) -> bool {
    &&& bounds.len() >= 1
    &&& bounds[0] == 0
    &&& bounds.last() == len
    &&& forall|i: int, j: int| 0 <= i < j < bounds.len() ==> bounds[i] < bounds[j]
}

/// The windows, as token ranges [start, end), from `start` on, over `n` tokens.
pub open spec fn windows_from(start: nat, n: nat, target: nat, overlap: nat) -> Seq<(nat, nat)>
    recommends
        overlap < target,
    decreases n - start, 
    when start <= n && overlap < target
{
    let end = if start + target < n { start + target } else { n };
    if end == n {
        seq![(start, end)]
    } else {
        seq![(start, end)] + windows_from((end - overlap) as nat, n, target, overlap)
    }
}

/// The windows over a text of `n` tokens.
pub open spec fn windows(n: nat, target: nat, overlap: nat) -> Seq<(nat, nat)> {
    windows_from(0, n, target, overlap)
}

/// `chunks` are the windows of `text` for these boundaries: each chunk holds
/// the characters of its tokens, their number, and its character offset.
pub open spec fn is_chunking(chunks: Seq<ChunkView>, text: Seq<char>, bounds: Seq<usize>, target: nat, overlap: nat) -> bool {
    let ws = windows((bounds.len() - 1) as nat, target, overlap);
    &&& chunks.len() == ws.len()
    &&& forall|i: int| 0 <= i < ws.len() ==> {
        &&& (#[trigger] chunks[i]).text == text.subrange(bounds[ws[i].0 as int] as int, bounds[ws[i].1 as int] as int)
        &&& chunks[i].tokens == ws[i].1 - ws[i].0
        &&& chunks[i].char_pos == bounds[ws[i].0 as int]
        &&& chunks[i].pos == utf8_len(text.take(bounds[ws[i].0 as int] as int))
        &&& chunks[i].bytes == utf8_len(chunks[i].text)
    }
}

/// The characters a chunk shares with the one before it.
pub open spec fn shared_chars(chunks: Seq<ChunkView>, i: int) -> int {
    if i == 0 { 0 } else { chunks[i - 1].char_pos + chunks[i - 1].text.len() - chunks[i].char_pos }
}

/// The chunk texts concatenated, each without what it shares with the one before.
pub open spec fn rejoined(chunks: Seq<ChunkView>) -> Seq<char>
    decreases chunks.len(),
{
    if chunks.len() == 0 {
        seq![]
    } else {
        rejoined(chunks.drop_last()) + chunks.last().text.skip(shared_chars(chunks, chunks.len() - 1))
    }
}

/// Facts about the windows from `start`: each is non-empty when there are
/// tokens, holds at most `target` tokens, starts `overlap` tokens before the
/// end of the one before, and the last ends at `n`.
pub proof fn lemma_windows_shape(start: nat, n: nat, target: nat, overlap: nat)
    requires
        start <= n,
        overlap < target,
    ensures
        windows_from(start, n, target, overlap).len() >= 1,
        windows_from(start, n, target, overlap)[0].0 == start,
        windows_from(start, n, target, overlap).last().1 == n,
        forall|i: int| 0 <= i < windows_from(start, n, target, overlap).len() ==> {
            let w = #[trigger] windows_from(start, n, target, overlap)[i];
            &&& start <= w.0 <= w.1 <= n
            &&& w.1 - w.0 <= target
            &&& (start < n ==> w.0 < w.1)
        },
        forall|i: int| 0 < i < windows_from(start, n, target, overlap).len() ==>
            #[trigger] windows_from(start, n, target, overlap)[i].0
                == windows_from(start, n, target, overlap)[i - 1].1 - overlap
            && windows_from(start, n, target, overlap)[i - 1].1 < n
            && windows_from(start, n, target, overlap)[i - 1].1 <= windows_from(start, n, target, overlap)[i].1
            && windows_from(start, n, target, overlap)[i - 1].0 < windows_from(start, n, target, overlap)[i].0,
    decreases n - start,
{
    let end = if start + target < n { start + target } else { n };
    if end != n {
        let next = (end - overlap) as nat;
        lemma_windows_shape(next, n, target, overlap);
        let rest = windows_from(next, n, target, overlap);
        let ws = windows_from(start, n, target, overlap);
        assert(ws == seq![(start, end)] + rest);
        assert forall|i: int| 0 < i < ws.len() implies
            #[trigger] ws[i].0 == ws[i - 1].1 - overlap && ws[i - 1].1 < n && ws[i - 1].1 <= ws[i].1 && ws[i - 1].0 < ws[i].0 by {
            if i > 1 {
                assert(ws[i] == rest[i - 1] && ws[i - 1] == rest[i - 2]);
            } else {
                assert(ws[1] == rest[0]);
            }
        }
    }
}

/// Chunking round trip: the chunk texts, each stripped of what it shares
/// with the one before, concatenate to the whole text.
#[verifier::rlimit(40)]
pub proof fn lemma_chunks_rejoin(chunks: Seq<ChunkView>, text: Seq<char>, bounds: Seq<usize>, target: nat, overlap: nat)
    requires
        valid_bounds(bounds, text.len()),
        overlap < target,
        is_chunking(chunks, text, bounds, target, overlap),
    ensures
        rejoined(chunks) == text,
{
    let n = (bounds.len() - 1) as nat;
    let ws = windows(n, target, overlap);
    lemma_windows_shape(0, n, target, overlap);
    assert forall|j: int| 0 <= j < bounds.len() implies #[trigger] bounds[j] <= text.len() by {
        if j < n {
            assert(bounds[j] < bounds[n as int]);
        }
    }
    assert forall|i: int| 0 < i < ws.len() implies (#[trigger] ws[i]).0 <= ws[i - 1].1 <= ws[i].1 by {
        assert(ws[i].0 == ws[i - 1].1 - overlap);
        assert(ws[i - 1].1 <= ws[i].1);
    }
    assert forall|i: int| 0 <= i < ws.len() implies (#[trigger] ws[i]).0 <= ws[i].1 && ws[i].1 < bounds.len() by {
        assert(ws[i].1 <= n);
    }
    lemma_rejoin_prefix(chunks, text, bounds, ws, chunks.len() as int);
    assert(chunks.take(chunks.len() as int) =~= chunks);
    assert(bounds[ws.last().1 as int] == text.len());
    assert(text.subrange(0, text.len() as int) =~= text);
}

#[verifier::rlimit(60)]
pub proof fn lemma_rejoin_prefix(chunks: Seq<ChunkView>, text: Seq<char>, bounds: Seq<usize>, ws: Seq<(nat, nat)>, m: int)
    requires
        forall|i: int, j: int| 0 <= i < j < bounds.len() ==> bounds[i] < bounds[j],
        forall|j: int| 0 <= j < bounds.len() ==> #[trigger] bounds[j] <= text.len(),
        bounds.len() >= 1,
        bounds[0] == 0,
        chunks.len() == ws.len(),
        ws.len() >= 1,
        ws[0].0 == 0,
        forall|i: int| 0 <= i < ws.len() ==> (#[trigger] ws[i]).0 <= ws[i].1 && ws[i].1 < bounds.len(),
        forall|i: int| 0 < i < ws.len() ==> (#[trigger] ws[i]).0 <= ws[i - 1].1 <= ws[i].1,
        forall|i: int| 0 <= i < ws.len() ==>
            (#[trigger] chunks[i]).text == text.subrange(bounds[ws[i].0 as int] as int, bounds[ws[i].1 as int] as int)
            && chunks[i].char_pos == bounds[ws[i].0 as int],
        1 <= m <= chunks.len(),
    ensures
        rejoined(chunks.take(m)) == text.subrange(0, bounds[ws[m - 1].1 as int] as int),
    decreases m,
{
    let cm = chunks.take(m);
    assert(cm.drop_last() =~= chunks.take(m - 1));
    assert(cm.last() == chunks[m - 1]);
    let w = ws[m - 1];
    let cur = chunks[m - 1];
    if m == 1 {
        assert(chunks.take(0) =~= Seq::<ChunkView>::empty());
        assert(shared_chars(cm, 0) == 0);
        assert(cur.text.skip(0) =~= cur.text);
        assert(rejoined(cm) == rejoined(cm.drop_last()) + cm.last().text.skip(shared_chars(cm, 0)));
        assert(w.0 == 0);
    } else {
        lemma_rejoin_prefix(chunks, text, bounds, ws, m - 1);
        let pw = ws[m - 2];
        let prev = chunks[m - 2];
        assert(pw.0 <= pw.1 && pw.1 < bounds.len());
        assert(w.0 <= pw.1 <= w.1);
        assert(cm[m - 2] == prev);
        assert(prev.text.len() == bounds[pw.1 as int] - bounds[pw.0 as int]);
        assert(shared_chars(cm, m - 1) == bounds[pw.1 as int] - bounds[w.0 as int]);
        assert(cur.text.skip(shared_chars(cm, m - 1)) =~= text.subrange(bounds[pw.1 as int] as int, bounds[w.1 as int] as int));
        assert(text.subrange(0, bounds[pw.1 as int] as int) + text.subrange(bounds[pw.1 as int] as int, bounds[w.1 as int] as int)
            =~= text.subrange(0, bounds[w.1 as int] as int));
    }
}

pub open spec fn chunk_views(chunks: Seq<Chunk>) -> Seq<ChunkView> {
    chunks.map_values(|c: Chunk| c@)
}

fn copy_range(chars: &Vec<char>, from: usize, to: usize) -> (r: Vec<char>)
    requires
        from <= to <= chars@.len(),
    ensures
        r@ == chars@.subrange(from as int, to as int),
{
    let mut out: Vec<char> = Vec::new();
    let mut i: usize = from;
    while i < to
        invariant
            from <= i <= to <= chars@.len(),
            out@ == chars@.subrange(from as int, i as int),
        decreases to - i,
    {
        out.push(chars[i]);
        proof {
            assert(chars@.subrange(from as int, i as int + 1) =~= chars@.subrange(from as int, i as int).push(chars@[i as int]));
        }
        i = i + 1;
    }
    out
}

/// Whether `bounds` are token boundaries of a text of `len` characters.
pub fn check_bounds(bounds: &Vec<usize>, len: usize) -> (r: bool)
    ensures
        r == valid_bounds(bounds@, len as nat),
{
    if bounds.len() == 0 || bounds[0] != 0 || bounds[bounds.len() - 1] != len {
        return false;
    }
    let mut i: usize = 1;
    while i < bounds.len()
        invariant
            1 <= i <= bounds@.len(),
            forall|a: int, b: int| 0 <= a < b < i ==> bounds@[a] < bounds@[b],
        decreases bounds@.len() - i,
    {
        if bounds[i - 1] >= bounds[i] {
            return false;
        }
        proof {
            assert forall|a: int, b: int| 0 <= a < b < i + 1 implies bounds@[a] < bounds@[b] by {
                if b == i && a < i - 1 {
                    assert(bounds@[a] < bounds@[i - 1]);
                }
            }
        }
        i = i + 1;
    }
    true
}

/// Splits `text` into windows of at most `target_tokens` tokens, each after
/// the first starting `overlap_tokens` tokens before the end of the one
/// before (see `windows`); `bounds` are the text's token boundaries.
pub fn chunk_document_by_tokens(text: &str, bounds: &Vec<usize>, target_tokens: usize, overlap_tokens: usize)
    -> (r: Result<Vec<Chunk>, ChunkError>)
    requires
        4 * text@.len() <= usize::MAX,
    ensures
        r == Err::<Vec<Chunk>, ChunkError>(ChunkError::OverlapTooLarge) <==> overlap_tokens >= target_tokens,
        r == Err::<Vec<Chunk>, ChunkError>(ChunkError::InvalidBoundaries) <==>
            (overlap_tokens < target_tokens && !valid_bounds(bounds@, text@.len())),
        r matches Ok(c) ==> is_chunking(chunk_views(c@), text@, bounds@, target_tokens as nat, overlap_tokens as nat),
{
    if overlap_tokens >= target_tokens {
        return Err(ChunkError::OverlapTooLarge);
    }
    let chars = chars_of(text);
    if !check_bounds(bounds, chars.len()) {
        return Err(ChunkError::InvalidBoundaries);
    }
    let offsets = utf8_offsets(&chars);
    let n: usize = bounds.len() - 1;
    let ghost t = target_tokens as nat;
    let ghost o = overlap_tokens as nat;
    let ghost ws = windows(n as nat, t, o);
    proof {
        assert(ws.len() >= 1);
        assert(ws.subrange(0, ws.len() as int) =~= ws);
    }
    let mut out: Vec<Chunk> = Vec::new();
    let mut start: usize = 0;
    let ghost mut done: nat = 0;
    loop
        invariant
            n == bounds@.len() - 1,
            valid_bounds(bounds@, chars@.len()),
            chars@ == text@,
            offsets@.len() == chars@.len() + 1,
            forall|x: int| 0 <= x <= chars@.len() ==> #[trigger] offsets@[x] as nat == utf8_len(chars@.take(x)),
            overlap_tokens < target_tokens,
            t == target_tokens as nat,
            o == overlap_tokens as nat,
            ws == windows(n as nat, t, o),
            start <= n,
            done < ws.len(),
            out@.len() == done,
            ws.subrange(done as int, ws.len() as int) == windows_from(start as nat, n as nat, t, o),
            forall|i: int| 0 <= i < done ==> {
                &&& (#[trigger] chunk_views(out@)[i]).text == text@.subrange(bounds@[ws[i].0 as int] as int, bounds@[ws[i].1 as int] as int)
                &&& chunk_views(out@)[i].tokens == ws[i].1 - ws[i].0
                &&& chunk_views(out@)[i].char_pos == bounds@[ws[i].0 as int]
                &&& chunk_views(out@)[i].pos == utf8_len(text@.take(bounds@[ws[i].0 as int] as int))
                &&& chunk_views(out@)[i].bytes == utf8_len(chunk_views(out@)[i].text)
            },
        decreases n - start,
    {
        let end: usize = if target_tokens < n - start { start + target_tokens } else { n };
        proof {
            assert(ws[done as int] == windows_from(start as nat, n as nat, t, o)[0]);
            assert(ws[done as int] == (start as nat, end as nat));
            assert(bounds@[start as int] <= bounds@[end as int]) by {
                if start < end { assert(bounds@[start as int] < bounds@[end as int]); }
            }
            assert(bounds@[end as int] <= chars@.len()) by {
                if end < n { assert(bounds@[end as int] < bounds@[n as int]); }
            }
        }
        let piece = copy_range(&chars, bounds[start], bounds[end]);
        proof {
            lemma_utf8_len_split(chars@, bounds@[start as int] as int, bounds@[end as int] as int);
        }
        let chunk = Chunk {
            text: string_of(&piece),
            tokens: end - start,
            pos: offsets[bounds[start]],
            char_pos: bounds[start],
            bytes: offsets[bounds[end]] - offsets[bounds[start]],
        };
        let ghost before = out@;
        out.push(chunk);
        proof {
            assert forall|i: int| 0 <= i < done + 1 implies {
                &&& (#[trigger] chunk_views(out@)[i]).text == text@.subrange(bounds@[ws[i].0 as int] as int, bounds@[ws[i].1 as int] as int)
                &&& chunk_views(out@)[i].tokens == ws[i].1 - ws[i].0
                &&& chunk_views(out@)[i].char_pos == bounds@[ws[i].0 as int]
                &&& chunk_views(out@)[i].pos == utf8_len(text@.take(bounds@[ws[i].0 as int] as int))
                &&& chunk_views(out@)[i].bytes == utf8_len(chunk_views(out@)[i].text)
            } by {
                if i < done {
                    assert(chunk_views(out@)[i] == chunk_views(before)[i]);
                }
            }
        }
        if end == n {
            proof {
                assert(windows_from(start as nat, n as nat, t, o).len() == 1);
                assert(done + 1 == ws.len());
                assert(chunk_views(out@).len() == ws.len());
            }
            return Ok(out);
        }
        let next: usize = end - overlap_tokens;
        proof {
            let rest = windows_from(next as nat, n as nat, t, o);
            assert(windows_from(start as nat, n as nat, t, o) == seq![(start as nat, end as nat)] + rest);
            let tail = ws.subrange(done as int, ws.len() as int);
            assert(tail == seq![(start as nat, end as nat)] + rest);
            assert(ws.subrange(done as int + 1, ws.len() as int) =~= tail.skip(1));
            assert(tail.skip(1) =~= rest);
            assert(rest.len() >= 1);
            done = done + 1;
        }
        start = next;
    }
}

/// The fallback where no tokenizer is at hand: the whole text as one chunk,
/// its token count estimated as a quarter of its UTF-8 bytes.
pub fn whole_document_chunk(text: &str) -> (r: Chunk)
    requires
        4 * text@.len() <= usize::MAX,
    ensures
        r.text@ == text@,
        r.pos == 0,
        r.char_pos == 0,
        r.bytes == utf8_len(text@),
        r.tokens == utf8_len(text@) / 4,
{
    let chars = chars_of(text);
    let offsets = utf8_offsets(&chars);
    let bytes = offsets[chars.len()];
    proof {
        assert(chars@.take(chars@.len() as int) =~= chars@);
    }
    Chunk { text: text.to_owned(), tokens: bytes / 4, pos: 0, char_pos: 0, bytes }
}

} // verus!
