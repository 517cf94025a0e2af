use vstd::prelude::*;
use crate::text::{chars_of, copy_chars, join_lines, join_with_newlines, lines_of, numbered_line, numbered_text, push_decimal, split_lines, string_of};

verus! {

/// Default number of results returned by a search request.
pub fn default_limit() -> (r: usize)
    ensures
        r == 10,
{
    10
}

/// Line numbers are shown unless the caller turns them off.
pub fn default_true() -> (r: bool)
    ensures
        r,
{
    true
}

/// Prefixes each line of `text` with its number, counting from `start`
/// (`"12: line"`), and joins the numbered lines with `\n`.
pub fn add_line_numbers(text: &str, start: usize) -> (r: String)
    ensures
        r@ == numbered_text(text@, start as nat),
{
    let chars = chars_of(text);
    let lines = split_lines(&chars);
    let ghost ls = lines_of(text@);
    let mut out: Vec<Vec<char>> = Vec::new();
    let mut i: usize = 0;
    while i < lines.len()
        invariant
            i <= lines@.len(),
            lines@.map_values(|l: Vec<char>| l@) == ls,
            ls == lines_of(text@),
            out@.len() == i,
            forall|k: int| 0 <= k < i ==> #[trigger] out@[k]@ == numbered_line(start as nat + k as nat, ls[k]),
        decreases lines@.len() - i,
    {
        let mut line: Vec<char> = Vec::new();
        push_decimal(&mut line, (start as u128) + (i as u128));
        line.push(':');
        line.push(' ');
        let src = &lines[i];
        let mut j: usize = 0;
        let ghost head = line@;
        while j < src.len()
            invariant
                j <= src@.len(),
                line@ == head + src@.take(j as int),
            decreases src@.len() - j,
        {
            line.push(src[j]);
            proof {
                assert(src@.take(j as int + 1) =~= src@.take(j as int).push(src@[j as int]));
            }
            j = j + 1;
        }
        proof {
            assert(src@.take(src@.len() as int) =~= src@);
            assert(ls[i as int] == src@);
            assert(line@ =~= numbered_line(start as nat + i as nat, ls[i as int]));
        }
        out.push(line);
        i = i + 1;
    }
    let joined = join_with_newlines(&out);
    proof {
        assert(out@.map_values(|l: Vec<char>| l@) =~= Seq::new(ls.len(), |k: int| numbered_line(start as nat + k as nat, ls[k])));
    }
    string_of(&joined)
}

/// What a caller asks of a document retrieval.
pub struct GetParams {
    /// A path (`collection/path`) or a docid reference (`#abcd1234`).
    pub file: String,
    /// The first line to return, counting from 1.
    pub from_line: Option<usize>,
    /// How many lines to return at most.
    pub max_lines: Option<usize>,
    /// Whether to number the lines.
    pub line_numbers: bool,
}

impl GetParams {
    /// Retrieval of a whole document, with line numbers.
    pub fn new(file: &str) -> (r: GetParams)
        ensures
            r.file@ == file@,
            r.from_line is None,
            r.max_lines is None,
            r.line_numbers,
    {
        GetParams { file: file.to_owned(), from_line: None, max_lines: None, line_numbers: default_true() }
    }
}

/// The lines a retrieval keeps: from the first line asked for (from line 1
/// where none is; 0 counts as 1), at most `max_lines` of them; a first line
/// past the end keeps none.
pub open spec fn selected_lines(lines: Seq<Seq<char>>, from_line: Option<usize>, max_lines: Option<usize>) -> Seq<Seq<char>> {
    let start: int = match from_line {
        Some(f) => if f == 0 { 0 } else { f - 1 },
        None => 0,
    };
    let end: int = match max_lines {
        Some(m) => if start + m < lines.len() { start + m } else { lines.len() as int },
        None => lines.len() as int,
    };
    if start <= end { lines.subrange(start, end) } else { seq![] }
}

/// The text a retrieval returns of `body`: the whole body where neither a
/// first line nor a line count is asked for, else the selected lines joined
/// with `\n`; numbered from the first line asked for (or 1) where line
/// numbers are on.
pub open spec fn excerpt_of(body: Seq<char>, from_line: Option<usize>, max_lines: Option<usize>, line_numbers: bool) -> Seq<char> {
    let text = if from_line is None && max_lines is None {
        body
    } else {
        join_lines(selected_lines(lines_of(body), from_line, max_lines))
    };
    if line_numbers {
        numbered_text(text, match from_line { Some(f) => f as nat, None => 1 })
    } else {
        text
    }
}

/// The part of a document body that a retrieval returns (see `excerpt_of`).
pub fn document_excerpt(body: &str, from_line: Option<usize>, max_lines: Option<usize>, line_numbers: bool) -> (r: String)
    ensures
        r@ == excerpt_of(body@, from_line, max_lines, line_numbers),
{
    let text: String = if from_line.is_none() && max_lines.is_none() {
        body.to_owned()
    } else {
        {
            let chars = chars_of(body);
            let lines = split_lines(&chars);
            let ghost ls = lines@.map_values(|l: Vec<char>| l@);
            let n = lines.len();
            let start: usize = match from_line {
                Some(f) => if f == 0 { 0 } else { f - 1 },
                None => 0,
            };
            let end: usize = match max_lines {
                Some(m) => if m < n && start < n - m { start + m } else { n },
                None => n,
            };
            let mut kept: Vec<Vec<char>> = Vec::new();
            if start <= end {
                let mut i: usize = start;
                while i < end
                    invariant
                        start <= i <= end <= n,
                        n == lines@.len(),
                        ls == lines@.map_values(|l: Vec<char>| l@),
                        kept@.map_values(|l: Vec<char>| l@) == ls.subrange(start as int, i as int),
                    decreases end - i,
                {
                    let ghost before = kept@;
                    kept.push(copy_chars(&lines[i]));
                    proof {
                        assert(ls[i as int] == lines@[i as int]@);
                        assert(kept@.map_values(|l: Vec<char>| l@) =~= before.map_values(|l: Vec<char>| l@).push(ls[i as int]));
                        assert(kept@.map_values(|l: Vec<char>| l@) =~= ls.subrange(start as int, i as int + 1));
                    }
                    i = i + 1;
                }
            }
            proof {
                assert(kept@.map_values(|l: Vec<char>| l@) =~= selected_lines(lines_of(body@), from_line, max_lines));
            }
            string_of(&join_with_newlines(&kept))
        }
    };
    if line_numbers {
        let first: usize = match from_line { Some(f) => f, None => 1 };
        add_line_numbers(text.as_str(), first)
    } else {
        text
    }
}

pub open spec fn is_digit(c: char) -> bool {
    '0' <= c && c <= '9'
}

/// The value of a string of decimal digits.
pub open spec fn digits_value(s: Seq<char>) -> nat
    decreases s.len(),
{
    if s.len() == 0 { 0 } else { 10 * digits_value(s.drop_last()) + ((s.last() as u32) - ('0' as u32)) as nat }
}

/// The digits of an unsigned number as `usize::from_str` reads it: an
/// optional `+`, then at least one digit.
pub open spec fn number_digits(s: Seq<char>) -> Option<Seq<char>> {
    let d = sign_stripped(s);
    if d.len() > 0 && all_digits(d) { Some(d) } else { None }
}

/// Without one leading `+`.
pub open spec fn sign_stripped(s: Seq<char>) -> Seq<char> {
    if s.len() > 0 && s[0] == '+' { s.skip(1) } else { s }
}

pub open spec fn all_digits(d: Seq<char>) -> bool {
    forall|i: int| 0 <= i < d.len() ==> is_digit(#[trigger] d[i])
}

/// The line number a `:N` suffix names, where the text after the last `:`
/// is a number that fits in `usize`.
pub open spec fn line_suffix(s: Seq<char>) -> Option<(int, nat)> {
    if exists|i: int| 0 <= i < s.len() && s[i] == ':' {
        let i = choose|i: int| 0 <= i < s.len() && s[i] == ':' && forall|j: int| i < j < s.len() ==> s[j] != ':';
        match number_digits(s.skip(i + 1)) {
            Some(d) => if digits_value(d) <= usize::MAX { Some((i, digits_value(d))) } else { None },
            None => None,
        }
    } else {
        None
    }
}

pub proof fn lemma_digits_value_prefix(s: Seq<char>, k: int)
    requires
        0 <= k <= s.len(),
        forall|i: int| 0 <= i < s.len() ==> is_digit(#[trigger] s[i]),
    ensures
        digits_value(s.take(k)) <= digits_value(s),
    decreases s.len() - k,
{
    if k < s.len() {
        assert(s.take(k + 1).drop_last() =~= s.take(k));
        lemma_digits_value_prefix(s, k + 1);
    } else {
        assert(s.take(k) =~= s);
    }
}

/// Splits a `:N` line suffix off a file reference (see `line_suffix`):
/// the reference before the last `:` and the line number, or the whole
/// reference and no line number.
pub fn split_line_suffix(file: &str) -> (r: (String, Option<usize>))
    ensures
        match line_suffix(file@) {
            Some((i, n)) => r.0@ == file@.take(i) && r.1 == Some(n as usize),
            None => r.0@ == file@ && r.1 is None,
        },
{
    let chars = chars_of(file);
    let mut i: usize = chars.len();
    while i > 0 && chars[i - 1] != ':'
        invariant
            i <= chars@.len(),
            chars@ == file@,
            forall|j: int| i <= j < chars@.len() ==> chars@[j] != ':',
        decreases i,
    {
        i = i - 1;
    }
    if i == 0 {
        proof {
            assert(!exists|j: int| 0 <= j < file@.len() && file@[j] == ':');
        }
        return (file.to_owned(), None);
    }
    let colon = i - 1;
    let ghost c = colon as int;
    proof {
        let k = choose|k: int| 0 <= k < file@.len() && file@[k] == ':' && forall|j: int| k < j < file@.len() ==> file@[j] != ':';
        if k < c { assert(file@[c] != ':'); }
        if k > c { assert(file@[k] != ':'); }
        assert(k == c);
        assert(line_suffix(file@) == (match number_digits(file@.skip(c + 1)) {
            Some(dd) => if digits_value(dd) <= usize::MAX { Some((c, digits_value(dd))) } else { None },
            None => None,
        }));
    }
    let mut start: usize = i;
    if start < chars.len() && chars[start] == '+' {
        start = start + 1;
    }
    let ghost d = chars@.subrange(start as int, chars@.len() as int);
    proof {
        let rest = file@.skip(c + 1);
        assert(rest.len() == chars@.len() - i);
        if rest.len() > 0 {
            assert(rest[0] == chars@[i as int]);
        }
        if i < chars@.len() && chars@[i as int] == '+' {
            assert(d =~= rest.skip(1));
        } else {
            assert(d =~= rest);
        }
        assert(sign_stripped(rest) == d);
        assert(number_digits(rest) == (if d.len() > 0 && all_digits(d) { Some(d) } else { None }));
    }
    let mut value: u128 = 0;
    let mut k: usize = start;
    let mut ok = start < chars.len();
    while k < chars.len() && ok
        invariant
            start <= k <= chars@.len(),
            chars@ == file@,
            d == chars@.subrange(start as int, chars@.len() as int),
            number_digits(file@.skip(c + 1)) == (if d.len() > 0 && all_digits(d) { Some(d) } else { None }),
            line_suffix(file@) == (match number_digits(file@.skip(c + 1)) {
                Some(dd) => if digits_value(dd) <= usize::MAX { Some((c, digits_value(dd))) } else { None },
                None => None,
            }),
            ok ==> forall|j: int| start <= j < k ==> is_digit(#[trigger] chars@[j]),
            ok ==> value as nat == digits_value(chars@.subrange(start as int, k as int)),
            ok ==> value <= usize::MAX,
            ok ==> start < chars@.len(),
            !ok ==> (start == chars@.len() || exists|j: int| start <= j < chars@.len() && !is_digit(#[trigger] chars@[j])
                || (forall|j: int| start <= j < chars@.len() ==> is_digit(#[trigger] chars@[j])) && digits_value(d) > usize::MAX),
        decreases chars@.len() - k, (if ok { 1int } else { 0int }),
    {
        let ch = chars[k];
        if '0' <= ch && ch <= '9' {
            proof {
                assert(chars@.subrange(start as int, k as int + 1).drop_last() =~= chars@.subrange(start as int, k as int));
            }
            value = value * 10 + ((ch as u32) - ('0' as u32)) as u128;
            if value > usize::MAX as u128 {
                ok = false;
                proof {
                    if forall|j: int| start <= j < chars@.len() ==> is_digit(#[trigger] chars@[j]) {
                        assert forall|j: int| 0 <= j < d.len() implies is_digit(#[trigger] d[j]) by {
                            assert(d[j] == chars@[start + j]);
                        }
                        assert(d.take(k - start + 1) =~= chars@.subrange(start as int, k as int + 1));
                        lemma_digits_value_prefix(d, k - start + 1);
                    }
                }
            } else {
                k = k + 1;
            }
        } else {
            ok = false;
        }
    }
    let head = chars_of(file);
    let mut prefix: Vec<char> = Vec::new();
    let mut j: usize = 0;
    while j < colon
        invariant
            j <= colon < head@.len(),
            head@ == file@,
            c == colon as int,
            number_digits(file@.skip(c + 1)) == (if d.len() > 0 && all_digits(d) { Some(d) } else { None }),
            line_suffix(file@) == (match number_digits(file@.skip(c + 1)) {
                Some(dd) => if digits_value(dd) <= usize::MAX { Some((c, digits_value(dd))) } else { None },
                None => None,
            }),

            prefix@ == head@.take(j as int),
        decreases colon - j,
    {
        prefix.push(head[j]);
        proof {
            assert(head@.take(j as int + 1) =~= head@.take(j as int).push(head@[j as int]));
        }
        j = j + 1;
    }
    if ok {
        proof {
            assert(chars@.subrange(start as int, k as int) =~= d);
            assert forall|x: int| 0 <= x < d.len() implies is_digit(#[trigger] d[x]) by {
                assert(d[x] == chars@[start + x]);
            }
            assert(all_digits(d));
            assert(number_digits(file@.skip(c + 1)) == Some(d));
        }
        (string_of(&prefix), Some(value as usize))
    } else {
        proof {
            if exists|x: int| start <= x < chars@.len() && !is_digit(#[trigger] chars@[x]) {
                let x = choose|x: int| start <= x < chars@.len() && !is_digit(#[trigger] chars@[x]);
                assert(!is_digit(d[x - start]));
                assert(!all_digits(d));
            } else if start < chars@.len() {
                assert forall|x: int| 0 <= x < d.len() implies is_digit(#[trigger] d[x]) by {
                    assert(d[x] == chars@[start + x]);
                }
                assert(all_digits(d));
            }
        }
        (file.to_owned(), None)
    }
}

} // verus!
