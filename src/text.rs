//! Character-level helpers: conversions between `String` and `Vec<char>`,
//! splitting into lines, decimal rendering and line numbering.
use vstd::prelude::*;

verus! {

/// Relies on `str::chars` collected into a `Vec`: the characters of `s`, in order.
#[verifier::external_body]
pub(crate) fn chars_of(s: &str) -> (r: Vec<char>)
    ensures
        r@ == s@,
{
    s.chars().collect()
}

/// Relies on collecting `char`s into a `String`: the string of exactly these characters.
#[verifier::external_body]
pub(crate) fn string_of(v: &Vec<char>) -> (r: String)
    ensures
        r@ == v@,
{
    v.iter().collect()
}

/// Drops one trailing carriage return, as a `\r\n` line ending is split.
pub open spec fn strip_cr(line: Seq<char>) -> Seq<char> {
    if line.len() > 0 && line.last() == '\r' {
        line.drop_last()
    } else {
        line
    }
}

/// Scans `s` from the left: the lines completed so far and the open line.
pub open spec fn scan_lines(s: Seq<char>) -> (Seq<Seq<char>>, Seq<char>)
    decreases s.len(),
{
    if s.len() == 0 {
        (seq![], seq![])
    } else {
        let (done, cur) = scan_lines(s.drop_last());
        if s.last() == '\n' {
            (done.push(strip_cr(cur)), seq![])
        } else {
            (done, cur.push(s.last()))
        }
    }
}

/// The lines of `s`: split at `\n` (a preceding `\r` is dropped); the final
/// line ending is optional, and an empty text has no lines.
pub open spec fn lines_of(s: Seq<char>) -> Seq<Seq<char>> {
    let (done, cur) = scan_lines(s);
    if cur.len() == 0 {
        done
    } else {
        done.push(cur)
    }
}

/// The lines joined with `\n` between them.
pub open spec fn join_lines(lines: Seq<Seq<char>>) -> Seq<char>
    decreases lines.len(),
{
    if lines.len() == 0 {
        seq![]
    } else if lines.len() == 1 {
        lines[0]
    } else {
        join_lines(lines.drop_last()) + seq!['\n'] + lines.last()
    }
}

pub open spec fn digit_char(d: nat) -> char {
    if d == 0 { '0' }
    else if d == 1 { '1' }
    else if d == 2 { '2' }
    else if d == 3 { '3' }
    else if d == 4 { '4' }
    else if d == 5 { '5' }
    else if d == 6 { '6' }
    else if d == 7 { '7' }
    else if d == 8 { '8' }
    else { '9' }
}

/// Decimal notation of `n`, without leading zeros.
pub open spec fn decimal(n: nat) -> Seq<char>
    decreases n,
{
    if n < 10 {
        seq![digit_char(n)]
    } else {
        decimal(n / 10).push(digit_char(n % 10))
    }
}

fn digit_of(d: u128) -> (c: char)
    requires
        d < 10,
    ensures
        c == digit_char(d as nat),
{
    if d == 0 { '0' }
    else if d == 1 { '1' }
    else if d == 2 { '2' }
    else if d == 3 { '3' }
    else if d == 4 { '4' }
    else if d == 5 { '5' }
    else if d == 6 { '6' }
    else if d == 7 { '7' }
    else if d == 8 { '8' }
    else { '9' }
}

/// Appends the decimal notation of `n` to `out`.
pub fn push_decimal(out: &mut Vec<char>, n: u128)
    ensures
        final(out)@ == old(out)@ + decimal(n as nat),
    decreases n,
{
    if n < 10 {
        out.push(digit_of(n));
    } else {
        push_decimal(out, n / 10);
        out.push(digit_of(n % 10));
    }
}

/// A copy of the characters of `v`.
pub fn copy_chars(v: &Vec<char>) -> (r: Vec<char>)
    ensures
        r@ == v@,
{
    let mut out: Vec<char> = Vec::new();
    let mut i: usize = 0;
    while i < v.len()
        invariant
            i <= v@.len(),
            out@ == v@.take(i as int),
        decreases v@.len() - i,
    {
        out.push(v[i]);
        proof {
            assert(v@.take(i as int + 1) =~= v@.take(i as int).push(v@[i as int]));
        }
        i = i + 1;
    }
    proof {
        assert(v@.take(v@.len() as int) =~= v@);
    }
    out
}

/// Splits `s` into its lines (see `lines_of`).
pub fn split_lines(s: &Vec<char>) -> (r: Vec<Vec<char>>)
    ensures
        r@.map_values(|l: Vec<char>| l@) == lines_of(s@),
{
    let mut done: Vec<Vec<char>> = Vec::new();
    let mut cur: Vec<char> = Vec::new();
    let mut i: usize = 0;
    while i < s.len()
        invariant
            i <= s@.len(),
            (done@.map_values(|l: Vec<char>| l@), cur@) == scan_lines(s@.take(i as int)),
        decreases s@.len() - i,
    {
        let c = s[i];
        proof {
            assert(s@.take(i as int + 1).drop_last() == s@.take(i as int));
        }
        if c == '\n' {
            if cur.len() > 0 && cur[cur.len() - 1] == '\r' {
                cur.pop();
            }
            let line = cur;
            done.push(line);
            cur = Vec::new();
            proof {
                assert(done@.map_values(|l: Vec<char>| l@) =~= scan_lines(s@.take(i as int + 1)).0);
                assert(cur@ =~= scan_lines(s@.take(i as int + 1)).1);
            }
        } else {
            cur.push(c);
            proof {
                assert(done@.map_values(|l: Vec<char>| l@) =~= scan_lines(s@.take(i as int + 1)).0);
            }
        }
        i = i + 1;
    }
    proof {
        assert(s@.take(s@.len() as int) == s@);
    }
    if cur.len() > 0 {
        done.push(cur);
        proof {
            assert(done@.map_values(|l: Vec<char>| l@) =~= lines_of(s@));
        }
    }
    done
}

/// Joins lines with `\n` between them.
pub fn join_with_newlines(lines: &Vec<Vec<char>>) -> (r: Vec<char>)
    ensures
        r@ == join_lines(lines@.map_values(|l: Vec<char>| l@)),
{
    let ghost views = lines@.map_values(|l: Vec<char>| l@);
    let mut out: Vec<char> = Vec::new();
    let mut i: usize = 0;
    while i < lines.len()
        invariant
            i <= lines@.len(),
            views == lines@.map_values(|l: Vec<char>| l@),
            out@ == join_lines(views.take(i as int)),
        decreases lines@.len() - i,
    {
        proof {
            assert(views.take(i as int + 1).drop_last() =~= views.take(i as int));
        }
        if i > 0 {
            out.push('\n');
        }
        let line = &lines[i];
        let mut j: usize = 0;
        let ghost before = out@;
        while j < line.len()
            invariant
                j <= line@.len(),
                out@ == before + line@.take(j as int),
            decreases line@.len() - j,
        {
            out.push(line[j]);
            proof {
                assert(line@.take(j as int + 1) =~= line@.take(j as int).push(line@[j as int]));
            }
            j = j + 1;
        }
        proof {
            assert(line@.take(line@.len() as int) =~= line@);
            if i == 0 {
                assert(before =~= seq![]);
                assert(out@ =~= views.take(1)[0]);
            } else {
                assert(out@ =~= join_lines(views.take(i as int)) + seq!['\n'] + views[i as int]);
            }
        }
        i = i + 1;
    }
    proof {
        assert(views.take(lines@.len() as int) =~= views);
    }
    out
}

/// One numbered line: `"<n>: <line>"`.
pub open spec fn numbered_line(n: nat, line: Seq<char>) -> Seq<char> {
    decimal(n) + seq![':', ' '] + line
}

/// The lines of `text`, each prefixed by its number counting from `start`,
/// joined with `\n`.
pub open spec fn numbered_text(text: Seq<char>, start: nat) -> Seq<char> {
    let ls = lines_of(text);
    join_lines(Seq::new(ls.len(), |i: int| numbered_line(start + i as nat, ls[i])))
}

/// Drops leading characters equal to `c`.
pub open spec fn drop_leading(s: Seq<char>, c: char) -> Seq<char>
    decreases s.len(),
{
    if s.len() > 0 && s[0] == c {
        drop_leading(s.skip(1), c)
    } else {
        s
    }
}

/// Drops trailing spaces.
pub open spec fn drop_trailing_spaces(s: Seq<char>) -> Seq<char>
    decreases s.len(),
{
    if s.len() > 0 && s.last() == ' ' {
        drop_trailing_spaces(s.drop_last())
    } else {
        s
    }
}

/// The text of a heading line: without its leading `#`s and the spaces round the text.
pub open spec fn heading_text(line: Seq<char>) -> Seq<char> {
    drop_trailing_spaces(drop_leading(drop_leading(line, '#'), ' '))
}

/// A heading line: it starts with `#` and has some text.
pub open spec fn is_heading(line: Seq<char>) -> bool {
    line.len() > 0 && line[0] == '#' && heading_text(line).len() > 0
}

/// The text of the first heading among `lines`.
pub open spec fn first_heading(lines: Seq<Seq<char>>) -> Option<Seq<char>>
    decreases lines.len(),
{
    if lines.len() == 0 {
        None
    } else if is_heading(lines[0]) {
        Some(heading_text(lines[0]))
    } else {
        first_heading(lines.skip(1))
    }
}

pub open spec fn untitled() -> Seq<char> {
    seq!['U', 'n', 't', 'i', 't', 'l', 'e', 'd']
}

/// The title of a document: its first heading, else `Untitled`.
pub open spec fn title_of(body: Seq<char>) -> Seq<char> {
    match first_heading(lines_of(body)) {
        Some(t) => t,
        None => untitled(),
    }
}

/// `heading_text` of a line.
pub fn heading_of(line: &Vec<char>) -> (r: Vec<char>)
    ensures
        r@ == heading_text(line@),
{
    let mut i: usize = 0;
    assert(line@.skip(0) =~= line@);
    while i < line.len() && line[i] == '#'
        invariant
            i <= line@.len(),
            drop_leading(line@, '#') == drop_leading(line@.skip(i as int), '#'),
        decreases line@.len() - i,
    {
        proof {
            assert(line@.skip(i as int).skip(1) =~= line@.skip(i as int + 1));
        }
        i = i + 1;
    }
    let ghost a = line@.skip(i as int);
    assert(drop_leading(line@, '#') == a);
    while i < line.len() && line[i] == ' '
        invariant
            i <= line@.len(),
            drop_leading(a, ' ') == drop_leading(line@.skip(i as int), ' '),
        decreases line@.len() - i,
    {
        proof {
            assert(line@.skip(i as int).skip(1) =~= line@.skip(i as int + 1));
        }
        i = i + 1;
    }
    let mut end: usize = line.len();
    assert(drop_leading(a, ' ') == line@.skip(i as int));
    while end > i && line[end - 1] == ' '
        invariant
            i <= end <= line@.len(),
            drop_trailing_spaces(line@.skip(i as int)) == drop_trailing_spaces(line@.subrange(i as int, end as int)),
        decreases end,
    {
        proof {
            assert(line@.subrange(i as int, end as int).drop_last() =~= line@.subrange(i as int, end as int - 1));
        }
        end = end - 1;
    }
    proof {
        assert(line@.skip(i as int) =~= line@.subrange(i as int, line@.len() as int));
    }
    let mut out: Vec<char> = Vec::new();
    let mut k: usize = i;
    while k < end
        invariant
            i <= k <= end <= line@.len(),
            out@ == line@.subrange(i as int, k as int),
        decreases end - k,
    {
        out.push(line[k]);
        proof {
            assert(line@.subrange(i as int, k as int + 1) =~= line@.subrange(i as int, k as int).push(line@[k as int]));
        }
        k = k + 1;
    }
    proof {
        let t = line@.subrange(i as int, end as int);
        assert(!(t.len() > 0 && t.last() == ' '));
        assert(drop_trailing_spaces(t) == t);
    }
    out
}

/// The title of a document body (see `title_of`).
pub fn extract_title(body: &str) -> (r: String)
    ensures
        r@ == title_of(body@),
{
    let chars = chars_of(body);
    let lines = split_lines(&chars);
    let ghost ls = lines@.map_values(|l: Vec<char>| l@);
    let mut i: usize = 0;
    assert(ls.skip(0) =~= ls);
    while i < lines.len()
        invariant
            i <= lines@.len(),
            ls == lines@.map_values(|l: Vec<char>| l@),
            ls == lines_of(body@),
            first_heading(ls) == first_heading(ls.skip(i as int)),
        decreases lines@.len() - i,
    {
        let line = &lines[i];
        let h = heading_of(line);
        proof {
            assert(ls.skip(i as int)[0] == line@);
            assert(ls.skip(i as int).skip(1) =~= ls.skip(i as int + 1));
        }
        if line.len() > 0 && line[0] == '#' && h.len() > 0 {
            return string_of(&h);
        }
        i = i + 1;
    }
    proof {
        assert(ls.skip(i as int).len() == 0);
        reveal_strlit("Untitled");
    }
    let fallback = "Untitled".to_owned();
    proof {
        assert(fallback@ =~= untitled());
    }
    fallback
}

} // verus!
