//! Paths: normalization of catalog keys, the exclusion rules and the glob
//! filter applied to a walk, and the external notations for documents.
use vstd::prelude::*;
use crate::text::{chars_of, string_of};

verus! {

/// Whether `pattern` is a well-formed glob (on the target the crate is built
/// for: whether `\\` separates path components depends on it).
pub uninterp spec fn glob_valid(pattern: Seq<char>) -> bool;

/// Whether the glob `pattern` matches `path` (default match options).
pub uninterp spec fn glob_matches(pattern: Seq<char>, path: Seq<char>) -> bool;

/// Relies on `glob::Pattern::new`, which fails exactly on a malformed pattern.
#[verifier::external_body]
pub(crate) fn glob_compiles(pattern: &str) -> (r: bool)
    ensures
        r == glob_valid(pattern@),
{
    glob::Pattern::new(pattern).is_ok()
}

/// Relies on `glob::Pattern::matches` of the compiled pattern: whether the
/// whole of `path` matches it.
#[verifier::external_body]
pub(crate) fn glob_match(pattern: &str, path: &str) -> (r: bool)
    requires
        glob_valid(pattern@),
    ensures
        r == glob_matches(pattern@, path@),
{
    match glob::Pattern::new(pattern) {
        Ok(p) => p.matches(path),
        Err(_) => false,
    }
}

/// A separator in canonical form: backslashes become slashes.
pub open spec fn canonical_sep(c: char) -> char {
    if c == '\\' { '/' } else { c }
}

/// The normalized form of a path: separators as `/`, runs of separators
/// collapsed to one, and no leading separator.
pub open spec fn handelized(s: Seq<char>) -> Seq<char>
    decreases s.len(),
{
    if s.len() == 0 {
        seq![]
    } else {
        let out = handelized(s.drop_last());
        let c = canonical_sep(s.last());
        if c == '/' && (out.len() == 0 || out.last() == '/') {
            out
        } else {
            out.push(c)
        }
    }
}

/// Normalizes a relative path into a catalog key (see `handelized`).
pub fn handelize(path: &str) -> (r: String)
    ensures
        r@ == handelized(path@),
{
    let s = chars_of(path);
    let mut out: Vec<char> = Vec::new();
    let mut i: usize = 0;
    while i < s.len()
        invariant
            i <= s@.len(),
            out@ == handelized(s@.take(i as int)),
        decreases s@.len() - i,
    {
        proof {
            assert(s@.take(i as int + 1).drop_last() =~= s@.take(i as int));
        }
        let c = if s[i] == '\\' { '/' } else { s[i] };
        if !(c == '/' && (out.len() == 0 || out[out.len() - 1] == '/')) {
            out.push(c);
        }
        i = i + 1;
    }
    proof {
        assert(s@.take(s@.len() as int) =~= s@);
    }
    string_of(&out)
}

/// The `/`-separated components of a path, empty ones included.
pub open spec fn scan_components(s: Seq<char>) -> (Seq<Seq<char>>, Seq<char>)
    decreases s.len(),
{
    if s.len() == 0 {
        (seq![], seq![])
    } else {
        let (done, cur) = scan_components(s.drop_last());
        if s.last() == '/' {
            (done.push(cur), seq![])
        } else {
            (done, cur.push(s.last()))
        }
    }
}

pub open spec fn components(s: Seq<char>) -> Seq<Seq<char>> {
    scan_components(s).0.push(scan_components(s).1)
}

/// A component that the walk skips: hidden entries (version-control
/// metadata among them) and dependency or build output directories.
pub open spec fn is_noise(c: Seq<char>) -> bool {
    ||| c.len() > 0 && c[0] == '.'
    ||| c == "node_modules"@
    ||| c == "target"@
    ||| c == "dist"@
    ||| c == "build"@
    ||| c == "__pycache__"@
}

/// A path is excluded when one of its components is noise.
pub open spec fn excluded(path: Seq<char>) -> bool {
    exists|i: int| 0 <= i < components(path).len() && is_noise(#[trigger] components(path)[i])
}

fn noise_component(c: &Vec<char>) -> (r: bool)
    ensures
        r == is_noise(c@),
{
    if c.len() > 0 && c[0] == '.' {
        return true;
    }
    let t = string_of(c);
    t == "node_modules".to_owned() || t == "target".to_owned() || t == "dist".to_owned()
        || t == "build".to_owned() || t == "__pycache__".to_owned()
}

/// Whether the walk skips this relative path (see `excluded`).
pub fn should_exclude(path: &str) -> (r: bool)
    ensures
        r == excluded(path@),
{
    let s = chars_of(path);
    let mut done: Vec<Vec<char>> = Vec::new();
    let mut cur: Vec<char> = Vec::new();
    let mut i: usize = 0;
    while i < s.len()
        invariant
            i <= s@.len(),
            (done@.map_values(|l: Vec<char>| l@), cur@) == scan_components(s@.take(i as int)),
        decreases s@.len() - i,
    {
        proof {
            assert(s@.take(i as int + 1).drop_last() == s@.take(i as int));
        }
        if s[i] == '/' {
            let piece = cur;
            done.push(piece);
            cur = Vec::new();
            proof {
                assert(done@.map_values(|l: Vec<char>| l@) =~= scan_components(s@.take(i as int + 1)).0);
                assert(cur@ =~= scan_components(s@.take(i as int + 1)).1);
            }
        } else {
            cur.push(s[i]);
            proof {
                assert(done@.map_values(|l: Vec<char>| l@) =~= scan_components(s@.take(i as int + 1)).0);
            }
        }
        i = i + 1;
    }
    proof {
        assert(s@.take(s@.len() as int) =~= s@);
    }
    done.push(cur);
    let ghost comps = done@.map_values(|l: Vec<char>| l@);
    proof {
        assert(comps =~= components(path@));
    }
    let mut k: usize = 0;
    while k < done.len()
        invariant
            k <= done@.len(),
            comps == done@.map_values(|l: Vec<char>| l@),
            comps == components(path@),
            forall|j: int| 0 <= j < k ==> !is_noise(#[trigger] comps[j]),
        decreases done@.len() - k,
    {
        if noise_component(&done[k]) {
            proof {
                assert(is_noise(comps[k as int]));
            }
            return true;
        }
        k = k + 1;
    }
    false
}

/// A file chosen for a sync: its path relative to the collection root, and
/// its catalog key.
pub struct SelectedFile {
    pub rel_path: String,
    pub path: String,
}

/// Whether the keys chosen so far include `path`.
pub open spec fn key_chosen(chosen: Seq<(Seq<char>, Seq<char>)>, path: Seq<char>) -> bool {
    exists|i: int| 0 <= i < chosen.len() && #[trigger] chosen[i].1 == path
}

/// The files a sync considers, in walk order, given for each relative path
/// whether the glob matched it: those not excluded and matched, as
/// (relative path, key) pairs, the first of several that normalize to one
/// key being kept.
pub open spec fn selection_by(rel_paths: Seq<Seq<char>>, matched: Seq<bool>) -> Seq<(Seq<char>, Seq<char>)>
    decreases rel_paths.len(),
{
    if rel_paths.len() == 0 {
        seq![]
    } else {
        let chosen = selection_by(rel_paths.drop_last(), matched.drop_last());
        let r = rel_paths.last();
        if !excluded(r) && matched[rel_paths.len() - 1] && !key_chosen(chosen, handelized(r)) {
            chosen.push((r, handelized(r)))
        } else {
            chosen
        }
    }
}

/// Whether the glob `pattern` matches each relative path.
pub open spec fn glob_results(pattern: Seq<char>, rel_paths: Seq<Seq<char>>) -> Seq<bool> {
    Seq::new(rel_paths.len(), |i: int| glob_matches(pattern, rel_paths[i]))
}

/// The files a sync considers for the glob `pattern` (see `selection_by`).
pub open spec fn selection(pattern: Seq<char>, rel_paths: Seq<Seq<char>>) -> Seq<(Seq<char>, Seq<char>)> {
    selection_by(rel_paths, glob_results(pattern, rel_paths))
}

/// Why a walk could not be filtered.
#[derive(Clone, Copy, Debug, PartialEq, Eq)]
pub enum SelectError {
    InvalidPattern,
}

pub open spec fn selected_views(files: Seq<SelectedFile>) -> Seq<(Seq<char>, Seq<char>)> {
    files.map_values(|f: SelectedFile| (f.rel_path@, f.path@))
}

/// Filters the relative paths of a walk by the exclusion rules and the glob
/// `pattern`, and normalizes them (see `selection`). A malformed pattern is
/// an error.
pub fn select_files(pattern: &str, rel_paths: &Vec<String>) -> (r: Result<Vec<SelectedFile>, SelectError>)
    ensures
        r is Err <==> !glob_valid(pattern@),
        r matches Ok(v) ==> selected_views(v@) == selection(pattern@, rel_paths@.map_values(|s: String| s@)),
        r matches Ok(v) ==> forall|a: int, b: int| 0 <= a < b < v@.len() ==> v@[a].path@ != v@[b].path@,
{
    if !glob_compiles(pattern) {
        return Err(SelectError::InvalidPattern);
    }
    let ghost rels = rel_paths@.map_values(|s: String| s@);
    let mut matched: Vec<bool> = Vec::new();
    let mut i: usize = 0;
    while i < rel_paths.len()
        invariant
            glob_valid(pattern@),
            i <= rel_paths@.len(),
            rels == rel_paths@.map_values(|s: String| s@),
            matched@ == glob_results(pattern@, rels).take(i as int),
        decreases rel_paths@.len() - i,
    {
        let m = glob_match(pattern, rel_paths[i].as_str());
        matched.push(m);
        proof {
            assert(matched@ =~= glob_results(pattern@, rels).take(i as int + 1));
        }
        i = i + 1;
    }
    proof {
        assert(matched@ =~= glob_results(pattern@, rels));
    }
    Ok(select_matching(rel_paths, &matched))
}

/// Selects the files of a walk given, for each relative path, whether the
/// glob matched it (see `selection_by`).
pub fn select_matching(rel_paths: &Vec<String>, matched: &Vec<bool>) -> (r: Vec<SelectedFile>)
    requires
        matched@.len() == rel_paths@.len(),
    ensures
        selected_views(r@) == selection_by(rel_paths@.map_values(|s: String| s@), matched@),
        forall|a: int, b: int| 0 <= a < b < r@.len() ==> r@[a].path@ != r@[b].path@,
{
    let ghost rels = rel_paths@.map_values(|s: String| s@);
    let mut out: Vec<SelectedFile> = Vec::new();
    let mut i: usize = 0;
    while i < rel_paths.len()
        invariant
            i <= rel_paths@.len(),
            matched@.len() == rel_paths@.len(),
            rels == rel_paths@.map_values(|s: String| s@),
            selected_views(out@) == selection_by(rels.take(i as int), matched@.take(i as int)),
        decreases rel_paths@.len() - i,
    {
        proof {
            assert(rels.take(i as int + 1).drop_last() =~= rels.take(i as int));
            assert(matched@.take(i as int + 1).drop_last() =~= matched@.take(i as int));
            assert(rels.take(i as int + 1).last() == rel_paths@[i as int]@);
            assert(matched@.take(i as int + 1)[i as int] == matched@[i as int]);
        }
        let r = &rel_paths[i];
        if !should_exclude(r.as_str()) && matched[i] {
            let key = handelize(r.as_str());
            let mut seen = false;
            let mut j: usize = 0;
            while j < out.len()
                invariant
                    j <= out@.len(),
                    !seen ==> forall|x: int| 0 <= x < j ==> selected_views(out@)[x].1 != key@,
                    seen ==> key_chosen(selected_views(out@), key@),
                decreases out@.len() - j,
            {
                if out[j].path == key {
                    proof {
                        assert(selected_views(out@)[j as int].1 == key@);
                    }
                    seen = true;
                }
                j = j + 1;
            }
            if !seen {
                let ghost before = out@;
                out.push(SelectedFile { rel_path: r.clone(), path: key });
                proof {
                    assert(selected_views(out@) =~= selected_views(before).push((r@, handelized(r@))));
                }
            }
        }
        i = i + 1;
    }
    proof {
        assert(rels.take(rels.len() as int) =~= rels);
        assert(matched@.take(matched@.len() as int) =~= matched@);
        lemma_selection_distinct(rels, matched@);
        assert forall|a: int, b: int| 0 <= a < b < out@.len() implies out@[a].path@ != out@[b].path@ by {
            assert(selected_views(out@)[a].1 == out@[a].path@);
            assert(selected_views(out@)[b].1 == out@[b].path@);
        }
    }
    out
}

/// The keys chosen by a selection are distinct.
pub proof fn lemma_selection_distinct(rel_paths: Seq<Seq<char>>, matched: Seq<bool>)
    requires
        matched.len() == rel_paths.len(),
    ensures
        forall|a: int, b: int| 0 <= a < b < selection_by(rel_paths, matched).len() ==>
            selection_by(rel_paths, matched)[a].1 != selection_by(rel_paths, matched)[b].1,
    decreases rel_paths.len(),
{
    if rel_paths.len() > 0 {
        lemma_selection_distinct(rel_paths.drop_last(), matched.drop_last());
        let chosen = selection_by(rel_paths.drop_last(), matched.drop_last());
        let out = selection_by(rel_paths, matched);
        assert forall|a: int, b: int| 0 <= a < b < out.len() implies out[a].1 != out[b].1 by {
            if b == chosen.len() {
                assert(out[a] == chosen[a]);
            } else {
                assert(out[a] == chosen[a] && out[b] == chosen[b]);
            }
        }
    }
}

/// Position of the first `/` in `s`, if any.
pub open spec fn first_slash(s: Seq<char>) -> Option<int> {
    if exists|i: int| 0 <= i < s.len() && s[i] == '/' {
        Some(choose|i: int| 0 <= i < s.len() && s[i] == '/' && forall|j: int| 0 <= j < i ==> s[j] != '/')
    } else {
        None
    }
}

pub proof fn lemma_first_slash(s: Seq<char>, i: int)
    requires
        0 <= i < s.len(),
        s[i] == '/',
        forall|j: int| 0 <= j < i ==> s[j] != '/',
    ensures
        first_slash(s) == Some(i),
{
    let k = choose|k: int| 0 <= k < s.len() && s[k] == '/' && forall|j: int| 0 <= j < k ==> s[j] != '/';
    if k < i {
        assert(s[k] != '/');
    }
    if k > i {
        assert(s[i] != '/');
    }
}

fn find_slash(s: &Vec<char>, from: usize) -> (r: Option<usize>)
    requires
        from <= s@.len(),
    ensures
        r matches Some(i) ==> from <= i < s@.len() && s@[i as int] == '/'
            && forall|j: int| from <= j < i ==> s@[j] != '/',
        r is None ==> forall|j: int| from <= j < s@.len() ==> s@[j] != '/',
{
    let mut i: usize = from;
    while i < s.len()
        invariant
            from <= i <= s@.len(),
            forall|j: int| from <= j < i ==> s@[j] != '/',
        decreases s@.len() - i,
    {
        if s[i] == '/' {
            return Some(i);
        }
        i = i + 1;
    }
    None
}

/// `collection/path` split at the first `/`: both parts, where there is one.
pub open spec fn collection_path_of(s: Seq<char>) -> Option<(Seq<char>, Seq<char>)> {
    match first_slash(s) {
        Some(i) => Some((s.take(i), s.skip(i + 1))),
        None => None,
    }
}

/// Splits `collection/path` at its first `/`.
pub fn split_collection_path(s: &str) -> (r: Option<(String, String)>)
    ensures
        r matches Some((c, p)) ==> collection_path_of(s@) == Some((c@, p@)),
        r is None ==> collection_path_of(s@) is None,
{
    let chars = chars_of(s);
    match find_slash(&chars, 0) {
        Some(i) => {
            proof {
                lemma_first_slash(s@, i as int);
            }
            let mut head: Vec<char> = Vec::new();
            let mut j: usize = 0;
            while j < i
                invariant
                    j <= i < chars@.len(),
                    head@ == chars@.take(j as int),
                decreases i - j,
            {
                head.push(chars[j]);
                proof {
                    assert(chars@.take(j as int + 1) =~= chars@.take(j as int).push(chars@[j as int]));
                }
                j = j + 1;
            }
            let mut tail: Vec<char> = Vec::new();
            let n = chars.len();
            assert(i < n);
            let mut k: usize = i + 1;
            while k < chars.len()
                invariant
                    i + 1 <= k <= chars@.len(),
                    tail@ == chars@.subrange(i as int + 1, k as int),
                decreases chars@.len() - k,
            {
                tail.push(chars[k]);
                proof {
                    assert(chars@.subrange(i as int + 1, k as int + 1) =~= chars@.subrange(i as int + 1, k as int).push(chars@[k as int]));
                }
                k = k + 1;
            }
            proof {
                assert(tail@ =~= chars@.skip(i as int + 1));
            }
            Some((string_of(&head), string_of(&tail)))
        },
        None => {
            proof {
                assert(!exists|j: int| 0 <= j < s@.len() && s@[j] == '/');
            }
            None
        },
    }
}

/// The scheme of virtual paths.
pub open spec fn scheme() -> Seq<char> {
    seq!['q', 'm', 'd', ':', '/', '/']
}

/// A virtual path: `qmd://collection/path`.
pub open spec fn is_virtual(s: Seq<char>) -> bool {
    s.len() >= 6 && s.take(6) == scheme()
}

/// The (collection, path) of a virtual path: the collection runs to the next
/// `/` (or the end, for a collection root, whose path is empty) and must not
/// be empty.
pub open spec fn virtual_parts(s: Seq<char>) -> Option<(Seq<char>, Seq<char>)> {
    if !is_virtual(s) {
        None
    } else {
        let rest = s.skip(6);
        match first_slash(rest) {
            Some(i) => if i == 0 { None } else { Some((rest.take(i), rest.skip(i + 1))) },
            None => if rest.len() == 0 { None } else { Some((rest, seq![])) },
        }
    }
}

/// Whether `s` is a virtual path (`qmd://...`).
pub fn is_virtual_path(s: &str) -> (r: bool)
    ensures
        r == is_virtual(s@),
{
    let chars = chars_of(s);
    if chars.len() < 6 {
        return false;
    }
    let r = chars[0] == 'q' && chars[1] == 'm' && chars[2] == 'd' && chars[3] == ':' && chars[4] == '/' && chars[5] == '/';
    proof {
        if r {
            assert(s@.take(6) =~= scheme());
        } else {
            assert(s@.take(6) != scheme()) by {
                if s@.take(6) == scheme() {
                    assert(s@.take(6)[0] == 'q' && s@.take(6)[1] == 'm' && s@.take(6)[2] == 'd');
                    assert(s@.take(6)[3] == ':' && s@.take(6)[4] == '/' && s@.take(6)[5] == '/');
                }
            }
        }
    }
    r
}

/// Splits a virtual path into (collection, path) (see `virtual_parts`).
pub fn parse_virtual_path(s: &str) -> (r: Option<(String, String)>)
    ensures
        r matches Some((c, p)) ==> virtual_parts(s@) == Some((c@, p@)),
        r is None ==> virtual_parts(s@) is None,
{
    if !is_virtual_path(s) {
        return None;
    }
    let chars = chars_of(s);
    let mut rest: Vec<char> = Vec::new();
    let mut k: usize = 6;
    while k < chars.len()
        invariant
            6 <= k <= chars@.len(),
            rest@ == chars@.subrange(6, k as int),
        decreases chars@.len() - k,
    {
        rest.push(chars[k]);
        proof {
            assert(chars@.subrange(6, k as int + 1) =~= chars@.subrange(6, k as int).push(chars@[k as int]));
        }
        k = k + 1;
    }
    proof {
        assert(rest@ =~= s@.skip(6));
    }
    let rest_text = string_of(&rest);
    match find_slash(&rest, 0) {
        Some(i) => {
            proof {
                lemma_first_slash(rest@, i as int);
            }
            if i == 0 {
                return None;
            }
            match split_collection_path(rest_text.as_str()) {
                Some((c, p)) => Some((c, p)),
                None => None,
            }
        },
        None => {
            proof {
                assert(!exists|j: int| 0 <= j < rest@.len() && rest@[j] == '/');
            }
            if rest.len() == 0 {
                None
            } else {
                Some((rest_text, String::new()))
            }
        },
    }
}

pub open spec fn is_hex_digit(c: char) -> bool {
    ('0' <= c && c <= '9') || ('a' <= c && c <= 'f')
}

/// A docid reference: `#` followed by the hex digits of a docid.
pub open spec fn is_docid_ref(s: Seq<char>) -> bool {
    &&& s.len() == 9
    &&& s[0] == '#'
    &&& forall|i: int| 1 <= i < 9 ==> is_hex_digit(#[trigger] s[i])
}

/// Whether `s` is a docid reference such as `#1a2b3c4d`.
pub fn is_docid(s: &str) -> (r: bool)
    ensures
        r == is_docid_ref(s@),
{
    let chars = chars_of(s);
    if chars.len() != 9 || chars[0] != '#' {
        return false;
    }
    let mut i: usize = 1;
    while i < 9
        invariant
            1 <= i <= 9,
            chars@.len() == 9,
            chars@ == s@,
            forall|j: int| 1 <= j < i ==> is_hex_digit(#[trigger] chars@[j]),
        decreases 9 - i,
    {
        let c = chars[i];
        if !(('0' <= c && c <= '9') || ('a' <= c && c <= 'f')) {
            proof {
                assert(!is_hex_digit(s@[i as int]));
            }
            return false;
        }
        i = i + 1;
    }
    true
}

/// Unicode `White_Space`, which `str::trim` removes.
pub open spec fn is_white_space(c: char) -> bool {
    let u = c as u32;
    ||| 0x09 <= u && u <= 0x0d
    ||| u == 0x20 || u == 0x85 || u == 0xa0 || u == 0x1680
    ||| 0x2000 <= u && u <= 0x200a
    ||| u == 0x2028 || u == 0x2029 || u == 0x202f || u == 0x205f || u == 0x3000
}

fn white_space(c: char) -> (r: bool)
    ensures
        r == is_white_space(c),
{
    let u = c as u32;
    (0x09 <= u && u <= 0x0d) || u == 0x20 || u == 0x85 || u == 0xa0 || u == 0x1680
        || (0x2000 <= u && u <= 0x200a) || u == 0x2028 || u == 0x2029 || u == 0x202f || u == 0x205f || u == 0x3000
}

/// The bounds [a, b) of `s` without its leading and trailing white space.
pub open spec fn trim_bounds(s: Seq<char>, a: int, b: int) -> bool {
    &&& 0 <= a <= b <= s.len()
    &&& forall|i: int| 0 <= i < a ==> is_white_space(#[trigger] s[i])
    &&& forall|i: int| b <= i < s.len() ==> is_white_space(#[trigger] s[i])
    &&& a < b ==> !is_white_space(s[a]) && !is_white_space(s[b - 1])
}

/// `s` without leading and trailing white space.
pub open spec fn trimmed(s: Seq<char>) -> Seq<char> {
    let (a, b) = choose|ab: (int, int)| trim_bounds(s, ab.0, ab.1);
    s.subrange(a, b)
}

/// The pieces of `s` between commas, empty ones included.
pub open spec fn scan_commas(s: Seq<char>) -> (Seq<Seq<char>>, Seq<char>)
    decreases s.len(),
{
    if s.len() == 0 {
        (seq![], seq![])
    } else {
        let (done, cur) = scan_commas(s.drop_last());
        if s.last() == ',' { (done.push(cur), seq![]) } else { (done, cur.push(s.last())) }
    }
}

pub open spec fn comma_pieces(s: Seq<char>) -> Seq<Seq<char>> {
    scan_commas(s).0.push(scan_commas(s).1)
}

/// (collection, path) of a name: a virtual path, or `collection/path`.
pub open spec fn name_parts(name: Seq<char>) -> Option<(Seq<char>, Seq<char>)> {
    if is_virtual(name) { virtual_parts(name) } else { collection_path_of(name) }
}

/// The names of a comma-separated list, trimmed, empty ones dropped, that
/// resolve to (collection, path), in order.
pub open spec fn listed_names(pieces: Seq<Seq<char>>) -> Seq<(Seq<char>, Seq<char>)>
    decreases pieces.len(),
{
    if pieces.len() == 0 {
        seq![]
    } else {
        let rest = listed_names(pieces.drop_last());
        let t = trimmed(pieces.last());
        if t.len() > 0 && name_parts(t) is Some { rest.push(name_parts(t)->0) } else { rest }
    }
}

pub proof fn lemma_trim_unique(s: Seq<char>, a: int, b: int)
    requires
        trim_bounds(s, a, b),
    ensures
        trimmed(s) == s.subrange(a, b),
{
    let w = (a, b);
    assert(trim_bounds(s, w.0, w.1));
    let (a2, b2) = choose|ab: (int, int)| trim_bounds(s, ab.0, ab.1);
    assert(trim_bounds(s, a2, b2));
    if a < b && a2 < b2 {
        if a < a2 { assert(is_white_space(s[a])); }
        if a2 < a { assert(is_white_space(s[a2])); }
        if b < b2 { assert(is_white_space(s[b2 - 1])); }
        if b2 < b { assert(is_white_space(s[b - 1])); }
    } else if a < b {
        if a2 <= a && a < b2 { }
        else if a < a2 { assert(is_white_space(s[a])); }
        else { assert(is_white_space(s[a])); }
    } else if a2 < b2 {
        if a <= a2 && a2 < b { }
        else if a2 < a { assert(is_white_space(s[a2])); }
        else { assert(is_white_space(s[a2])); }
    }
    assert(s.subrange(a, b) =~= s.subrange(a2, b2));
}

/// The trimmed text of `s`.
fn trim_chars(s: &Vec<char>) -> (r: Vec<char>)
    ensures
        r@ == trimmed(s@),
{
    let mut a: usize = 0;
    while a < s.len() && white_space(s[a])
        invariant
            a <= s@.len(),
            forall|i: int| 0 <= i < a ==> is_white_space(#[trigger] s@[i]),
        decreases s@.len() - a,
    {
        a = a + 1;
    }
    let mut b: usize = s.len();
    while b > a && white_space(s[b - 1])
        invariant
            a <= b <= s@.len(),
            forall|i: int| b <= i < s@.len() ==> is_white_space(#[trigger] s@[i]),
        decreases b,
    {
        b = b - 1;
    }
    proof {
        assert(trim_bounds(s@, a as int, b as int));
        lemma_trim_unique(s@, a as int, b as int);
    }
    let mut out: Vec<char> = Vec::new();
    let mut k: usize = a;
    while k < b
        invariant
            a <= k <= b <= s@.len(),
            out@ == s@.subrange(a as int, k as int),
        decreases b - k,
    {
        out.push(s[k]);
        proof {
            assert(s@.subrange(a as int, k as int + 1) =~= s@.subrange(a as int, k as int).push(s@[k as int]));
        }
        k = k + 1;
    }
    out
}

/// The (collection, path) of each name of a comma-separated list (see
/// `listed_names`): names are trimmed, empty ones dropped, and a name that
/// is neither a virtual path nor `collection/path` is left out.
pub fn resolve_file_list(files: &str) -> (r: Vec<(String, String)>)
    ensures
        r@.map_values(|p: (String, String)| (p.0@, p.1@)) == listed_names(comma_pieces(files@)),
{
    let s = chars_of(files);
    let mut done: Vec<Vec<char>> = Vec::new();
    let mut cur: Vec<char> = Vec::new();
    let mut i: usize = 0;
    while i < s.len()
        invariant
            i <= s@.len(),
            (done@.map_values(|l: Vec<char>| l@), cur@) == scan_commas(s@.take(i as int)),
        decreases s@.len() - i,
    {
        proof {
            assert(s@.take(i as int + 1).drop_last() == s@.take(i as int));
        }
        if s[i] == ',' {
            let piece = cur;
            done.push(piece);
            cur = Vec::new();
            proof {
                assert(done@.map_values(|l: Vec<char>| l@) =~= scan_commas(s@.take(i as int + 1)).0);
                assert(cur@ =~= scan_commas(s@.take(i as int + 1)).1);
            }
        } else {
            cur.push(s[i]);
            proof {
                assert(done@.map_values(|l: Vec<char>| l@) =~= scan_commas(s@.take(i as int + 1)).0);
            }
        }
        i = i + 1;
    }
    proof {
        assert(s@.take(s@.len() as int) =~= s@);
    }
    done.push(cur);
    let ghost pieces = done@.map_values(|l: Vec<char>| l@);
    proof {
        assert(pieces =~= comma_pieces(files@));
    }
    let mut out: Vec<(String, String)> = Vec::new();
    let mut k: usize = 0;
    while k < done.len()
        invariant
            k <= done@.len(),
            pieces == done@.map_values(|l: Vec<char>| l@),
            out@.map_values(|p: (String, String)| (p.0@, p.1@)) == listed_names(pieces.take(k as int)),
        decreases done@.len() - k,
    {
        proof {
            assert(pieces.take(k as int + 1).drop_last() =~= pieces.take(k as int));
            assert(pieces.take(k as int + 1).last() == done@[k as int]@);
        }
        let t = trim_chars(&done[k]);
        if t.len() > 0 {
            let name = string_of(&t);
            let parts = if is_virtual_path(name.as_str()) {
                parse_virtual_path(name.as_str())
            } else {
                split_collection_path(name.as_str())
            };
            match parts {
                Some((c, p)) => {
                    let ghost before = out@;
                    out.push((c, p));
                    proof {
                        assert(out@.map_values(|p: (String, String)| (p.0@, p.1@))
                            =~= before.map_values(|p: (String, String)| (p.0@, p.1@)).push(name_parts(t@)->0));
                    }
                },
                None => {},
            }
        }
        k = k + 1;
    }
    proof {
        assert(pieces.take(pieces.len() as int) =~= pieces);
    }
    out
}

} // verus!
