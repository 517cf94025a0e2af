//! Context annotations: free-text notes attached to a collection root or to
//! a path prefix within a collection, found by the nearest enclosing prefix.
use vstd::prelude::*;
use crate::maintenance::{has_prefix, starts_with};
use crate::store::same_text;
use crate::text::chars_of;

verus! {

/// A note on `collection` at `path` (the empty path stands for the root).
pub struct ContextEntry {
    pub collection: String,
    pub path: String,
    pub text: String,
}

/// `scope` encloses `path` as a directory does: it is empty (the collection
/// root), or it is `path` itself, or `path` continues it past a `/`.
pub open spec fn encloses(scope: Seq<char>, path: Seq<char>) -> bool {
    ||| scope.len() == 0
    ||| scope == path
    ||| has_prefix(path, scope) && (scope.last() == '/' || (path.len() > scope.len() && path[scope.len() as int] == '/'))
}

/// Entry `i` applies to `path` of `collection`: same collection, and its path
/// encloses `path`.
pub open spec fn applies(entries: Seq<ContextEntry>, i: int, collection: Seq<char>, path: Seq<char>) -> bool {
    0 <= i < entries.len() && entries[i].collection@ == collection && encloses(entries[i].path@, path)
}

/// Whether `scope` encloses `path` (see `encloses`).
pub fn scope_encloses(scope: &str, path: &String) -> (r: bool)
    ensures
        r == encloses(scope@, path@),
{
    let sc = chars_of(scope);
    let pc = chars_of(path.as_str());
    if sc.len() == 0 {
        return true;
    }
    if !starts_with(path, scope) {
        proof {
            if scope@ == path@ {
                assert(path@.take(scope@.len() as int) =~= scope@);
            }
        }
        return false;
    }
    proof {
        if sc@.len() == pc@.len() {
            assert(path@ =~= path@.take(scope@.len() as int));
        }
    }
    sc.len() == pc.len() || sc[sc.len() - 1] == '/' || pc[sc.len()] == '/'
}

/// Entry `i` is the nearest applicable one: no applicable entry has a longer
/// path, and none before it has one as long.
pub open spec fn is_nearest(entries: Seq<ContextEntry>, i: int, collection: Seq<char>, path: Seq<char>) -> bool {
    &&& applies(entries, i, collection, path)
    &&& forall|j: int| #[trigger] applies(entries, j, collection, path) ==> entries[j].path@.len() <= entries[i].path@.len()
    &&& forall|j: int| 0 <= j < i && #[trigger] applies(entries, j, collection, path) ==> entries[j].path@.len() < entries[i].path@.len()
}

/// The note for `path` of `collection`: that of the nearest enclosing entry
/// (an exact path being the nearest), else the global note, if any.
pub fn find_context(entries: &Vec<ContextEntry>, global: Option<&str>, collection: &str, path: &str) -> (r: Option<String>)
    ensures
        (exists|i: int| applies(entries@, i, collection@, path@)) ==> exists|i: int|
            #[trigger] is_nearest(entries@, i, collection@, path@) && (r matches Some(t) && t@ == entries@[i].text@),
        (forall|i: int| !applies(entries@, i, collection@, path@)) ==> match global {
            Some(g) => r matches Some(t) && t@ == g@,
            None => r is None,
        },
{
    let owned_path = path.to_owned();
    let mut best: Option<usize> = None;
    let mut best_len: usize = 0;
    let mut i: usize = 0;
    while i < entries.len()
        invariant
            i <= entries@.len(),
            owned_path@ == path@,
            best matches Some(b) ==> {
                &&& b < i
                &&& applies(entries@, b as int, collection@, path@)
                &&& best_len == entries@[b as int].path@.len()
                &&& forall|j: int| 0 <= j < i && #[trigger] applies(entries@, j, collection@, path@) ==>
                        entries@[j].path@.len() <= entries@[b as int].path@.len()
                &&& forall|j: int| 0 <= j < b && #[trigger] applies(entries@, j, collection@, path@) ==>
                        entries@[j].path@.len() < entries@[b as int].path@.len()
            },
            best is None ==> forall|j: int| 0 <= j < i ==> !applies(entries@, j, collection@, path@),
        decreases entries@.len() - i,
    {
        let e = &entries[i];
        if same_text(collection, &e.collection) && scope_encloses(e.path.as_str(), &owned_path) {
            let len = chars_of(e.path.as_str()).len();
            let take = match best {
                None => true,
                Some(_) => best_len < len,
            };
            if take {
                best = Some(i);
                best_len = len;
            }
        }
        i = i + 1;
    }
    proof {
        if exists|i: int| applies(entries@, i, collection@, path@) {
            let k = choose|k: int| applies(entries@, k, collection@, path@);
            assert(best is Some);
            let b = best->0 as int;
            assert(is_nearest(entries@, b, collection@, path@));
        }
    }
    match best {
        Some(b) => Some(entries[b].text.clone()),
        None => match global {
            Some(g) => Some(g.to_owned()),
            None => None,
        },
    }
}

} // verus!
