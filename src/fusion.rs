//! Reciprocal Rank Fusion of ranked result lists.
//!
//! A document at 1-based rank `r` of a list earns `RRF_SCALE / (k + r)`
//! (integer division, so scores are exact fixed-point values); its fused
//! score is the sum over every list and position where it appears.
use vstd::prelude::*;

verus! {

/// The fixed-point unit of fused scores: a score of `RRF_SCALE` stands for 1.
pub const RRF_SCALE: u128 = 1_000_000_000_000;

/// The usual fusion constant.
pub const RRF_K: u64 = 60;

/// One entry of a ranked list: a document reference and what is shown of it.
pub struct RankedDoc {
    pub file: String,
    pub display_path: String,
    pub title: String,
    pub body: String,
}

/// A fused result.
pub struct RrfResult {
    pub file: String,
    pub display_path: String,
    pub title: String,
    pub body: String,
    pub score: u128,
    pub best_rank: usize,
}

/// What one appearance at `rank` adds to a document's score.
pub open spec fn contribution(k: nat, rank: nat) -> nat {
    if k + rank == 0 { 0 } else { RRF_SCALE as nat / (k + rank) }
}

/// The files of a list, best first.
pub open spec fn list_files(list: Seq<RankedDoc>) -> Seq<Seq<char>> {
    list.map_values(|d: RankedDoc| d.file@)
}

/// Every appearance of every list, in order: (file, 1-based rank).
pub open spec fn appearances(lists: Seq<Seq<RankedDoc>>) -> Seq<(Seq<char>, nat)>
    decreases lists.len(),
{
    if lists.len() == 0 {
        seq![]
    } else {
        appearances(lists.drop_last()) + Seq::new(lists.last().len(), |i: int| (lists.last()[i].file@, (i + 1) as nat))
    }
}

/// The fused score of `file`.
pub open spec fn rrf_score(apps: Seq<(Seq<char>, nat)>, k: nat, file: Seq<char>) -> nat
    decreases apps.len(),
{
    if apps.len() == 0 {
        0
    } else {
        rrf_score(apps.drop_last(), k, file) + if apps.last().0 == file { contribution(k, apps.last().1) } else { 0 }
    }
}

/// The best (lowest) rank at which `file` appears; 0 where it does not.
pub open spec fn best_rank(apps: Seq<(Seq<char>, nat)>, file: Seq<char>) -> nat
    decreases apps.len(),
{
    if apps.len() == 0 {
        0
    } else {
        let r = best_rank(apps.drop_last(), file);
        if apps.last().0 == file && (r == 0 || apps.last().1 < r) { apps.last().1 } else { r }
    }
}

pub open spec fn has_result(out: Seq<RrfResult>, file: Seq<char>) -> bool {
    exists|a: int| 0 <= a < out.len() && #[trigger] out[a].file@ == file
}

pub open spec fn appears(apps: Seq<(Seq<char>, nat)>, file: Seq<char>) -> bool {
    exists|i: int| 0 <= i < apps.len() && #[trigger] apps[i].0 == file
}

/// Fused order: higher score first, then lower best rank.
pub open spec fn ranks_before(a: RrfResult, b: RrfResult) -> bool {
    a.score > b.score || (a.score == b.score && a.best_rank <= b.best_rank)
}

/// What a list entry shows: its file, display path, title and body.
pub open spec fn shown(d: RankedDoc) -> (Seq<char>, Seq<char>, Seq<char>, Seq<char>) {
    (d.file@, d.display_path@, d.title@, d.body@)
}

/// What every appearance shows, in the order of `appearances`.
pub open spec fn shown_of(lists: Seq<Seq<RankedDoc>>) -> Seq<(Seq<char>, Seq<char>, Seq<char>, Seq<char>)>
    decreases lists.len(),
{
    if lists.len() == 0 {
        seq![]
    } else {
        shown_of(lists.drop_last()) + Seq::new(lists.last().len(), |i: int| shown(lists.last()[i]))
    }
}

/// The display path, title and body of the first appearance of `file`.
pub open spec fn first_shown(sh: Seq<(Seq<char>, Seq<char>, Seq<char>, Seq<char>)>, file: Seq<char>)
    -> Option<(Seq<char>, Seq<char>, Seq<char>)>
    decreases sh.len(),
{
    if sh.len() == 0 {
        None
    } else {
        match first_shown(sh.drop_last(), file) {
            Some(x) => Some(x),
            None => if sh.last().0 == file { Some((sh.last().1, sh.last().2, sh.last().3)) } else { None },
        }
    }
}

/// Each result shows what the first appearance of its file showed.
pub open spec fn shows_first(out: Seq<RrfResult>, sh: Seq<(Seq<char>, Seq<char>, Seq<char>, Seq<char>)>) -> bool {
    forall|a: int| 0 <= a < out.len() ==> #[trigger] first_shown(sh, out[a].file@)
        == Some((out[a].display_path@, out[a].title@, out[a].body@))
}

pub proof fn lemma_first_shown_none(sh: Seq<(Seq<char>, Seq<char>, Seq<char>, Seq<char>)>, file: Seq<char>)
    requires
        forall|i: int| 0 <= i < sh.len() ==> (#[trigger] sh[i]).0 != file,
    ensures
        first_shown(sh, file) is None,
    decreases sh.len(),
{
    if sh.len() > 0 {
        assert forall|i: int| 0 <= i < sh.drop_last().len() implies (#[trigger] sh.drop_last()[i]).0 != file by {
            assert(sh.drop_last()[i] == sh[i]);
        }
        lemma_first_shown_none(sh.drop_last(), file);
        assert(sh[sh.len() - 1].0 != file);
    }
}

/// One result per file that appears, with its fused score and best rank.
pub open spec fn totals_for(out: Seq<RrfResult>, apps: Seq<(Seq<char>, nat)>, k: nat) -> bool {
    &&& forall|a: int, b: int| 0 <= a < b < out.len() ==> out[a].file@ != out[b].file@
    &&& forall|a: int| 0 <= a < out.len() ==> appears(apps, #[trigger] out[a].file@)
    &&& forall|i: int| 0 <= i < apps.len() ==> #[trigger] has_result(out, apps[i].0)
    &&& forall|a: int| 0 <= a < out.len() ==> #[trigger] out[a].score == rrf_score(apps, k, out[a].file@)
        && out[a].best_rank == best_rank(apps, out[a].file@)
}

/// The fused list for `apps`: one result per file that appears, with its
/// fused score and best rank, ordered by `ranks_before`.
pub open spec fn is_fusion_of(out: Seq<RrfResult>, apps: Seq<(Seq<char>, nat)>, k: nat) -> bool {
    &&& totals_for(out, apps, k)
    &&& forall|a: int, b: int| 0 <= a < b < out.len() ==> ranks_before(out[a], out[b])
}

/// Some position below `n` maps to `t`.
pub open spec fn hits(perm: Seq<int>, n: int, t: int) -> bool {
    exists|x: int| 0 <= x < n && #[trigger] perm[x] == t
}

/// Two results agree on the document, what is shown of it, and its totals.
pub open spec fn same_totals(a: RrfResult, b: RrfResult) -> bool {
    a.file@ == b.file@ && a.score == b.score && a.best_rank == b.best_rank
        && a.display_path@ == b.display_path@ && a.title@ == b.title@ && a.body@ == b.body@
}

pub proof fn lemma_score_bound(apps: Seq<(Seq<char>, nat)>, k: nat, file: Seq<char>)
    ensures
        rrf_score(apps, k, file) <= apps.len() * (RRF_SCALE as nat),
    decreases apps.len(),
{
    if apps.len() > 0 {
        lemma_score_bound(apps.drop_last(), k, file);
        let c = apps.last().1;
        if k + c > 0 {
            assert(RRF_SCALE as nat / (k + c) <= RRF_SCALE as nat) by (nonlinear_arith)
                requires k + c > 0;
        }
        assert(apps.len() * (RRF_SCALE as nat) == (apps.len() - 1) * (RRF_SCALE as nat) + RRF_SCALE as nat) by (nonlinear_arith);
    }
}

pub proof fn lemma_best_rank_bound(apps: Seq<(Seq<char>, nat)>, file: Seq<char>, bound: nat)
    requires
        forall|i: int| 0 <= i < apps.len() ==> (#[trigger] apps[i]).1 <= bound,
    ensures
        best_rank(apps, file) <= bound,
    decreases apps.len(),
{
    if apps.len() > 0 {
        assert forall|i: int| 0 <= i < apps.drop_last().len() implies (#[trigger] apps.drop_last()[i]).1 <= bound by {
            assert(apps.drop_last()[i] == apps[i]);
        }
        lemma_best_rank_bound(apps.drop_last(), file, bound);
        assert(apps[apps.len() - 1].1 <= bound);
    }
}

fn clone_ranked(d: &RankedDoc) -> (r: RankedDoc)
    ensures
        r.file@ == d.file@,
        r.display_path@ == d.display_path@,
        r.title@ == d.title@,
        r.body@ == d.body@,
{
    RankedDoc {
        file: d.file.clone(),
        display_path: d.display_path.clone(),
        title: d.title.clone(),
        body: d.body.clone(),
    }
}

/// Position of the result for `file`.
fn find_result(acc: &Vec<RrfResult>, file: &String) -> (r: Option<usize>)
    ensures
        r matches Some(j) ==> j < acc@.len() && acc@[j as int].file@ == file@,
        r is None ==> forall|x: int| 0 <= x < acc@.len() ==> acc@[x].file@ != file@,
{
    let mut j: usize = 0;
    while j < acc.len()
        invariant
            j <= acc@.len(),
            forall|x: int| 0 <= x < j ==> acc@[x].file@ != file@,
        decreases acc@.len() - j,
    {
        if acc[j].file == *file {
            return Some(j);
        }
        j = j + 1;
    }
    None
}

/// Adds one appearance to the running totals.
fn add_appearance(acc: &mut Vec<RrfResult>, d: &RankedDoc, rank: usize, k: u64, Ghost(apps): Ghost<Seq<(Seq<char>, nat)>>,
    Ghost(sh): Ghost<Seq<(Seq<char>, Seq<char>, Seq<char>, Seq<char>)>>)
    requires
        rank >= 1,
        apps.len() < usize::MAX,
        forall|i: int| 0 <= i < apps.len() ==> (#[trigger] apps[i]).1 <= usize::MAX,
        totals_for(old(acc)@, apps, k as nat),
        sh.len() == apps.len(),
        forall|i: int| 0 <= i < sh.len() ==> (#[trigger] sh[i]).0 == apps[i].0,
        shows_first(old(acc)@, sh),
    ensures
        totals_for(final(acc)@, apps.push((d.file@, rank as nat)), k as nat),
        shows_first(final(acc)@, sh.push(shown(*d))),
{
    let ghost sh2 = sh.push(shown(*d));
    proof {
        assert(sh2.drop_last() == sh);
    }
    let ghost apps2 = apps.push((d.file@, rank as nat));
    proof {
        assert(apps2.len() == apps.len() + 1);
        assert(apps2.drop_last() == apps);
        assert forall|i: int| 0 <= i < apps2.len() implies (#[trigger] apps2[i]).1 <= usize::MAX by {
            if i < apps.len() { assert(apps2[i] == apps[i]); }
        }
    }
    let gain: u128 = RRF_SCALE / ((k as u128) + (rank as u128));
    match find_result(acc, &d.file) {
        Some(j) => {
        proof {
                lemma_score_bound(apps2, k as nat, d.file@);
                assert(apps2.len() * (RRF_SCALE as nat) <= (usize::MAX as nat) * (RRF_SCALE as nat)) by (nonlinear_arith)
                    requires apps2.len() <= usize::MAX;
                lemma_best_rank_bound(apps2, d.file@, usize::MAX as nat);
            }
            let old_entry = &acc[j];
            let new_rank = if old_entry.best_rank == 0 || rank < old_entry.best_rank { rank } else { old_entry.best_rank };
            let entry = RrfResult {
                file: old_entry.file.clone(),
                display_path: old_entry.display_path.clone(),
                title: old_entry.title.clone(),
                body: old_entry.body.clone(),
                score: old_entry.score + gain,
                best_rank: new_rank,
            };
            acc.set(j, entry);
            proof {
                let o = old(acc)@;
                let n = acc@;
                assert(apps2.last() == (d.file@, rank as nat));
                assert(gain as nat == contribution(k as nat, rank as nat));
                assert forall|a: int| 0 <= a < n.len() implies #[trigger] n[a].score == rrf_score(apps2, k as nat, n[a].file@)
                    && n[a].best_rank == best_rank(apps2, n[a].file@) by {
                    if a != j {
                        assert(n[a] == o[a]);
                        if a < j {
                            assert(o[a].file@ != o[j as int].file@);
                        } else {
                            assert(o[j as int].file@ != o[a].file@);
                        }
                    }
                }
                assert forall|a: int, b: int| 0 <= a < b < n.len() implies n[a].file@ != n[b].file@ by {
                    assert(n[a].file@ == o[a].file@ && n[b].file@ == o[b].file@);
                }
                assert forall|a: int| 0 <= a < n.len() implies appears(apps2, #[trigger] n[a].file@) by {
                    let w = choose|w: int| 0 <= w < apps.len() && #[trigger] apps[w].0 == o[a].file@;
                    assert(apps2[w] == apps[w]);
                }
                assert forall|i: int| 0 <= i < apps2.len() implies #[trigger] has_result(n, apps2[i].0) by {
                    if i < apps.len() {
                        assert(apps2[i] == apps[i]);
                        assert(has_result(o, apps[i].0));
                        let a = choose|a: int| 0 <= a < o.len() && #[trigger] o[a].file@ == apps[i].0;
                        assert(n[a].file@ == apps2[i].0);
                    } else {
                        assert(n[j as int].file@ == apps2[i].0);
                    }
                }
            }
            proof {
                assert(totals_for(acc@, apps2, k as nat));
                let o = old(acc)@;
                let n = acc@;
                assert forall|a: int| 0 <= a < n.len() implies #[trigger] first_shown(sh2, n[a].file@)
                    == Some((n[a].display_path@, n[a].title@, n[a].body@)) by {
                    assert(first_shown(sh, o[a].file@) == Some((o[a].display_path@, o[a].title@, o[a].body@)));
                    if a != j { assert(n[a] == o[a]); }
                }
            }
            return;
        },
        None => {},
    }
    let base = clone_ranked(d);
    acc.push(RrfResult {
        file: base.file,
        display_path: base.display_path,
        title: base.title,
        body: base.body,
        score: gain,
        best_rank: rank,
    });
    proof {
        let o = old(acc)@;
        let n = acc@;
        assert(apps2.last() == (d.file@, rank as nat));
        assert(gain as nat == contribution(k as nat, rank as nat));
        assert(!appears(apps, d.file@)) by {
            if appears(apps, d.file@) {
                let w = choose|w: int| 0 <= w < apps.len() && #[trigger] apps[w].0 == d.file@;
                assert(has_result(o, apps[w].0));
                let a = choose|a: int| 0 <= a < o.len() && #[trigger] o[a].file@ == apps[w].0;
            }
        }
        lemma_absent_totals(apps, k as nat, d.file@);
        assert forall|a: int| 0 <= a < n.len() implies appears(apps2, #[trigger] n[a].file@) by {
            if a < o.len() {
                let w = choose|w: int| 0 <= w < apps.len() && #[trigger] apps[w].0 == o[a].file@;
                assert(apps2[w] == apps[w]);
            } else {
                assert(apps2[apps.len() as int].0 == n[a].file@);
            }
        }
        assert forall|i: int| 0 <= i < apps2.len() implies #[trigger] has_result(n, apps2[i].0) by {
            if i < apps.len() {
                assert(apps2[i] == apps[i]);
                assert(has_result(o, apps[i].0));
                        let a = choose|a: int| 0 <= a < o.len() && #[trigger] o[a].file@ == apps[i].0;
                assert(n[a].file@ == apps2[i].0);
            } else {
                assert(n[o.len() as int].file@ == apps2[i].0);
            }
        }
        assert forall|a: int| 0 <= a < n.len() implies #[trigger] n[a].score == rrf_score(apps2, k as nat, n[a].file@)
            && n[a].best_rank == best_rank(apps2, n[a].file@) by {
            if a < o.len() {
                assert(n[a] == o[a]);
                assert(o[a].file@ != d.file@) by {
                    let w = choose|w: int| 0 <= w < apps.len() && #[trigger] apps[w].0 == o[a].file@;
                }
            }
        }
        assert forall|a: int, b: int| 0 <= a < b < n.len() implies n[a].file@ != n[b].file@ by {
            if b == o.len() {
                assert(n[a] == o[a]);
                let w = choose|w: int| 0 <= w < apps.len() && #[trigger] apps[w].0 == o[a].file@;
            }
        }
        assert(totals_for(n, apps2, k as nat));
        assert forall|i: int| 0 <= i < sh.len() implies (#[trigger] sh[i]).0 != d.file@ by {
            assert(sh[i].0 == apps[i].0);
        }
        lemma_first_shown_none(sh, d.file@);
        assert forall|a: int| 0 <= a < n.len() implies #[trigger] first_shown(sh2, n[a].file@)
            == Some((n[a].display_path@, n[a].title@, n[a].body@)) by {
            if a < o.len() {
                assert(n[a] == o[a]);
                assert(first_shown(sh, o[a].file@) == Some((o[a].display_path@, o[a].title@, o[a].body@)));
            }
        }
    }
}

/// A file that does not appear has no score and no rank.
pub proof fn lemma_absent_totals(apps: Seq<(Seq<char>, nat)>, k: nat, file: Seq<char>)
    requires
        !appears(apps, file),
    ensures
        rrf_score(apps, k, file) == 0,
        best_rank(apps, file) == 0,
    decreases apps.len(),
{
    if apps.len() > 0 {
        assert(!appears(apps.drop_last(), file)) by {
            if appears(apps.drop_last(), file) {
                let w = choose|w: int| 0 <= w < apps.drop_last().len() && #[trigger] apps.drop_last()[w].0 == file;
                assert(apps[w].0 == file);
            }
        }
        lemma_absent_totals(apps.drop_last(), k, file);
        assert(apps[apps.len() - 1].0 != file);
    }
}

pub open spec fn lists_view(lists: Seq<Vec<RankedDoc>>) -> Seq<Seq<RankedDoc>> {
    lists.map_values(|l: Vec<RankedDoc>| l@)
}

pub open spec fn is_ranked(out: Seq<RrfResult>) -> bool {
    forall|a: int, b: int| 0 <= a < b < out.len() ==> ranks_before(out[a], out[b])
}

pub proof fn lemma_appearances_prefix(lists: Seq<Seq<RankedDoc>>, m: int)
    requires
        0 <= m <= lists.len(),
    ensures
        appearances(lists.take(m)).len() <= appearances(lists).len(),
    decreases lists.len(),
{
    if m < lists.len() {
        assert(lists.take(m) =~= lists.drop_last().take(m));
        lemma_appearances_prefix(lists.drop_last(), m);
    } else {
        assert(lists.take(m) =~= lists);
    }
}

/// Inserts `e` into a ranked list after every result that ranks before it,
/// so results that tie keep the order in which they were inserted.
fn insert_ranked(out: &mut Vec<RrfResult>, e: RrfResult) -> (p: usize)
    requires
        is_ranked(old(out)@),
    ensures
        p <= old(out)@.len(),
        final(out)@ == old(out)@.insert(p as int, e),
        is_ranked(final(out)@),
{
    let mut p: usize = 0;
    while p < out.len() && (out[p].score > e.score || (out[p].score == e.score && out[p].best_rank <= e.best_rank))
        invariant
            p <= out@.len(),
            out@ == old(out)@,
            is_ranked(out@),
            forall|x: int| 0 <= x < p ==> ranks_before(#[trigger] out@[x], e),
        decreases out@.len() - p,
    {
        p = p + 1;
    }
    let ghost o = out@;
    proof {
        assert forall|x: int| p <= x < o.len() implies !ranks_before(#[trigger] o[x], e) by {
            assert(!ranks_before(o[p as int], e));
            if x > p {
                assert(ranks_before(o[p as int], o[x]));
            }
        }
    }
    out.insert(p, e);
    proof {
        let n = out@;
        assert forall|a: int, b: int| 0 <= a < b < n.len() implies ranks_before(n[a], n[b]) by {
            if a < p && b == p {
            } else if a == p {
                assert(!ranks_before(o[b - 1], e));
            } else if a < p && b > p {
                assert(ranks_before(o[a], o[b - 1]));
            } else if a > p {
                assert(ranks_before(o[a - 1], o[b - 1]));
            } else {
                assert(ranks_before(o[a], o[b]));
            }
        }
    }
    p
}

/// Fuses ranked lists by Reciprocal Rank Fusion with constant `k`: one
/// result per document that appears in any list (the first appearance gives
/// what is shown of it), scored by the sum of `contribution(k, rank)` over
/// its appearances, ordered by score, then best rank, then first appearance.
pub fn reciprocal_rank_fusion(lists: &Vec<Vec<RankedDoc>>, k: u64) -> (r: Vec<RrfResult>)
    requires
        appearances(lists_view(lists@)).len() < usize::MAX,
    ensures
        is_fusion_of(r@, appearances(lists_view(lists@)), k as nat),
        shows_first(r@, shown_of(lists_view(lists@))),
{
    let ghost all = lists_view(lists@);
    let mut acc: Vec<RrfResult> = Vec::new();
    let mut li: usize = 0;
    while li < lists.len()
        invariant
            li <= lists@.len(),
            all == lists_view(lists@),
            appearances(all).len() < usize::MAX,
            totals_for(acc@, appearances(all.take(li as int)), k as nat),
            shows_first(acc@, shown_of(all.take(li as int))),
            shown_of(all.take(li as int)).len() == appearances(all.take(li as int)).len(),
            forall|x: int| 0 <= x < shown_of(all.take(li as int)).len() ==>
                (#[trigger] shown_of(all.take(li as int))[x]).0 == appearances(all.take(li as int))[x].0,
        decreases lists@.len() - li,
    {
        let list = &lists[li];
        proof {
            assert(all[li as int] == list@);
            assert(all.take(li as int + 1).drop_last() =~= all.take(li as int));
            lemma_appearances_prefix(all, li as int + 1);
        }
        let ghost base = appearances(all.take(li as int));
        let ghost sbase = shown_of(all.take(li as int));
        let mut i: usize = 0;
        proof {
            assert(base + Seq::new(0, |x: int| (list@[x].file@, (x + 1) as nat)) =~= base);
            assert(sbase + Seq::new(0, |x: int| shown(list@[x])) =~= sbase);
        }
        while i < list.len()
            invariant
                i <= list@.len(),
                all[li as int] == list@,
                base == appearances(all.take(li as int)),
                base.len() + list@.len() == appearances(all.take(li as int + 1)).len(),
                appearances(all.take(li as int + 1)).len() <= appearances(all).len(),
                appearances(all).len() < usize::MAX,
                totals_for(acc@, base + Seq::new(i as nat, |x: int| (list@[x].file@, (x + 1) as nat)), k as nat),
                sbase == shown_of(all.take(li as int)),
                sbase.len() == base.len(),
                forall|x: int| 0 <= x < sbase.len() ==> (#[trigger] sbase[x]).0 == base[x].0,
                shows_first(acc@, sbase + Seq::new(i as nat, |x: int| shown(list@[x]))),
            decreases list@.len() - i,
        {
            let ghost apps = base + Seq::new(i as nat, |x: int| (list@[x].file@, (x + 1) as nat));
            let ghost sh = sbase + Seq::new(i as nat, |x: int| shown(list@[x]));
            proof {
                assert forall|x: int| 0 <= x < sh.len() implies (#[trigger] sh[x]).0 == apps[x].0 by {
                    if x < sbase.len() { assert(sh[x] == sbase[x] && apps[x] == base[x]); }
                }
                assert forall|x: int| 0 <= x < apps.len() implies (#[trigger] apps[x]).1 <= usize::MAX by {
                    if x >= base.len() {
                        assert(apps[x].1 == (x - base.len() + 1) as nat);
                    } else {
                        lemma_rank_bound(all.take(li as int), x);
                    }
                }
            }
            add_appearance(&mut acc, &list[i], i + 1, k, Ghost(apps), Ghost(sh));
            proof {
                assert(sh.push(shown(list@[i as int])) =~= sbase + Seq::new((i + 1) as nat, |x: int| shown(list@[x])));
                assert(apps.push((list@[i as int].file@, (i + 1) as nat))
                    =~= base + Seq::new((i + 1) as nat, |x: int| (list@[x].file@, (x + 1) as nat)));
            }
            i = i + 1;
        }
        proof {
            assert(base + Seq::new(list@.len(), |x: int| (list@[x].file@, (x + 1) as nat))
                =~= appearances(all.take(li as int + 1)));
            assert(sbase + Seq::new(list@.len(), |x: int| shown(list@[x])) =~= shown_of(all.take(li as int + 1)));
            let sb2 = shown_of(all.take(li as int + 1));
            let ab2 = appearances(all.take(li as int + 1));
            assert forall|x: int| 0 <= x < sb2.len() implies (#[trigger] sb2[x]).0 == ab2[x].0 by {
                if x < sbase.len() { assert(sb2[x] == sbase[x] && ab2[x] == base[x]); }
            }
        }
        li = li + 1;
    }
    proof {
        assert(all.take(lists@.len() as int) =~= all);
    }
    let ghost apps = appearances(all);
    let ghost shows = shown_of(all);
    // Order the totals.
    let mut out: Vec<RrfResult> = Vec::new();
    let ghost mut perm: Seq<int> = seq![];
    let mut j: usize = 0;
    while j < acc.len()
        invariant
            j <= acc@.len(),
            totals_for(acc@, apps, k as nat),
            shows_first(acc@, shows),
            is_ranked(out@),
            out@.len() == j,
            perm.len() == j,
            forall|x: int| 0 <= x < j ==> 0 <= #[trigger] perm[x] < j && same_totals(out@[x], acc@[perm[x]]),
            forall|x: int, y: int| 0 <= x < y < j ==> perm[x] != perm[y],
            forall|t: int| 0 <= t < j ==> #[trigger] hits(perm, j as int, t),
        decreases acc@.len() - j,
    {
        let a = &acc[j];
        let e = RrfResult {
            file: a.file.clone(),
            display_path: a.display_path.clone(),
            title: a.title.clone(),
            body: a.body.clone(),
            score: a.score,
            best_rank: a.best_rank,
        };
        let ghost o = out@;
        let p = insert_ranked(&mut out, e);
        proof {
            let old_perm = perm;
            perm = perm.insert(p as int, j as int);
            let n = out@;
            assert forall|x: int| 0 <= x < j + 1 implies 0 <= #[trigger] perm[x] < j + 1 && same_totals(n[x], acc@[perm[x]]) by {
                if x < p {
                    assert(perm[x] == old_perm[x] && n[x] == o[x]);
                } else if x > p {
                    assert(perm[x] == old_perm[x - 1] && n[x] == o[x - 1]);
                }
            }
            assert forall|x: int, y: int| 0 <= x < y < j + 1 implies perm[x] != perm[y] by {
                if x < p && y > p {
                    assert(perm[x] == old_perm[x] && perm[y] == old_perm[y - 1]);
                } else if x > p {
                    assert(perm[x] == old_perm[x - 1] && perm[y] == old_perm[y - 1]);
                } else if y < p {
                    assert(perm[x] == old_perm[x] && perm[y] == old_perm[y]);
                } else if x == p {
                    assert(perm[y] == old_perm[y - 1]);
                } else {
                    assert(perm[x] == old_perm[x]);
                }
            }
            assert forall|t: int| 0 <= t < j + 1 implies #[trigger] hits(perm, j + 1, t) by {
                if t == j {
                    assert(perm[p as int] == t);
                } else {
                    assert(hits(old_perm, j as int, t));
                    let x = choose|x: int| 0 <= x < j && #[trigger] old_perm[x] == t;
                    if x < p {
                        assert(perm[x] == t);
                    } else {
                        assert(perm[x + 1] == t);
                    }
                }
            }
        }
        j = j + 1;
    }
    proof {
        let n = out@;
        let m = acc@;
        assert forall|a: int, b: int| 0 <= a < b < n.len() implies n[a].file@ != n[b].file@ by {
            if perm[a] < perm[b] {
                assert(m[perm[a]].file@ != m[perm[b]].file@);
            } else {
                assert(m[perm[b]].file@ != m[perm[a]].file@);
            }
        }
        assert forall|a: int| 0 <= a < n.len() implies appears(apps, #[trigger] n[a].file@) by {
            assert(appears(apps, m[perm[a]].file@));
        }
        assert forall|i: int| 0 <= i < apps.len() implies #[trigger] has_result(n, apps[i].0) by {
            assert(has_result(m, apps[i].0));
            let t = choose|t: int| 0 <= t < m.len() && #[trigger] m[t].file@ == apps[i].0;
            assert(hits(perm, n.len() as int, t));
            let x = choose|x: int| 0 <= x < n.len() && #[trigger] perm[x] == t;
            assert(n[x].file@ == apps[i].0);
        }
        assert forall|a: int| 0 <= a < n.len() implies #[trigger] n[a].score == rrf_score(apps, k as nat, n[a].file@)
            && n[a].best_rank == best_rank(apps, n[a].file@) by {
            assert(same_totals(n[a], m[perm[a]]));
        }
        assert forall|a: int| 0 <= a < n.len() implies #[trigger] first_shown(shows, n[a].file@)
            == Some((n[a].display_path@, n[a].title@, n[a].body@)) by {
            assert(same_totals(n[a], m[perm[a]]));
            assert(first_shown(shows, m[perm[a]].file@) == Some((m[perm[a]].display_path@, m[perm[a]].title@, m[perm[a]].body@)));
        }
    }
    out
}

/// Fuses the lexical and the vector result lists (see `reciprocal_rank_fusion`).
pub fn hybrid_search_rrf(fts_results: Vec<RankedDoc>, vec_results: Vec<RankedDoc>, k: u64) -> (r: Vec<RrfResult>)
    requires
        fts_results@.len() + vec_results@.len() < usize::MAX,
    ensures
        is_fusion_of(r@, appearances(seq![fts_results@, vec_results@]), k as nat),
        shows_first(r@, shown_of(seq![fts_results@, vec_results@])),
{
    let ghost f = fts_results@;
    let ghost v = vec_results@;
    let mut lists: Vec<Vec<RankedDoc>> = Vec::new();
    lists.push(fts_results);
    lists.push(vec_results);
    proof {
        let l = lists_view(lists@);
        assert(l =~= seq![f, v]);
        assert(l.drop_last() =~= seq![f]);
        assert(l.drop_last().drop_last() =~= Seq::<Seq<RankedDoc>>::empty());
        assert(appearances(l.drop_last().drop_last()).len() == 0);
        assert(l.drop_last().last() == f);
        assert(appearances(l.drop_last()).len() == f.len());
        assert(l.last() == v);
        assert(appearances(l).len() == f.len() + v.len());
    }
    reciprocal_rank_fusion(&lists, k)
}

/// In a fused list a result with a higher score comes first.
pub proof fn lemma_fusion_order(out: Seq<RrfResult>, apps: Seq<(Seq<char>, nat)>, k: nat, a: int, b: int)
    requires
        is_fusion_of(out, apps, k),
        0 <= a < out.len(),
        0 <= b < out.len(),
        out[a].score > out[b].score,
    ensures
        a < b,
{
    if b < a {
        assert(ranks_before(out[b], out[a]));
    }
}

/// Fusion favours agreement: a document found by two lists at ranks `r1` and
/// `r2`, each at most one place behind rank `r`, scores more than a document
/// found by one list at rank `r` (so with k = 60, rank 2 in both lists beats
/// rank 1 in one: 2/62 > 1/61). This holds while `k + r` stays small against
/// the fixed-point scale.
pub proof fn lemma_two_lists_outrank(k: nat, r1: nat, r2: nat, r: nat)
    requires
        1 <= r,
        1 <= r1 <= r + 1,
        1 <= r2 <= r + 1,
        2 <= k + r,
        k + r <= 1_000_000,
    ensures
        contribution(k, r1) + contribution(k, r2) > contribution(k, r),
{
    let sc = RRF_SCALE as nat;
    let m = k + r;
    let q1 = sc / (m + 1);
    let q = sc / m;
    assert(contribution(k, r1) >= q1) by {
        lemma_div_antitone(sc, k + r1, m + 1);
    }
    assert(contribution(k, r2) >= q1) by {
        lemma_div_antitone(sc, k + r2, m + 1);
    }
    assert(q1 * (m + 1) + sc % (m + 1) == sc) by (nonlinear_arith)
        requires q1 == sc / (m + 1), m + 1 > 0;
    assert(sc % (m + 1) < m + 1) by (nonlinear_arith)
        requires m + 1 > 0;
    assert(q * m <= sc) by (nonlinear_arith)
        requires q == sc / m, m > 0;
    assert(2 * q1 > q) by (nonlinear_arith)
        requires
            q1 * (m + 1) + m >= sc,
            q * m <= sc,
            2 <= m <= 1_000_000,
            sc == 1_000_000_000_000;
}

/// Dividing by a larger number gives no more.
pub proof fn lemma_div_antitone(n: nat, a: nat, b: nat)
    requires
        0 < a <= b,
    ensures
        n / a >= n / b,
{
    assert(n / a >= n / b) by (nonlinear_arith)
        requires 0 < a <= b;
}

/// The score of a file that appears at exactly the positions `i` (and `j`,
/// where `two`) of `apps`.
pub proof fn lemma_score_at(apps: Seq<(Seq<char>, nat)>, k: nat, file: Seq<char>, i: int, j: int, two: bool)
    requires
        0 <= i < apps.len(),
        apps[i].0 == file,
        two ==> i < j < apps.len() && apps[j].0 == file,
        forall|x: int| 0 <= x < apps.len() && x != i && !(two && x == j) ==> #[trigger] apps[x].0 != file,
    ensures
        rrf_score(apps, k, file) == contribution(k, apps[i].1) + if two { contribution(k, apps[j].1) } else { 0 },
    decreases apps.len(),
{
    let n = apps.len() - 1;
    let init = apps.drop_last();
    if two && j == n {
        assert forall|x: int| 0 <= x < init.len() && x != i implies #[trigger] init[x].0 != file by {
            assert(init[x] == apps[x]);
        }
        lemma_score_at(init, k, file, i, j, false);
    } else if !two && i == n {
        assert forall|x: int| 0 <= x < init.len() implies #[trigger] init[x].0 != file by {
            assert(init[x] == apps[x]);
        }
        assert(!appears(init, file)) by {
            if appears(init, file) {
                let w = choose|w: int| 0 <= w < init.len() && #[trigger] init[w].0 == file;
            }
        }
        lemma_absent_totals(init, k, file);
    } else {
        assert(apps[n].0 != file);
        assert forall|x: int| 0 <= x < init.len() && x != i && !(two && x == j) implies #[trigger] init[x].0 != file by {
            assert(init[x] == apps[x]);
        }
        assert(init[i] == apps[i]);
        if two {
            assert(init[j] == apps[j]);
        }
        lemma_score_at(init, k, file, i, j, two);
    }
}

/// Fusion favours agreement, on fused scores: where document `z` appears at
/// exactly two places of the ranked lists and `y` at exactly one, at rank
/// `r`, and each of `z`'s ranks is at most one place behind `r`, `z` scores
/// more than `y`, and so comes before it in the fused list.
pub proof fn lemma_fused_agreement(out: Seq<RrfResult>, apps: Seq<(Seq<char>, nat)>, k: nat,
    z: Seq<char>, i: int, j: int, y: Seq<char>, m: int)
    requires
        is_fusion_of(out, apps, k),
        0 <= i < j < apps.len(),
        apps[i].0 == z,
        apps[j].0 == z,
        forall|x: int| 0 <= x < apps.len() && x != i && x != j ==> #[trigger] apps[x].0 != z,
        0 <= m < apps.len(),
        apps[m].0 == y,
        forall|x: int| 0 <= x < apps.len() && x != m ==> #[trigger] apps[x].0 != y,
        1 <= apps[m].1,
        1 <= apps[i].1 <= apps[m].1 + 1,
        1 <= apps[j].1 <= apps[m].1 + 1,
        2 <= k + apps[m].1,
        k + apps[m].1 <= 1_000_000,
    ensures
        rrf_score(apps, k, z) > rrf_score(apps, k, y),
        forall|a: int, b: int| 0 <= a < out.len() && 0 <= b < out.len() && out[a].file@ == z && out[b].file@ == y ==> a < b,
{
    lemma_score_at(apps, k, z, i, j, true);
    lemma_score_at(apps, k, y, m, m, false);
    lemma_two_lists_outrank(k, apps[i].1, apps[j].1, apps[m].1);
    assert forall|a: int, b: int| 0 <= a < out.len() && 0 <= b < out.len() && out[a].file@ == z && out[b].file@ == y implies a < b by {
        assert(out[a].score == rrf_score(apps, k, z));
        assert(out[b].score == rrf_score(apps, k, y));
        lemma_fusion_order(out, apps, k, a, b);
    }
}

pub proof fn lemma_rank_bound(lists: Seq<Seq<RankedDoc>>, x: int)
    requires
        0 <= x < appearances(lists).len(),
    ensures
        appearances(lists)[x].1 <= appearances(lists).len(),
    decreases lists.len(),
{
    let rest = appearances(lists.drop_last());
    if x < rest.len() {
        lemma_rank_bound(lists.drop_last(), x);
        assert(appearances(lists)[x] == rest[x]);
    } else {
        assert(appearances(lists)[x].1 == (x - rest.len() + 1) as nat);
    }
}

} // verus!
