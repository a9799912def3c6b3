//! Representative usage sites: round-robin across repos so no repo
//! dominates; within a repo JSX renders come before ref-only hits, test files
//! come last, and a site whose prop combination has not been shown yet is
//! preferred over repeating a seen one.
use vstd::prelude::*;
use crate::context::{is_test_file, is_test_path, props_key, props_key_spec};
use crate::impact::ImpactHit;
use crate::order::compare_str;
use crate::strmap::StrSet;

verus! {

/// Preference class of a hit inside its repo's queue: non-test renders,
/// non-test references, test renders, test references.
pub open spec fn hit_class(h: ImpactHit) -> int {
    (if is_test_path(h.file@) {
        2int
    } else {
        0int
    }) + (if h.jsx_uses > 0 {
        0int
    } else {
        1int
    })
}

/// Indices below `n` of the hits in repo `r` with class `c`, in order.
pub open spec fn class_filter(hits: Seq<ImpactHit>, r: Seq<char>, c: int, n: int) -> Seq<int>
    decreases n,
{
    if n <= 0 {
        seq![]
    } else {
        let prev = class_filter(hits, r, c, n - 1);
        if hits[n - 1].repo@ == r && hit_class(hits[n - 1]) == c {
            prev.push(n - 1)
        } else {
            prev
        }
    }
}

/// The queue of repo `r`: its hits by class, each class in input order
/// (a stable sort by class).
pub open spec fn repo_queue(hits: Seq<ImpactHit>, r: Seq<char>) -> Seq<int> {
    let n = hits.len() as int;
    class_filter(hits, r, 0, n) + class_filter(hits, r, 1, n) + class_filter(hits, r, 2, n) + class_filter(
        hits,
        r,
        3,
        n,
    )
}

/// The repos of the first `n` hits in order of first appearance.
pub open spec fn repo_order(hits: Seq<ImpactHit>, n: int) -> Seq<Seq<char>>
    decreases n,
{
    if n <= 0 {
        seq![]
    } else {
        let prev = repo_order(hits, n - 1);
        if prev.contains(hits[n - 1].repo@) {
            prev
        } else {
            prev.push(hits[n - 1].repo@)
        }
    }
}

/// One queue per repo, repos in order of first appearance.
pub open spec fn initial_queues(hits: Seq<ImpactHit>) -> Seq<Seq<int>> {
    repo_order(hits, hits.len() as int).map_values(|r: Seq<char>| repo_queue(hits, r))
}

/// A hit worth showing first: a non-test render with an unseen prop
/// combination.
pub open spec fn preferred(h: ImpactHit, seen: Set<Seq<char>>) -> bool {
    !is_test_path(h.file@) && h.jsx_uses > 0 && !seen.contains(props_key_spec(h))
}

/// Position in `q` (from `i` on) of the first preferred hit; 0 when none.
pub open spec fn pick_from(hits: Seq<ImpactHit>, q: Seq<int>, seen: Set<Seq<char>>, i: int) -> int
    decreases q.len() - i,
{
    if i >= q.len() || i < 0 {
        0
    } else if preferred(hits[q[i]], seen) {
        i
    } else {
        pick_from(hits, q, seen, i + 1)
    }
}

/// The selection state: queues, prop combinations seen, hits selected.
pub struct Selection {
    pub queues: Seq<Seq<int>>,
    pub seen: Set<Seq<char>>,
    pub selected: Seq<int>,
}

/// Visiting queue `qi`: take its preferred hit, or its head.
pub open spec fn visit(hits: Seq<ImpactHit>, st: Selection, qi: int) -> Selection {
    let q = st.queues[qi];
    if q.len() == 0 {
        st
    } else {
        let p = pick_from(hits, q, st.seen, 0);
        let i = q[p];
        Selection {
            queues: st.queues.update(qi, q.remove(p)),
            seen: st.seen.insert(props_key_spec(hits[i])),
            selected: st.selected.push(i),
        }
    }
}

/// One round over the queues from `qi` on, stopping at the cap.
pub open spec fn round_from(hits: Seq<ImpactHit>, st: Selection, cap: int, qi: int) -> Selection
    decreases st.queues.len() - qi,
{
    if qi < 0 || qi >= st.queues.len() || st.selected.len() >= cap {
        st
    } else {
        round_from(hits, visit(hits, st, qi), cap, qi + 1)
    }
}

/// Total number of queued hits.
pub open spec fn remaining(qs: Seq<Seq<int>>) -> nat
    decreases qs.len(),
{
    if qs.len() == 0 {
        0
    } else {
        remaining(qs.drop_last()) + qs.last().len()
    }
}

pub proof fn lemma_remaining_update(qs: Seq<Seq<int>>, i: int, x: Seq<int>)
    requires
        0 <= i < qs.len(),
    ensures
        remaining(qs.update(i, x)) + qs[i].len() == remaining(qs) + x.len(),
    decreases qs.len(),
{
    if i < qs.len() - 1 {
        assert(qs.update(i, x).drop_last() =~= qs.drop_last().update(i, x));
        lemma_remaining_update(qs.drop_last(), i, x);
    } else {
        assert(qs.update(i, x).drop_last() =~= qs.drop_last());
    }
}

pub proof fn lemma_remaining_zero(qs: Seq<Seq<int>>, i: int)
    requires
        0 <= i < qs.len(),
        qs[i].len() > 0,
    ensures
        remaining(qs) > 0,
{
    lemma_remaining_update(qs, i, seq![]);
}

/// A round never adds queued hits, and takes one whenever it meets a
/// non-empty queue below the cap.
pub proof fn lemma_round_progress(hits: Seq<ImpactHit>, st: Selection, cap: int, qi: int)
    requires
        0 <= qi,
    ensures
        remaining(round_from(hits, st, cap, qi).queues) <= remaining(st.queues),
        round_from(hits, st, cap, qi).queues.len() == st.queues.len(),
        (exists|j: int| qi <= j < st.queues.len() && #[trigger] st.queues[j].len() > 0) && st.selected.len() < cap
            ==> remaining(round_from(hits, st, cap, qi).queues) < remaining(st.queues),
    decreases st.queues.len() - qi,
{
    if qi < st.queues.len() && st.selected.len() < cap {
        let nx = visit(hits, st, qi);
        lemma_round_progress(hits, nx, cap, qi + 1);
        let q = st.queues[qi];
        if q.len() > 0 {
            let p = pick_from(hits, q, st.seen, 0);
            lemma_pick_in_range(hits, q, st.seen, 0);
            lemma_remaining_update(st.queues, qi, q.remove(p));
        } else {
            if (exists|j: int| qi <= j < st.queues.len() && #[trigger] st.queues[j].len() > 0) {
                let j = choose|j: int| qi <= j < st.queues.len() && #[trigger] st.queues[j].len() > 0;
                assert(j != qi);
                assert(nx.queues[j].len() > 0);
            }
        }
    }
}

pub proof fn lemma_pick_in_range(hits: Seq<ImpactHit>, q: Seq<int>, seen: Set<Seq<char>>, i: int)
    requires
        q.len() > 0,
        0 <= i,
    ensures
        0 <= pick_from(hits, q, seen, i) < q.len(),
    decreases q.len() - i,
{
    if i < q.len() && !preferred(hits[q[i]], seen) {
        lemma_pick_in_range(hits, q, seen, i + 1);
    }
}

/// Rounds until the cap is reached or the queues run dry.
pub open spec fn select_run(hits: Seq<ImpactHit>, st: Selection, cap: int) -> Seq<int>
    decreases remaining(st.queues),
{
    if st.selected.len() >= cap || remaining(st.queues) == 0 {
        st.selected
    } else {
        proof {
            lemma_nonempty_queue(st.queues);
            lemma_round_progress(hits, st, cap, 0);
        }
        select_run(hits, round_from(hits, st, cap, 0), cap)
    }
}

pub proof fn lemma_nonempty_queue(qs: Seq<Seq<int>>)
    requires
        remaining(qs) > 0,
    ensures
        exists|j: int| 0 <= j < qs.len() && #[trigger] qs[j].len() > 0,
    decreases qs.len(),
{
    if qs.last().len() > 0 {
        assert(qs[qs.len() - 1].len() > 0);
    } else {
        lemma_nonempty_queue(qs.drop_last());
        let j = choose|j: int| 0 <= j < qs.drop_last().len() && #[trigger] qs.drop_last()[j].len() > 0;
        assert(qs[j] == qs.drop_last()[j]);
    }
}

/// The indices of the representative sites, in selection order.
pub open spec fn selection_spec(hits: Seq<ImpactHit>, cap: int) -> Seq<int> {
    select_run(
        hits,
        Selection { queues: initial_queues(hits), seen: Set::empty(), selected: seq![] },
        cap,
    )
}

/// The queues as index sequences.
pub open spec fn qv(qs: Seq<Vec<usize>>) -> Seq<Seq<int>> {
    qs.map_values(|q: Vec<usize>| q@.map_values(|x: usize| x as int))
}

/// Every queued index names a hit.
pub open spec fn indices_ok(qs: Seq<Vec<usize>>, n: int) -> bool {
    forall|g: int, k: int| 0 <= g < qs.len() && 0 <= k < qs[g]@.len() ==> (#[trigger] qs[g]@[k]) < n
}

/// The class of a hit.
fn class_of(h: &ImpactHit) -> (c: u8)
    ensures
        c == hit_class(*h),
{
    let t: u8 = if is_test_file(h.file.as_str()) {
        2
    } else {
        0
    };
    if h.jsx_uses > 0 {
        t
    } else {
        t + 1
    }
}

/// The repos of the hits in order of first appearance.
fn repos_in_order(hits: &Vec<ImpactHit>) -> (r: Vec<String>)
    ensures
        crate::text::views(r@) == repo_order(hits@, hits@.len() as int),
{
    let mut order: Vec<String> = Vec::new();
    let mut i: usize = 0;
    while i < hits.len()
        invariant
            i <= hits@.len(),
            crate::text::views(order@) == repo_order(hits@, i as int),
        decreases hits@.len() - i,
    {
        let ghost ov = crate::text::views(order@);
        let mut found = false;
        let mut j: usize = 0;
        while j < order.len()
            invariant
                i < hits@.len(),
                j <= order@.len(),
                ov == crate::text::views(order@),
                found == (exists|q: int| 0 <= q < j && ov[q] == hits@[i as int].repo@),
            decreases order@.len() - j,
        {
            assert(ov[j as int] == order@[j as int]@);
            if compare_str(order[j].as_str(), hits[i].repo.as_str()) == 0 {
                found = true;
            }
            j = j + 1;
        }
        proof {
            if ov.contains(hits@[i as int].repo@) {
                let q = choose|q: int| 0 <= q < ov.len() && ov[q] == hits@[i as int].repo@;
                assert(found);
            }
        }
        if !found {
            order.push(crate::text::copy_string(&hits[i].repo));
            assert(crate::text::views(order@) =~= ov.push(hits@[i as int].repo@));
        }
        i = i + 1;
    }
    order
}

/// The queue of the repo named `r`.
fn queue_of(hits: &Vec<ImpactHit>, r: &String) -> (q: Vec<usize>)
    ensures
        q@.map_values(|x: usize| x as int) == repo_queue(hits@, r@),
        forall|k: int| 0 <= k < q@.len() ==> q@[k] < hits@.len(),
{
    let n = hits.len();
    let mut q: Vec<usize> = Vec::new();
    let mut c: u8 = 0;
    let ghost mut done: Seq<int> = seq![];
    while c < 4
        invariant
            c <= 4,
            n == hits@.len(),
            q@.map_values(|x: usize| x as int) == done,
            forall|k: int| 0 <= k < q@.len() ==> q@[k] < n,
            done == (if c == 0 {
                seq![]
            } else if c == 1 {
                class_filter(hits@, r@, 0, n as int)
            } else if c == 2 {
                class_filter(hits@, r@, 0, n as int) + class_filter(hits@, r@, 1, n as int)
            } else if c == 3 {
                class_filter(hits@, r@, 0, n as int) + class_filter(hits@, r@, 1, n as int) + class_filter(
                    hits@,
                    r@,
                    2,
                    n as int,
                )
            } else {
                repo_queue(hits@, r@)
            }),
        decreases 4 - c,
    {
        let ghost base = done;
        let mut i: usize = 0;
        while i < n
            invariant
                i <= n,
                n == hits@.len(),
                c < 4,
                q@.map_values(|x: usize| x as int) == base + class_filter(hits@, r@, c as int, i as int),
                forall|k: int| 0 <= k < q@.len() ==> q@[k] < n,
            decreases n - i,
        {
            let ghost before = q@.map_values(|x: usize| x as int);
            if compare_str(hits[i].repo.as_str(), r.as_str()) == 0 && class_of(&hits[i]) == c {
                q.push(i);
                assert(q@.map_values(|x: usize| x as int) =~= before.push(i as int));
            }
            i = i + 1;
        }
        proof {
            done = base + class_filter(hits@, r@, c as int, n as int);
        }
        c = c + 1;
    }
    q
}

/// The initial queues.
fn build_queues(hits: &Vec<ImpactHit>) -> (qs: Vec<Vec<usize>>)
    ensures
        qv(qs@) == initial_queues(hits@),
        indices_ok(qs@, hits@.len() as int),
{
    let order = repos_in_order(hits);
    let ghost ov = crate::text::views(order@);
    let mut qs: Vec<Vec<usize>> = Vec::new();
    let mut g: usize = 0;
    while g < order.len()
        invariant
            g <= order@.len(),
            ov == crate::text::views(order@),
            qv(qs@) == ov.take(g as int).map_values(|r: Seq<char>| repo_queue(hits@, r)),
            indices_ok(qs@, hits@.len() as int),
        decreases order@.len() - g,
    {
        let q = queue_of(hits, &order[g]);
        let ghost before = qs@;
        qs.push(q);
        proof {
            assert(qs@ =~= before.push(q));
            assert(qv(qs@) =~= qv(before).push(q@.map_values(|x: usize| x as int)));
            assert(ov.take(g + 1) =~= ov.take(g as int).push(ov[g as int]));
            assert(ov[g as int] == order@[g as int]@);
            assert(ov.take(g + 1).map_values(|r: Seq<char>| repo_queue(hits@, r)) =~= ov.take(g as int).map_values(
                |r: Seq<char>| repo_queue(hits@, r),
            ).push(repo_queue(hits@, ov[g as int])));
        }
        g = g + 1;
    }
    assert(ov.take(order@.len() as int) =~= ov);
    qs
}

/// The position `pick_from` chooses in a non-empty queue.
fn pick(hits: &Vec<ImpactHit>, q: &Vec<usize>, seen: &StrSet) -> (p: usize)
    requires
        q@.len() > 0,
        forall|k: int| 0 <= k < q@.len() ==> q@[k] < hits@.len(),
        seen.wf(),
    ensures
        p == pick_from(hits@, q@.map_values(|x: usize| x as int), seen.view_set(), 0),
        p < q@.len(),
{
    let ghost qi = q@.map_values(|x: usize| x as int);
    let mut i: usize = 0;
    while i < q.len()
        invariant
            i <= q@.len(),
            qi == q@.map_values(|x: usize| x as int),
            forall|k: int| 0 <= k < q@.len() ==> q@[k] < hits@.len(),
            seen.wf(),
            pick_from(hits@, qi, seen.view_set(), 0) == pick_from(hits@, qi, seen.view_set(), i as int),
        decreases q@.len() - i,
    {
        let h = &hits[q[i]];
        if !is_test_file(h.file.as_str()) && h.jsx_uses > 0 && !seen.contains(props_key(h).as_str()) {
            return i;
        }
        i = i + 1;
    }
    0
}

/// Whether some queue still holds hits.
fn any_queued(qs: &Vec<Vec<usize>>) -> (b: bool)
    ensures
        b == (exists|j: int| 0 <= j < qs@.len() && #[trigger] qs@[j]@.len() > 0),
{
    let mut j: usize = 0;
    while j < qs.len()
        invariant
            j <= qs@.len(),
            forall|q: int| 0 <= q < j ==> (#[trigger] qs@[q])@.len() == 0,
        decreases qs@.len() - j,
    {
        if qs[j].len() > 0 {
            return true;
        }
        j = j + 1;
    }
    false
}

/// The selection state of the exec values.
pub open spec fn state_of(qs: Seq<Vec<usize>>, seen: StrSet, sel: Seq<usize>) -> Selection {
    Selection { queues: qv(qs), seen: seen.view_set(), selected: sel.map_values(|x: usize| x as int) }
}

/// Indices of up to `sites` representative hits, in selection order.
pub fn select_positions(hits: &Vec<ImpactHit>, sites: usize) -> (r: Vec<usize>)
    ensures
        r@.map_values(|x: usize| x as int) == selection_spec(hits@, sites as int),
        forall|k: int| 0 <= k < r@.len() ==> r@[k] < hits@.len(),
{
    let n = hits.len();
    let mut queues = build_queues(hits);
    let mut seen = StrSet::new();
    let mut sel: Vec<usize> = Vec::new();
    let ghost init = state_of(queues@, seen, sel@);
    proof {
        assert(init.seen =~= Set::<Seq<char>>::empty());
        assert(init.selected =~= Seq::<int>::empty());
    }
    while sel.len() < sites && any_queued(&queues)
        invariant
            n == hits@.len(),
            seen.wf(),
            indices_ok(queues@, n as int),
            forall|k: int| 0 <= k < sel@.len() ==> sel@[k] < n,
            select_run(hits@, state_of(queues@, seen, sel@), sites as int) == selection_spec(hits@, sites as int),
        decreases remaining(qv(queues@)),
    {
        let ghost start = state_of(queues@, seen, sel@);
        proof {
            let j = choose|j: int| 0 <= j < queues@.len() && #[trigger] queues@[j]@.len() > 0;
            assert(start.queues[j].len() > 0);
            lemma_remaining_zero(start.queues, j);
            lemma_round_progress(hits@, start, sites as int, 0);
        }
        let mut qi: usize = 0;
        while qi < queues.len() && sel.len() < sites
            invariant
                n == hits@.len(),
                seen.wf(),
                indices_ok(queues@, n as int),
                forall|k: int| 0 <= k < sel@.len() ==> sel@[k] < n,
                qv(queues@).len() == start.queues.len(),
                qi <= queues@.len(),
                round_from(hits@, state_of(queues@, seen, sel@), sites as int, qi as int) == round_from(
                    hits@,
                    start,
                    sites as int,
                    0,
                ),
            decreases queues@.len() - qi,
        {
            let ghost cur = state_of(queues@, seen, sel@);
            if queues[qi].len() > 0 {
                let p = pick(hits, &queues[qi], &seen);
                let ghost qseq = qv(queues@)[qi as int];
                let ghost old_q = queues@[qi as int];
                let i = queues[qi].remove(p);
                let key = props_key(&hits[i]);
                seen.insert(key);
                sel.push(i);
                proof {
                    assert(old_q@.map_values(|x: usize| x as int) == qseq);
                    assert(queues@[qi as int]@ == old_q@.remove(p as int));
                    assert(queues@[qi as int]@.map_values(|x: usize| x as int) =~= qseq.remove(p as int));
                    assert(qv(queues@) =~= cur.queues.update(qi as int, qseq.remove(p as int)));
                    assert(sel@.map_values(|x: usize| x as int) =~= cur.selected.push(i as int));
                    assert(qseq[p as int] == i as int);
                    assert(state_of(queues@, seen, sel@) == visit(hits@, cur, qi as int));
                    assert forall|g: int, k: int| 0 <= g < queues@.len() && 0 <= k < queues@[g]@.len() implies (
                    #[trigger] queues@[g]@[k]) < n by {
                        if g == qi {
                            assert(queues@[g]@[k] == old_q@.remove(p as int)[k]);
                        }
                    }
                }
            } else {
                proof {
                    assert(cur.queues[qi as int].len() == 0);
                    assert(visit(hits@, cur, qi as int) == cur);
                }
            }
            qi = qi + 1;
        }
        proof {
            let cur = state_of(queues@, seen, sel@);
            assert(round_from(hits@, cur, sites as int, qi as int) == cur);
        }
    }
    proof {
        let cur = state_of(queues@, seen, sel@);
        if sel@.len() < sites {
            assert forall|j: int| 0 <= j < qv(queues@).len() implies qv(queues@)[j].len() == 0 by {
                assert(queues@[j]@.len() == 0);
            }
            lemma_all_empty(qv(queues@));
        }
    }
    sel
}

pub proof fn lemma_all_empty(qs: Seq<Seq<int>>)
    requires
        forall|j: int| 0 <= j < qs.len() ==> qs[j].len() == 0,
    ensures
        remaining(qs) == 0,
    decreases qs.len(),
{
    if qs.len() > 0 {
        assert(qs[qs.len() - 1] == qs.last());
        lemma_all_empty(qs.drop_last());
    }
}

/// Up to `sites` representative hits, in selection order.
pub fn select_sites<'a>(hits: &'a Vec<ImpactHit>, sites: usize) -> (r: Vec<&'a ImpactHit>)
    ensures
        r@.len() == selection_spec(hits@, sites as int).len(),
        forall|k: int| 0 <= k < r@.len() ==> *r@[k] == hits@[selection_spec(hits@, sites as int)[k]],
{
    let pos = select_positions(hits, sites);
    let mut out: Vec<&'a ImpactHit> = Vec::new();
    let mut k: usize = 0;
    while k < pos.len()
        invariant
            k <= pos@.len(),
            forall|q: int| 0 <= q < pos@.len() ==> pos@[q] < hits@.len(),
            pos@.map_values(|x: usize| x as int) == selection_spec(hits@, sites as int),
            out@.len() == k,
            forall|q: int| 0 <= q < k ==> *out@[q] == hits@[pos@[q] as int],
        decreases pos@.len() - k,
    {
        out.push(&hits[pos[k]]);
        k = k + 1;
    }
    out
}

proof fn lemma_round_capped(hits: Seq<ImpactHit>, st: Selection, cap: int, qi: int)
    requires
        st.selected.len() <= cap,
    ensures
        round_from(hits, st, cap, qi).selected.len() <= cap,
    decreases st.queues.len() - qi,
{
    if !(qi < 0 || qi >= st.queues.len() || st.selected.len() >= cap) {
        lemma_round_capped(hits, visit(hits, st, qi), cap, qi + 1);
    }
}

proof fn lemma_run_capped(hits: Seq<ImpactHit>, st: Selection, cap: int)
    requires
        st.selected.len() <= cap,
    ensures
        select_run(hits, st, cap).len() <= cap,
    decreases remaining(st.queues),
{
    if !(st.selected.len() >= cap || remaining(st.queues) == 0) {
        lemma_nonempty_queue(st.queues);
        lemma_round_progress(hits, st, cap, 0);
        lemma_round_capped(hits, st, cap, 0);
        lemma_run_capped(hits, round_from(hits, st, cap, 0), cap);
    }
}

/// The selection never exceeds the number of sites asked for.
pub proof fn law_selection_respects_cap(hits: Seq<ImpactHit>, cap: int)
    requires
        cap >= 0,
    ensures
        selection_spec(hits, cap).len() <= cap,
{
    lemma_run_capped(hits, Selection { queues: initial_queues(hits), seen: Set::empty(), selected: seq![] }, cap);
}

/// How many of the first `n` hits belong to repo `r`.
pub open spec fn repo_count(hits: Seq<ImpactHit>, r: Seq<char>, n: int) -> nat
    decreases n,
{
    if n <= 0 {
        0
    } else {
        repo_count(hits, r, n - 1) + if hits[n - 1].repo@ == r {
            1nat
        } else {
            0nat
        }
    }
}

/// The hits of each repo in a list, counted among the first `n`.
pub open spec fn counts_over(hits: Seq<ImpactHit>, rs: Seq<Seq<char>>, n: int) -> nat
    decreases rs.len(),
{
    if rs.len() == 0 {
        0
    } else {
        counts_over(hits, rs.drop_last(), n) + repo_count(hits, rs.last(), n)
    }
}

/// The four classes split a repo's hits.
proof fn lemma_classes_partition(hits: Seq<ImpactHit>, r: Seq<char>, n: int)
    requires
        0 <= n <= hits.len(),
    ensures
        class_filter(hits, r, 0, n).len() + class_filter(hits, r, 1, n).len() + class_filter(hits, r, 2, n).len()
            + class_filter(hits, r, 3, n).len() == repo_count(hits, r, n),
    decreases n,
{
    if n > 0 {
        lemma_classes_partition(hits, r, n - 1);
    }
}

/// The queues of a list of repos hold as many hits as those repos have.
proof fn lemma_remaining_queues(hits: Seq<ImpactHit>, rs: Seq<Seq<char>>)
    ensures
        remaining(rs.map_values(|r: Seq<char>| repo_queue(hits, r))) == counts_over(hits, rs, hits.len() as int),
    decreases rs.len(),
{
    if rs.len() > 0 {
        lemma_remaining_queues(hits, rs.drop_last());
        let qs = rs.map_values(|r: Seq<char>| repo_queue(hits, r));
        assert(qs.drop_last() =~= rs.drop_last().map_values(|r: Seq<char>| repo_queue(hits, r)));
        lemma_classes_partition(hits, rs.last(), hits.len() as int);
    }
}

/// The repos in order of appearance are distinct, and a repo left out has
/// no hit among the first `n`.
proof fn lemma_repo_order(hits: Seq<ImpactHit>, n: int)
    requires
        0 <= n <= hits.len(),
    ensures
        repo_order(hits, n).no_duplicates(),
        forall|r: Seq<char>| !repo_order(hits, n).contains(r) ==> #[trigger] repo_count(hits, r, n) == 0,
    decreases n,
{
    if n > 0 {
        lemma_repo_order(hits, n - 1);
        let prev = repo_order(hits, n - 1);
        let k = hits[n - 1].repo@;
        if !prev.contains(k) {
            let o = prev.push(k);
            assert forall|a: int, b: int| 0 <= a < b < o.len() implies o[a] != o[b] by {
                if b == o.len() - 1 {
                    assert(o[a] == prev[a]);
                }
            }
            assert forall|r: Seq<char>| !o.contains(r) implies #[trigger] repo_count(hits, r, n) == 0 by {
                assert(o[o.len() - 1] == k);
                if prev.contains(r) {
                    let j = choose|j: int| 0 <= j < prev.len() && prev[j] == r;
                    assert(o[j] == r);
                }
                assert(repo_count(hits, r, n - 1) == 0);
            }
        } else {
            assert forall|r: Seq<char>| !prev.contains(r) implies #[trigger] repo_count(hits, r, n) == 0 by {
                assert(repo_count(hits, r, n - 1) == 0);
            }
        }
    }
}

/// Counting one more hit adds one to the repos list that names its repo.
proof fn lemma_counts_step(hits: Seq<ImpactHit>, rs: Seq<Seq<char>>, n: int)
    requires
        1 <= n <= hits.len(),
        rs.no_duplicates(),
    ensures
        counts_over(hits, rs, n) == counts_over(hits, rs, n - 1) + if rs.contains(hits[n - 1].repo@) {
            1nat
        } else {
            0nat
        },
    decreases rs.len(),
{
    if rs.len() > 0 {
        let d = rs.drop_last();
        let k = hits[n - 1].repo@;
        assert(d.no_duplicates()) by {
            assert forall|a: int, b: int| 0 <= a < b < d.len() implies d[a] != d[b] by {
                assert(d[a] == rs[a] && d[b] == rs[b]);
            }
        }
        lemma_counts_step(hits, d, n);
        assert(rs.last() == rs[rs.len() - 1]);
        if rs.last() == k {
            assert(rs.contains(k));
            if d.contains(k) {
                let j = choose|j: int| 0 <= j < d.len() && d[j] == k;
                assert(rs[j] == rs[rs.len() - 1]);
            }
        } else {
            if rs.contains(k) {
                let j = choose|j: int| 0 <= j < rs.len() && rs[j] == k;
                assert(d[j] == k);
            }
            if d.contains(k) {
                let j = choose|j: int| 0 <= j < d.len() && d[j] == k;
                assert(rs[j] == k);
            }
        }
    }
}

/// Every hit is queued once: the queues of all repos hold `n` hits.
proof fn lemma_counts_total(hits: Seq<ImpactHit>, n: int)
    requires
        0 <= n <= hits.len(),
    ensures
        counts_over(hits, repo_order(hits, n), n) == n,
    decreases n,
{
    if n > 0 {
        lemma_counts_total(hits, n - 1);
        lemma_repo_order(hits, n - 1);
        let prev = repo_order(hits, n - 1);
        let k = hits[n - 1].repo@;
        lemma_counts_step(hits, prev, n);
        if !prev.contains(k) {
            let o = prev.push(k);
            assert(o.drop_last() =~= prev);
            assert(o.last() == k);
            assert(repo_count(hits, k, n - 1) == 0);
        }
    }
}

/// Visiting a queue moves one hit from the queues to the selection.
proof fn lemma_visit_conserves(hits: Seq<ImpactHit>, st: Selection, qi: int)
    requires
        0 <= qi < st.queues.len(),
    ensures
        visit(hits, st, qi).selected.len() + remaining(visit(hits, st, qi).queues) == st.selected.len() + remaining(
            st.queues,
        ),
        visit(hits, st, qi).queues.len() == st.queues.len(),
{
    let q = st.queues[qi];
    if q.len() > 0 {
        let p = pick_from(hits, q, st.seen, 0);
        lemma_pick_in_range(hits, q, st.seen, 0);
        lemma_remaining_update(st.queues, qi, q.remove(p));
    }
}

/// A round keeps the number of hits selected or still queued.
proof fn lemma_round_conserves(hits: Seq<ImpactHit>, st: Selection, cap: int, qi: int)
    requires
        0 <= qi,
    ensures
        round_from(hits, st, cap, qi).selected.len() + remaining(round_from(hits, st, cap, qi).queues)
            == st.selected.len() + remaining(st.queues),
    decreases st.queues.len() - qi,
{
    if !(qi >= st.queues.len() || st.selected.len() >= cap) {
        lemma_visit_conserves(hits, st, qi);
        lemma_round_conserves(hits, visit(hits, st, qi), cap, qi + 1);
    }
}

/// Rounds run until the cap is met or every queued hit is taken.
proof fn lemma_run_len(hits: Seq<ImpactHit>, st: Selection, cap: int)
    requires
        st.selected.len() <= cap,
    ensures
        select_run(hits, st, cap).len() == if cap < st.selected.len() + remaining(st.queues) {
            cap
        } else {
            (st.selected.len() + remaining(st.queues)) as int
        },
    decreases remaining(st.queues),
{
    if !(st.selected.len() >= cap || remaining(st.queues) == 0) {
        lemma_nonempty_queue(st.queues);
        lemma_round_progress(hits, st, cap, 0);
        lemma_round_capped(hits, st, cap, 0);
        lemma_round_conserves(hits, st, cap, 0);
        lemma_run_len(hits, round_from(hits, st, cap, 0), cap);
    }
}

/// Sites are selected until the cap is met or the hits run out: the
/// selection has `min(cap, number of hits)` entries (test files and
/// reference-only sites included once the others are taken).
pub proof fn law_selection_size(hits: Seq<ImpactHit>, cap: int)
    requires
        cap >= 0,
    ensures
        selection_spec(hits, cap).len() == if cap < hits.len() {
            cap
        } else {
            hits.len() as int
        },
{
    lemma_counts_total(hits, hits.len() as int);
    lemma_remaining_queues(hits, repo_order(hits, hits.len() as int));
    lemma_run_len(hits, Selection { queues: initial_queues(hits), seen: Set::empty(), selected: seq![] }, cap);
}

/// Every queued index names a hit of repo `r`.
pub open spec fn queue_in_repo(hits: Seq<ImpactHit>, q: Seq<int>, r: Seq<char>) -> bool {
    forall|k: int| 0 <= k < q.len() ==> 0 <= #[trigger] q[k] < hits.len() && hits[q[k]].repo@ == r
}

proof fn lemma_class_filter_in_repo(hits: Seq<ImpactHit>, r: Seq<char>, c: int, n: int)
    requires
        0 <= n <= hits.len(),
    ensures
        queue_in_repo(hits, class_filter(hits, r, c, n), r),
    decreases n,
{
    if n > 0 {
        lemma_class_filter_in_repo(hits, r, c, n - 1);
    }
}

proof fn lemma_repo_queue_in_repo(hits: Seq<ImpactHit>, r: Seq<char>)
    ensures
        queue_in_repo(hits, repo_queue(hits, r), r),
{
    let n = hits.len() as int;
    lemma_class_filter_in_repo(hits, r, 0, n);
    lemma_class_filter_in_repo(hits, r, 1, n);
    lemma_class_filter_in_repo(hits, r, 2, n);
    lemma_class_filter_in_repo(hits, r, 3, n);
    let (a, b, c, d) = (class_filter(hits, r, 0, n), class_filter(hits, r, 1, n), class_filter(hits, r, 2, n), class_filter(hits, r, 3, n));
    let q = repo_queue(hits, r);
    assert forall|k: int| 0 <= k < q.len() implies 0 <= #[trigger] q[k] < hits.len() && hits[q[k]].repo@ == r by {
        if k < a.len() {
            assert(q[k] == a[k]);
        } else if k < a.len() + b.len() {
            assert(q[k] == b[k - a.len()]);
        } else if k < a.len() + b.len() + c.len() {
            assert(q[k] == c[k - a.len() - b.len()]);
        } else {
            assert(q[k] == d[k - a.len() - b.len() - c.len()]);
        }
    }
}

/// Every repo in the order has a hit among the first `n`.
proof fn lemma_order_counts(hits: Seq<ImpactHit>, n: int)
    requires
        0 <= n <= hits.len(),
    ensures
        forall|g: int| 0 <= g < repo_order(hits, n).len() ==> repo_count(hits, #[trigger] repo_order(hits, n)[g], n) >= 1,
    decreases n,
{
    if n > 0 {
        lemma_order_counts(hits, n - 1);
        let prev = repo_order(hits, n - 1);
        let o = repo_order(hits, n);
        assert forall|g: int| 0 <= g < o.len() implies repo_count(hits, #[trigger] o[g], n) >= 1 by {
            if g < prev.len() {
                assert(o[g] == prev[g]);
                assert(repo_count(hits, prev[g], n - 1) >= 1);
            } else {
                assert(o[g] == hits[n - 1].repo@);
            }
        }
    }
}

/// A round keeps what was selected before it as a prefix.
proof fn lemma_round_prefix(hits: Seq<ImpactHit>, st: Selection, cap: int, qi: int)
    requires
        0 <= qi,
    ensures
        round_from(hits, st, cap, qi).selected.len() >= st.selected.len(),
        round_from(hits, st, cap, qi).selected.take(st.selected.len() as int) == st.selected,
    decreases st.queues.len() - qi,
{
    if !(qi >= st.queues.len() || st.selected.len() >= cap) {
        let nx = visit(hits, st, qi);
        lemma_visit_conserves(hits, st, qi);
        lemma_round_prefix(hits, nx, cap, qi + 1);
        let res = round_from(hits, nx, cap, qi + 1);
        assert(nx.selected.take(st.selected.len() as int) =~= st.selected);
        assert(res.selected.take(st.selected.len() as int) =~= res.selected.take(nx.selected.len() as int).take(
            st.selected.len() as int,
        ));
    } else {
        assert(st.selected.take(st.selected.len() as int) =~= st.selected);
    }
}

/// The rounds keep what was selected before them as a prefix.
proof fn lemma_run_prefix(hits: Seq<ImpactHit>, st: Selection, cap: int)
    ensures
        select_run(hits, st, cap).len() >= st.selected.len(),
        select_run(hits, st, cap).take(st.selected.len() as int) == st.selected,
    decreases remaining(st.queues),
{
    if !(st.selected.len() >= cap || remaining(st.queues) == 0) {
        lemma_nonempty_queue(st.queues);
        lemma_round_progress(hits, st, cap, 0);
        lemma_round_prefix(hits, st, cap, 0);
        let nx = round_from(hits, st, cap, 0);
        lemma_run_prefix(hits, nx, cap);
        let res = select_run(hits, nx, cap);
        assert(res.take(st.selected.len() as int) =~= res.take(nx.selected.len() as int).take(st.selected.len() as int));
    } else {
        assert(st.selected.take(st.selected.len() as int) =~= st.selected);
    }
}

/// The first round takes one hit from each queue in turn, until the cap.
proof fn lemma_first_round(hits: Seq<ImpactHit>, st: Selection, cap: int, qi: int, order: Seq<Seq<char>>)
    requires
        0 <= qi <= st.queues.len(),
        st.selected.len() == qi,
        st.queues.len() == order.len(),
        forall|g: int| qi <= g < st.queues.len() ==> (#[trigger] st.queues[g]).len() > 0,
        forall|g: int| qi <= g < st.queues.len() ==> queue_in_repo(hits, #[trigger] st.queues[g], order[g]),
    ensures
        ({
            let res = round_from(hits, st, cap, qi).selected;
            &&& res.len() >= (if cap < order.len() {
                cap
            } else {
                order.len() as int
            })
            &&& res.take(qi) == st.selected
            &&& forall|j: int| qi <= j < res.len() && j < order.len() ==> 0 <= #[trigger] res[j] < hits.len() && hits[res[j]].repo@ == order[j]
        }),
    decreases st.queues.len() - qi,
{
    if qi >= st.queues.len() || st.selected.len() >= cap {
        assert(st.selected.take(qi) =~= st.selected);
    } else {
        let q = st.queues[qi];
        let p = pick_from(hits, q, st.seen, 0);
        lemma_pick_in_range(hits, q, st.seen, 0);
        let nx = visit(hits, st, qi);
        assert(nx.selected == st.selected.push(q[p]));
        assert(queue_in_repo(hits, q, order[qi]));
        assert forall|g: int| qi + 1 <= g < nx.queues.len() implies (#[trigger] nx.queues[g]).len() > 0 && queue_in_repo(
            hits,
            nx.queues[g],
            order[g],
        ) by {
            assert(nx.queues[g] == st.queues[g]);
        }
        lemma_first_round(hits, nx, cap, qi + 1, order);
        let res = round_from(hits, nx, cap, qi + 1).selected;
        assert(res.take(qi) =~= res.take(qi + 1).take(qi));
        assert(nx.selected.take(qi) =~= st.selected);
        assert(res[qi] == res.take(qi + 1)[qi]);
        assert(res[qi] == q[p]);
    }
}

/// Round-robin across repos: the first `min(cap, number of repos)` sites
/// come one from each repo, repos in order of first appearance, before any
/// repo contributes a second site.
pub proof fn law_one_site_per_repo_first(hits: Seq<ImpactHit>, cap: int)
    requires
        cap >= 0,
    ensures
        forall|j: int|
            0 <= j < selection_spec(hits, cap).len() && j < repo_order(hits, hits.len() as int).len() ==> 0
                <= #[trigger] selection_spec(hits, cap)[j] < hits.len() && hits[selection_spec(hits, cap)[j]].repo@
                == repo_order(hits, hits.len() as int)[j],
{
    let n = hits.len() as int;
    let order = repo_order(hits, n);
    let st0 = Selection { queues: initial_queues(hits), seen: Set::empty(), selected: seq![] };
    lemma_order_counts(hits, n);
    assert forall|g: int| 0 <= g < st0.queues.len() implies (#[trigger] st0.queues[g]).len() > 0 && queue_in_repo(
        hits,
        st0.queues[g],
        order[g],
    ) by {
        assert(st0.queues[g] == repo_queue(hits, order[g]));
        lemma_classes_partition(hits, order[g], n);
        lemma_repo_queue_in_repo(hits, order[g]);
    }
    let sel = selection_spec(hits, cap);
    if !(cap <= 0 || remaining(st0.queues) == 0) {
        lemma_nonempty_queue(st0.queues);
        lemma_round_progress(hits, st0, cap, 0);
        lemma_first_round(hits, st0, cap, 0, order);
        let s1 = round_from(hits, st0, cap, 0);
        lemma_run_prefix(hits, s1, cap);
        assert forall|j: int| 0 <= j < sel.len() && j < order.len() implies 0 <= #[trigger] sel[j] < hits.len()
            && hits[sel[j]].repo@ == order[j] by {
            if j < s1.selected.len() {
                assert(sel[j] == sel.take(s1.selected.len() as int)[j]);
            }
        }
    } else if remaining(st0.queues) == 0 {
        if order.len() > 0 {
            lemma_remaining_zero(st0.queues, 0);
        }
    }
}

/// From position `i` on, when some hit of `q` is a non-test render with an
/// unseen prop combination, the one picked is such a render too.
proof fn lemma_pick_finds_unseen_render(hits: Seq<ImpactHit>, q: Seq<int>, seen: Set<Seq<char>>, i: int, k: int)
    requires
        0 <= i <= k < q.len(),
        !is_test_path(hits[q[k]].file@),
        hits[q[k]].jsx_uses > 0,
        !seen.contains(props_key_spec(hits[q[k]])),
    ensures
        i <= pick_from(hits, q, seen, i) < q.len(),
        !is_test_path(hits[q[pick_from(hits, q, seen, i)]].file@),
        hits[q[pick_from(hits, q, seen, i)]].jsx_uses > 0,
        !seen.contains(props_key_spec(hits[q[pick_from(hits, q, seen, i)]])),
    decreases k - i,
{
    if !preferred(hits[q[i]], seen) {
        lemma_pick_finds_unseen_render(hits, q, seen, i + 1, k);
    }
}

/// Visiting a repo's queue that holds a non-test render whose prop
/// combination has not been shown yet takes such a render from it, and
/// marks its combination as shown: the selection never repeats a shown
/// combination while an unshown one waits in that repo.
pub proof fn law_visit_prefers_unseen_prop_combinations(hits: Seq<ImpactHit>, st: Selection, qi: int, k: int)
    requires
        0 <= qi < st.queues.len(),
        0 <= k < st.queues[qi].len(),
        !is_test_path(hits[st.queues[qi][k]].file@),
        hits[st.queues[qi][k]].jsx_uses > 0,
        !st.seen.contains(props_key_spec(hits[st.queues[qi][k]])),
    ensures
        ({
            let v = visit(hits, st, qi);
            let taken = v.selected.last();
            &&& v.selected.len() == st.selected.len() + 1
            &&& v.selected.drop_last() == st.selected
            &&& st.queues[qi].contains(taken)
            &&& !is_test_path(hits[taken].file@)
            &&& hits[taken].jsx_uses > 0
            &&& !st.seen.contains(props_key_spec(hits[taken]))
            &&& v.seen.contains(props_key_spec(hits[taken]))
        }),
{
    let q = st.queues[qi];
    lemma_pick_finds_unseen_render(hits, q, st.seen, 0, k);
    let p = pick_from(hits, q, st.seen, 0);
    let v = visit(hits, st, qi);
    assert(v.selected.last() == q[p]);
    assert(v.selected.drop_last() =~= st.selected);
}

} // verus!
