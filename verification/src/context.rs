//! The context pack of a symbol: the dominant component's sites, prop
//! frequencies, representative usage excerpts and same-name look-alikes.
use vstd::prelude::*;
use crate::impact::ImpactHit;
use crate::definition::{defining_repo, defining_repo_name};
use crate::discover::Repo;
use crate::tally::{is_most_common, most_common};
use crate::order::{compare_str, seq_lt};
use crate::sort::{Ranked, sort_stable_spec, sorted_stable};
use crate::strmap::{ascending, keys_of, StrMap};
use crate::strmap::StrSet;
use crate::text::{
    chars_of, contains_exec, contains_seq, copy_string, join, lines_exec, push_joined, string_from_chars,
    text_lines, trim_end_ws, views,
};

verus! {

/// Lines shown per usage excerpt: the anchor line plus enough after it to
/// cover a typical multi-line JSX render.
pub const EXCERPT_LINES: usize = 8;

/// One usage excerpt of the pack.
pub struct UsageExcerpt {
    pub repo: String,
    pub file: String,
    /// anchor line: first JSX render site, or the import line for
    /// ref-only/import-only hits
    pub line: usize,
    pub jsx_props: StrSet,
    pub code: String,
}

/// A different component that happens to share the symbol's name; its sites
/// are excluded from the pack so stats/excerpts never mix two APIs.
pub struct SameNameGroup {
    /// repo defining the other component
    pub repo: String,
    pub sites: usize,
    /// most common resolved source in the group — pass as --from to repack it
    pub from_hint: String,
}

/// The LLM-ready context pack of a symbol.
pub struct ContextPack {
    pub symbol: String,
    pub total_sites: usize,
    pub total_files: usize,
    pub total_repos: usize,
    /// (prop, number of sites passing it), most frequent first
    pub prop_counts: Vec<(String, usize)>,
    pub definition: Option<crate::definition::Definition>,
    pub excerpts: Vec<UsageExcerpt>,
    pub same_name: Vec<SameNameGroup>,
}

/// Test files are noise in a context pack.
pub open spec fn is_test_path(f: Seq<char>) -> bool {
    contains_seq(f, "__test__"@) || contains_seq(f, "__tests__"@) || contains_seq(f, ".test."@)
        || contains_seq(f, ".spec."@)
}

/// Whether a file is a test file.
pub fn is_test_file(file: &str) -> (b: bool)
    ensures
        b == is_test_path(file@),
{
    let f = chars_of(file);
    contains_exec(&f, &chars_of("__test__")) || contains_exec(&f, &chars_of("__tests__")) || contains_exec(
        &f,
        &chars_of(".test."),
    ) || contains_exec(&f, &chars_of(".spec."))
}

/// A hit's prop combination: its props in ascending order, comma-joined.
pub open spec fn props_key_spec(h: ImpactHit) -> Seq<char> {
    join(h.jsx_props.members(), ","@)
}

/// The prop combination of a hit.
pub fn props_key(hit: &ImpactHit) -> (k: String)
    ensures
        k@ == props_key_spec(*hit),
{
    let props = hit.jsx_props.to_vec();
    let mut k = String::new();
    push_joined(&mut k, &props, ",");
    assert(k@ =~= props_key_spec(*hit));
    k
}

/// The line an excerpt is anchored on: the first JSX render site, else the
/// import line.
pub open spec fn anchor_of(h: ImpactHit) -> usize {
    if h.jsx_lines@.len() > 0 {
        h.jsx_lines@[0]
    } else {
        h.line
    }
}

/// The excerpt code: up to `EXCERPT_LINES` lines from the 1-based line
/// `anchor` on, joined with newlines, trailing whitespace trimmed.
pub open spec fn excerpt_code(text: Seq<char>, anchor: int) -> Seq<char> {
    let ls = text_lines(text);
    let from = if anchor - 1 < ls.len() {
        anchor - 1
    } else {
        ls.len() as int
    };
    let to = if from + EXCERPT_LINES < ls.len() {
        from + EXCERPT_LINES
    } else {
        ls.len() as int
    };
    trim_end_ws(join(ls.subrange(from, to), "\n"@))
}

/// `s` without trailing whitespace.
fn trim_end_exec(s: &Vec<char>) -> (r: Vec<char>)
    ensures
        r@ == trim_end_ws(s@),
{
    let mut j: usize = s.len();
    assert(s@.subrange(0, j as int) =~= s@);
    while j > 0 && crate::text::is_whitespace(s[j - 1])
        invariant
            j <= s@.len(),
            trim_end_ws(s@) == trim_end_ws(s@.subrange(0, j as int)),
        decreases j,
    {
        assert(s@.subrange(0, j as int).drop_last() =~= s@.subrange(0, j - 1));
        j = j - 1;
    }
    let mut r: Vec<char> = Vec::new();
    let mut k: usize = 0;
    while k < j
        invariant
            k <= j <= s@.len(),
            r@ == s@.subrange(0, k as int),
        decreases j - k,
    {
        r.push(s[k]);
        assert(r@ =~= s@.subrange(0, k + 1));
        k = k + 1;
    }
    r
}

/// `e` is the usage excerpt of `hit` in a file with this text.
pub open spec fn excerpt_from(e: UsageExcerpt, hit: ImpactHit, text: Seq<char>) -> bool {
    &&& e.repo@ == hit.repo@
    &&& e.file@ == hit.file@
    &&& e.line == anchor_of(hit)
    &&& e.jsx_props.members() == hit.jsx_props.members()
    &&& e.jsx_props.view_set() == hit.jsx_props.view_set()
    &&& e.jsx_props.wf() == hit.jsx_props.wf()
    &&& e.code@ == excerpt_code(text, anchor_of(hit) as int)
}

/// The usage excerpt of a hit, given the text of its file.
pub fn excerpt_of(hit: &ImpactHit, text: &str) -> (e: UsageExcerpt)
    requires
        anchor_of(*hit) >= 1,
    ensures
        excerpt_from(e, *hit, text@),
{
    let anchor = if hit.jsx_lines.len() > 0 {
        hit.jsx_lines[0]
    } else {
        hit.line
    };
    let ls = lines_exec(text);
    let ghost lv = ls@.map_values(|l: Vec<char>| l@);
    let n = ls.len();
    let from = if anchor - 1 < n {
        anchor - 1
    } else {
        n
    };
    let to = if from < n && n - from > EXCERPT_LINES {
        from + EXCERPT_LINES
    } else {
        n
    };
    let mut parts: Vec<String> = Vec::new();
    let mut k: usize = from;
    while k < to
        invariant
            from <= k <= to <= n,
            n == ls@.len(),
            lv == ls@.map_values(|l: Vec<char>| l@),
            views(parts@) == lv.subrange(from as int, k as int),
        decreases to - k,
    {
        let ghost before = views(parts@);
        parts.push(string_from_chars(&ls[k]));
        assert(views(parts@) =~= before.push(lv[k as int]));
        assert(lv.subrange(from as int, k + 1) =~= lv.subrange(from as int, k as int).push(lv[k as int]));
        k = k + 1;
    }
    let mut joined = String::new();
    push_joined(&mut joined, &parts, "\n");
    let code = string_from_chars(&trim_end_exec(&chars_of(joined.as_str())));
    UsageExcerpt {
        repo: copy_string(&hit.repo),
        file: copy_string(&hit.file),
        line: anchor,
        jsx_props: hit.jsx_props.copy(),
        code,
    }
}

/// The distinct (repo, file) pairs of some hits.
pub open spec fn file_set(hits: Seq<ImpactHit>) -> Set<(Seq<char>, Seq<char>)> {
    hits.map_values(|h: ImpactHit| (h.repo@, h.file@)).to_set()
}

/// The distinct repositories of some hits.
pub open spec fn hit_repos(hits: Seq<ImpactHit>) -> Set<Seq<char>> {
    hits.map_values(|h: ImpactHit| h.repo@).to_set()
}

/// The number of distinct files among the hits.
pub fn count_files(hits: &Vec<ImpactHit>) -> (n: usize)
    ensures
        n == file_set(hits@).len(),
{
    broadcast use vstd::set::group_set_axioms, vstd::seq_lib::seq_to_set_is_finite;

    let ghost keys = hits@.map_values(|h: ImpactHit| (h.repo@, h.file@));
    let mut n: usize = 0;
    let mut i: usize = 0;
    assert(keys.take(0).to_set() =~= Set::<(Seq<char>, Seq<char>)>::empty());
    while i < hits.len()
        invariant
            i <= hits@.len(),
            keys == hits@.map_values(|h: ImpactHit| (h.repo@, h.file@)),
            n == keys.take(i as int).to_set().len(),
            n <= i,
        decreases hits@.len() - i,
    {
        let mut seen = false;
        let mut j: usize = 0;
        while j < i
            invariant
                j <= i < hits@.len(),
                keys == hits@.map_values(|h: ImpactHit| (h.repo@, h.file@)),
                seen == (exists|q: int| 0 <= q < j && keys[q] == keys[i as int]),
            decreases i - j,
        {
            assert(keys[j as int] == (hits@[j as int].repo@, hits@[j as int].file@));
            assert(keys[i as int] == (hits@[i as int].repo@, hits@[i as int].file@));
            if compare_str(hits[j].repo.as_str(), hits[i].repo.as_str()) == 0 && compare_str(
                hits[j].file.as_str(),
                hits[i].file.as_str(),
            ) == 0 {
                seen = true;
            }
            j = j + 1;
        }
        proof {
            assert(keys.take(i + 1) =~= keys.take(i as int).push(keys[i as int]));
            keys.take(i as int).lemma_push_to_set_commute(keys[i as int]);
            if seen {
                let q = choose|q: int| 0 <= q < i && keys[q] == keys[i as int];
                assert(keys.take(i as int)[q] == keys[i as int]);
                assert(keys.take(i as int).to_set().contains(keys[i as int]));
            } else {
                assert(!keys.take(i as int).to_set().contains(keys[i as int]));
            }
        }
        if !seen {
            n = n + 1;
        }
        i = i + 1;
    }
    assert(keys.take(hits@.len() as int) =~= keys);
    n
}

/// The number of distinct repositories among the hits.
pub fn count_hit_repos(hits: &Vec<ImpactHit>) -> (n: usize)
    ensures
        n == hit_repos(hits@).len(),
{
    broadcast use vstd::set::group_set_axioms, vstd::seq_lib::seq_to_set_is_finite;

    let ghost keys = hits@.map_values(|h: ImpactHit| h.repo@);
    let mut n: usize = 0;
    let mut i: usize = 0;
    assert(keys.take(0).to_set() =~= Set::<Seq<char>>::empty());
    while i < hits.len()
        invariant
            i <= hits@.len(),
            keys == hits@.map_values(|h: ImpactHit| h.repo@),
            n == keys.take(i as int).to_set().len(),
            n <= i,
        decreases hits@.len() - i,
    {
        let mut seen = false;
        let mut j: usize = 0;
        while j < i
            invariant
                j <= i < hits@.len(),
                keys == hits@.map_values(|h: ImpactHit| h.repo@),
                seen == (exists|q: int| 0 <= q < j && keys[q] == keys[i as int]),
            decreases i - j,
        {
            assert(keys[j as int] == hits@[j as int].repo@);
            assert(keys[i as int] == hits@[i as int].repo@);
            if compare_str(hits[j].repo.as_str(), hits[i].repo.as_str()) == 0 {
                seen = true;
            }
            j = j + 1;
        }
        proof {
            assert(keys.take(i + 1) =~= keys.take(i as int).push(keys[i as int]));
            keys.take(i as int).lemma_push_to_set_commute(keys[i as int]);
            if seen {
                let q = choose|q: int| 0 <= q < i && keys[q] == keys[i as int];
                assert(keys.take(i as int)[q] == keys[i as int]);
                assert(keys.take(i as int).to_set().contains(keys[i as int]));
            } else {
                assert(!keys.take(i as int).to_set().contains(keys[i as int]));
            }
        }
        if !seen {
            n = n + 1;
        }
        i = i + 1;
    }
    assert(keys.take(hits@.len() as int) =~= keys);
    n
}

/// The number of hits passing prop `p`.
pub open spec fn prop_count(hits: Seq<ImpactHit>, p: Seq<char>) -> nat
    decreases hits.len(),
{
    if hits.len() == 0 {
        0
    } else {
        prop_count(hits.drop_last(), p) + if hits.last().jsx_props.view_set().contains(p) {
            1nat
        } else {
            0nat
        }
    }
}

/// Every prop passed by some hit.
pub open spec fn all_props(hits: Seq<ImpactHit>) -> Set<Seq<char>> {
    Set::new(
        |p: Seq<char>| exists|i: int| 0 <= i < hits.len() && (#[trigger] hits[i]).jsx_props.view_set().contains(p),
    )
}

/// Prop frequencies rank by count, most frequent first.
impl Ranked for (String, usize) {
    open spec fn before(&self, other: &Self) -> bool {
        self.1 > other.1
    }

    fn before_exec(&self, other: &Self) -> (b: bool) {
        self.1 > other.1
    }
}

/// Every hit's prop set is well formed.
pub open spec fn props_wf(hits: Seq<ImpactHit>) -> bool {
    forall|i: int| 0 <= i < hits.len() ==> (#[trigger] hits[i]).jsx_props.wf()
}

proof fn lemma_prop_count_bound(hits: Seq<ImpactHit>, p: Seq<char>)
    ensures
        prop_count(hits, p) <= hits.len(),
        prop_count(hits, p) > 0 ==> all_props(hits).contains(p),
    decreases hits.len(),
{
    if hits.len() > 0 {
        lemma_prop_count_bound(hits.drop_last(), p);
        if prop_count(hits.drop_last(), p) > 0 {
            let i = choose|i: int| 0 <= i < hits.drop_last().len() && (#[trigger] hits.drop_last()[i]).jsx_props.view_set().contains(p);
            assert(hits[i] == hits.drop_last()[i]);
        }
        if hits.last().jsx_props.view_set().contains(p) {
            assert(hits[hits.len() - 1] == hits.last());
        }
    }
}

/// `r` holds (prop, number of sites passing it) for every prop the hits
/// pass, most frequent first, props of equal frequency in ascending order.
pub open spec fn prop_table(r: Seq<(String, usize)>, hits: Seq<ImpactHit>) -> bool {
    exists|pre: Seq<(String, usize)>|
        pre.map_values(|e: (String, usize)| e.0@) == ascending(all_props(hits)) && (forall|i: int|
            0 <= i < pre.len() ==> (#[trigger] pre[i]).1 == prop_count(hits, pre[i].0@)) && r == sort_stable_spec(pre)
}

/// (prop, number of sites passing it) for every prop the hits pass, most
/// frequent first, props of equal frequency in ascending order.
pub fn prop_counts(hits: &Vec<ImpactHit>) -> (r: Vec<(String, usize)>)
    requires
        props_wf(hits@),
    ensures
        prop_table(r@, hits@),
{
    let n = hits.len();
    let mut counts: StrMap<usize> = StrMap::new();
    assert(counts.view_map().dom() =~= all_props(hits@.take(0)));
    let mut i: usize = 0;
    while i < hits.len()
        invariant
            i <= hits@.len(),
            n == hits@.len(),
            props_wf(hits@),
            counts.wf(),
            counts.view_map().dom() == all_props(hits@.take(i as int)),
            forall|p: Seq<char>| #[trigger] counts.view_map().contains_key(p) ==> counts.view_map()[p] == prop_count(
                hits@.take(i as int),
                p,
            ),
        decreases hits@.len() - i,
    {
        let ghost t = hits@.take(i as int);
        let ghost t1 = hits@.take(i + 1);
        proof {
            assert(t1.drop_last() =~= t);
            assert(t1.last() == hits@[i as int]);
        }
        let props = hits[i].jsx_props.to_vec();
        let ghost h = hits@[i as int];
        proof {
            assert(h.jsx_props.wf());
            h.jsx_props.lemma_members_ascending();
            h.jsx_props.lemma_members_are_set();
        }
        let ghost pv = views(props@);
        let mut j: usize = 0;
        while j < props.len()
            invariant
                i < hits@.len(),
                n == hits@.len(),
                h == hits@[i as int],
                t == hits@.take(i as int),
                t1 == hits@.take(i + 1),
                t1.drop_last() == t,
                t1.last() == h,
                pv == views(props@),
                pv == h.jsx_props.members(),
                crate::strmap::strictly_sorted(pv),
                forall|p: Seq<char>| h.jsx_props.view_set().contains(p) <==> pv.contains(p),
                j <= props@.len(),
                counts.wf(),
                counts.view_map().dom() == all_props(t).union(pv.take(j as int).to_set()),
                forall|p: Seq<char>| #[trigger] counts.view_map().contains_key(p) ==> counts.view_map()[p] == prop_count(t, p)
                    + if pv.take(j as int).contains(p) {
                    1nat
                } else {
                    0nat
                },
            decreases props@.len() - j,
        {
            let key = copy_string(&props[j]);
            let ghost k = key@;
            proof {
                lemma_prop_count_bound(t, k);
                assert(!pv.take(j as int).contains(k)) by {
                    if pv.take(j as int).contains(k) {
                        let q = choose|q: int| 0 <= q < j && pv.take(j as int)[q] == k;
                        assert(seq_lt(pv[q], pv[j as int]));
                        crate::order::lemma_lt_irreflexive(k);
                    }
                }
            }
            let c: usize = match counts.get(&key) {
                Some(v) => *v,
                None => 0,
            };
            proof {
                if !counts.view_map().contains_key(k) {
                    assert(!all_props(t).contains(k));
                    if prop_count(t, k) > 0 {
                        lemma_prop_count_bound(t, k);
                    }
                }
            }
            let ghost old_map = counts.view_map();
            counts.insert(key, c + 1);
            proof {
                assert(pv.take(j + 1) =~= pv.take(j as int).push(k));
                assert forall|p: Seq<char>| #[trigger] counts.view_map().contains_key(p) implies counts.view_map()[p]
                    == prop_count(t, p) + if pv.take(j + 1).contains(p) {
                    1nat
                } else {
                    0nat
                } by {
                    if p != k {
                        let a = pv.take(j + 1);
                        let b = pv.take(j as int);
                        assert(a.contains(p) == b.contains(p)) by {
                            if a.contains(p) {
                                let q = choose|q: int| 0 <= q < a.len() && a[q] == p;
                                assert(b[q] == p);
                            }
                            if b.contains(p) {
                                let q = choose|q: int| 0 <= q < b.len() && b[q] == p;
                                assert(a[q] == p);
                            }
                        }
                    } else {
                        assert(pv.take(j + 1)[j as int] == k);
                    }
                }
                pv.take(j as int).lemma_push_to_set_commute(k);
                assert(counts.view_map().dom() =~= all_props(t).union(pv.take(j + 1).to_set()));
            }
            j = j + 1;
        }
        proof {
            assert(pv.take(props@.len() as int) =~= pv);
            assert(counts.view_map().dom() =~= all_props(t1)) by {
                assert forall|p: Seq<char>| all_props(t1).contains(p) implies counts.view_map().dom().contains(p) by {
                    let q = choose|q: int| 0 <= q < t1.len() && (#[trigger] t1[q]).jsx_props.view_set().contains(p);
                    if q < i {
                        assert(t[q] == t1[q]);
                    } else {
                        assert(pv.contains(p));
                        assert(pv.to_set().contains(p));
                    }
                }
                assert forall|p: Seq<char>| counts.view_map().dom().contains(p) implies all_props(t1).contains(p) by {
                    if all_props(t).contains(p) {
                        let q = choose|q: int| 0 <= q < t.len() && (#[trigger] t[q]).jsx_props.view_set().contains(p);
                        assert(t1[q] == t[q]);
                    } else {
                        assert(pv.to_set().contains(p));
                        assert(pv.contains(p));
                        assert(t1[i as int] == h);
                    }
                }
            }
            assert forall|p: Seq<char>| #[trigger] counts.view_map().contains_key(p) implies counts.view_map()[p]
                == prop_count(t1, p) by {
                assert(h.jsx_props.view_set().contains(p) <==> pv.contains(p));
            }
        }
        i = i + 1;
    }
    assert(hits@.take(hits@.len() as int) =~= hits@);
    let mut pre: Vec<(String, usize)> = Vec::new();
    let mut k: usize = 0;
    while k < counts.entries.len()
        invariant
            counts.wf(),
            k <= counts.entries@.len(),
            pre@.len() == k,
            forall|q: int| 0 <= q < k ==> (#[trigger] pre@[q]).0@ == counts.key_at(q) && pre@[q].1 == prop_count(
                hits@,
                counts.key_at(q),
            ),
            counts.view_map().dom() == all_props(hits@),
            forall|p: Seq<char>| #[trigger] counts.view_map().contains_key(p) ==> counts.view_map()[p] == prop_count(
                hits@,
                p,
            ),
        decreases counts.entries@.len() - k,
    {
        proof {
            counts.lemma_wf_idx(k as int);
            assert(counts.view_map().contains_key(counts.key_at(k as int)));
            assert(counts.view_map()[counts.key_at(k as int)] == counts.entries@[k as int].1);
        }
        pre.push((copy_string(&counts.entries[k].0), counts.entries[k].1));
        k = k + 1;
    }
    proof {
        let names = pre@.map_values(|e: (String, usize)| e.0@);
        assert(names =~= keys_of(counts.entries@));
        assert forall|p: Seq<char>| names.to_set().contains(p) == all_props(hits@).contains(p) by {
            if names.to_set().contains(p) {
                let q = choose|q: int| 0 <= q < names.len() && names[q] == p;
                counts.lemma_wf_idx(q);
            }
            if all_props(hits@).contains(p) {
                assert(counts.has(p));
                let q = choose|q: int| 0 <= q < counts.entries@.len() && counts.key_at(q) == p;
                assert(names[q] == p);
            }
        }
        assert(names.to_set() =~= all_props(hits@));
        crate::strmap::lemma_ascending(names);
    }
    let ghost pv = pre@;
    let r = sorted_stable(pre);
    assert(pv.map_values(|e: (String, usize)| e.0@) == ascending(all_props(hits@)) && (forall|i: int|
        0 <= i < pv.len() ==> (#[trigger] pv[i]).1 == prop_count(hits@, pv[i].0@)) && r@ == sort_stable_spec(pv));
    r
}

/// The hits whose component `k` defines, in order.
pub open spec fn hits_with(hits: Seq<ImpactHit>, repos: Seq<Repo>, k: Seq<char>) -> Seq<ImpactHit>
    decreases hits.len(),
{
    if hits.len() == 0 {
        seq![]
    } else {
        let prev = hits_with(hits.drop_last(), repos, k);
        if defining_repo(hits.last(), repos) == k {
            prev.push(hits.last())
        } else {
            prev
        }
    }
}

/// The repos defining the components behind the hits.
pub open spec fn defining_repos(hits: Seq<ImpactHit>, repos: Seq<Repo>) -> Set<Seq<char>> {
    hits.map_values(|h: ImpactHit| defining_repo(h, repos)).to_set()
}

/// Groups rank by size, largest first, then by defining repo name.
pub open spec fn group_lt(hits: Seq<ImpactHit>, repos: Seq<Repo>, a: Seq<char>, b: Seq<char>) -> bool {
    let ca = hits_with(hits, repos, a).len();
    let cb = hits_with(hits, repos, b).len();
    ca > cb || (ca == cb && seq_lt(a, b))
}

/// `ks` lists the defining repos of the hits, in rank order.
pub open spec fn ranked_keys(hits: Seq<ImpactHit>, repos: Seq<Repo>, ks: Seq<Seq<char>>) -> bool {
    &&& ks.to_set() == defining_repos(hits, repos)
    &&& forall|i: int, j: int| 0 <= i < j < ks.len() ==> group_lt(hits, repos, #[trigger] ks[i], #[trigger] ks[j])
}

/// `g` reports the look-alike component defined in `k`, whose sites are `group`.
pub open spec fn same_name_of(g: SameNameGroup, k: Seq<char>, group: Seq<ImpactHit>) -> bool {
    &&& g.repo@ == k
    &&& g.sites == group.len()
    &&& is_most_common(group.map_values(|h: ImpactHit| h.source@), g.from_hint@)
}

/// The hits of one defining repo, while grouping.
struct HitGroup {
    key: String,
    hits: Vec<ImpactHit>,
}

/// The keys of some groups.
spec fn group_keys(gs: Seq<HitGroup>) -> Seq<Seq<char>> {
    gs.map_values(|g: HitGroup| g.key@)
}

proof fn lemma_hits_with_push(hits: Seq<ImpactHit>, repos: Seq<Repo>, x: ImpactHit, k: Seq<char>)
    ensures
        hits_with(hits.push(x), repos, k) == if defining_repo(x, repos) == k {
            hits_with(hits, repos, k).push(x)
        } else {
            hits_with(hits, repos, k)
        },
{
    assert(hits.push(x).drop_last() =~= hits);
}

proof fn lemma_hits_with_absent(hits: Seq<ImpactHit>, repos: Seq<Repo>, k: Seq<char>)
    requires
        !defining_repos(hits, repos).contains(k),
    ensures
        hits_with(hits, repos, k).len() == 0,
    decreases hits.len(),
{
    if hits.len() > 0 {
        let m = hits.map_values(|h: ImpactHit| defining_repo(h, repos));
        assert(hits.drop_last().map_values(|h: ImpactHit| defining_repo(h, repos)) =~= m.drop_last());
        assert forall|x: Seq<char>| m.drop_last().to_set().contains(x) implies m.to_set().contains(x) by {
            let q = choose|q: int| 0 <= q < m.drop_last().len() && m.drop_last()[q] == x;
            assert(m[q] == x);
        }
        lemma_hits_with_absent(hits.drop_last(), repos, k);
        assert(m[hits.len() - 1] == defining_repo(hits.last(), repos));
    }
}

/// `own` and `groups` split the hits by defining repo, for some ranking
/// `ks` of the defining repos: `own` is the first group's hits, and each
/// later group is reported as a look-alike.
pub open spec fn split_spec(
    hits: Seq<ImpactHit>,
    repos: Seq<Repo>,
    own: Seq<ImpactHit>,
    groups: Seq<SameNameGroup>,
) -> bool {
    exists|ks: Seq<Seq<char>>|
        ranked_keys(hits, repos, ks) && (ks.len() == 0 ==> own.len() == 0 && groups.len() == 0) && (ks.len() > 0
            ==> own == hits_with(hits, repos, ks[0]) && groups.len() == ks.len() - 1 && forall|i: int|
            0 <= i < groups.len() ==> same_name_of(#[trigger] groups[i], ks[i + 1], hits_with(hits, repos, ks[i + 1])))
}

/// Splits the hits by the repo defining the imported component: the largest
/// group (ties to the smaller repo name) is the pack's own; every other
/// group is a same-name look-alike, reported with its most common source
/// as the filter that repacks it.
pub fn split_same_name(hits: Vec<ImpactHit>, repos: &Vec<Repo>) -> (r: (Vec<ImpactHit>, Vec<SameNameGroup>))
    ensures
        split_spec(hits@, repos@, r.0@, r.1@),
{
    broadcast use vstd::seq_lib::group_to_multiset_ensures;

    let ghost hv = hits@;
    let ghost rv = repos@;
    let mut groups: Vec<HitGroup> = Vec::new();
    let total = hits.len();
    let mut idx: usize = 0;
    for h in it: hits
        invariant
            hv == it.seq(),
            rv == repos@,
            idx == it.index(),
            total == hv.len(),
            idx <= total,
            forall|g: int| 0 <= g < groups@.len() ==> (#[trigger] groups@[g]).hits@ == hits_with(hv.take(idx as int), rv, groups@[g].key@),
            forall|g: int, q: int| 0 <= g < q < groups@.len() ==> (#[trigger] groups@[g]).key@ != (#[trigger] groups@[q]).key@,
            group_keys(groups@).to_set() == defining_repos(hv.take(idx as int), rv),
    {
        let ghost t = hv.take(idx as int);
        proof {
            assert(hv.take(idx + 1) =~= t.push(h));
        }
        let key = defining_repo_name(&h, repos);
        let mut found: Option<usize> = None;
        let mut g: usize = 0;
        while g < groups.len()
            invariant
                g <= groups@.len(),
                found is None ==> forall|q: int| 0 <= q < g ==> (#[trigger] groups@[q]).key@ != key@,
                found matches Some(f) ==> f < groups@.len() && groups@[f as int].key@ == key@,
            decreases groups@.len() - g,
        {
            if found.is_none() && compare_str(groups[g].key.as_str(), key.as_str()) == 0 {
                found = Some(g);
            }
            g = g + 1;
        }
        let ghost old_groups = groups@;
        proof {
            let m = t.map_values(|h: ImpactHit| defining_repo(h, rv));
            let m1 = hv.take(idx + 1).map_values(|h: ImpactHit| defining_repo(h, rv));
            assert(m1 =~= m.push(key@));
            m.lemma_push_to_set_commute(key@);
        }
        match found {
            Some(f) => {
                let mut grp = groups.remove(f);
                proof {
                    assert(grp == old_groups[f as int]);
                }
                grp.hits.push(h);
                groups.insert(f, grp);
                proof {
                    assert forall|q: int| 0 <= q < groups@.len() implies (#[trigger] groups@[q]).hits@ == hits_with(
                        hv.take(idx + 1),
                        rv,
                        groups@[q].key@,
                    ) by {
                        lemma_hits_with_push(t, rv, h, groups@[q].key@);
                        if q != f {
                            assert(groups@[q] == old_groups[q]);
                        }
                    }
                    assert(group_keys(groups@) =~= group_keys(old_groups));
                    assert(group_keys(old_groups)[f as int] == key@);
                    assert(group_keys(groups@).to_set() =~= defining_repos(hv.take(idx + 1), rv));
                    assert forall|a: int, b: int| 0 <= a < b < groups@.len() implies (#[trigger] groups@[a]).key@
                        != (#[trigger] groups@[b]).key@ by {
                        assert(groups@[a].key@ == old_groups[a].key@);
                        assert(groups@[b].key@ == old_groups[b].key@);
                    }
                }
            },
            None => {
                proof {
                    let m = t.map_values(|h: ImpactHit| defining_repo(h, rv));
                    assert(!m.to_set().contains(key@)) by {
                        if m.to_set().contains(key@) {
                            assert(group_keys(old_groups).to_set().contains(key@));
                            let ok = group_keys(old_groups);
                            let q = choose|q: int| 0 <= q < ok.len() && ok[q] == key@;
                            assert(old_groups[q].key@ == key@);
                        }
                    }
                    lemma_hits_with_absent(t, rv, key@);
                    lemma_hits_with_push(t, rv, h, key@);
                }
                let kc = copy_string(&key);
                let mut hs: Vec<ImpactHit> = Vec::new();
                hs.push(h);
                groups.push(HitGroup { key: kc, hits: hs });
                proof {
                    assert forall|q: int| 0 <= q < groups@.len() implies (#[trigger] groups@[q]).hits@ == hits_with(
                        hv.take(idx + 1),
                        rv,
                        groups@[q].key@,
                    ) by {
                        lemma_hits_with_push(t, rv, h, groups@[q].key@);
                        if q < old_groups.len() {
                            assert(groups@[q] == old_groups[q]);
                        } else {
                            assert(hits_with(t, rv, key@) =~= Seq::<ImpactHit>::empty());
                            assert(groups@[q].hits@ =~= seq![h]);
                        }
                    }
                    assert(group_keys(groups@) =~= group_keys(old_groups).push(key@));
                    group_keys(old_groups).lemma_push_to_set_commute(key@);
                    assert forall|a: int, b: int| 0 <= a < b < groups@.len() implies (#[trigger] groups@[a]).key@
                        != (#[trigger] groups@[b]).key@ by {
                        if b == old_groups.len() {
                            assert(groups@[a] == old_groups[a]);
                        } else {
                            assert(groups@[a] == old_groups[a]);
                            assert(groups@[b] == old_groups[b]);
                        }
                    }
                }
            },
        }
        idx = idx + 1;
    }
    assert(hv.take(hv.len() as int) =~= hv);
    // rank the groups: largest first, then by name
    let ghost gs = groups@;
    let mut ranked: Vec<HitGroup> = Vec::new();
    for g in it2: groups
        invariant
            gs == it2.seq(),
            forall|q: int| 0 <= q < gs.len() ==> (#[trigger] gs[q]).hits@ == hits_with(hv, rv, gs[q].key@),
            forall|a: int, b: int| 0 <= a < b < gs.len() ==> (#[trigger] gs[a]).key@ != (#[trigger] gs[b]).key@,
            group_keys(ranked@).to_multiset() == group_keys(gs.take(it2.index() as int)).to_multiset(),
            forall|q: int| 0 <= q < ranked@.len() ==> (#[trigger] ranked@[q]).hits@ == hits_with(hv, rv, ranked@[q].key@),
            forall|a: int, b: int| 0 <= a < b < ranked@.len() ==> group_lt(hv, rv, (#[trigger] ranked@[a]).key@, (#[trigger] ranked@[b]).key@),
    {
        let ghost k = it2.index();
        assert(g == gs[k as int]);
        let n = g.hits.len();
        let mut p: usize = 0;
        while p < ranked.len() && !(n > ranked[p].hits.len() || (n == ranked[p].hits.len() && compare_str(
            g.key.as_str(),
            ranked[p].key.as_str(),
        ) < 0))
            invariant
                p <= ranked@.len(),
                n == g.hits@.len(),
                g.hits@ == hits_with(hv, rv, g.key@),
                forall|q: int| 0 <= q < ranked@.len() ==> (#[trigger] ranked@[q]).hits@ == hits_with(hv, rv, ranked@[q].key@),
                forall|q: int| 0 <= q < p ==> !group_lt(hv, rv, g.key@, (#[trigger] ranked@[q]).key@),
            decreases ranked@.len() - p,
        {
            p = p + 1;
        }
        let ghost old_r = ranked@;
        proof {
            assert(gs.take(k + 1) =~= gs.take(k as int).push(g));
            assert(g == gs[k as int]);
        }
        ranked.insert(p, g);
        proof {
            assert(group_keys(ranked@) =~= group_keys(old_r).insert(p as int, g.key@));
            vstd::seq_lib::to_multiset_insert(group_keys(old_r), p as int, g.key@);
            assert(group_keys(gs.take(k + 1)) =~= group_keys(gs.take(k as int)).push(g.key@));
            vstd::seq_lib::to_multiset_build(group_keys(gs.take(k as int)), g.key@);
            assert(group_keys(ranked@).to_multiset() == group_keys(old_r).to_multiset().insert(g.key@));
            // g's key differs from every key already ranked
            assert forall|q: int| 0 <= q < old_r.len() implies (#[trigger] old_r[q]).key@ != g.key@ by {
                let key = old_r[q].key@;
                assert(group_keys(old_r)[q] == key);
                assert(group_keys(old_r).contains(key));
                vstd::seq_lib::to_multiset_contains(group_keys(old_r), key);
                vstd::seq_lib::to_multiset_contains(group_keys(gs.take(k as int)), key);
                assert(group_keys(gs.take(k as int)).contains(key));
                let gk = group_keys(gs.take(k as int));
                let j = choose|j: int| 0 <= j < gk.len() && gk[j] == key;
                assert(gs[j].key@ == key);
            }
            assert forall|a: int, b: int| 0 <= a < b < ranked@.len() implies group_lt(
                hv,
                rv,
                (#[trigger] ranked@[a]).key@,
                (#[trigger] ranked@[b]).key@,
            ) by {
                if a < p && b == p {
                    let x = old_r[a].key@;
                    crate::order::lemma_lt_trichotomy(x, g.key@);
                } else if a == p && b > p {
                    let y = old_r[b - 1].key@;
                    if b - 1 > p {
                        assert(group_lt(hv, rv, old_r[p as int].key@, y));
                        crate::order::lemma_lt_trichotomy(g.key@, old_r[p as int].key@);
                        if seq_lt(g.key@, old_r[p as int].key@) && seq_lt(old_r[p as int].key@, y) {
                            crate::order::lemma_lt_transitive(g.key@, old_r[p as int].key@, y);
                        }
                    }
                } else if a < p && b > p {
                    assert(ranked@[a] == old_r[a]);
                    assert(ranked@[b] == old_r[b - 1]);
                } else if b < p {
                    assert(ranked@[a] == old_r[a]);
                    assert(ranked@[b] == old_r[b]);
                } else {
                    assert(ranked@[a] == old_r[a - 1]);
                    assert(ranked@[b] == old_r[b - 1]);
                }
            }
        }
    }
    let ghost ks = group_keys(ranked@);
    proof {
        assert(gs.take(gs.len() as int) =~= gs);
        assert forall|x: Seq<char>| ks.to_set().contains(x) == group_keys(gs).to_set().contains(x) by {
            assert(ks.to_set().contains(x) == (ks.to_multiset().count(x) > 0));
            assert(group_keys(gs).to_set().contains(x) == (group_keys(gs).to_multiset().count(x) > 0));
        }
        assert(ks.to_set() =~= defining_repos(hv, rv));
        assert forall|i: int, j: int| 0 <= i < j < ks.len() implies group_lt(hv, rv, #[trigger] ks[i], #[trigger] ks[j]) by {
            assert(ks[i] == ranked@[i].key@ && ks[j] == ranked@[j].key@);
        }
    }
    let mut same: Vec<SameNameGroup> = Vec::new();
    let mut own: Vec<ImpactHit> = Vec::new();
    let ghost rg = ranked@;
    let mut pos: usize = 0;
    let total_r = ranked.len();
    for g in it3: ranked
        invariant
            rg == it3.seq(),
            pos == it3.index(),
            total_r == rg.len(),
            pos <= total_r,
            ks.to_set() == defining_repos(hv, rv),
            ranked_keys(hv, rv, ks),
            ks == group_keys(rg),
            forall|q: int| 0 <= q < rg.len() ==> (#[trigger] rg[q]).hits@ == hits_with(hv, rv, rg[q].key@),
            pos == 0 ==> own@.len() == 0 && same@.len() == 0,
            pos > 0 ==> own@ == hits_with(hv, rv, ks[0]) && same@.len() == pos - 1,
            forall|i: int| 0 <= i < same@.len() ==> same_name_of(#[trigger] same@[i], ks[i + 1], hits_with(hv, rv, ks[i + 1])),
    {
        proof {
            assert(g == rg[pos as int]);
        }
        if pos == 0 {
            own = g.hits;
        } else {
            let mut sources: Vec<String> = Vec::new();
            let mut j: usize = 0;
            while j < g.hits.len()
                invariant
                    j <= g.hits@.len(),
                    views(sources@) == g.hits@.take(j as int).map_values(|h: ImpactHit| h.source@),
                decreases g.hits@.len() - j,
            {
                let ghost before = views(sources@);
                sources.push(copy_string(&g.hits[j].source));
                assert(views(sources@) =~= before.push(g.hits@[j as int].source@));
                assert(g.hits@.take(j + 1).map_values(|h: ImpactHit| h.source@) =~= g.hits@.take(j as int).map_values(
                    |h: ImpactHit| h.source@,
                ).push(g.hits@[j as int].source@));
                j = j + 1;
            }
            assert(g.hits@.take(g.hits@.len() as int) =~= g.hits@);
            let hint = match most_common(&sources) {
                Some(s) => s,
                None => String::new(),
            };
            proof {
                if g.hits@.len() == 0 {
                    assert(ks.to_set().contains(ks[pos as int]));
                    assert(defining_repos(hv, rv).contains(g.key@));
                    let m = hv.map_values(|h: ImpactHit| defining_repo(h, rv));
                    let q = choose|q: int| 0 <= q < m.len() && m[q] == g.key@;
                    lemma_hits_with_member(hv, rv, q);
                }
            }
            let ghost before = same@;
            same.push(SameNameGroup { repo: g.key, sites: g.hits.len(), from_hint: hint });
            proof {
                assert forall|i: int| 0 <= i < same@.len() implies same_name_of(
                    #[trigger] same@[i],
                    ks[i + 1],
                    hits_with(hv, rv, ks[i + 1]),
                ) by {
                    if i < before.len() {
                        assert(same@[i] == before[i]);
                    }
                }
            }
        }
        pos = pos + 1;
    }
    assert(ranked_keys(hv, rv, ks));
    assert(ranked_keys(hv, rv, ks) && (ks.len() == 0 ==> own@.len() == 0 && same@.len() == 0) && (ks.len() > 0
        ==> own@ == hits_with(hv, rv, ks[0]) && same@.len() == ks.len() - 1 && forall|i: int|
        0 <= i < same@.len() ==> same_name_of(#[trigger] same@[i], ks[i + 1], hits_with(hv, rv, ks[i + 1]))));
    (own, same)
}

/// A hit whose component `k` defines is among `hits_with(.., k)`.
proof fn lemma_hits_with_member(hits: Seq<ImpactHit>, repos: Seq<Repo>, q: int)
    requires
        0 <= q < hits.len(),
    ensures
        hits_with(hits, repos, defining_repo(hits[q], repos)).len() > 0,
    decreases hits.len(),
{
    let k = defining_repo(hits[q], repos);
    if q == hits.len() - 1 {
        assert(hits.last() == hits[q]);
    } else {
        assert(hits.drop_last()[q] == hits[q]);
        lemma_hits_with_member(hits.drop_last(), repos, q);
    }
}

/// The hits gathered for a defining repo all import that repo's component:
/// look-alike components never mix into one group.
pub proof fn law_group_is_one_component(hits: Seq<ImpactHit>, repos: Seq<Repo>, k: Seq<char>)
    ensures
        forall|i: int| 0 <= i < hits_with(hits, repos, k).len() ==> defining_repo(#[trigger] hits_with(hits, repos, k)[i], repos) == k,
    decreases hits.len(),
{
    if hits.len() > 0 {
        law_group_is_one_component(hits.drop_last(), repos, k);
        let prev = hits_with(hits.drop_last(), repos, k);
        let g = hits_with(hits, repos, k);
        assert forall|i: int| 0 <= i < g.len() implies defining_repo(#[trigger] g[i], repos) == k by {
            if i < prev.len() {
                assert(g[i] == prev[i]);
            }
        }
    }
}

/// The sites of some look-alike groups, added up.
pub open spec fn group_sites(gs: Seq<SameNameGroup>) -> int
    decreases gs.len(),
{
    if gs.len() == 0 {
        0
    } else {
        gs[0].sites + group_sites(gs.drop_first())
    }
}

/// The hits of some defining repos, counted.
spec fn group_total(hits: Seq<ImpactHit>, repos: Seq<Repo>, ks: Seq<Seq<char>>) -> int
    decreases ks.len(),
{
    if ks.len() == 0 {
        0
    } else {
        hits_with(hits, repos, ks[0]).len() + group_total(hits, repos, ks.drop_first())
    }
}

proof fn lemma_group_total_empty(repos: Seq<Repo>, ks: Seq<Seq<char>>)
    ensures
        group_total(seq![], repos, ks) == 0,
    decreases ks.len(),
{
    if ks.len() > 0 {
        lemma_group_total_empty(repos, ks.drop_first());
    }
}

/// One more hit counts once, in the group of its defining repo.
proof fn lemma_group_total_push(hits: Seq<ImpactHit>, repos: Seq<Repo>, x: ImpactHit, ks: Seq<Seq<char>>)
    requires
        ks.no_duplicates(),
    ensures
        group_total(hits.push(x), repos, ks) == group_total(hits, repos, ks) + if ks.contains(defining_repo(x, repos)) {
            1int
        } else {
            0int
        },
    decreases ks.len(),
{
    if ks.len() > 0 {
        let rest = ks.drop_first();
        assert(rest.no_duplicates()) by {
            assert forall|i: int, j: int| 0 <= i < rest.len() && 0 <= j < rest.len() && i != j implies rest[i] != rest[j] by {
                assert(rest[i] == ks[i + 1] && rest[j] == ks[j + 1]);
            }
        }
        lemma_group_total_push(hits, repos, x, rest);
        lemma_hits_with_push(hits, repos, x, ks[0]);
        let d = defining_repo(x, repos);
        if ks[0] == d {
            assert(!rest.contains(d)) by {
                if rest.contains(d) {
                    let j = choose|j: int| 0 <= j < rest.len() && rest[j] == d;
                    assert(ks[j + 1] == ks[0]);
                }
            }
            assert(ks.contains(d)) by {
                assert(ks[0] == d);
            }
        } else {
            assert(ks.contains(d) == rest.contains(d)) by {
                if ks.contains(d) {
                    let j = choose|j: int| 0 <= j < ks.len() && ks[j] == d;
                    assert(rest[j - 1] == d);
                }
                if rest.contains(d) {
                    let j = choose|j: int| 0 <= j < rest.len() && rest[j] == d;
                    assert(ks[j + 1] == d);
                }
            }
        }
    }
}

/// Distinct repos covering every defining repo count every hit once.
proof fn lemma_group_total_covers(hits: Seq<ImpactHit>, repos: Seq<Repo>, ks: Seq<Seq<char>>)
    requires
        ks.no_duplicates(),
        defining_repos(hits, repos).subset_of(ks.to_set()),
    ensures
        group_total(hits, repos, ks) == hits.len(),
    decreases hits.len(),
{
    if hits.len() == 0 {
        assert(hits =~= Seq::<ImpactHit>::empty());
        lemma_group_total_empty(repos, ks);
    } else {
        let h0 = hits.drop_last();
        let x = hits.last();
        let m = hits.map_values(|h: ImpactHit| defining_repo(h, repos));
        assert(h0.map_values(|h: ImpactHit| defining_repo(h, repos)) =~= m.drop_last());
        assert forall|y: Seq<char>| defining_repos(h0, repos).contains(y) implies ks.to_set().contains(y) by {
            let q = choose|q: int| 0 <= q < m.drop_last().len() && m.drop_last()[q] == y;
            assert(m[q] == y);
            assert(defining_repos(hits, repos).contains(y));
        }
        lemma_group_total_covers(h0, repos, ks);
        assert(m[hits.len() - 1] == defining_repo(x, repos));
        assert(defining_repos(hits, repos).contains(defining_repo(x, repos)));
        assert(ks.contains(defining_repo(x, repos)));
        assert(h0.push(x) =~= hits);
        lemma_group_total_push(h0, repos, x, ks);
    }
}

proof fn lemma_group_sites_total(gs: Seq<SameNameGroup>, hits: Seq<ImpactHit>, repos: Seq<Repo>, ks: Seq<Seq<char>>)
    requires
        gs.len() == ks.len(),
        forall|i: int| 0 <= i < gs.len() ==> (#[trigger] gs[i]).sites == hits_with(hits, repos, ks[i]).len(),
    ensures
        group_sites(gs) == group_total(hits, repos, ks),
    decreases gs.len(),
{
    if gs.len() > 0 {
        assert forall|i: int| 0 <= i < gs.drop_first().len() implies (#[trigger] gs.drop_first()[i]).sites == hits_with(
            hits,
            repos,
            ks.drop_first()[i],
        ).len() by {
            assert(gs.drop_first()[i] == gs[i + 1]);
            assert(ks.drop_first()[i] == ks[i + 1]);
        }
        lemma_group_sites_total(gs.drop_first(), hits, repos, ks.drop_first());
        assert(gs[0].sites == hits_with(hits, repos, ks[0]).len());
    }
}

/// Splitting loses no hit, and the pack keeps the largest group: the
/// pack's sites and the look-alike groups' sites add up to all the hits,
/// and no look-alike group has more sites than the pack.
pub proof fn law_split_accounts_for_every_hit(
    hits: Seq<ImpactHit>,
    repos: Seq<Repo>,
    own: Seq<ImpactHit>,
    groups: Seq<SameNameGroup>,
)
    requires
        split_spec(hits, repos, own, groups),
    ensures
        own.len() + group_sites(groups) == hits.len(),
        forall|i: int| 0 <= i < groups.len() ==> (#[trigger] groups[i]).sites <= own.len(),
{
    let ks = choose|ks: Seq<Seq<char>>|
        ranked_keys(hits, repos, ks) && (ks.len() == 0 ==> own.len() == 0 && groups.len() == 0) && (ks.len() > 0
            ==> own == hits_with(hits, repos, ks[0]) && groups.len() == ks.len() - 1 && forall|i: int|
            0 <= i < groups.len() ==> same_name_of(#[trigger] groups[i], ks[i + 1], hits_with(hits, repos, ks[i + 1])));
    assert(ks.no_duplicates()) by {
        assert forall|i: int, j: int| 0 <= i < ks.len() && 0 <= j < ks.len() && i != j implies ks[i] != ks[j] by {
            if i < j {
                assert(group_lt(hits, repos, ks[i], ks[j]));
            } else {
                assert(group_lt(hits, repos, ks[j], ks[i]));
            }
            crate::order::lemma_lt_irreflexive(ks[i]);
        }
    }
    assert(defining_repos(hits, repos).subset_of(ks.to_set()));
    lemma_group_total_covers(hits, repos, ks);
    if ks.len() == 0 {
        assert(groups =~= Seq::<SameNameGroup>::empty());
    } else {
        lemma_group_sites_total(groups, hits, repos, ks.drop_first());
        assert forall|i: int| 0 <= i < groups.len() implies (#[trigger] groups[i]).sites <= own.len() by {
            assert(group_lt(hits, repos, ks[0], ks[i + 1]));
            assert(ks.drop_first()[i] == ks[i + 1]);
        }
        assert forall|i: int| 0 <= i < groups.len() implies (#[trigger] groups[i]).sites == hits_with(
            hits,
            repos,
            ks.drop_first()[i],
        ).len() by {
            assert(ks.drop_first()[i] == ks[i + 1]);
        }
        lemma_group_sites_total(groups, hits, repos, ks.drop_first());
    }
}

/// The positions, among the first `n` selected sites, that get an excerpt:
/// those whose file could be read and whose anchor line is a real line.
pub open spec fn excerpt_sites(sel: Seq<ImpactHit>, texts: Seq<Option<String>>, n: int) -> Seq<int>
    decreases n,
{
    if n <= 0 {
        seq![]
    } else {
        let prev = excerpt_sites(sel, texts, n - 1);
        if texts[n - 1] is Some && anchor_of(sel[n - 1]) >= 1 {
            prev.push(n - 1)
        } else {
            prev
        }
    }
}

proof fn lemma_excerpt_sites_bound(sel: Seq<ImpactHit>, texts: Seq<Option<String>>, n: int)
    requires
        0 <= n,
    ensures
        excerpt_sites(sel, texts, n).len() <= n,
        forall|k: int| 0 <= k < excerpt_sites(sel, texts, n).len() ==> 0 <= #[trigger] excerpt_sites(sel, texts, n)[k] < n,
    decreases n,
{
    if n > 0 {
        lemma_excerpt_sites_bound(sel, texts, n - 1);
        let prev = excerpt_sites(sel, texts, n - 1);
        assert forall|k: int| 0 <= k < excerpt_sites(sel, texts, n).len() implies 0 <= #[trigger] excerpt_sites(
            sel,
            texts,
            n,
        )[k] < n by {
            if k < prev.len() {
                assert(excerpt_sites(sel, texts, n)[k] == prev[k]);
            }
        }
    }
}

/// The excerpts of the selected sites, in selection order, given what
/// reading each site's file gave: a site whose file could not be read gets
/// none, and neither does one without a real anchor line. There is at
/// most one excerpt per selected site.
pub fn pack_excerpts(selected: &Vec<&ImpactHit>, texts: &Vec<Option<String>>) -> (r: Vec<UsageExcerpt>)
    requires
        selected@.len() == texts@.len(),
    ensures
        ({
            let sel = selected@.map_values(|h: &ImpactHit| *h);
            let idx = excerpt_sites(sel, texts@, sel.len() as int);
            &&& r@.len() == idx.len()
            &&& forall|k: int| 0 <= k < r@.len() ==> excerpt_from(#[trigger] r@[k], sel[idx[k]], texts@[idx[k]]->0@)
        }),
        r@.len() <= selected@.len(),
{
    let ghost sel = selected@.map_values(|h: &ImpactHit| *h);
    let mut out: Vec<UsageExcerpt> = Vec::new();
    let mut i: usize = 0;
    while i < selected.len()
        invariant
            i <= selected@.len(),
            selected@.len() == texts@.len(),
            sel == selected@.map_values(|h: &ImpactHit| *h),
            out@.len() == excerpt_sites(sel, texts@, i as int).len(),
            forall|k: int|
                0 <= k < out@.len() ==> excerpt_from(
                    #[trigger] out@[k],
                    sel[excerpt_sites(sel, texts@, i as int)[k]],
                    texts@[excerpt_sites(sel, texts@, i as int)[k]]->0@,
                ),
        decreases selected@.len() - i,
    {
        let hit: &ImpactHit = selected[i];
        assert(sel[i as int] == *hit);
        let anchor = if hit.jsx_lines.len() > 0 {
            hit.jsx_lines[0]
        } else {
            hit.line
        };
        let ghost prev_idx = excerpt_sites(sel, texts@, i as int);
        let ghost prev = out@;
        match &texts[i] {
            Some(text) => {
                if anchor >= 1 {
                    let e = excerpt_of(hit, text.as_str());
                    out.push(e);
                    proof {
                        let idx = excerpt_sites(sel, texts@, i + 1);
                        assert(idx == prev_idx.push(i as int));
                        assert forall|k: int| 0 <= k < out@.len() implies excerpt_from(
                            #[trigger] out@[k],
                            sel[idx[k]],
                            texts@[idx[k]]->0@,
                        ) by {
                            if k < prev.len() {
                                assert(out@[k] == prev[k]);
                                assert(idx[k] == prev_idx[k]);
                            }
                        }
                    }
                }
            },
            None => {},
        }
        i = i + 1;
    }
    proof {
        lemma_excerpt_sites_bound(sel, texts@, sel.len() as int);
    }
    out
}

/// The context pack of `symbol` from its own hits, the look-alike groups
/// split off, the definition found and the excerpts read: the totals count
/// the hits, their files and their repos, and the prop table is theirs.
pub fn pack_context(
    symbol: &str,
    hits: Vec<ImpactHit>,
    same_name: Vec<SameNameGroup>,
    definition: Option<crate::definition::Definition>,
    excerpts: Vec<UsageExcerpt>,
) -> (p: ContextPack)
    requires
        props_wf(hits@),
    ensures
        p.symbol@ == symbol@,
        p.total_sites == hits@.len(),
        p.total_files == file_set(hits@).len(),
        p.total_repos == hit_repos(hits@).len(),
        prop_table(p.prop_counts@, hits@),
        p.definition == definition,
        p.excerpts == excerpts,
        p.same_name == same_name,
{
    let total_files = count_files(&hits);
    let total_repos = count_hit_repos(&hits);
    let props = prop_counts(&hits);
    ContextPack {
        symbol: crate::text::owned(symbol),
        total_sites: hits.len(),
        total_files,
        total_repos,
        prop_counts: props,
        definition,
        excerpts,
        same_name,
    }
}

} // verus!
