//! Same-name exported components declared in more than one repository:
//! candidates for consolidation into a shared package.
use vstd::prelude::*;
use crate::order::{compare_str, seq_lt};
use crate::sort::{is_ordered, lemma_sort_ordered, strict_weak_on, Ranked, sort_stable_spec, sorted_stable};
use crate::order::{lemma_lt_irreflexive, lemma_lt_transitive, lemma_lt_trichotomy, seq_le};
use crate::strmap::StrSet;
use crate::text::{chars_of, contains_exec, contains_seq, copy_string, ends_with_exec, is_suffix, owned};

verus! {

/// One declaration of an exported name.
pub struct DeclSite {
    pub repo: String,
    /// path relative to the repo root
    pub file: String,
    pub line: usize,
}

/// The declarations of one name across repositories.
pub struct DupeGroup {
    pub name: String,
    pub sites: Vec<DeclSite>,
    pub repo_count: usize,
}

/// One exported name with where it is declared.
pub struct DupeEntry {
    pub name: String,
    pub site: DeclSite,
}

/// (repo, file, line) order.
pub open spec fn decl_lt(a: DeclSite, b: DeclSite) -> bool {
    seq_lt(a.repo@, b.repo@) || (a.repo@ == b.repo@ && (seq_lt(a.file@, b.file@) || (a.file@ == b.file@
        && a.line < b.line)))
}

/// Sites sort by (repo, file, line).
impl Ranked for DeclSite {
    open spec fn before(&self, other: &Self) -> bool {
        decl_lt(*self, *other)
    }

    fn before_exec(&self, other: &Self) -> (b: bool) {
        let c = compare_str(self.repo.as_str(), other.repo.as_str());
        if c != 0 {
            return c < 0;
        }
        let d = compare_str(self.file.as_str(), other.file.as_str());
        if d != 0 {
            return d < 0;
        }
        self.line < other.line
    }
}

/// Entries sort by name.
impl Ranked for DupeEntry {
    open spec fn before(&self, other: &Self) -> bool {
        seq_lt(self.name@, other.name@)
    }

    fn before_exec(&self, other: &Self) -> (b: bool) {
        compare_str(self.name.as_str(), other.name.as_str()) < 0
    }
}

/// Groups sort by the number of repositories, most first, then by name.
impl Ranked for DupeGroup {
    open spec fn before(&self, other: &Self) -> bool {
        self.repo_count > other.repo_count || (self.repo_count == other.repo_count && seq_lt(
            self.name@,
            other.name@,
        ))
    }

    fn before_exec(&self, other: &Self) -> (b: bool) {
        if self.repo_count != other.repo_count {
            return self.repo_count > other.repo_count;
        }
        compare_str(self.name.as_str(), other.name.as_str()) < 0
    }
}

/// Component-shaped: a leading ASCII uppercase letter, and not a
/// conventional `...Props` type.
pub open spec fn component_shaped(name: Seq<char>) -> bool {
    name.len() > 0 && 'A' <= name[0] <= 'Z' && !is_suffix("Props"@, name)
}

/// Whether an exported name is component-shaped.
pub fn is_component_shaped(name: &str) -> (b: bool)
    ensures
        b == component_shaped(name@),
{
    let cs = chars_of(name);
    cs.len() > 0 && 'A' <= cs[0] && cs[0] <= 'Z' && !ends_with_exec(&cs, &chars_of("Props"))
}

/// A file without the word `export` exports nothing.
pub fn mentions_export(text: &str) -> (b: bool)
    ensures
        b == contains_seq(text@, "export"@),
{
    contains_exec(&chars_of(text), &chars_of("export"))
}

/// The entry for an export `name` declared at `line` of `file` in `repo`.
pub fn dupe_entry(repo: &str, file: &str, name: String, line: usize) -> (e: DupeEntry)
    ensures
        e.name@ == name@,
        e.site.repo@ == repo@,
        e.site.file@ == file@,
        e.site.line == line,
{
    DupeEntry { name, site: DeclSite { repo: owned(repo), file: owned(file), line } }
}

/// Maximal runs of consecutive entries with equal names. On entries sorted
/// by name these are the groups of equal names, in ascending order.
pub open spec fn name_runs(s: Seq<DupeEntry>) -> Seq<Seq<DupeEntry>>
    decreases s.len(),
{
    if s.len() == 0 {
        seq![]
    } else {
        let r = name_runs(s.drop_last());
        if r.len() > 0 && r.last().last().name@ == s.last().name@ {
            r.drop_last().push(r.last().push(s.last()))
        } else {
            r.push(seq![s.last()])
        }
    }
}

/// The distinct repositories of some sites.
pub open spec fn repo_set(sites: Seq<DeclSite>) -> Set<Seq<char>> {
    Set::new(|r: Seq<char>| exists|i: int| 0 <= i < sites.len() && #[trigger] sites[i].repo@ == r)
}

/// The sites of a group, in (repo, file, line) order.
pub open spec fn group_sites(run: Seq<DupeEntry>) -> Seq<DeclSite> {
    sort_stable_spec(run.map_values(|e: DupeEntry| e.site))
}

/// The groups declared in two repositories or more, as (name, sites).
pub open spec fn dupe_groups(rs: Seq<Seq<DupeEntry>>) -> Seq<(Seq<char>, Seq<DeclSite>)>
    decreases rs.len(),
{
    if rs.len() == 0 {
        seq![]
    } else {
        let prev = dupe_groups(rs.drop_last());
        let sites = group_sites(rs.last());
        if repo_set(sites).len() >= 2 {
            prev.push((rs.last()[0].name@, sites))
        } else {
            prev
        }
    }
}

/// `g` is the group reported for `name` declared at `sites`.
pub open spec fn group_from(g: DupeGroup, name: Seq<char>, sites: Seq<DeclSite>) -> bool {
    &&& g.name@ == name
    &&& g.sites@ == sites
    &&& g.repo_count == repo_set(sites).len()
}

/// The number of distinct repositories among `sites`.
fn count_repos(sites: &Vec<DeclSite>) -> (n: usize)
    ensures
        n == repo_set(sites@).len(),
{
    let mut set = StrSet::new();
    assert(set.view_set() =~= repo_set(sites@.take(0)));
    let mut i: usize = 0;
    while i < sites.len()
        invariant
            i <= sites@.len(),
            set.wf(),
            set.view_set() == repo_set(sites@.take(i as int)),
        decreases sites@.len() - i,
    {
        set.insert(copy_string(&sites[i].repo));
        proof {
            let t = sites@.take(i + 1);
            assert forall|r: Seq<char>| repo_set(t).contains(r) implies set.view_set().contains(r) by {
                let q = choose|q: int| 0 <= q < t.len() && #[trigger] t[q].repo@ == r;
                if q < i {
                    assert(sites@.take(i as int)[q] == t[q]);
                }
            }
            assert forall|r: Seq<char>| set.view_set().contains(r) implies repo_set(t).contains(r) by {
                if r != sites@[i as int].repo@ {
                    let q = choose|q: int| 0 <= q < i && #[trigger] sites@.take(i as int)[q].repo@ == r;
                    assert(t[q] == sites@.take(i as int)[q]);
                } else {
                    assert(t[i as int].repo@ == r);
                }
            }
            assert(set.view_set() =~= repo_set(t));
        }
        i = i + 1;
    }
    assert(sites@.take(sites@.len() as int) =~= sites@);
    proof {
        set.lemma_len_is_card();
    }
    set.len()
}

/// The group of one run of equal names, if it spans two repositories.
fn finish_name_run(name: String, sites: Vec<DeclSite>) -> (r: Option<DupeGroup>)
    ensures
        ({
            let ss = sort_stable_spec(sites@);
            match r {
                Some(g) => repo_set(ss).len() >= 2 && group_from(g, name@, ss),
                None => repo_set(ss).len() < 2,
            }
        }),
{
    let sorted = sorted_stable(sites);
    let n = count_repos(&sorted);
    if n >= 2 {
        Some(DupeGroup { name, sites: sorted, repo_count: n })
    } else {
        None
    }
}

/// The site lists of a run of entries.
pub open spec fn run_sites(run: Seq<DupeEntry>) -> Seq<DeclSite> {
    run.map_values(|e: DupeEntry| e.site)
}

/// A file the duplicate scan reads: not a story or test file, and
/// mentioning `export`.
pub open spec fn export_file_spec(path: Seq<char>, text: Seq<char>) -> bool {
    !crate::clones::is_noise_path(path) && contains_seq(text, "export"@)
}

/// Whether the duplicate scan reads the file at `path` with this text.
pub fn export_file_wanted(path: &str, text: &str) -> (b: bool)
    ensures
        b == export_file_spec(path@, text@),
{
    !crate::clones::is_noise_file(path) && mentions_export(text)
}

/// The component-shaped exports of a list, in order.
pub open spec fn shaped_exports(es: Seq<(String, usize)>) -> Seq<(String, usize)>
    decreases es.len(),
{
    if es.len() == 0 {
        seq![]
    } else if component_shaped(es.last().0@) {
        shaped_exports(es.drop_last()).push(es.last())
    } else {
        shaped_exports(es.drop_last())
    }
}

/// The entries of one file's exported values: the component-shaped names
/// (uppercase first letter, no `Props` suffix), in order, declared in `file`
/// of `repo` at their lines.
pub fn dupe_entries(repo: &str, file: &str, exports: Vec<(String, usize)>) -> (r: Vec<DupeEntry>)
    ensures
        r@.len() == shaped_exports(exports@).len(),
        forall|i: int|
            0 <= i < r@.len() ==> (#[trigger] r@[i]).name@ == shaped_exports(exports@)[i].0@ && r@[i].site.repo@
                == repo@ && r@[i].site.file@ == file@ && r@[i].site.line == shaped_exports(exports@)[i].1,
{
    let ghost ev = exports@;
    let mut out: Vec<DupeEntry> = Vec::new();
    let total = exports.len();
    let mut idx: usize = 0;
    for x in it: exports
        invariant
            ev == it.seq(),
            total == ev.len(),
            idx == it.index(),
            idx <= total,
            out@.len() == shaped_exports(ev.take(idx as int)).len(),
            forall|i: int|
                0 <= i < out@.len() ==> (#[trigger] out@[i]).name@ == shaped_exports(ev.take(idx as int))[i].0@
                    && out@[i].site.repo@ == repo@ && out@[i].site.file@ == file@ && out@[i].site.line
                    == shaped_exports(ev.take(idx as int))[i].1,
    {
        proof {
            assert(ev.take(idx + 1).drop_last() =~= ev.take(idx as int));
            assert(ev.take(idx + 1).last() == x);
        }
        let ghost before = shaped_exports(ev.take(idx as int));
        let (name, line) = x;
        if is_component_shaped(name.as_str()) {
            out.push(dupe_entry(repo, file, name, line));
            proof {
                let now = shaped_exports(ev.take(idx + 1));
                assert(now == before.push(ev[idx as int]));
                assert forall|i: int| 0 <= i < out@.len() implies (#[trigger] out@[i]).name@ == now[i].0@
                    && out@[i].site.repo@ == repo@ && out@[i].site.file@ == file@ && out@[i].site.line == now[i].1 by {
                    if i < before.len() {
                        assert(now[i] == before[i]);
                    }
                }
            }
        }
        idx = idx + 1;
    }
    proof {
        assert(ev.take(total as int) =~= ev);
    }
    out
}

/// Same-name exported components declared in more than one repository:
/// the entries grouped by name, each group's sites in (repo, file, line)
/// order with its number of distinct repositories, the groups with two
/// repositories or more kept, ordered by that number (most first), then by
/// name.
pub fn find_dupe_groups(entries: Vec<DupeEntry>) -> (r: Vec<DupeGroup>)
    ensures
        ({
            let gs = dupe_groups(name_runs(sort_stable_spec(entries@)));
            exists|pre: Seq<DupeGroup>|
                pre.len() == gs.len() && (forall|i: int|
                    0 <= i < pre.len() ==> group_from(#[trigger] pre[i], gs[i].0, gs[i].1)) && r@
                    == sort_stable_spec(pre)
        }),
{
    let sorted = sorted_stable(entries);
    let ghost sv = sorted@;
    let total = sorted.len();
    let mut idx: usize = 0;
    let mut pre: Vec<DupeGroup> = Vec::new();
    let mut cur: Vec<DeclSite> = Vec::new();
    let mut cur_name = String::new();
    let ghost mut done: Seq<Seq<DupeEntry>> = seq![];
    let ghost mut cur_run: Seq<DupeEntry> = seq![];
    for e in it: sorted
        invariant
            sv == it.seq(),
            total == sv.len(),
            idx == it.index(),
            idx <= total,
            it.index() == 0 ==> name_runs(sv.take(0)) == done && cur_run.len() == 0,
            it.index() > 0 ==> name_runs(sv.take(it.index() as int)) == done.push(cur_run) && cur_run.len() > 0
                && cur_name@ == cur_run.last().name@ && cur_name@ == cur_run[0].name@,
            cur@ == run_sites(cur_run),
            pre@.len() == dupe_groups(done).len(),
            forall|i: int|
                0 <= i < pre@.len() ==> group_from(#[trigger] pre@[i], dupe_groups(done)[i].0, dupe_groups(done)[i].1),
    {
        let ghost q = it.index();
        proof {
            assert(sv.take(q + 1).drop_last() =~= sv.take(q as int));
            assert(sv.take(q + 1).last() == e);
        }
        let ghost pre_done = done;
        let ghost pre_run = cur_run;
        let differs = idx > 0 && compare_str(cur_name.as_str(), e.name.as_str()) != 0;
        if differs {
            let ghost kd = dupe_groups(done);
            let mut finished: Vec<DeclSite> = Vec::new();
            std::mem::swap(&mut finished, &mut cur);
            let nm = copy_string(&cur_name);
            let g = finish_name_run(nm, finished);
            proof {
                let nd = done.push(cur_run);
                assert(nd.drop_last() =~= done);
                assert(nd.last() == cur_run);
            }
            match g {
                Some(grp) => {
                    pre.push(grp);
                },
                None => {},
            }
            proof {
                done = done.push(cur_run);
                cur_run = seq![];
            }
        }
        let ghost old_run = cur_run;
        cur_name = copy_string(&e.name);
        cur.push(e.site);
        proof {
            cur_run = cur_run.push(e);
            assert(run_sites(cur_run) =~= run_sites(old_run).push(e.site));
            let r = name_runs(sv.take(q as int));
            if q == 0 {
                assert(sv.take(1).drop_last() =~= sv.take(0));
                assert(cur_run =~= seq![e]);
                assert(name_runs(sv.take(1)) =~= done.push(cur_run));
            } else if differs {
                assert(r == pre_done.push(pre_run));
                assert(cur_run =~= seq![e]);
                assert(name_runs(sv.take(q + 1)) =~= done.push(cur_run));
            } else {
                assert(r == pre_done.push(pre_run));
                assert(r.drop_last() =~= pre_done);
                assert(name_runs(sv.take(q + 1)) =~= done.push(cur_run));
            }
        }
        idx = idx + 1;
    }
    assert(sv.take(sv.len() as int) =~= sv);
    if cur.len() > 0 {
        let g = finish_name_run(cur_name, cur);
        proof {
            let nd = done.push(cur_run);
            assert(nd.drop_last() =~= done);
        }
        match g {
            Some(grp) => {
                pre.push(grp);
            },
            None => {},
        }
        proof {
            done = done.push(cur_run);
        }
    }
    let r = sorted_stable(pre);
    r
}

/// Every exported name once, ascending, with its declaration sites in the
/// order the entries list them: the index the explorer browses.
pub fn export_index(entries: Vec<DupeEntry>) -> (r: Vec<(String, Vec<DeclSite>)>)
    ensures
        r@.len() == name_runs(sort_stable_spec(entries@)).len(),
        forall|i: int|
            0 <= i < r@.len() ==> (#[trigger] r@[i]).0@ == name_runs(sort_stable_spec(entries@))[i][0].name@ && r@[i].1@
                == run_sites(name_runs(sort_stable_spec(entries@))[i]),
{
    let sorted = sorted_stable(entries);
    let ghost sv = sorted@;
    let mut out: Vec<(String, Vec<DeclSite>)> = Vec::new();
    let mut cur: Vec<DeclSite> = Vec::new();
    let mut cur_name = String::new();
    let mut idx: usize = 0;
    let total = sorted.len();
    let ghost mut done: Seq<Seq<DupeEntry>> = seq![];
    let ghost mut cur_run: Seq<DupeEntry> = seq![];
    for e in it: sorted
        invariant
            sv == it.seq(),
            total == sv.len(),
            idx == it.index(),
            idx <= total,
            it.index() == 0 ==> name_runs(sv.take(0)) == done && cur_run.len() == 0,
            it.index() > 0 ==> name_runs(sv.take(it.index() as int)) == done.push(cur_run) && cur_run.len() > 0
                && cur_name@ == cur_run.last().name@ && cur_name@ == cur_run[0].name@,
            cur@ == run_sites(cur_run),
            out@.len() == done.len(),
            forall|i: int|
                0 <= i < out@.len() ==> (#[trigger] out@[i]).0@ == done[i][0].name@ && out@[i].1@ == run_sites(done[i]),
    {
        let ghost q = it.index();
        proof {
            assert(sv.take(q + 1).drop_last() =~= sv.take(q as int));
            assert(sv.take(q + 1).last() == e);
        }
        let ghost pre_done = done;
        let ghost pre_run = cur_run;
        let differs = idx > 0 && compare_str(cur_name.as_str(), e.name.as_str()) != 0;
        if differs {
            let mut finished: Vec<DeclSite> = Vec::new();
            std::mem::swap(&mut finished, &mut cur);
            out.push((copy_string(&cur_name), finished));
            proof {
                done = done.push(cur_run);
                cur_run = seq![];
            }
        }
        let ghost old_run = cur_run;
        cur_name = copy_string(&e.name);
        cur.push(e.site);
        proof {
            cur_run = cur_run.push(e);
            assert(run_sites(cur_run) =~= run_sites(old_run).push(e.site));
            let r = name_runs(sv.take(q as int));
            if q == 0 {
                assert(sv.take(1).drop_last() =~= sv.take(0));
                assert(cur_run =~= seq![e]);
                assert(name_runs(sv.take(1)) =~= done.push(cur_run));
            } else if differs {
                assert(r == pre_done.push(pre_run));
                assert(cur_run =~= seq![e]);
                assert(name_runs(sv.take(q + 1)) =~= done.push(cur_run));
            } else {
                assert(r == pre_done.push(pre_run));
                assert(r.drop_last() =~= pre_done);
                assert(name_runs(sv.take(q + 1)) =~= done.push(cur_run));
            }
        }
        idx = idx + 1;
    }
    assert(sv.take(sv.len() as int) =~= sv);
    if cur.len() > 0 {
        out.push((cur_name, cur));
        proof {
            done = done.push(cur_run);
        }
    }
    out
}

/// The group order is a strict weak order.
proof fn lemma_group_order(gs: Seq<DupeGroup>)
    ensures
        strict_weak_on(gs),
{
    assert forall|i: int| 0 <= i < gs.len() implies !(#[trigger] gs[i]).before(&gs[i]) by {
        lemma_lt_irreflexive(gs[i].name@);
    }
    assert forall|i: int, j: int, k: int|
        #![trigger gs[i], gs[j], gs[k]]
        0 <= i < gs.len() && 0 <= j < gs.len() && 0 <= k < gs.len() && gs[i].before(&gs[j]) && gs[j].before(&gs[k])
            implies gs[i].before(&gs[k]) by {
        if gs[i].repo_count == gs[j].repo_count && gs[j].repo_count == gs[k].repo_count {
            lemma_lt_transitive(gs[i].name@, gs[j].name@, gs[k].name@);
        }
    }
    assert forall|i: int, j: int, k: int|
        #![trigger gs[i], gs[j], gs[k]]
        0 <= i < gs.len() && 0 <= j < gs.len() && 0 <= k < gs.len() && !gs[i].before(&gs[j]) && !gs[j].before(
            &gs[i],
        ) && !gs[j].before(&gs[k]) && !gs[k].before(&gs[j]) implies !gs[i].before(&gs[k]) && !gs[k].before(&gs[i]) by {
        lemma_lt_trichotomy(gs[i].name@, gs[j].name@);
        lemma_lt_trichotomy(gs[j].name@, gs[k].name@);
        lemma_lt_irreflexive(gs[i].name@);
    }
}

/// Reported groups come most-repos first, then by name.
pub proof fn law_groups_ordered(pre: Seq<DupeGroup>)
    ensures
        forall|i: int, j: int|
            #![trigger sort_stable_spec(pre)[i], sort_stable_spec(pre)[j]]
            0 <= i < j < sort_stable_spec(pre).len() ==> sort_stable_spec(pre)[i].repo_count >= sort_stable_spec(
                pre,
            )[j].repo_count && (sort_stable_spec(pre)[i].repo_count == sort_stable_spec(pre)[j].repo_count ==> seq_le(
                sort_stable_spec(pre)[i].name@,
                sort_stable_spec(pre)[j].name@,
            )),
{
    lemma_group_order(pre);
    lemma_sort_ordered(pre);
    let r = sort_stable_spec(pre);
    assert forall|i: int, j: int| #![trigger r[i], r[j]] 0 <= i < j < r.len() implies r[i].repo_count >= r[j].repo_count
        && (r[i].repo_count == r[j].repo_count ==> seq_le(r[i].name@, r[j].name@)) by {
        assert(!r[j].before(&r[i]));
        lemma_lt_trichotomy(r[i].name@, r[j].name@);
    }
}

/// Every reported group is declared in two repositories or more.
pub proof fn law_groups_span_two_repos(rs: Seq<Seq<DupeEntry>>)
    ensures
        forall|i: int| 0 <= i < dupe_groups(rs).len() ==> repo_set((#[trigger] dupe_groups(rs)[i]).1).len() >= 2,
    decreases rs.len(),
{
    if rs.len() > 0 {
        law_groups_span_two_repos(rs.drop_last());
        let prev = dupe_groups(rs.drop_last());
        let g = dupe_groups(rs);
        assert forall|i: int| 0 <= i < g.len() implies repo_set((#[trigger] g[i]).1).len() >= 2 by {
            if i < prev.len() {
                assert(g[i] == prev[i]);
            }
        }
    }
}

/// A non-empty group whose entries all carry its first entry's name.
#[verifier::opaque]
pub open spec fn one_name(run: Seq<DupeEntry>) -> bool {
    &&& run.len() > 0
    &&& forall|j: int| 0 <= j < run.len() ==> (#[trigger] run[j]).name@ == run[0].name@
}

/// Extending a one-name group by an entry of that name keeps it one name.
proof fn lemma_one_name_push(run: Seq<DupeEntry>, e: DupeEntry)
    requires
        one_name(run),
        run.last().name@ == e.name@,
    ensures
        one_name(run.push(e)),
        run.push(e)[0] == run[0],
{
    reveal(one_name);
    let n = run.push(e);
    assert(run.last() == run[run.len() - 1]);
    assert forall|j: int| 0 <= j < n.len() implies (#[trigger] n[j]).name@ == n[0].name@ by {
        if j < run.len() {
            assert(n[j] == run[j]);
        }
    }
}

/// Every group has one name, and neighbouring groups differ in name.
pub open spec fn name_groups_ok(g: Seq<Seq<DupeEntry>>) -> bool {
    &&& forall|i: int| 0 <= i < g.len() ==> one_name(#[trigger] g[i])
    &&& forall|i: int, j: int|
        #![trigger g[i], g[j]]
        0 <= i && j == i + 1 && j < g.len() ==> g[i][0].name@ != g[j][0].name@
}

/// Adding an entry of the last group's name to that group.
proof fn lemma_name_groups_extend(r: Seq<Seq<DupeEntry>>, e: DupeEntry)
    requires
        name_groups_ok(r),
        r.len() > 0,
        r.last().last().name@ == e.name@,
    ensures
        name_groups_ok(r.drop_last().push(r.last().push(e))),
{
    let g = r.drop_last().push(r.last().push(e));
    assert(r.last() == r[r.len() - 1]);
    lemma_one_name_push(r.last(), e);
    assert forall|i: int| 0 <= i < g.len() implies one_name(#[trigger] g[i]) by {
        if i < g.len() - 1 {
            assert(g[i] == r[i]);
        }
    }
    assert forall|i: int, j: int| #![trigger g[i], g[j]] 0 <= i && j == i + 1 && j < g.len() implies g[i][0].name@
        != g[j][0].name@ by {
        assert(g[i] == r[i]);
        if j < g.len() - 1 {
            assert(g[j] == r[j]);
        } else {
            assert(g[j][0] == r[j][0]);
        }
    }
}

/// Starting a new group with an entry of another name.
proof fn lemma_name_groups_start(r: Seq<Seq<DupeEntry>>, e: DupeEntry)
    requires
        name_groups_ok(r),
        r.len() == 0 || r.last().last().name@ != e.name@,
    ensures
        name_groups_ok(r.push(seq![e])),
{
    let g = r.push(seq![e]);
    assert(one_name(seq![e])) by {
        reveal(one_name);
    }
    assert forall|i: int| 0 <= i < g.len() implies one_name(#[trigger] g[i]) by {
        if i < r.len() {
            assert(g[i] == r[i]);
        }
    }
    assert forall|i: int, j: int| #![trigger g[i], g[j]] 0 <= i && j == i + 1 && j < g.len() implies g[i][0].name@
        != g[j][0].name@ by {
        assert(g[i] == r[i]);
        if j < r.len() {
            assert(g[j] == r[j]);
        } else {
            let lr = r[r.len() - 1];
            assert(r.last() == lr);
            assert(one_name(lr));
            assert(lr.last().name@ == lr[0].name@) by {
                reveal(one_name);
                assert(lr.last() == lr[lr.len() - 1]);
            }
        }
    }
}

/// Every group is non-empty with one name, and neighbouring groups differ.
proof fn lemma_name_runs_share_name(s: Seq<DupeEntry>)
    ensures
        name_groups_ok(name_runs(s)),
    decreases s.len(),
{
    if s.len() > 0 {
        lemma_name_runs_share_name(s.drop_last());
        let r = name_runs(s.drop_last());
        if r.len() > 0 && r.last().last().name@ == s.last().name@ {
            lemma_name_groups_extend(r, s.last());
        } else {
            lemma_name_groups_start(r, s.last());
        }
    }
}

/// The name order on entries is a strict weak order.
proof fn lemma_dupe_entry_order(es: Seq<DupeEntry>)
    ensures
        strict_weak_on(es),
{
    assert forall|i: int| 0 <= i < es.len() implies !(#[trigger] es[i]).before(&es[i]) by {
        lemma_lt_irreflexive(es[i].name@);
    }
    assert forall|i: int, j: int, k: int|
        #![trigger es[i], es[j], es[k]]
        0 <= i < es.len() && 0 <= j < es.len() && 0 <= k < es.len() && es[i].before(&es[j]) && es[j].before(&es[k])
            implies es[i].before(&es[k]) by {
        lemma_lt_transitive(es[i].name@, es[j].name@, es[k].name@);
    }
    assert forall|i: int, j: int, k: int|
        #![trigger es[i], es[j], es[k]]
        0 <= i < es.len() && 0 <= j < es.len() && 0 <= k < es.len() && !es[i].before(&es[j]) && !es[j].before(
            &es[i],
        ) && !es[j].before(&es[k]) && !es[k].before(&es[j]) implies !es[i].before(&es[k]) && !es[k].before(&es[i]) by {
        lemma_lt_trichotomy(es[i].name@, es[j].name@);
        lemma_lt_trichotomy(es[j].name@, es[k].name@);
    }
}

/// Every entry of every group is an entry of the list.
proof fn lemma_name_runs_members(s: Seq<DupeEntry>)
    ensures
        forall|i: int, a: int| 0 <= i < name_runs(s).len() && 0 <= a < name_runs(s)[i].len() ==> s.contains(#[trigger] name_runs(s)[i][a]),
    decreases s.len(),
{
    if s.len() > 0 {
        let d = s.drop_last();
        lemma_name_runs_members(d);
        let r = name_runs(d);
        let g = name_runs(s);
        assert forall|i: int, a: int| 0 <= i < g.len() && 0 <= a < g[i].len() implies s.contains(#[trigger] g[i][a]) by {
            if i < r.len() && (i < r.len() - 1 || g[i] == r[i]) {
                assert(g[i] == r[i]);
                let k = choose|k: int| 0 <= k < d.len() && d[k] == r[i][a];
                assert(s[k] == d[k]);
            } else if i < r.len() {
                assert(g[i] == r[i].push(s.last()));
                if a < r[i].len() {
                    assert(g[i][a] == r[i][a]);
                    let k = choose|k: int| 0 <= k < d.len() && d[k] == r[i][a];
                    assert(s[k] == d[k]);
                } else {
                    assert(s[s.len() - 1] == s.last());
                }
            } else {
                assert(g[i][a] == s.last());
                assert(s[s.len() - 1] == s.last());
            }
        }
    }
}

/// The entries of a group all sort strictly before those of every later group.
pub open spec fn name_groups_separated(g: Seq<Seq<DupeEntry>>) -> bool {
    forall|i: int, j: int, a: int, b: int|
        #![trigger g[i][a], g[j][b]]
        0 <= i < j < g.len() && 0 <= a < g[i].len() && 0 <= b < g[j].len() ==> seq_lt(g[i][a].name@, g[j][b].name@)
}

/// Grouping a list sorted by name separates the groups.
proof fn lemma_name_runs_separated(s: Seq<DupeEntry>)
    requires
        is_ordered(s),
    ensures
        name_groups_separated(name_runs(s)),
    decreases s.len(),
{
    if s.len() > 0 {
        let d = s.drop_last();
        let e = s.last();
        assert(is_ordered(d)) by {
            assert forall|i: int, j: int| #![trigger d[i], d[j]] 0 <= i < j < d.len() implies !d[j].before(&d[i]) by {
                assert(d[i] == s[i] && d[j] == s[j]);
            }
        }
        lemma_name_runs_separated(d);
        lemma_name_runs_members(d);
        lemma_name_runs_share_name(d);
        let r = name_runs(d);
        let g = name_runs(s);
        // every earlier entry sorts no later than the new one
        assert forall|i: int, a: int| 0 <= i < r.len() && 0 <= a < r[i].len() implies seq_le(
            (#[trigger] r[i][a]).name@,
            e.name@,
        ) by {
            let k = choose|k: int| 0 <= k < d.len() && d[k] == r[i][a];
            assert(s[k] == d[k]);
            assert(s[s.len() - 1] == e);
            assert(!s[s.len() - 1].before(&s[k]));
            lemma_lt_trichotomy(r[i][a].name@, e.name@);
        }
        if r.len() > 0 && r.last().last().name@ == e.name@ {
            let lr = r[r.len() - 1];
            assert(r.last() == lr);
            assert(g == r.drop_last().push(lr.push(e)));
            assert forall|i: int, j: int, a: int, b: int|
                #![trigger g[i][a], g[j][b]]
                0 <= i < j < g.len() && 0 <= a < g[i].len() && 0 <= b < g[j].len() implies seq_lt(
                    g[i][a].name@,
                    g[j][b].name@,
                ) by {
                assert(g[i] == r[i]);
                if j < g.len() - 1 {
                    assert(g[j] == r[j]);
                } else if b < lr.len() {
                    assert(g[j][b] == lr[b]);
                } else {
                    assert(g[j][b] == e);
                    assert(lr.len() > 0);
                    assert(lr.last() == lr[lr.len() - 1]);
                    assert(seq_lt(g[i][a].name@, lr[lr.len() - 1].name@));
                }
            }
        } else {
            assert(g == r.push(seq![e]));
            assert forall|i: int, j: int, a: int, b: int|
                #![trigger g[i][a], g[j][b]]
                0 <= i < j < g.len() && 0 <= a < g[i].len() && 0 <= b < g[j].len() implies seq_lt(
                    g[i][a].name@,
                    g[j][b].name@,
                ) by {
                assert(g[i] == r[i]);
                if j < r.len() {
                    assert(g[j] == r[j]);
                } else {
                    assert(g[j][b] == e);
                    assert(seq_le(r[i][a].name@, e.name@));
                    let lr = r[r.len() - 1];
                    assert(r.last() == lr);
                    assert(one_name(lr));
                    assert(lr.last().name@ == lr[0].name@) by {
                        reveal(one_name);
                        assert(lr.last() == lr[lr.len() - 1]);
                    }
                    if i == r.len() - 1 {
                        assert(r[i][a].name@ == lr[0].name@) by {
                            reveal(one_name);
                        }
                    }
                    if r[i][a].name@ == e.name@ {
                        if i < r.len() - 1 {
                            assert(lr.len() > 0) by {
                                reveal(one_name);
                            }
                            assert(seq_lt(r[i][a].name@, r[r.len() - 1][lr.len() - 1].name@));
                            assert(seq_le(lr[lr.len() - 1].name@, e.name@));
                            lemma_lt_trichotomy(lr[lr.len() - 1].name@, e.name@);
                        }
                    }
                }
            }
        }
    }
}

/// One name, one group: in the grouping of the sorted entries, entries of
/// different groups never share a name, so every declaration of a name
/// lands in the same group.
pub proof fn law_equal_names_share_a_group(entries: Seq<DupeEntry>)
    ensures
        ({
            let g = name_runs(sort_stable_spec(entries));
            forall|i: int, j: int, a: int, b: int|
                #![trigger g[i][a], g[j][b]]
                0 <= i < g.len() && 0 <= j < g.len() && i != j && 0 <= a < g[i].len() && 0 <= b < g[j].len()
                    ==> g[i][a].name@ != g[j][b].name@
        }),
{
    lemma_dupe_entry_order(entries);
    lemma_sort_ordered(entries);
    let s = sort_stable_spec(entries);
    lemma_name_runs_separated(s);
    let g = name_runs(s);
    assert forall|i: int, j: int, a: int, b: int|
        #![trigger g[i][a], g[j][b]]
        0 <= i < g.len() && 0 <= j < g.len() && i != j && 0 <= a < g[i].len() && 0 <= b < g[j].len() implies g[i][a].name@
            != g[j][b].name@ by {
        if i < j {
            lemma_lt_irreflexive(g[i][a].name@);
        } else {
            lemma_lt_irreflexive(g[j][b].name@);
        }
    }
}

} // verus!
