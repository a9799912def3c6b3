//! Name-agnostic structural clone detection: candidates with identical
//! normalized bodies cluster together, across files by default.
use vstd::prelude::*;
use crate::discover::Repo;
use crate::fingerprint::{Candidate, CandidateKind, DEFAULT_MIN_TOKENS};
use crate::order::{compare_str, seq_le, seq_lt};
use crate::sort::{insert_stable, is_ordered, lemma_sort_filter, lemma_sort_members, lemma_sort_ordered, lemma_sort_permutes, strict_weak_on, Ranked, sort_stable_spec, sorted_stable};
use crate::order::{lemma_lt_irreflexive, lemma_lt_transitive, lemma_lt_trichotomy};
use crate::strmap::{ascending, keys_of, StrMap, StrSet};
use crate::text::{
    chars_of, contains_exec, contains_seq, copy_string, is_prefix, join, owned, push_joined, push_str,
    starts_with_exec, views,
};

verus! {

/// Candidate-level kind filter (`--kind`).
#[derive(PartialEq, Eq, Structural, Clone, Copy, Debug)]
pub enum KindFilter {
    Fn,
    Const,
    All,
}

/// Options of a clone scan.
pub struct CloneOptions {
    /// minimum normalized body tokens for a candidate to participate
    pub min_tokens: usize,
    /// keep only clusters containing this exact declaration name
    pub symbol: Option<String>,
    pub kind: KindFilter,
    /// also report clusters whose members all live in one file
    pub same_file: bool,
}

impl Default for CloneOptions {
    fn default() -> (r: Self)
        ensures
            r.min_tokens == DEFAULT_MIN_TOKENS,
            r.symbol is None,
            r.kind == KindFilter::All,
            !r.same_file,
    {
        CloneOptions { min_tokens: DEFAULT_MIN_TOKENS, symbol: None, kind: KindFilter::All, same_file: false }
    }
}

/// One member of a clone cluster.
pub struct CloneSite {
    pub repo: String,
    /// path relative to the repo root
    pub file: String,
    pub line: usize,
    pub name: String,
    pub exported: bool,
    pub kind: CandidateKind,
    pub sig: String,
}

/// Declarations sharing one normalized body.
pub struct CloneCluster {
    pub members: Vec<CloneSite>,
    /// normalized body token count (identical across members by construction)
    pub token_count: usize,
    /// display signature of the first member
    pub sig: String,
    /// string/regex literals of the cluster body, sorted and deduplicated
    pub literals: Vec<String>,
    /// npm cross-check notes
    pub notes: Vec<String>,
}

/// What a clone scan reports.
pub struct ClonesOutput {
    pub clusters: Vec<CloneCluster>,
    /// lxp-common-* dependencies with no cloned source repo under the scan
    /// root — body-clone detection is blind to them (npm-only)
    pub npm_only_packages: Vec<String>,
}

/// A cluster member with what its cluster takes from it.
pub struct Member {
    pub site: CloneSite,
    pub token_count: usize,
    pub literals: Vec<String>,
}

/// A member keyed by the fingerprint of its body.
pub struct ClusterEntry {
    pub fingerprint: String,
    pub member: Member,
}

/// (repo, file, line) order.
pub open spec fn site_lt(a: CloneSite, b: CloneSite) -> bool {
    seq_lt(a.repo@, b.repo@) || (a.repo@ == b.repo@ && (seq_lt(a.file@, b.file@) || (a.file@ == b.file@
        && a.line < b.line)))
}

/// Whether `a` sorts before `b` in (repo, file, line) order.
pub fn site_before(a: &CloneSite, b: &CloneSite) -> (r: bool)
    ensures
        r == site_lt(*a, *b),
{
    let c = compare_str(a.repo.as_str(), b.repo.as_str());
    if c != 0 {
        return c < 0;
    }
    let d = compare_str(a.file.as_str(), b.file.as_str());
    if d != 0 {
        return d < 0;
    }
    a.line < b.line
}

/// Members sort by site.
impl Ranked for Member {
    open spec fn before(&self, other: &Self) -> bool {
        site_lt(self.site, other.site)
    }

    fn before_exec(&self, other: &Self) -> (b: bool) {
        site_before(&self.site, &other.site)
    }
}

/// Entries sort by fingerprint.
impl Ranked for ClusterEntry {
    open spec fn before(&self, other: &Self) -> bool {
        seq_lt(self.fingerprint@, other.fingerprint@)
    }

    fn before_exec(&self, other: &Self) -> (b: bool) {
        compare_str(self.fingerprint.as_str(), other.fingerprint.as_str()) < 0
    }
}

/// Clusters sort by size, largest first, then by their first member's site.
impl Ranked for CloneCluster {
    open spec fn before(&self, other: &Self) -> bool {
        self.members@.len() > other.members@.len() || (self.members@.len() == other.members@.len()
            && self.members@.len() > 0 && site_lt(self.members@[0], other.members@[0]))
    }

    fn before_exec(&self, other: &Self) -> (b: bool) {
        let n = self.members.len();
        let m = other.members.len();
        if n != m {
            return n > m;
        }
        n > 0 && site_before(&self.members[0], &other.members[0])
    }
}

/// Whether the kind filter admits a declaration kind.
pub open spec fn kind_admits(f: KindFilter, k: CandidateKind) -> bool {
    match f {
        KindFilter::All => true,
        KindFilter::Fn => k == CandidateKind::Fn,
        KindFilter::Const => k == CandidateKind::Const,
    }
}

/// Whether the kind filter admits the candidate.
pub fn kind_matches(filter: KindFilter, candidate: &Candidate) -> (b: bool)
    ensures
        b == kind_admits(filter, candidate.kind),
{
    match filter {
        KindFilter::All => true,
        KindFilter::Fn => candidate.kind == CandidateKind::Fn,
        KindFilter::Const => candidate.kind == CandidateKind::Const,
    }
}

/// Stories and tests copy implementations to exercise them: noise.
pub open spec fn is_noise_path(p: Seq<char>) -> bool {
    contains_seq(p, ".stories."@) || contains_seq(p, ".test."@) || contains_seq(p, ".spec."@)
        || contains_seq(p, "__test__"@) || contains_seq(p, "__tests__"@)
}

/// Whether a path is a story or test file.
pub fn is_noise_file(path: &str) -> (b: bool)
    ensures
        b == is_noise_path(path@),
{
    let p = chars_of(path);
    contains_exec(&p, &chars_of(".stories.")) || contains_exec(&p, &chars_of(".test.")) || contains_exec(
        &p,
        &chars_of(".spec."),
    ) || contains_exec(&p, &chars_of("__test__")) || contains_exec(&p, &chars_of("__tests__"))
}

/// A file with no function syntax has no candidates.
pub fn has_function_syntax(text: &str) -> (b: bool)
    ensures
        b == (contains_seq(text@, "=>"@) || contains_seq(text@, "function"@)),
{
    let t = chars_of(text);
    contains_exec(&t, &chars_of("=>")) || contains_exec(&t, &chars_of("function"))
}

/// A candidate takes part when it clears the token floor and the kind filter.
pub fn keep_candidate(c: &Candidate, opts: &CloneOptions) -> (b: bool)
    ensures
        b == (c.token_count >= opts.min_tokens && kind_admits(opts.kind, c.kind)),
{
    c.token_count >= opts.min_tokens && kind_matches(opts.kind, c)
}

/// The cluster entry of one candidate found in `file` of `repo`.
pub fn entry_of(repo: &str, file: &str, c: Candidate) -> (e: ClusterEntry)
    ensures
        e.fingerprint@ == c.fingerprint@,
        e.member.site.repo@ == repo@,
        e.member.site.file@ == file@,
        e.member.site.line == c.line,
        e.member.site.name@ == c.name@,
        e.member.site.exported == c.exported,
        e.member.site.kind == c.kind,
        e.member.site.sig@ == c.sig@,
        e.member.token_count == c.token_count,
        e.member.literals@ == c.literals@,
{
    ClusterEntry {
        fingerprint: c.fingerprint,
        member: Member {
            site: CloneSite {
                repo: owned(repo),
                file: owned(file),
                line: c.line,
                name: c.name,
                exported: c.exported,
                kind: c.kind,
                sig: c.sig,
            },
            token_count: c.token_count,
            literals: c.literals,
        },
    }
}

/// A file the clone scan reads: not a story or test file, and with some
/// function syntax (a file without any has no candidates).
pub open spec fn clone_file_spec(path: Seq<char>, text: Seq<char>) -> bool {
    !is_noise_path(path) && (contains_seq(text, "=>"@) || contains_seq(text, "function"@))
}

/// Whether the clone scan reads the file at `path` with this text.
pub fn clone_file_wanted(path: &str, text: &str) -> (b: bool)
    ensures
        b == clone_file_spec(path@, text@),
{
    !is_noise_file(path) && has_function_syntax(text)
}

/// A candidate takes part: it clears the token floor and the kind filter.
pub open spec fn candidate_kept(c: Candidate, opts: CloneOptions) -> bool {
    c.token_count >= opts.min_tokens && kind_admits(opts.kind, c.kind)
}

/// The candidates that take part, in order.
pub open spec fn kept_candidates(cs: Seq<Candidate>, opts: CloneOptions) -> Seq<Candidate>
    decreases cs.len(),
{
    if cs.len() == 0 {
        seq![]
    } else if candidate_kept(cs.last(), opts) {
        kept_candidates(cs.drop_last(), opts).push(cs.last())
    } else {
        kept_candidates(cs.drop_last(), opts)
    }
}

/// `e` is the entry of candidate `c` found in `file` of `repo`.
pub open spec fn entry_from(e: ClusterEntry, repo: Seq<char>, file: Seq<char>, c: Candidate) -> bool {
    &&& e.fingerprint@ == c.fingerprint@
    &&& e.member.site.repo@ == repo
    &&& e.member.site.file@ == file
    &&& e.member.site.line == c.line
    &&& e.member.site.name@ == c.name@
    &&& e.member.site.exported == c.exported
    &&& e.member.site.kind == c.kind
    &&& e.member.site.sig@ == c.sig@
    &&& e.member.token_count == c.token_count
    &&& e.member.literals@ == c.literals@
}

/// The cluster entries of one file's candidates: those that clear the token
/// floor and the kind filter, in order.
pub fn cluster_entries(repo: &str, file: &str, cands: Vec<Candidate>, opts: &CloneOptions) -> (r: Vec<ClusterEntry>)
    ensures
        r@.len() == kept_candidates(cands@, *opts).len(),
        forall|i: int|
            0 <= i < r@.len() ==> entry_from(#[trigger] r@[i], repo@, file@, kept_candidates(cands@, *opts)[i]),
{
    let ghost cv = cands@;
    let mut out: Vec<ClusterEntry> = Vec::new();
    let total = cands.len();
    let mut idx: usize = 0;
    for c in it: cands
        invariant
            cv == it.seq(),
            total == cv.len(),
            idx == it.index(),
            idx <= total,
            out@.len() == kept_candidates(cv.take(idx as int), *opts).len(),
            forall|i: int|
                0 <= i < out@.len() ==> entry_from(
                    #[trigger] out@[i],
                    repo@,
                    file@,
                    kept_candidates(cv.take(idx as int), *opts)[i],
                ),
    {
        proof {
            assert(cv.take(idx + 1).drop_last() =~= cv.take(idx as int));
            assert(cv.take(idx + 1).last() == c);
        }
        let ghost before = kept_candidates(cv.take(idx as int), *opts);
        if keep_candidate(&c, opts) {
            let e = entry_of(repo, file, c);
            out.push(e);
            proof {
                let now = kept_candidates(cv.take(idx + 1), *opts);
                assert(now == before.push(cv[idx as int]));
                assert forall|i: int| 0 <= i < out@.len() implies entry_from(#[trigger] out@[i], repo@, file@, now[i]) by {
                    if i < before.len() {
                        assert(now[i] == before[i]);
                    }
                }
            }
        }
        idx = idx + 1;
    }
    proof {
        assert(cv.take(total as int) =~= cv);
    }
    out
}

/// The dependency names with the `lxp-common-` prefix that no repository
/// of the scan bears as its name: published packages whose bodies the scan
/// cannot see.
pub open spec fn npm_only_set(repos: Seq<Repo>) -> Set<Seq<char>> {
    Set::new(
        |k: Seq<char>|
            (exists|i: int| 0 <= i < repos.len() && #[trigger] repos[i].deps.has(k)) && is_prefix(
                "lxp-common-"@,
                k,
            ) && !repo_named(repos, k),
    )
}

/// Some repository is named `k`.
pub open spec fn repo_named(repos: Seq<Repo>, k: Seq<char>) -> bool {
    exists|j: int| 0 <= j < repos.len() && #[trigger] repos[j].name@ == k
}

/// Whether some repository is named `k`.
pub fn is_repo_name(repos: &Vec<Repo>, k: &str) -> (b: bool)
    ensures
        b == repo_named(repos@, k@),
{
    let mut j: usize = 0;
    while j < repos.len()
        invariant
            j <= repos@.len(),
            forall|q: int| 0 <= q < j ==> repos@[q].name@ != k@,
        decreases repos@.len() - j,
    {
        if compare_str(repos[j].name.as_str(), k) == 0 {
            return true;
        }
        j = j + 1;
    }
    false
}

/// Keys of the first `i` repos, and of the first `j` entries of repo `i`,
/// that pass the npm-only test.
spec fn npm_only_upto(repos: Seq<Repo>, i: int, j: int) -> Set<Seq<char>> {
    Set::new(
        |k: Seq<char>|
            (exists|a: int, b: int|
                (0 <= a < i && 0 <= b < repos[a].deps.entries@.len() || a == i && 0 <= b < j)
                    && #[trigger] repos[a].deps.key_at(b) == k) && is_prefix("lxp-common-"@, k)
                && !repo_named(repos, k),
    )
}

/// lxp-common-* dependencies declared by any repo but not present as a
/// cloned source repo under the scan root, ascending.
pub fn npm_only_common_packages(repos: &Vec<Repo>) -> (r: Vec<String>)
    ensures
        views(r@) == ascending(npm_only_set(repos@)),
{
    let mut acc = StrSet::new();
    assert(acc.view_set() =~= npm_only_upto(repos@, 0, 0));
    let mut i: usize = 0;
    while i < repos.len()
        invariant
            i <= repos@.len(),
            acc.wf(),
            acc.view_set() == npm_only_upto(repos@, i as int, 0),
        decreases repos@.len() - i,
    {
        let deps = &repos[i].deps;
        let mut j: usize = 0;
        while j < deps.entries.len()
            invariant
                i < repos@.len(),
                deps == repos@[i as int].deps,
                j <= deps.entries@.len(),
                acc.wf(),
                acc.view_set() == npm_only_upto(repos@, i as int, j as int),
            decreases deps.entries@.len() - j,
        {
            let k = &deps.entries[j].0;
            let keep = starts_with_exec(&chars_of(k.as_str()), &chars_of("lxp-common-")) && !is_repo_name(
                repos,
                k.as_str(),
            );
            let ghost before = acc.view_set();
            if keep {
                acc.insert(copy_string(k));
            }
            proof {
                assert(repos@[i as int].deps.key_at(j as int) == k@);
                assert(acc.view_set() =~= npm_only_upto(repos@, i as int, j + 1));
            }
            j = j + 1;
        }
        assert(npm_only_upto(repos@, i as int, j as int) =~= npm_only_upto(repos@, i + 1, 0));
        i = i + 1;
    }
    proof {
        assert(acc.view_set() =~= npm_only_set(repos@)) by {
            assert forall|k: Seq<char>| npm_only_set(repos@).contains(k) implies acc.view_set().contains(k) by {
                let a = choose|a: int| 0 <= a < repos@.len() && #[trigger] repos@[a].deps.has(k);
                let b = choose|b: int| 0 <= b < repos@[a].deps.entries@.len() && repos@[a].deps.key_at(b) == k;
                assert(repos@[a].deps.key_at(b) == k);
            }
            assert forall|k: Seq<char>| acc.view_set().contains(k) implies npm_only_set(repos@).contains(k) by {
                let (a, b) = choose|a: int, b: int|
                    (0 <= a < repos@.len() && 0 <= b < repos@[a].deps.entries@.len() || a == repos@.len() && 0 <= b
                        < 0) && #[trigger] repos@[a].deps.key_at(b) == k;
                assert(repos@[a].deps.has(k));
            }
        }
        acc.lemma_members_ascending();
    }
    let r = acc.to_vec();
    r
}

/// Export names per package: a sorted map whose sets are all well formed.
pub open spec fn exports_wf(m: StrMap<StrSet>) -> bool {
    &&& m.wf()
    &&& forall|k: Seq<char>| #[trigger] m.view_map().contains_key(k) ==> m.view_map()[k].wf()
}

/// Records that `pkg` exports each of `names`.
pub fn add_exports(map: &mut StrMap<StrSet>, pkg: &str, names: &Vec<String>)
    requires
        exports_wf(*old(map)),
    ensures
        exports_wf(*final(map)),
        final(map).view_map().dom() == old(map).view_map().dom().insert(pkg@),
        final(map).view_map()[pkg@].view_set() == (if old(map).view_map().contains_key(pkg@) {
            old(map).view_map()[pkg@].view_set()
        } else {
            Set::<Seq<char>>::empty()
        }).union(views(names@).to_set()),
        forall|k: Seq<char>| k != pkg@ && #[trigger] old(map).view_map().contains_key(k) ==> final(map).view_map()[k]
            == old(map).view_map()[k],
{
    let key = owned(pkg);
    let ghost old_map = map.view_map();
    let mut set = match map.remove_key(&key) {
        Some(s) => s,
        None => StrSet::new(),
    };
    let ghost base = set.view_set();
    assert(base == (if old_map.contains_key(pkg@) {
        old_map[pkg@].view_set()
    } else {
        Set::<Seq<char>>::empty()
    }));
    let mut i: usize = 0;
    while i < names.len()
        invariant
            i <= names@.len(),
            set.wf(),
            set.view_set() == base.union(views(names@).take(i as int).to_set()),
        decreases names@.len() - i,
    {
        set.insert(copy_string(&names[i]));
        proof {
            assert(views(names@).take(i + 1) =~= views(names@).take(i as int).push(names@[i as int]@));
            views(names@).take(i as int).lemma_push_to_set_commute(names@[i as int]@);
            assert(set.view_set() =~= base.union(views(names@).take(i + 1).to_set()));
        }
        i = i + 1;
    }
    assert(views(names@).take(names@.len() as int) =~= views(names@));
    map.insert(key, set);
    assert(map.view_map().dom() =~= old_map.dom().insert(pkg@));
}

/// The names of the members.
pub open spec fn site_names(sites: Seq<CloneSite>) -> Set<Seq<char>> {
    Set::new(|n: Seq<char>| exists|i: int| 0 <= i < sites.len() && #[trigger] sites[i].name@ == n)
}

/// The members' repositories that are cloned lxp-common-* repos.
pub open spec fn common_homes(sites: Seq<CloneSite>) -> Set<Seq<char>> {
    Set::new(
        |r: Seq<char>|
            exists|i: int| 0 <= i < sites.len() && #[trigger] sites[i].repo@ == r && is_prefix("lxp-common-"@, r),
    )
}

/// One note per cloned lxp-common-* repo that already holds a member.
pub open spec fn implemented_notes(repos: Seq<Seq<char>>) -> Seq<Seq<char>> {
    repos.map_values(|r: Seq<char>| "already implemented in "@ + r + " — import it instead of duplicating"@)
}

/// One note per member name that `pkg` already exports.
pub open spec fn existing_notes(names: Seq<Seq<char>>, pkg: Seq<char>, exports: Set<Seq<char>>) -> Seq<Seq<char>>
    decreases names.len(),
{
    if names.len() == 0 {
        seq![]
    } else {
        let prev = existing_notes(names.drop_last(), pkg, exports);
        if exports.contains(names.last()) {
            prev.push("an export named "@ + names.last() + " already exists in "@ + pkg)
        } else {
            prev
        }
    }
}

/// The existing-export notes of every package, package by package.
pub open spec fn export_notes(pkgs: Seq<(Seq<char>, Set<Seq<char>>)>, names: Seq<Seq<char>>) -> Seq<Seq<char>>
    decreases pkgs.len(),
{
    if pkgs.len() == 0 {
        seq![]
    } else {
        export_notes(pkgs.drop_last(), names) + existing_notes(names, pkgs.last().0, pkgs.last().1)
    }
}

/// The packages of an export map, ascending, with their export names.
pub open spec fn export_pkgs(m: StrMap<StrSet>) -> Seq<(Seq<char>, Set<Seq<char>>)> {
    m.entries@.map_values(|e: (String, StrSet)| (e.0@, e.1.view_set()))
}

/// The npm cross-check notes of a cluster: a member living in a cloned
/// lxp-common-* repo means the shared home exists; a member name exported
/// by a published package means the export exists; with neither, and with
/// packages to compare against, a hint that those packages are a candidate
/// shared home.
pub open spec fn notes_spec(sites: Seq<CloneSite>, pkgs: Seq<(Seq<char>, Set<Seq<char>>)>) -> Seq<Seq<char>> {
    let names = ascending(site_names(sites));
    let found = implemented_notes(ascending(common_homes(sites))) + export_notes(pkgs, names);
    if found.len() == 0 && pkgs.len() > 0 {
        seq![
            "no "@ + join(names, "/"@) + " export found in "@ + join(
                pkgs.map_values(|p: (Seq<char>, Set<Seq<char>>)| p.0),
                ", "@,
            ) + " — candidate shared home"@,
        ]
    } else {
        found
    }
}

/// The npm cross-check notes of one cluster's members.
pub fn npm_notes(members: &Vec<CloneSite>, exports: &StrMap<StrSet>) -> (r: Vec<String>)
    requires
        exports_wf(*exports),
    ensures
        views(r@) == notes_spec(members@, export_pkgs(*exports)),
{
    let mut names = StrSet::new();
    let mut homes = StrSet::new();
    assert(names.view_set() =~= site_names(members@.take(0)));
    assert(homes.view_set() =~= common_homes(members@.take(0)));
    let mut i: usize = 0;
    while i < members.len()
        invariant
            i <= members@.len(),
            names.wf(),
            homes.wf(),
            names.view_set() == site_names(members@.take(i as int)),
            homes.view_set() == common_homes(members@.take(i as int)),
        decreases members@.len() - i,
    {
        let m = &members[i];
        names.insert(copy_string(&m.name));
        if starts_with_exec(&chars_of(m.repo.as_str()), &chars_of("lxp-common-")) {
            homes.insert(copy_string(&m.repo));
        }
        proof {
            let t = members@.take(i + 1);
            assert(t =~= members@.take(i as int).push(*m));
            assert(names.view_set() =~= site_names(t)) by {
                assert forall|n: Seq<char>| site_names(t).contains(n) implies names.view_set().contains(n) by {
                    let q = choose|q: int| 0 <= q < t.len() && #[trigger] t[q].name@ == n;
                    if q < i {
                        assert(members@.take(i as int)[q] == t[q]);
                    }
                }
                assert forall|n: Seq<char>| names.view_set().contains(n) implies site_names(t).contains(n) by {
                    if n != m.name@ {
                        let q = choose|q: int| 0 <= q < i && #[trigger] members@.take(i as int)[q].name@ == n;
                        assert(t[q] == members@.take(i as int)[q]);
                    } else {
                        assert(t[i as int].name@ == n);
                    }
                }
            }
            assert(homes.view_set() =~= common_homes(t)) by {
                assert forall|n: Seq<char>| common_homes(t).contains(n) implies homes.view_set().contains(n) by {
                    let q = choose|q: int| 0 <= q < t.len() && #[trigger] t[q].repo@ == n && is_prefix("lxp-common-"@, n);
                    if q < i {
                        assert(members@.take(i as int)[q] == t[q]);
                    }
                }
                assert forall|n: Seq<char>| homes.view_set().contains(n) implies common_homes(t).contains(n) by {
                    if homes.view_set().contains(n) && common_homes(members@.take(i as int)).contains(n) {
                        let q = choose|q: int| 0 <= q < i && #[trigger] members@.take(i as int)[q].repo@ == n
                            && is_prefix("lxp-common-"@, n);
                        assert(t[q] == members@.take(i as int)[q]);
                    } else {
                        assert(t[i as int].repo@ == n);
                    }
                }
            }
        }
        i = i + 1;
    }
    assert(members@.take(members@.len() as int) =~= members@);
    proof {
        names.lemma_members_ascending();
        homes.lemma_members_ascending();
    }
    let name_list = names.to_vec();
    let home_list = homes.to_vec();
    let ghost nl = views(name_list@);
    let ghost pkgs = export_pkgs(*exports);
    let mut notes: Vec<String> = Vec::new();
    let mut h: usize = 0;
    while h < home_list.len()
        invariant
            h <= home_list@.len(),
            views(notes@) == implemented_notes(views(home_list@).take(h as int)),
        decreases home_list@.len() - h,
    {
        let mut note = String::new();
        push_str(&mut note, "already implemented in ");
        push_str(&mut note, home_list[h].as_str());
        push_str(&mut note, " — import it instead of duplicating");
        let ghost before = views(notes@);
        notes.push(note);
        proof {
            assert(views(home_list@).take(h + 1) =~= views(home_list@).take(h as int).push(home_list@[h as int]@));
            assert(views(notes@) =~= before.push(notes@[h as int]@));
            assert(views(notes@) =~= implemented_notes(views(home_list@).take(h + 1)));
        }
        h = h + 1;
    }
    assert(views(home_list@).take(home_list@.len() as int) =~= views(home_list@));
    let ghost implemented = views(notes@);
    let mut p: usize = 0;
    while p < exports.entries.len()
        invariant
            exports_wf(*exports),
            pkgs == export_pkgs(*exports),
            nl == views(name_list@),
            p <= exports.entries@.len(),
            views(notes@) == implemented + export_notes(pkgs.take(p as int), nl),
        decreases exports.entries@.len() - p,
    {
        let pkg = &exports.entries[p].0;
        let set = &exports.entries[p].1;
        proof {
            exports.lemma_wf_idx(p as int);
            assert(exports.view_map().contains_key(exports.key_at(p as int)));
            assert(set.wf());
        }
        let ghost base = views(notes@);
        let mut q: usize = 0;
        while q < name_list.len()
            invariant
                set.wf(),
                nl == views(name_list@),
                q <= name_list@.len(),
                views(notes@) == base + existing_notes(nl.take(q as int), pkg@, set.view_set()),
            decreases name_list@.len() - q,
        {
            let ghost before = views(notes@);
            if set.contains(name_list[q].as_str()) {
                let mut note = String::new();
                push_str(&mut note, "an export named ");
                push_str(&mut note, name_list[q].as_str());
                push_str(&mut note, " already exists in ");
                push_str(&mut note, pkg.as_str());
                notes.push(note);
                assert(views(notes@) =~= before.push(notes@[notes@.len() - 1]@));
            }
            proof {
                assert(nl.take(q + 1).drop_last() =~= nl.take(q as int));
                assert(nl.take(q + 1).last() == name_list@[q as int]@);
            }
            q = q + 1;
        }
        proof {
            assert(nl.take(name_list@.len() as int) =~= nl);
            assert(pkgs.take(p + 1).drop_last() =~= pkgs.take(p as int));
            assert(pkgs.take(p + 1).last() == (pkg@, set.view_set()));
            assert(views(notes@) =~= implemented + export_notes(pkgs.take(p + 1), nl));
        }
        p = p + 1;
    }
    assert(pkgs.take(exports.entries@.len() as int) =~= pkgs);
    if notes.len() == 0 && exports.entries.len() > 0 {
        let mut pkg_names: Vec<String> = Vec::new();
        let mut k: usize = 0;
        while k < exports.entries.len()
            invariant
                pkgs == export_pkgs(*exports),
                k <= exports.entries@.len(),
                views(pkg_names@) == pkgs.map_values(|p: (Seq<char>, Set<Seq<char>>)| p.0).take(k as int),
            decreases exports.entries@.len() - k,
        {
            let ghost before = views(pkg_names@);
            pkg_names.push(copy_string(&exports.entries[k].0));
            assert(views(pkg_names@) =~= before.push(exports.entries@[k as int].0@));
            assert(pkgs[k as int].0 == exports.entries@[k as int].0@);
            assert(views(pkg_names@) =~= pkgs.map_values(|p: (Seq<char>, Set<Seq<char>>)| p.0).take(k + 1));
            k = k + 1;
        }
        assert(pkgs.map_values(|p: (Seq<char>, Set<Seq<char>>)| p.0).take(k as int) =~= pkgs.map_values(
            |p: (Seq<char>, Set<Seq<char>>)| p.0,
        ));
        let mut note = String::new();
        push_str(&mut note, "no ");
        push_joined(&mut note, &name_list, "/");
        push_str(&mut note, " export found in ");
        push_joined(&mut note, &pkg_names, ", ");
        push_str(&mut note, " — candidate shared home");
        let mut only: Vec<String> = Vec::new();
        only.push(note);
        assert(views(only@) =~= notes_spec(members@, pkgs));
        return only;
    }
    notes
}

/// Maximal runs of consecutive entries with equal fingerprints. On entries
/// sorted by fingerprint these are the groups of equal fingerprints, in
/// ascending fingerprint order, each in input order.
pub open spec fn runs(s: Seq<ClusterEntry>) -> Seq<Seq<ClusterEntry>>
    decreases s.len(),
{
    if s.len() == 0 {
        seq![]
    } else {
        let r = runs(s.drop_last());
        if r.len() > 0 && r.last().last().fingerprint@ == s.last().fingerprint@ {
            r.drop_last().push(r.last().push(s.last()))
        } else {
            r.push(seq![s.last()])
        }
    }
}

/// The members of a group, in (repo, file, line) order.
pub open spec fn members_of(run: Seq<ClusterEntry>) -> Seq<Member> {
    sort_stable_spec(run.map_values(|e: ClusterEntry| e.member))
}

/// All members live in the first member's file.
pub open spec fn one_file(ms: Seq<Member>) -> bool {
    forall|i: int|
        0 <= i < ms.len() ==> (#[trigger] ms[i]).site.repo@ == ms[0].site.repo@ && ms[i].site.file@
            == ms[0].site.file@
}

/// Some member is named `n`.
pub open spec fn has_name(ms: Seq<Member>, n: Seq<char>) -> bool {
    exists|i: int| 0 <= i < ms.len() && (#[trigger] ms[i]).site.name@ == n
}

/// An optional string as an optional character sequence.
pub open spec fn opt_chars(o: Option<String>) -> Option<Seq<char>> {
    match o {
        Some(s) => Some(s@),
        None => None,
    }
}

/// A group is reported when it has two members or more, spans two files
/// unless same-file clusters are asked for, and names the symbol when one
/// is given.
pub open spec fn cluster_kept(ms: Seq<Member>, same_file: bool, symbol: Option<Seq<char>>) -> bool {
    &&& ms.len() >= 2
    &&& same_file || !one_file(ms)
    &&& symbol matches Some(sy) ==> has_name(ms, sy)
}

/// The member lists of the reported groups, in group order.
pub open spec fn kept_groups(rs: Seq<Seq<ClusterEntry>>, same_file: bool, symbol: Option<Seq<char>>) -> Seq<Seq<Member>>
    decreases rs.len(),
{
    if rs.len() == 0 {
        seq![]
    } else {
        let prev = kept_groups(rs.drop_last(), same_file, symbol);
        let ms = members_of(rs.last());
        if cluster_kept(ms, same_file, symbol) {
            prev.push(ms)
        } else {
            prev
        }
    }
}

/// `c` is the cluster reported for the members `ms`: their sites, the first
/// member's token count and signature, the first member's literals sorted
/// and deduplicated, and the npm notes.
pub open spec fn cluster_from(c: CloneCluster, ms: Seq<Member>, pkgs: Seq<(Seq<char>, Set<Seq<char>>)>) -> bool {
    &&& c.members@ == ms.map_values(|m: Member| m.site)
    &&& c.token_count == ms[0].token_count
    &&& c.sig@ == ms[0].site.sig@
    &&& views(c.literals@) == ascending(views(ms[0].literals@).to_set())
    &&& views(c.notes@) == notes_spec(c.members@, pkgs)
}

/// The cluster of one group of equal fingerprints, if it is reported.
fn finish_run(members: Vec<Member>, opts: &CloneOptions, exports: &StrMap<StrSet>) -> (r: Option<CloneCluster>)
    requires
        exports_wf(*exports),
    ensures
        ({
            let ms = sort_stable_spec(members@);
            match r {
                Some(c) => cluster_kept(ms, opts.same_file, opt_chars(opts.symbol)) && cluster_from(
                    c,
                    ms,
                    export_pkgs(*exports),
                ),
                None => !cluster_kept(ms, opts.same_file, opt_chars(opts.symbol)),
            }
        }),
{
    let ghost input = members@;
    let ms = sorted_stable(members);
    let n = ms.len();
    if n < 2 {
        return None;
    }
    let mut same = true;
    let mut i: usize = 1;
    while i < n
        invariant
            n == ms@.len(),
            1 <= i <= n,
            same == (forall|k: int| 0 <= k < i ==> (#[trigger] ms@[k]).site.repo@ == ms@[0].site.repo@
                && ms@[k].site.file@ == ms@[0].site.file@),
        decreases n - i,
    {
        if compare_str(ms[i].site.repo.as_str(), ms[0].site.repo.as_str()) != 0 || compare_str(
            ms[i].site.file.as_str(),
            ms[0].site.file.as_str(),
        ) != 0 {
            same = false;
        }
        i = i + 1;
    }
    if same && !opts.same_file {
        return None;
    }
    match &opts.symbol {
        Some(sym) => {
            let mut found = false;
            let mut j: usize = 0;
            while j < n
                invariant
                    n == ms@.len(),
                    j <= n,
                    found == (exists|k: int| 0 <= k < j && (#[trigger] ms@[k]).site.name@ == sym@),
                decreases n - j,
            {
                if compare_str(ms[j].site.name.as_str(), sym.as_str()) == 0 {
                    found = true;
                }
                j = j + 1;
            }
            if !found {
                return None;
            }
        },
        None => {},
    }
    let token_count = ms[0].token_count;
    let sig = copy_string(&ms[0].site.sig);
    let mut lit_set = StrSet::new();
    let ghost lv = views(ms@[0].literals@);
    let mut k: usize = 0;
    while k < ms[0].literals.len()
        invariant
            n == ms@.len(),
            n >= 2,
            lv == views(ms@[0].literals@),
            k <= lv.len(),
            lit_set.wf(),
            lit_set.view_set() == lv.take(k as int).to_set(),
        decreases lv.len() - k,
    {
        lit_set.insert(copy_string(&ms[0].literals[k]));
        proof {
            assert(lv.take(k + 1) =~= lv.take(k as int).push(lv[k as int]));
            lv.take(k as int).lemma_push_to_set_commute(lv[k as int]);
        }
        k = k + 1;
    }
    assert(lv.take(lv.len() as int) =~= lv);
    proof {
        lit_set.lemma_members_ascending();
    }
    let literals = lit_set.to_vec();
    let ghost msv = ms@;
    let mut sites: Vec<CloneSite> = Vec::new();
    for m in it: ms
        invariant
            msv == it.seq(),
            sites@ == msv.take(it.index() as int).map_values(|m: Member| m.site),
    {
        let ghost q = it.index();
        sites.push(m.site);
        assert(msv.take(q + 1).map_values(|m: Member| m.site) =~= msv.take(q as int).map_values(
            |m: Member| m.site,
        ).push(msv[q as int].site));
    }
    assert(msv.take(msv.len() as int) =~= msv);
    let notes = npm_notes(&sites, exports);
    Some(CloneCluster { members: sites, token_count, sig, literals, notes })
}

/// The members of a run of entries.
spec fn run_members(run: Seq<ClusterEntry>) -> Seq<Member> {
    run.map_values(|e: ClusterEntry| e.member)
}

/// `r` is what is reported for `entries`: the kept groups turned into
/// clusters, ordered largest first, then by their first member's site.
pub open spec fn reported(
    r: Seq<CloneCluster>,
    entries: Seq<ClusterEntry>,
    same_file: bool,
    symbol: Option<Seq<char>>,
    pkgs: Seq<(Seq<char>, Set<Seq<char>>)>,
) -> bool {
    let kept = kept_groups(runs(sort_stable_spec(entries)), same_file, symbol);
    exists|pre: Seq<CloneCluster>|
        pre.len() == kept.len() && (forall|i: int| 0 <= i < pre.len() ==> cluster_from(#[trigger] pre[i], kept[i], pkgs))
            && r == sort_stable_spec(pre)
}

/// The reported clusters: entries grouped by fingerprint (ascending, each
/// group in input order), each group's members sorted by (repo, file, line),
/// the groups that `cluster_kept` admits turned into clusters, and those
/// ordered largest first, then by their first member's site.
pub fn find_clusters(entries: Vec<ClusterEntry>, opts: &CloneOptions, exports: &StrMap<StrSet>) -> (r: Vec<
    CloneCluster,
>)
    requires
        exports_wf(*exports),
    ensures
        reported(r@, entries@, opts.same_file, opt_chars(opts.symbol), export_pkgs(*exports)),
{
    let ghost pkgs = export_pkgs(*exports);
    let ghost sf = opts.same_file;
    let ghost sy = opt_chars(opts.symbol);
    let sorted = sorted_stable(entries);
    let ghost sv = sorted@;
    let total = sorted.len();
    let mut idx: usize = 0;
    let mut pre: Vec<CloneCluster> = Vec::new();
    let mut cur: Vec<Member> = Vec::new();
    let mut cur_fp = String::new();
    let ghost mut done: Seq<Seq<ClusterEntry>> = seq![];
    let ghost mut cur_run: Seq<ClusterEntry> = seq![];
    for e in it: sorted
        invariant
            sv == it.seq(),
            total == sv.len(),
            idx == it.index(),
            idx <= total,
            exports_wf(*exports),
            pkgs == export_pkgs(*exports),
            sf == opts.same_file,
            sy == opt_chars(opts.symbol),
            it.index() == 0 ==> runs(sv.take(0)) == done && cur_run.len() == 0,
            it.index() > 0 ==> runs(sv.take(it.index() as int)) == done.push(cur_run) && cur_run.len() > 0
                && cur_fp@ == cur_run.last().fingerprint@,
            cur@ == run_members(cur_run),
            pre@.len() == kept_groups(done, sf, sy).len(),
            forall|i: int| 0 <= i < pre@.len() ==> cluster_from(#[trigger] pre@[i], kept_groups(done, sf, sy)[i], pkgs),
    {
        let ghost q = it.index();
        proof {
            assert(sv.take(q + 1).drop_last() =~= sv.take(q as int));
            assert(sv.take(q + 1).last() == e);
        }
        let ghost pre_done = done;
        let ghost pre_run = cur_run;
        let differs = idx > 0 && compare_str(cur_fp.as_str(), e.fingerprint.as_str()) != 0;
        if differs {
            let ghost kd = kept_groups(done, sf, sy);
            let mut finished: Vec<Member> = Vec::new();
            std::mem::swap(&mut finished, &mut cur);
            let c = finish_run(finished, opts, exports);
            proof {
                assert(run_members(cur_run) == finished@);
                let nd = done.push(cur_run);
                assert(nd.drop_last() =~= done);
                assert(nd.last() == cur_run);
            }
            match c {
                Some(cl) => {
                    pre.push(cl);
                },
                None => {},
            }
            proof {
                let nd = done.push(cur_run);
                assert(kept_groups(nd, sf, sy) == if cluster_kept(members_of(cur_run), sf, sy) {
                    kd.push(members_of(cur_run))
                } else {
                    kd
                });
                done = nd;
                cur_run = seq![];
            }
        }
        let ghost old_run = cur_run;
        cur_fp = copy_string(&e.fingerprint);
        cur.push(e.member);
        proof {
            cur_run = cur_run.push(e);
            assert(run_members(cur_run) =~= run_members(old_run).push(e.member));
            let r = runs(sv.take(q as int));
            if q == 0 {
                assert(sv.take(1).drop_last() =~= sv.take(0));
                assert(cur_run =~= seq![e]);
                assert(runs(sv.take(1)) =~= done.push(cur_run));
            } else if differs {
                assert(r == pre_done.push(pre_run));
                assert(r.last().last().fingerprint@ != e.fingerprint@);
                assert(cur_run =~= seq![e]);
                assert(runs(sv.take(q + 1)) =~= done.push(cur_run));
            } else {
                assert(r == pre_done.push(pre_run));
                assert(r.last().last().fingerprint@ == e.fingerprint@);
                assert(r.drop_last() =~= pre_done);
                assert(runs(sv.take(q + 1)) =~= done.push(cur_run));
            }
        }
        idx = idx + 1;
    }
    let ghost n = sv.len();
    assert(sv.take(n as int) =~= sv);
    if cur.len() > 0 {
        let ghost kd = kept_groups(done, sf, sy);
        let c = finish_run(cur, opts, exports);
        proof {
            let nd = done.push(cur_run);
            assert(nd.drop_last() =~= done);
        }
        match c {
            Some(cl) => {
                pre.push(cl);
            },
            None => {},
        }
        proof {
            done = done.push(cur_run);
        }
    }
    let ghost pv = pre@;
    let r = sorted_stable(pre);
    assert(pv.len() == kept_groups(runs(sv), sf, sy).len());
    r
}

/// (repo, file, line) order is a strict order.
proof fn lemma_site_lt(a: CloneSite, b: CloneSite, c: CloneSite)
    ensures
        !site_lt(a, a),
        site_lt(a, b) && site_lt(b, c) ==> site_lt(a, c),
        site_lt(a, b) || site_lt(b, a) || (a.repo@ == b.repo@ && a.file@ == b.file@ && a.line == b.line),
        !(site_lt(a, b) && site_lt(b, a)),
{
    lemma_lt_irreflexive(a.repo@);
    lemma_lt_irreflexive(a.file@);
    lemma_lt_trichotomy(a.repo@, b.repo@);
    lemma_lt_trichotomy(a.file@, b.file@);
    lemma_lt_trichotomy(b.repo@, c.repo@);
    lemma_lt_trichotomy(b.file@, c.file@);
    if seq_lt(a.repo@, b.repo@) && seq_lt(b.repo@, c.repo@) {
        lemma_lt_transitive(a.repo@, b.repo@, c.repo@);
    }
    if seq_lt(a.file@, b.file@) && seq_lt(b.file@, c.file@) {
        lemma_lt_transitive(a.file@, b.file@, c.file@);
    }
}

/// The cluster order is a strict weak order.
proof fn lemma_cluster_order(cs: Seq<CloneCluster>)
    ensures
        strict_weak_on(cs),
{
    assert forall|i: int| 0 <= i < cs.len() implies !(#[trigger] cs[i]).before(&cs[i]) by {
        if cs[i].members@.len() > 0 {
            lemma_site_lt(cs[i].members@[0], cs[i].members@[0], cs[i].members@[0]);
        }
    }
    assert forall|i: int, j: int, k: int|
        #![trigger cs[i], cs[j], cs[k]]
        0 <= i < cs.len() && 0 <= j < cs.len() && 0 <= k < cs.len() && cs[i].before(&cs[j]) && cs[j].before(&cs[k])
            implies cs[i].before(&cs[k]) by {
        if cs[i].members@.len() == cs[j].members@.len() && cs[j].members@.len() == cs[k].members@.len() {
            lemma_site_lt(cs[i].members@[0], cs[j].members@[0], cs[k].members@[0]);
        }
    }
    assert forall|i: int, j: int, k: int|
        #![trigger cs[i], cs[j], cs[k]]
        0 <= i < cs.len() && 0 <= j < cs.len() && 0 <= k < cs.len() && !cs[i].before(&cs[j]) && !cs[j].before(
            &cs[i],
        ) && !cs[j].before(&cs[k]) && !cs[k].before(&cs[j]) implies !cs[i].before(&cs[k]) && !cs[k].before(&cs[i]) by {
        if cs[i].members@.len() > 0 && cs[j].members@.len() > 0 && cs[k].members@.len() > 0 {
            let (a, b, c) = (cs[i].members@[0], cs[j].members@[0], cs[k].members@[0]);
            lemma_site_lt(a, b, c);
            lemma_site_lt(b, c, a);
            lemma_site_lt(c, a, b);
            lemma_site_lt(a, c, b);
            lemma_site_lt(b, a, c);
            lemma_site_lt(c, b, a);
        }
    }
}

/// Reported clusters come largest first, then by their first member's
/// (repo, file, line).
pub proof fn law_clusters_ordered(pre: Seq<CloneCluster>)
    ensures
        is_ordered(sort_stable_spec(pre)),
        forall|i: int, j: int|
            #![trigger sort_stable_spec(pre)[i], sort_stable_spec(pre)[j]]
            0 <= i < j < sort_stable_spec(pre).len() ==> sort_stable_spec(pre)[i].members@.len() >= sort_stable_spec(
                pre,
            )[j].members@.len(),
{
    lemma_cluster_order(pre);
    lemma_sort_ordered(pre);
    let r = sort_stable_spec(pre);
    assert forall|i: int, j: int| #![trigger r[i], r[j]] 0 <= i < j < r.len() implies r[i].members@.len()
        >= r[j].members@.len() by {
        assert(!r[j].before(&r[i]));
    }
}

/// Every reported cluster has two members or more, spans two files unless
/// same-file clusters are asked for, and names the symbol when one is given.
pub proof fn law_reported_clusters_are_kept(rs: Seq<Seq<ClusterEntry>>, same_file: bool, symbol: Option<Seq<char>>)
    ensures
        forall|i: int|
            0 <= i < kept_groups(rs, same_file, symbol).len() ==> cluster_kept(
                #[trigger] kept_groups(rs, same_file, symbol)[i],
                same_file,
                symbol,
            ),
    decreases rs.len(),
{
    if rs.len() > 0 {
        law_reported_clusters_are_kept(rs.drop_last(), same_file, symbol);
        let prev = kept_groups(rs.drop_last(), same_file, symbol);
        let g = kept_groups(rs, same_file, symbol);
        assert forall|i: int| 0 <= i < g.len() implies cluster_kept(#[trigger] g[i], same_file, symbol) by {
            if i < prev.len() {
                assert(g[i] == prev[i]);
            }
        }
    }
}

/// A non-empty group whose entries all carry its first entry's fingerprint.
#[verifier::opaque]
pub open spec fn one_body(run: Seq<ClusterEntry>) -> bool {
    &&& run.len() > 0
    &&& forall|j: int| 0 <= j < run.len() ==> (#[trigger] run[j]).fingerprint@ == run[0].fingerprint@
}

/// Extending a one-body group by an entry of the same fingerprint keeps it one body.
proof fn lemma_one_body_push(run: Seq<ClusterEntry>, e: ClusterEntry)
    requires
        one_body(run),
        run.last().fingerprint@ == e.fingerprint@,
    ensures
        one_body(run.push(e)),
        run.push(e)[0] == run[0],
{
    reveal(one_body);
    let n = run.push(e);
    assert(run.last() == run[run.len() - 1]);
    assert forall|j: int| 0 <= j < n.len() implies (#[trigger] n[j]).fingerprint@ == n[0].fingerprint@ by {
        if j < run.len() {
            assert(n[j] == run[j]);
        }
    }
}

/// Every group is one body, and neighbouring groups differ in fingerprint.
pub open spec fn groups_ok(g: Seq<Seq<ClusterEntry>>) -> bool {
    &&& forall|i: int| 0 <= i < g.len() ==> one_body(#[trigger] g[i])
    &&& forall|i: int, j: int|
        #![trigger g[i], g[j]]
        0 <= i && j == i + 1 && j < g.len() ==> g[i][0].fingerprint@ != g[j][0].fingerprint@
}

/// Adding an entry of the last group's fingerprint to that group.
proof fn lemma_groups_extend(r: Seq<Seq<ClusterEntry>>, e: ClusterEntry)
    requires
        groups_ok(r),
        r.len() > 0,
        r.last().last().fingerprint@ == e.fingerprint@,
    ensures
        groups_ok(r.drop_last().push(r.last().push(e))),
{
    let g = r.drop_last().push(r.last().push(e));
    assert(r.last() == r[r.len() - 1]);
    lemma_one_body_push(r.last(), e);
    assert forall|i: int| 0 <= i < g.len() implies one_body(#[trigger] g[i]) by {
        if i < g.len() - 1 {
            assert(g[i] == r[i]);
        }
    }
    assert forall|i: int, j: int| #![trigger g[i], g[j]] 0 <= i && j == i + 1 && j < g.len() implies g[i][0].fingerprint@
        != g[j][0].fingerprint@ by {
        assert(g[i] == r[i]);
        if j < g.len() - 1 {
            assert(g[j] == r[j]);
        } else {
            assert(g[j][0] == r[j][0]);
        }
    }
}

/// Starting a new group with an entry of another fingerprint.
proof fn lemma_groups_start(r: Seq<Seq<ClusterEntry>>, e: ClusterEntry)
    requires
        groups_ok(r),
        r.len() == 0 || r.last().last().fingerprint@ != e.fingerprint@,
    ensures
        groups_ok(r.push(seq![e])),
{
    let g = r.push(seq![e]);
    assert(one_body(seq![e])) by {
        reveal(one_body);
    }
    assert forall|i: int| 0 <= i < g.len() implies one_body(#[trigger] g[i]) by {
        if i < r.len() {
            assert(g[i] == r[i]);
        }
    }
    assert forall|i: int, j: int| #![trigger g[i], g[j]] 0 <= i && j == i + 1 && j < g.len() implies g[i][0].fingerprint@
        != g[j][0].fingerprint@ by {
        assert(g[i] == r[i]);
        if j < r.len() {
            assert(g[j] == r[j]);
        } else {
            let lr = r[r.len() - 1];
            assert(r.last() == lr);
            assert(one_body(lr));
            assert(lr.last().fingerprint@ == lr[0].fingerprint@) by {
                reveal(one_body);
                assert(lr.last() == lr[lr.len() - 1]);
            }
        }
    }
}

/// Clusters are groups of one normalized body: every group is non-empty and
/// all its entries carry one fingerprint, and neighbouring groups carry
/// different fingerprints.
pub proof fn law_runs_share_fingerprint(s: Seq<ClusterEntry>)
    ensures
        groups_ok(runs(s)),
    decreases s.len(),
{
    if s.len() > 0 {
        law_runs_share_fingerprint(s.drop_last());
        let r = runs(s.drop_last());
        if r.len() > 0 && r.last().last().fingerprint@ == s.last().fingerprint@ {
            lemma_groups_extend(r, s.last());
        } else {
            lemma_groups_start(r, s.last());
        }
    }
}

/// The fingerprint order on entries is a strict weak order.
proof fn lemma_entry_order(es: Seq<ClusterEntry>)
    ensures
        strict_weak_on(es),
{
    assert forall|i: int| 0 <= i < es.len() implies !(#[trigger] es[i]).before(&es[i]) by {
        lemma_lt_irreflexive(es[i].fingerprint@);
    }
    assert forall|i: int, j: int, k: int|
        #![trigger es[i], es[j], es[k]]
        0 <= i < es.len() && 0 <= j < es.len() && 0 <= k < es.len() && es[i].before(&es[j]) && es[j].before(&es[k])
            implies es[i].before(&es[k]) by {
        lemma_lt_transitive(es[i].fingerprint@, es[j].fingerprint@, es[k].fingerprint@);
    }
    assert forall|i: int, j: int, k: int|
        #![trigger es[i], es[j], es[k]]
        0 <= i < es.len() && 0 <= j < es.len() && 0 <= k < es.len() && !es[i].before(&es[j]) && !es[j].before(
            &es[i],
        ) && !es[j].before(&es[k]) && !es[k].before(&es[j]) implies !es[i].before(&es[k]) && !es[k].before(&es[i]) by {
        lemma_lt_trichotomy(es[i].fingerprint@, es[j].fingerprint@);
        lemma_lt_trichotomy(es[j].fingerprint@, es[k].fingerprint@);
    }
}

/// Every entry of every group is an entry of the list.
proof fn lemma_runs_members(s: Seq<ClusterEntry>)
    ensures
        forall|i: int, a: int| 0 <= i < runs(s).len() && 0 <= a < runs(s)[i].len() ==> s.contains(#[trigger] runs(s)[i][a]),
    decreases s.len(),
{
    if s.len() > 0 {
        let d = s.drop_last();
        lemma_runs_members(d);
        let r = runs(d);
        let g = runs(s);
        assert forall|i: int, a: int| 0 <= i < g.len() && 0 <= a < g[i].len() implies s.contains(#[trigger] g[i][a]) by {
            if i < r.len() && (i < r.len() - 1 || g[i] == r[i]) {
                assert(g[i] == r[i]);
                let k = choose|k: int| 0 <= k < d.len() && d[k] == r[i][a];
                assert(s[k] == d[k]);
            } else if i < r.len() {
                assert(g[i] == r[i].push(s.last()));
                if a < r[i].len() {
                    assert(g[i][a] == r[i][a]);
                    let k = choose|k: int| 0 <= k < d.len() && d[k] == r[i][a];
                    assert(s[k] == d[k]);
                } else {
                    assert(s[s.len() - 1] == s.last());
                }
            } else {
                assert(g[i][a] == s.last());
                assert(s[s.len() - 1] == s.last());
            }
        }
    }
}

/// The entries of a group all sort strictly before those of every later group.
pub open spec fn groups_separated(g: Seq<Seq<ClusterEntry>>) -> bool {
    forall|i: int, j: int, a: int, b: int|
        #![trigger g[i][a], g[j][b]]
        0 <= i < j < g.len() && 0 <= a < g[i].len() && 0 <= b < g[j].len() ==> seq_lt(g[i][a].fingerprint@, g[j][b].fingerprint@)
}

/// Grouping a list sorted by fingerprint separates the groups.
proof fn lemma_runs_separated(s: Seq<ClusterEntry>)
    requires
        is_ordered(s),
    ensures
        groups_separated(runs(s)),
    decreases s.len(),
{
    if s.len() > 0 {
        let d = s.drop_last();
        let e = s.last();
        assert(is_ordered(d)) by {
            assert forall|i: int, j: int| #![trigger d[i], d[j]] 0 <= i < j < d.len() implies !d[j].before(&d[i]) by {
                assert(d[i] == s[i] && d[j] == s[j]);
            }
        }
        lemma_runs_separated(d);
        lemma_runs_members(d);
        law_runs_share_fingerprint(d);
        let r = runs(d);
        let g = runs(s);
        // every earlier entry sorts no later than the new one
        assert forall|i: int, a: int| 0 <= i < r.len() && 0 <= a < r[i].len() implies seq_le(
            (#[trigger] r[i][a]).fingerprint@,
            e.fingerprint@,
        ) by {
            let k = choose|k: int| 0 <= k < d.len() && d[k] == r[i][a];
            assert(s[k] == d[k]);
            assert(s[s.len() - 1] == e);
            assert(!s[s.len() - 1].before(&s[k]));
            lemma_lt_trichotomy(r[i][a].fingerprint@, e.fingerprint@);
        }
        if r.len() > 0 && r.last().last().fingerprint@ == e.fingerprint@ {
            let lr = r[r.len() - 1];
            assert(r.last() == lr);
            assert(g == r.drop_last().push(lr.push(e)));
            assert forall|i: int, j: int, a: int, b: int|
                #![trigger g[i][a], g[j][b]]
                0 <= i < j < g.len() && 0 <= a < g[i].len() && 0 <= b < g[j].len() implies seq_lt(
                    g[i][a].fingerprint@,
                    g[j][b].fingerprint@,
                ) by {
                assert(g[i] == r[i]);
                if j < g.len() - 1 {
                    assert(g[j] == r[j]);
                } else if b < lr.len() {
                    assert(g[j][b] == lr[b]);
                } else {
                    assert(g[j][b] == e);
                    assert(lr.len() > 0);
                    assert(lr.last() == lr[lr.len() - 1]);
                    assert(seq_lt(g[i][a].fingerprint@, lr[lr.len() - 1].fingerprint@));
                }
            }
        } else {
            assert(g == r.push(seq![e]));
            assert forall|i: int, j: int, a: int, b: int|
                #![trigger g[i][a], g[j][b]]
                0 <= i < j < g.len() && 0 <= a < g[i].len() && 0 <= b < g[j].len() implies seq_lt(
                    g[i][a].fingerprint@,
                    g[j][b].fingerprint@,
                ) by {
                assert(g[i] == r[i]);
                if j < r.len() {
                    assert(g[j] == r[j]);
                } else {
                    assert(g[j][b] == e);
                    assert(seq_le(r[i][a].fingerprint@, e.fingerprint@));
                    let lr = r[r.len() - 1];
                    assert(r.last() == lr);
                    assert(one_body(lr));
                    assert(lr.last().fingerprint@ == lr[0].fingerprint@) by {
                        reveal(one_body);
                        assert(lr.last() == lr[lr.len() - 1]);
                    }
                    if i == r.len() - 1 {
                        assert(r[i][a].fingerprint@ == lr[0].fingerprint@) by {
                            reveal(one_body);
                        }
                    }
                    if r[i][a].fingerprint@ == e.fingerprint@ {
                        if i < r.len() - 1 {
                            assert(lr.len() > 0) by {
                                reveal(one_body);
                            }
                            assert(seq_lt(r[i][a].fingerprint@, r[r.len() - 1][lr.len() - 1].fingerprint@));
                            assert(seq_le(lr[lr.len() - 1].fingerprint@, e.fingerprint@));
                            lemma_lt_trichotomy(lr[lr.len() - 1].fingerprint@, e.fingerprint@);
                        }
                    }
                }
            }
        }
    }
}

/// One normalized body, one cluster: in the grouping of the sorted entries,
/// entries of different groups never share a fingerprint, so every copy of
/// a body lands in the same group.
pub proof fn law_equal_bodies_share_a_group(entries: Seq<ClusterEntry>)
    ensures
        ({
            let g = runs(sort_stable_spec(entries));
            forall|i: int, j: int, a: int, b: int|
                #![trigger g[i][a], g[j][b]]
                0 <= i < g.len() && 0 <= j < g.len() && i != j && 0 <= a < g[i].len() && 0 <= b < g[j].len()
                    ==> g[i][a].fingerprint@ != g[j][b].fingerprint@
        }),
{
    lemma_entry_order(entries);
    lemma_sort_ordered(entries);
    let s = sort_stable_spec(entries);
    lemma_runs_separated(s);
    let g = runs(s);
    assert forall|i: int, j: int, a: int, b: int|
        #![trigger g[i][a], g[j][b]]
        0 <= i < g.len() && 0 <= j < g.len() && i != j && 0 <= a < g[i].len() && 0 <= b < g[j].len() implies g[i][a].fingerprint@
            != g[j][b].fingerprint@ by {
        if i < j {
            lemma_lt_irreflexive(g[i][a].fingerprint@);
        } else {
            lemma_lt_irreflexive(g[j][b].fingerprint@);
        }
    }
}

/// Raising the token floor only drops candidates: with the same kind
/// filter, the candidates kept at a higher floor are those kept at a lower
/// one whose body reaches the higher floor.
pub proof fn law_raising_the_floor(cs: Seq<Candidate>, lower: CloneOptions, higher: CloneOptions)
    requires
        lower.min_tokens <= higher.min_tokens,
        lower.kind == higher.kind,
    ensures
        kept_candidates(cs, higher) == kept_candidates(cs, lower).filter(
            |c: Candidate| c.token_count >= higher.min_tokens,
        ),
    decreases cs.len(),
{
    reveal(Seq::filter);
    if cs.len() > 0 {
        law_raising_the_floor(cs.drop_last(), lower, higher);
        let lo = kept_candidates(cs, lower);
        if candidate_kept(cs.last(), lower) {
            assert(lo.drop_last() =~= kept_candidates(cs.drop_last(), lower));
            assert(lo.last() == cs.last());
        }
    }
}

/// Hiding same-file clusters only drops groups: the groups reported without
/// `same_file` are those reported with it that span two files or more.
pub proof fn law_same_file_hides_one_file_groups(rs: Seq<Seq<ClusterEntry>>, symbol: Option<Seq<char>>)
    ensures
        kept_groups(rs, false, symbol) == kept_groups(rs, true, symbol).filter(|ms: Seq<Member>| !one_file(ms)),
    decreases rs.len(),
{
    reveal(Seq::filter);
    if rs.len() > 0 {
        law_same_file_hides_one_file_groups(rs.drop_last(), symbol);
        let t = kept_groups(rs, true, symbol);
        if cluster_kept(members_of(rs.last()), true, symbol) {
            assert(t.drop_last() =~= kept_groups(rs.drop_last(), true, symbol));
            assert(t.last() == members_of(rs.last()));
        }
    }
}

/// The symbol filter only drops groups: the groups reported for a symbol
/// are those reported without one that have a member of that name.
pub proof fn law_symbol_keeps_named_groups(rs: Seq<Seq<ClusterEntry>>, same_file: bool, symbol: Seq<char>)
    ensures
        kept_groups(rs, same_file, Some(symbol)) == kept_groups(rs, same_file, None).filter(
            |ms: Seq<Member>| has_name(ms, symbol),
        ),
    decreases rs.len(),
{
    reveal(Seq::filter);
    if rs.len() > 0 {
        law_symbol_keeps_named_groups(rs.drop_last(), same_file, symbol);
        let t = kept_groups(rs, same_file, None);
        if cluster_kept(members_of(rs.last()), same_file, None) {
            assert(t.drop_last() =~= kept_groups(rs.drop_last(), same_file, None));
            assert(t.last() == members_of(rs.last()));
        }
    }
}

/// What a reported cluster shows: its sites, token count, signature,
/// literals and notes.
pub open spec fn shown(c: CloneCluster) -> (Seq<CloneSite>, usize, Seq<char>, Seq<Seq<char>>, Seq<Seq<char>>) {
    (c.members@, c.token_count, c.sig@, views(c.literals@), views(c.notes@))
}

/// What the cluster of the members `ms` shows.
pub open spec fn shown_of(ms: Seq<Member>, pkgs: Seq<(Seq<char>, Set<Seq<char>>)>) -> (
    Seq<CloneSite>,
    usize,
    Seq<char>,
    Seq<Seq<char>>,
    Seq<Seq<char>>,
) {
    let sites = ms.map_values(|m: Member| m.site);
    (sites, ms[0].token_count, ms[0].site.sig@, ascending(views(ms[0].literals@).to_set()), notes_spec(sites, pkgs))
}

/// Keeping clusters by `pc` and groups by `q` agree where the predicates
/// agree on each cluster and its group.
proof fn lemma_filter_shown(
    pre: Seq<CloneCluster>,
    kept: Seq<Seq<Member>>,
    pkgs: Seq<(Seq<char>, Set<Seq<char>>)>,
    pc: spec_fn(CloneCluster) -> bool,
    q: spec_fn(Seq<Member>) -> bool,
)
    requires
        pre.len() == kept.len(),
        forall|i: int| 0 <= i < pre.len() ==> cluster_from(#[trigger] pre[i], kept[i], pkgs),
        forall|c: CloneCluster, ms: Seq<Member>| cluster_from(c, ms, pkgs) ==> pc(c) == q(ms),
    ensures
        pre.filter(pc).map_values(|c: CloneCluster| shown(c)) == kept.filter(q).map_values(
            |ms: Seq<Member>| shown_of(ms, pkgs),
        ),
    decreases pre.len(),
{
    reveal_with_fuel(Seq::filter, 1);
    if pre.len() > 0 {
        let p0 = pre.drop_last();
        let k0 = kept.drop_last();
        assert forall|i: int| 0 <= i < p0.len() implies cluster_from(#[trigger] p0[i], k0[i], pkgs) by {
            assert(p0[i] == pre[i] && k0[i] == kept[i]);
        }
        lemma_filter_shown(p0, k0, pkgs, pc, q);
        assert(cluster_from(pre.last(), kept.last(), pkgs));
        assert(pc(pre.last()) == q(kept.last()));
        assert(shown(pre.last()) == shown_of(kept.last(), pkgs));
        let a = p0.filter(pc);
        let b = k0.filter(q);
        if pc(pre.last()) {
            assert(a.push(pre.last()).map_values(|c: CloneCluster| shown(c)) =~= a.map_values(
                |c: CloneCluster| shown(c),
            ).push(shown(pre.last())));
            assert(b.push(kept.last()).map_values(|ms: Seq<Member>| shown_of(ms, pkgs)) =~= b.map_values(
                |ms: Seq<Member>| shown_of(ms, pkgs),
            ).push(shown_of(kept.last(), pkgs)));
        }
    }
}

/// Inserting clusters that show alike into sequences that show alike gives
/// sequences that show alike: the order looks only at the members.
proof fn lemma_insert_shown(a: Seq<CloneCluster>, b: Seq<CloneCluster>, x: CloneCluster, y: CloneCluster)
    requires
        a.map_values(|c: CloneCluster| shown(c)) == b.map_values(|c: CloneCluster| shown(c)),
        shown(x) == shown(y),
    ensures
        insert_stable(a, x).map_values(|c: CloneCluster| shown(c)) == insert_stable(b, y).map_values(
            |c: CloneCluster| shown(c),
        ),
    decreases a.len(),
{
    assert(a.len() == a.map_values(|c: CloneCluster| shown(c)).len());
    assert(b.len() == b.map_values(|c: CloneCluster| shown(c)).len());
    if a.len() == 0 {
        assert(insert_stable(a, x).map_values(|c: CloneCluster| shown(c)) =~= seq![shown(x)]);
        assert(insert_stable(b, y).map_values(|c: CloneCluster| shown(c)) =~= seq![shown(y)]);
    } else {
        assert(shown(a[0]) == shown(b[0])) by {
            assert(a.map_values(|c: CloneCluster| shown(c))[0] == b.map_values(|c: CloneCluster| shown(c))[0]);
        }
        assert(x.before(&a[0]) == y.before(&b[0]));
        if x.before(&a[0]) {
            assert((seq![x] + a).map_values(|c: CloneCluster| shown(c)) =~= seq![shown(x)] + a.map_values(
                |c: CloneCluster| shown(c),
            ));
            assert((seq![y] + b).map_values(|c: CloneCluster| shown(c)) =~= seq![shown(y)] + b.map_values(
                |c: CloneCluster| shown(c),
            ));
        } else {
            assert(a.drop_first().map_values(|c: CloneCluster| shown(c)) =~= a.map_values(
                |c: CloneCluster| shown(c),
            ).drop_first());
            assert(b.drop_first().map_values(|c: CloneCluster| shown(c)) =~= b.map_values(
                |c: CloneCluster| shown(c),
            ).drop_first());
            lemma_insert_shown(a.drop_first(), b.drop_first(), x, y);
            let ia = insert_stable(a.drop_first(), x);
            let ib = insert_stable(b.drop_first(), y);
            assert((seq![a[0]] + ia).map_values(|c: CloneCluster| shown(c)) =~= seq![shown(a[0])]
                + ia.map_values(|c: CloneCluster| shown(c)));
            assert((seq![b[0]] + ib).map_values(|c: CloneCluster| shown(c)) =~= seq![shown(b[0])]
                + ib.map_values(|c: CloneCluster| shown(c)));
        }
    }
}

/// Sorting sequences of clusters that show alike gives sequences that show
/// alike.
proof fn lemma_sort_shown(a: Seq<CloneCluster>, b: Seq<CloneCluster>)
    requires
        a.map_values(|c: CloneCluster| shown(c)) == b.map_values(|c: CloneCluster| shown(c)),
    ensures
        sort_stable_spec(a).map_values(|c: CloneCluster| shown(c)) == sort_stable_spec(b).map_values(
            |c: CloneCluster| shown(c),
        ),
    decreases a.len(),
{
    assert(a.len() == a.map_values(|c: CloneCluster| shown(c)).len());
    assert(b.len() == b.map_values(|c: CloneCluster| shown(c)).len());
    if a.len() > 0 {
        assert(a.drop_last().map_values(|c: CloneCluster| shown(c)) =~= a.map_values(|c: CloneCluster| shown(c)).drop_last());
        assert(b.drop_last().map_values(|c: CloneCluster| shown(c)) =~= b.map_values(|c: CloneCluster| shown(c)).drop_last());
        lemma_sort_shown(a.drop_last(), b.drop_last());
        assert(shown(a.last()) == shown(b.last())) by {
            assert(a.map_values(|c: CloneCluster| shown(c))[a.len() - 1] == b.map_values(
                |c: CloneCluster| shown(c),
            )[b.len() - 1]);
        }
        lemma_insert_shown(sort_stable_spec(a.drop_last()), sort_stable_spec(b.drop_last()), a.last(), b.last());
    }
}

/// Two reports whose kept groups differ by a filter `q` differ by the
/// matching filter `pc` on clusters.
proof fn lemma_reported_filter(
    entries1: Seq<ClusterEntry>,
    sf1: bool,
    sy1: Option<Seq<char>>,
    entries2: Seq<ClusterEntry>,
    sf2: bool,
    sy2: Option<Seq<char>>,
    pkgs: Seq<(Seq<char>, Set<Seq<char>>)>,
    r1: Seq<CloneCluster>,
    r2: Seq<CloneCluster>,
    pc: spec_fn(CloneCluster) -> bool,
    q: spec_fn(Seq<Member>) -> bool,
)
    requires
        reported(r1, entries1, sf1, sy1, pkgs),
        reported(r2, entries2, sf2, sy2, pkgs),
        kept_groups(runs(sort_stable_spec(entries2)), sf2, sy2) == kept_groups(
            runs(sort_stable_spec(entries1)),
            sf1,
            sy1,
        ).filter(q),
        forall|c: CloneCluster, ms: Seq<Member>| cluster_from(c, ms, pkgs) ==> pc(c) == q(ms),
    ensures
        r2.map_values(|c: CloneCluster| shown(c)) == r1.filter(pc).map_values(|c: CloneCluster| shown(c)),
{
    let k1 = kept_groups(runs(sort_stable_spec(entries1)), sf1, sy1);
    let k2 = kept_groups(runs(sort_stable_spec(entries2)), sf2, sy2);
    let pre1 = choose|pre: Seq<CloneCluster>|
        pre.len() == k1.len() && (forall|i: int| 0 <= i < pre.len() ==> cluster_from(#[trigger] pre[i], k1[i], pkgs))
            && r1 == sort_stable_spec(pre);
    let pre2 = choose|pre: Seq<CloneCluster>|
        pre.len() == k2.len() && (forall|i: int| 0 <= i < pre.len() ==> cluster_from(#[trigger] pre[i], k2[i], pkgs))
            && r2 == sort_stable_spec(pre);
    let all = |ms: Seq<Member>| true;
    let every = |c: CloneCluster| true;
    lemma_filter_shown(pre1, k1, pkgs, pc, q);
    lemma_filter_shown(pre2, k2, pkgs, every, all);
    lemma_filter_all(pre2, every);
    lemma_filter_all(k2, all);
    lemma_sort_shown(pre2, pre1.filter(pc));
    lemma_cluster_order(pre1);
    lemma_sort_filter(pre1, pc);
}

/// Keeping every element keeps the sequence.
proof fn lemma_filter_all<A>(s: Seq<A>, p: spec_fn(A) -> bool)
    requires
        forall|x: A| #[trigger] p(x),
    ensures
        s.filter(p) == s,
    decreases s.len(),
{
    reveal_with_fuel(Seq::filter, 1);
    if s.len() > 0 {
        lemma_filter_all(s.drop_last(), p);
        assert(s.drop_last().push(s.last()) =~= s);
    }
}

/// The sites all sit in the first site's file.
pub open spec fn sites_in_one_file(sites: Seq<CloneSite>) -> bool {
    forall|i: int|
        0 <= i < sites.len() ==> (#[trigger] sites[i]).repo@ == sites[0].repo@ && sites[i].file@ == sites[0].file@
}

/// Hiding same-file clusters only drops clusters: what is reported without
/// `same_file` is, cluster for cluster and in order, what is reported with
/// it less the clusters whose members all sit in one file.
pub proof fn law_same_file_hides_one_file_clusters(
    entries: Seq<ClusterEntry>,
    symbol: Option<Seq<char>>,
    pkgs: Seq<(Seq<char>, Set<Seq<char>>)>,
    with_same_file: Seq<CloneCluster>,
    without: Seq<CloneCluster>,
)
    requires
        reported(with_same_file, entries, true, symbol, pkgs),
        reported(without, entries, false, symbol, pkgs),
    ensures
        without.map_values(|c: CloneCluster| shown(c)) == with_same_file.filter(
            |c: CloneCluster| !sites_in_one_file(c.members@),
        ).map_values(|c: CloneCluster| shown(c)),
{
    let rs = runs(sort_stable_spec(entries));
    law_same_file_hides_one_file_groups(rs, symbol);
    let pc = |c: CloneCluster| !sites_in_one_file(c.members@);
    let q = |ms: Seq<Member>| !one_file(ms);
    assert forall|c: CloneCluster, ms: Seq<Member>| cluster_from(c, ms, pkgs) implies pc(c) == q(ms) by {
        let sites = ms.map_values(|m: Member| m.site);
        assert(c.members@ == sites);
        if one_file(ms) {
            assert forall|i: int| 0 <= i < sites.len() implies (#[trigger] sites[i]).repo@ == sites[0].repo@
                && sites[i].file@ == sites[0].file@ by {
                assert(ms[i].site.repo@ == ms[0].site.repo@);
            }
        }
        if sites_in_one_file(sites) {
            assert forall|i: int| 0 <= i < ms.len() implies (#[trigger] ms[i]).site.repo@ == ms[0].site.repo@
                && ms[i].site.file@ == ms[0].site.file@ by {
                assert(sites[i].repo@ == sites[0].repo@);
            }
        }
    }
    lemma_reported_filter(entries, true, symbol, entries, false, symbol, pkgs, with_same_file, without, pc, q);
}

/// Some site is named `n`.
pub open spec fn names_site(sites: Seq<CloneSite>, n: Seq<char>) -> bool {
    exists|i: int| 0 <= i < sites.len() && (#[trigger] sites[i]).name@ == n
}

/// The symbol filter only drops clusters: what is reported for a symbol
/// is, cluster for cluster and in order, what is reported without one less
/// the clusters with no member of that name.
pub proof fn law_symbol_keeps_named_clusters(
    entries: Seq<ClusterEntry>,
    same_file: bool,
    symbol: Seq<char>,
    pkgs: Seq<(Seq<char>, Set<Seq<char>>)>,
    unfiltered: Seq<CloneCluster>,
    for_symbol: Seq<CloneCluster>,
)
    requires
        reported(unfiltered, entries, same_file, None, pkgs),
        reported(for_symbol, entries, same_file, Some(symbol), pkgs),
    ensures
        for_symbol.map_values(|c: CloneCluster| shown(c)) == unfiltered.filter(
            |c: CloneCluster| names_site(c.members@, symbol),
        ).map_values(|c: CloneCluster| shown(c)),
{
    let rs = runs(sort_stable_spec(entries));
    law_symbol_keeps_named_groups(rs, same_file, symbol);
    let pc = |c: CloneCluster| names_site(c.members@, symbol);
    let q = |ms: Seq<Member>| has_name(ms, symbol);
    assert forall|c: CloneCluster, ms: Seq<Member>| cluster_from(c, ms, pkgs) implies pc(c) == q(ms) by {
        let sites = ms.map_values(|m: Member| m.site);
        assert(c.members@ == sites);
        if has_name(ms, symbol) {
            let i = choose|i: int| 0 <= i < ms.len() && (#[trigger] ms[i]).site.name@ == symbol;
            assert(sites[i].name@ == symbol);
        }
        if names_site(sites, symbol) {
            let i = choose|i: int| 0 <= i < sites.len() && (#[trigger] sites[i]).name@ == symbol;
            assert(ms[i].site.name@ == symbol);
        }
    }
    lemma_reported_filter(entries, same_file, None, entries, same_file, Some(symbol), pkgs, unfiltered, for_symbol, pc, q);
}

/// Entries that share a fingerprint share a token count.
pub open spec fn uniform_tokens(s: Seq<ClusterEntry>) -> bool {
    forall|i: int, j: int|
        #![trigger s[i], s[j]]
        0 <= i < s.len() && 0 <= j < s.len() && s[i].fingerprint@ == s[j].fingerprint@ ==> s[i].member.token_count
            == s[j].member.token_count
}

/// The last group ends with the last entry.
proof fn lemma_runs_last(s: Seq<ClusterEntry>)
    requires
        s.len() > 0,
    ensures
        runs(s).len() > 0,
        runs(s).last().len() > 0,
        runs(s).last().last() == s.last(),
{
}

/// On entries sorted by fingerprint whose token count follows the
/// fingerprint, keeping the entries that reach a floor keeps the groups
/// whose first entry reaches it.
proof fn lemma_runs_floor(s: Seq<ClusterEntry>, m: usize)
    requires
        is_ordered(s),
        uniform_tokens(s),
    ensures
        runs(s.filter(|e: ClusterEntry| e.member.token_count >= m)) == runs(s).filter(
            |run: Seq<ClusterEntry>| run[0].member.token_count >= m,
        ),
    decreases s.len(),
{
    let p = |e: ClusterEntry| e.member.token_count >= m;
    let q = |run: Seq<ClusterEntry>| run[0].member.token_count >= m;
    reveal_with_fuel(Seq::filter, 1);
    if s.len() == 0 {
        return;
    }
    let s0 = s.drop_last();
    let x = s.last();
    let n = s.len() as int;
    assert(x == s[n - 1]);
    assert forall|i: int, j: int| #![trigger s0[i], s0[j]] 0 <= i < j < s0.len() implies !s0[j].before(&s0[i]) by {
        assert(s0[i] == s[i] && s0[j] == s[j]);
    }
    assert forall|i: int, j: int|
        #![trigger s0[i], s0[j]]
        0 <= i < s0.len() && 0 <= j < s0.len() && s0[i].fingerprint@ == s0[j].fingerprint@ implies s0[i].member.token_count
        == s0[j].member.token_count by {
        assert(s0[i] == s[i] && s0[j] == s[j]);
    }
    lemma_runs_floor(s0, m);
    let r0 = runs(s0);
    let f0 = s0.filter(p);
    law_runs_share_fingerprint(s0);
    lemma_runs_members(s0);
    // a group's first entry carries the token count of each of its entries
    assert forall|k: int, a: int| 0 <= k < r0.len() && 0 <= a < r0[k].len() implies #[trigger] r0[k][a].member.token_count
        == r0[k][0].member.token_count by {
        assert(one_body(r0[k]));
        reveal(one_body);
        assert(s0.contains(r0[k][a]) && s0.contains(r0[k][0]));
        let ia = choose|ia: int| 0 <= ia < s0.len() && s0[ia] == r0[k][a];
        let i0 = choose|i0: int| 0 <= i0 < s0.len() && s0[i0] == r0[k][0];
        assert(s0[ia].fingerprint@ == s0[i0].fingerprint@);
    }
    let merge = r0.len() > 0 && r0.last().last().fingerprint@ == x.fingerprint@;
    if merge {
        let lr = r0.last();
        assert(lr == r0[r0.len() - 1]);
        lemma_runs_last(s0);
        assert(lr.last() == s[n - 2]);
        assert(lr.last() == lr[lr.len() - 1]);
        assert(lr[lr.len() - 1].member.token_count == lr[0].member.token_count);
        assert(s[n - 2].member.token_count == x.member.token_count);
        assert(q(lr) == p(x));
        assert(lr.push(x)[0] == lr[0]);
        let r = r0.drop_last().push(lr.push(x));
        assert(r.drop_last() =~= r0.drop_last());
        assert(r0.drop_last().push(lr) =~= r0);
        if p(x) {
            let g = f0.push(x);
            assert(g.drop_last() =~= f0);
            let fr = r0.filter(q);
            assert(fr.len() > 0 && fr.last() == lr);
            assert(fr.drop_last() =~= r0.drop_last().filter(q));
        }
    } else {
        let r = r0.push(seq![x]);
        assert(r.drop_last() =~= r0);
        assert(seq![x][0] == x);
        if p(x) {
            let g = f0.push(x);
            assert(g.drop_last() =~= f0);
            let fr = r0.filter(q);
            if fr.len() > 0 {
                // the last kept group ends with an entry of another fingerprint
                assert(fr.contains(fr.last()));
                r0.lemma_filter_contains_rev(q, fr.last());
                let k = choose|k: int| 0 <= k < r0.len() && r0[k] == fr.last();
                assert(one_body(r0[k]));
                reveal(one_body);
                let e = r0[k][r0[k].len() - 1];
                assert(fr.last().last() == e);
                assert(s0.contains(e));
                let ie = choose|ie: int| 0 <= ie < s0.len() && s0[ie] == e;
                assert(s[ie] == e);
                lemma_runs_last(s0);
                let y = s[n - 2];
                assert(r0.last().last() == y);
                assert(y.fingerprint@ != x.fingerprint@);
                assert(!x.before(&y));
                lemma_lt_trichotomy(y.fingerprint@, x.fingerprint@);
                assert(seq_lt(y.fingerprint@, x.fingerprint@));
                if ie < n - 2 {
                    assert(!y.before(&e));
                    lemma_lt_trichotomy(e.fingerprint@, y.fingerprint@);
                    if seq_lt(e.fingerprint@, y.fingerprint@) {
                        lemma_lt_transitive(e.fingerprint@, y.fingerprint@, x.fingerprint@);
                    }
                }
                lemma_lt_irreflexive(x.fingerprint@);
                assert(e.fingerprint@ != x.fingerprint@);
            }
        }
    }
}

/// Keeping the groups whose first entry reaches a floor keeps the member
/// lists whose first member reaches it, where each group has one token
/// count.
proof fn lemma_kept_floor(rs: Seq<Seq<ClusterEntry>>, same_file: bool, symbol: Option<Seq<char>>, m: usize)
    requires
        forall|k: int| 0 <= k < rs.len() ==> (#[trigger] rs[k]).len() > 0,
        forall|k: int, a: int| 0 <= k < rs.len() && 0 <= a < rs[k].len() ==> #[trigger] rs[k][a].member.token_count
            == rs[k][0].member.token_count,
    ensures
        kept_groups(rs.filter(|run: Seq<ClusterEntry>| run[0].member.token_count >= m), same_file, symbol)
            == kept_groups(rs, same_file, symbol).filter(|ms: Seq<Member>| ms[0].token_count >= m),
    decreases rs.len(),
{
    let q = |run: Seq<ClusterEntry>| run[0].member.token_count >= m;
    let qm = |ms: Seq<Member>| ms[0].token_count >= m;
    reveal_with_fuel(Seq::filter, 1);
    if rs.len() > 0 {
        let r0 = rs.drop_last();
        let run = rs.last();
        assert(run == rs[rs.len() - 1]);
        assert forall|k: int, a: int| 0 <= k < r0.len() && 0 <= a < r0[k].len() implies #[trigger] r0[k][a].member.token_count
            == r0[k][0].member.token_count by {
            assert(r0[k] == rs[k]);
        }
        lemma_kept_floor(r0, same_file, symbol, m);
        let mv = run.map_values(|e: ClusterEntry| e.member);
        let ms = members_of(run);
        lemma_sort_permutes(mv);
        lemma_sort_members(mv, 0);
        let j = choose|j: int| 0 <= j < mv.len() && mv[j] == ms[0];
        assert(mv[j] == run[j].member);
        assert(qm(ms) == q(run));
        let k0 = kept_groups(r0, same_file, symbol);
        if q(run) {
            let f = r0.filter(q).push(run);
            assert(f.drop_last() =~= r0.filter(q));
            assert(f.last() == run);
            if cluster_kept(ms, same_file, symbol) {
                assert(k0.push(ms).drop_last() =~= k0);
            }
        } else if cluster_kept(ms, same_file, symbol) {
            assert(k0.push(ms).drop_last() =~= k0);
        }
    }
}

/// Raising the token floor only drops clusters: where entries of one
/// fingerprint carry one token count (the count of the normalized body),
/// what is reported for the entries that reach a floor is, cluster for
/// cluster and in order, what is reported for all of them less the
/// clusters below the floor.
pub proof fn law_raising_the_floor_on_clusters(
    entries: Seq<ClusterEntry>,
    floor: usize,
    same_file: bool,
    symbol: Option<Seq<char>>,
    pkgs: Seq<(Seq<char>, Set<Seq<char>>)>,
    all: Seq<CloneCluster>,
    above: Seq<CloneCluster>,
)
    requires
        uniform_tokens(entries),
        reported(all, entries, same_file, symbol, pkgs),
        reported(above, entries.filter(|e: ClusterEntry| e.member.token_count >= floor), same_file, symbol, pkgs),
    ensures
        above.map_values(|c: CloneCluster| shown(c)) == all.filter(|c: CloneCluster| c.token_count >= floor).map_values(
            |c: CloneCluster| shown(c),
        ),
{
    let p = |e: ClusterEntry| e.member.token_count >= floor;
    let q = |run: Seq<ClusterEntry>| run[0].member.token_count >= floor;
    let qm = |ms: Seq<Member>| ms[0].token_count >= floor;
    let pc = |c: CloneCluster| c.token_count >= floor;
    let srt = sort_stable_spec(entries);
    lemma_entry_order(entries);
    lemma_sort_filter(entries, p);
    lemma_sort_ordered(entries);
    assert forall|i: int, j: int|
        #![trigger srt[i], srt[j]]
        0 <= i < srt.len() && 0 <= j < srt.len() && srt[i].fingerprint@ == srt[j].fingerprint@ implies srt[i].member.token_count
        == srt[j].member.token_count by {
        lemma_sort_members(entries, i);
        lemma_sort_members(entries, j);
        let a = choose|a: int| 0 <= a < entries.len() && entries[a] == srt[i];
        let b = choose|b: int| 0 <= b < entries.len() && entries[b] == srt[j];
    }
    lemma_runs_floor(srt, floor);
    let rs = runs(srt);
    law_runs_share_fingerprint(srt);
    lemma_runs_members(srt);
    assert forall|k: int| 0 <= k < rs.len() implies (#[trigger] rs[k]).len() > 0 by {
        assert(one_body(rs[k]));
        reveal(one_body);
    }
    assert forall|k: int, a: int| 0 <= k < rs.len() && 0 <= a < rs[k].len() implies #[trigger] rs[k][a].member.token_count
        == rs[k][0].member.token_count by {
        assert(one_body(rs[k]));
        reveal(one_body);
        assert(srt.contains(rs[k][a]) && srt.contains(rs[k][0]));
        let ia = choose|ia: int| 0 <= ia < srt.len() && srt[ia] == rs[k][a];
        let i0 = choose|i0: int| 0 <= i0 < srt.len() && srt[i0] == rs[k][0];
        assert(srt[ia].fingerprint@ == srt[i0].fingerprint@);
    }
    lemma_kept_floor(rs, same_file, symbol, floor);
    assert forall|c: CloneCluster, ms: Seq<Member>| cluster_from(c, ms, pkgs) implies pc(c) == qm(ms) by {}
    lemma_reported_filter(entries, same_file, symbol, entries.filter(p), same_file, symbol, pkgs, all, above, pc, qm);
}

} // verus!
