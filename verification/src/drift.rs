//! Version drift of the shared `lxp-common-*` / `lxp-design-system`
//! packages across the repos of a workspace.
use vstd::prelude::*;
use crate::digits::{parse_u64_range, parse_u64_spec};
use crate::discover::Repo;
use crate::strmap::{keys_of, strictly_sorted, StrMap};
use crate::text::{chars_of, is_prefix, starts_with_exec};

verus! {

/// How far the versions of one package diverge: by the highest differing
/// semver component (patch differences are ignored).
#[derive(PartialEq, Eq, Structural, Debug, Clone, Copy)]
pub enum DriftLevel {
    Same,
    Minor,
    Major,
}

/// One tracked package and the version each consuming repo declares.
pub struct DriftRow {
    pub package: String,
    /// repo name -> version string
    pub versions: StrMap<String>,
    pub level: DriftLevel,
}

/// Leading characters that a version requirement may carry before its number.
pub open spec fn is_version_mark(c: char) -> bool {
    c == '^' || c == '~' || c == '=' || c == 'v'
}

/// The version text with every leading `^`, `~`, `=`, `v` removed.
pub open spec fn strip_marks(s: Seq<char>) -> Seq<char>
    decreases s.len(),
{
    if s.len() > 0 && is_version_mark(s[0]) {
        strip_marks(s.drop_first())
    } else {
        s
    }
}

/// Index of the first `.` in `s`, or its length when there is none.
pub open spec fn dot_index(s: Seq<char>) -> int
    decreases s.len(),
{
    if s.len() == 0 {
        0
    } else if s[0] == '.' {
        0
    } else {
        1 + dot_index(s.drop_first())
    }
}

/// (major, minor) of a version requirement: the first dot-separated field
/// must parse as an unsigned integer; a missing or unparseable second field
/// counts as 0. `None` when the version is unparseable (`workspace:*`,
/// `latest`, git URLs).
pub open spec fn major_minor_spec(version: Seq<char>) -> Option<(u64, u64)> {
    let v = strip_marks(version);
    let e = dot_index(v);
    match parse_u64_spec(v.take(e)) {
        None => None,
        Some(major) => {
            let minor = if e < v.len() {
                let rest = v.skip(e + 1);
                match parse_u64_spec(rest.take(dot_index(rest))) {
                    Some(m) => m,
                    None => 0,
                }
            } else {
                0
            };
            Some((major, minor))
        }
    }
}

pub proof fn lemma_dot_index_bounds(s: Seq<char>)
    ensures
        0 <= dot_index(s) <= s.len(),
        dot_index(s) < s.len() ==> s[dot_index(s)] == '.',
        forall|k: int| 0 <= k < dot_index(s) ==> s[k] != '.',
    decreases s.len(),
{
    if s.len() > 0 && s[0] != '.' {
        lemma_dot_index_bounds(s.drop_first());
        assert forall|k: int| 0 <= k < dot_index(s) implies s[k] != '.' by {
            if k > 0 {
                assert(s[k] == s.drop_first()[k - 1]);
            }
        }
    }
}

/// Index of the first `.` at or after `from`, or `s.len()`.
fn find_dot(s: &Vec<char>, from: usize) -> (r: usize)
    requires
        from <= s.len(),
    ensures
        from <= r <= s.len(),
        r - from == dot_index(s@.skip(from as int)),
{
    let mut j = from;
    while j < s.len() && s[j] != '.'
        invariant
            from <= j <= s.len(),
            dot_index(s@.skip(from as int)) == (j - from) + dot_index(s@.skip(j as int)),
        decreases s.len() - j,
    {
        assert(s@.skip(j as int).drop_first() =~= s@.skip(j + 1));
        j = j + 1;
    }
    if j < s.len() {
        assert(s@.skip(j as int)[0] == '.');
    } else {
        assert(s@.skip(j as int).len() == 0);
    }
    j
}

/// Parses the (major, minor) pair of a version requirement.
pub fn major_minor(version: &str) -> (r: Option<(u64, u64)>)
    ensures
        r == major_minor_spec(version@),
{
    let s = chars_of(version);
    let mut i: usize = 0;
    assert(s@.skip(0) =~= s@);
    while i < s.len() && (s[i] == '^' || s[i] == '~' || s[i] == '=' || s[i] == 'v')
        invariant
            i <= s.len(),
            strip_marks(s@) == strip_marks(s@.skip(i as int)),
        decreases s.len() - i,
    {
        assert(s@.skip(i as int).drop_first() =~= s@.skip(i + 1));
        i = i + 1;
    }
    let ghost v = s@.skip(i as int);
    assert(strip_marks(s@) == v);
    let e = find_dot(&s, i);
    assert(v.take(e - i) =~= s@.subrange(i as int, e as int));
    let major = match parse_u64_range(&s, i, e) {
        None => return None,
        Some(m) => m,
    };
    let minor = if e < s.len() {
        let k = e + 1;
        let m = find_dot(&s, k);
        assert(v.skip(e - i + 1) =~= s@.skip(k as int));
        assert(s@.skip(k as int).take(m - k) =~= s@.subrange(k as int, m as int));
        match parse_u64_range(&s, k, m) {
            Some(x) => x,
            None => 0,
        }
    } else {
        0
    };
    Some((major, minor))
}

/// A package whose drift is tracked.
pub open spec fn is_tracked(p: Seq<char>) -> bool {
    is_prefix("lxp-common-"@, p) || is_prefix("lxp-design-system"@, p)
}

/// The string values of a map, as character sequences.
pub open spec fn str_view(m: Map<Seq<char>, String>) -> Map<Seq<char>, Seq<char>> {
    Map::new(|k: Seq<char>| m.contains_key(k), |k: Seq<char>| m[k]@)
}

/// repo name -> version of `pkg`, over `repos` in order: a later repo of the
/// same name replaces an earlier one.
pub open spec fn versions_spec(repos: Seq<Repo>, pkg: Seq<char>) -> Map<Seq<char>, Seq<char>>
    decreases repos.len(),
{
    if repos.len() == 0 {
        Map::empty()
    } else {
        let prev = versions_spec(repos.drop_last(), pkg);
        let r = repos.last();
        if r.deps.view_map().contains_key(pkg) {
            prev.insert(r.name@, r.deps.view_map()[pkg]@)
        } else {
            prev
        }
    }
}

/// Some repo declares `pkg`.
pub open spec fn declared_somewhere(repos: Seq<Repo>, pkg: Seq<char>) -> bool {
    exists|i: int| 0 <= i < repos.len() && (#[trigger] repos[i]).deps.view_map().contains_key(pkg)
}

/// The version at `k` parses.
pub open spec fn parses_at(vs: Map<Seq<char>, Seq<char>>, k: Seq<char>) -> bool {
    vs.contains_key(k) && major_minor_spec(vs[k]) is Some
}

/// Major component of a version (0 when unparseable).
pub open spec fn major_of(v: Seq<char>) -> u64 {
    match major_minor_spec(v) {
        Some(p) => p.0,
        None => 0,
    }
}

/// Minor component of a version (0 when unparseable).
pub open spec fn minor_of(v: Seq<char>) -> u64 {
    match major_minor_spec(v) {
        Some(p) => p.1,
        None => 0,
    }
}

/// Major component of the version at `k`.
pub open spec fn major_at(vs: Map<Seq<char>, Seq<char>>, k: Seq<char>) -> u64 {
    major_of(vs[k])
}

/// Minor component of the version at `k`.
pub open spec fn minor_at(vs: Map<Seq<char>, Seq<char>>, k: Seq<char>) -> u64 {
    minor_of(vs[k])
}

/// Two parseable versions with different majors make `Major`; otherwise two
/// with different minors make `Minor`; otherwise `Same`.
pub open spec fn level_spec(vs: Map<Seq<char>, Seq<char>>) -> DriftLevel {
    if exists|a: Seq<char>, b: Seq<char>|
        #![trigger major_at(vs, a), major_at(vs, b)]
        parses_at(vs, a) && parses_at(vs, b) && major_at(vs, a) != major_at(vs, b) {
        DriftLevel::Major
    } else if exists|a: Seq<char>, b: Seq<char>|
        #![trigger minor_at(vs, a), minor_at(vs, b)]
        parses_at(vs, a) && parses_at(vs, b) && minor_at(vs, a) != minor_at(vs, b) {
        DriftLevel::Minor
    } else {
        DriftLevel::Same
    }
}

/// The drift level of one package's versions.
pub fn drift_level(versions: &StrMap<String>) -> (r: DriftLevel)
    requires
        versions.wf(),
    ensures
        r == level_spec(str_view(versions.view_map())),
{
    let ghost vs = str_view(versions.view_map());
    let ghost es = versions.entries@;
    let mut have_first = false;
    let mut fmaj: u64 = 0;
    let mut fmin: u64 = 0;
    let ghost mut fk: int = 0;
    let mut major_diff = false;
    let mut minor_diff = false;
    let mut t: usize = 0;
    while t < versions.entries.len()
        invariant
            versions.wf(),
            es == versions.entries@,
            t <= es.len(),
            !have_first <==> (forall|k: int| 0 <= k < t ==> major_minor_spec(#[trigger] es[k].1@) is None),
            have_first ==> 0 <= fk < t && major_minor_spec(es[fk].1@) == Some((fmaj, fmin)),
            major_diff <==> (exists|k: int| 0 <= k < t && major_minor_spec(#[trigger] es[k].1@) is Some && have_first && major_of(es[k].1@) != fmaj),
            minor_diff <==> (exists|k: int| 0 <= k < t && major_minor_spec(#[trigger] es[k].1@) is Some && have_first && minor_of(es[k].1@) != fmin),
        decreases es.len() - t,
    {
        let parsed = major_minor(versions.entries[t].1.as_str());
        match parsed {
            None => {}
            Some(p) => {
                if !have_first {
                    have_first = true;
                    fmaj = p.0;
                    fmin = p.1;
                    proof {
                        fk = t as int;
                    }
                } else {
                    if p.0 != fmaj {
                        major_diff = true;
                    }
                    if p.1 != fmin {
                        minor_diff = true;
                    }
                }
            }
        }
        t = t + 1;
    }
    proof {
        assert forall|k: Seq<char>| vs.contains_key(k) implies 0 <= versions.idx(k) < es.len() && vs[k] == es[versions.idx(k)].1@ by {}
        assert forall|j: int| 0 <= j < es.len() implies vs.contains_key(#[trigger] es[j].0@) && vs[es[j].0@] == es[j].1@ by {
            versions.lemma_wf_idx(j);
        }
    }
    if major_diff {
        proof {
            let k = choose|k: int| 0 <= k < t && major_minor_spec(#[trigger] es[k].1@) is Some && have_first && major_of(es[k].1@) != fmaj;
            let a = es[fk].0@;
            let b = es[k].0@;
            assert(vs[a] == es[fk].1@);
            assert(vs[b] == es[k].1@);
            assert(parses_at(vs, a) && parses_at(vs, b) && major_at(vs, a) != major_at(vs, b));
        }
        DriftLevel::Major
    } else {
        assert(!exists|a: Seq<char>, b: Seq<char>|
            #![trigger major_at(vs, a), major_at(vs, b)]
            parses_at(vs, a) && parses_at(vs, b) && major_at(vs, a) != major_at(vs, b)) by {
            assert forall|a: Seq<char>, b: Seq<char>|
                #![trigger major_at(vs, a), major_at(vs, b)]
                parses_at(vs, a) && parses_at(vs, b) implies major_at(vs, a) == major_at(vs, b) by {
                let ia = versions.idx(a);
                let ib = versions.idx(b);
                assert(major_minor_spec(es[ia].1@) is Some);
                assert(major_minor_spec(es[ib].1@) is Some);
            }
        }
        if minor_diff {
            proof {
                let k = choose|k: int| 0 <= k < t && major_minor_spec(#[trigger] es[k].1@) is Some && have_first && minor_of(es[k].1@) != fmin;
                let a = es[fk].0@;
                let b = es[k].0@;
                assert(vs[a] == es[fk].1@);
                assert(vs[b] == es[k].1@);
                assert(parses_at(vs, a) && parses_at(vs, b) && minor_at(vs, a) != minor_at(vs, b));
            }
            DriftLevel::Minor
        } else {
            assert(!exists|a: Seq<char>, b: Seq<char>|
                #![trigger minor_at(vs, a), minor_at(vs, b)]
                parses_at(vs, a) && parses_at(vs, b) && minor_at(vs, a) != minor_at(vs, b)) by {
                assert forall|a: Seq<char>, b: Seq<char>|
                    #![trigger minor_at(vs, a), minor_at(vs, b)]
                    parses_at(vs, a) && parses_at(vs, b) implies minor_at(vs, a) == minor_at(vs, b) by {
                    let ia = versions.idx(a);
                    let ib = versions.idx(b);
                    assert(major_minor_spec(es[ia].1@) is Some);
                    assert(major_minor_spec(es[ib].1@) is Some);
                }
            }
            DriftLevel::Same
        }
    }
}

/// `pkg` is among the first `j` keys of a repo's dependencies.
pub open spec fn among_first(r: Repo, j: int, pkg: Seq<char>) -> bool {
    exists|k: int| 0 <= k < j && r.deps.key_at(k) == pkg
}

pub proof fn lemma_versions_undeclared(repos: Seq<Repo>, pkg: Seq<char>)
    requires
        !declared_somewhere(repos, pkg),
    ensures
        versions_spec(repos, pkg) == Map::<Seq<char>, Seq<char>>::empty(),
    decreases repos.len(),
{
    if repos.len() > 0 {
        let d = repos.drop_last();
        assert(!declared_somewhere(d, pkg)) by {
            if declared_somewhere(d, pkg) {
                let i = choose|i: int| 0 <= i < d.len() && (#[trigger] d[i]).deps.view_map().contains_key(pkg);
                assert(repos[i] == d[i]);
            }
        }
        lemma_versions_undeclared(d, pkg);
        assert(repos[repos.len() - 1] == repos.last());
    }
}

pub proof fn lemma_declared_step(repos: Seq<Repo>, i: int, pkg: Seq<char>)
    requires
        0 <= i < repos.len(),
    ensures
        declared_somewhere(repos.take(i + 1), pkg) == (declared_somewhere(repos.take(i), pkg)
            || repos[i].deps.view_map().contains_key(pkg)),
{
    let a = repos.take(i + 1);
    let b = repos.take(i);
    if declared_somewhere(a, pkg) {
        let k = choose|k: int| 0 <= k < a.len() && (#[trigger] a[k]).deps.view_map().contains_key(pkg);
        if k < i {
            assert(b[k] == a[k]);
        }
    }
    if declared_somewhere(b, pkg) {
        let k = choose|k: int| 0 <= k < b.len() && (#[trigger] b[k]).deps.view_map().contains_key(pkg);
        assert(a[k] == b[k]);
    }
    if repos[i].deps.view_map().contains_key(pkg) {
        assert(a[i] == repos[i]);
    }
}

/// Groups the tracked dependencies of all repos by package, sorted by
/// package name, each with its per-repo versions and drift level.
pub fn compute_drift(repos: &Vec<Repo>) -> (rows: Vec<DriftRow>)
    requires
        forall|i: int| 0 <= i < repos@.len() ==> (#[trigger] repos@[i]).deps.wf(),
    ensures
        strictly_sorted(rows@.map_values(|r: DriftRow| r.package@)),
        forall|p: Seq<char>| (exists|i: int| 0 <= i < rows@.len() && (#[trigger] rows@[i]).package@ == p)
            <==> (is_tracked(p) && declared_somewhere(repos@, p)),
        forall|i: int| 0 <= i < rows@.len() ==> {
            &&& (#[trigger] rows@[i]).versions.wf()
            &&& str_view(rows@[i].versions.view_map()) == versions_spec(repos@, rows@[i].package@)
            &&& rows@[i].level == level_spec(versions_spec(repos@, rows@[i].package@))
        },
{
    let p1 = chars_of("lxp-common-");
    let p2 = chars_of("lxp-design-system");
    let mut table: StrMap<StrMap<String>> = StrMap::new();
    let mut i: usize = 0;
    while i < repos.len()
        invariant
            i <= repos@.len(),
            p1@ == "lxp-common-"@,
            p2@ == "lxp-design-system"@,
            forall|q: int| 0 <= q < repos@.len() ==> (#[trigger] repos@[q]).deps.wf(),
            table.wf(),
            forall|p: Seq<char>| #[trigger] table.view_map().contains_key(p) <==> (is_tracked(p) && declared_somewhere(repos@.take(i as int), p)),
            forall|p: Seq<char>| #[trigger] table.view_map().contains_key(p) ==> table.view_map()[p].wf()
                && str_view(table.view_map()[p].view_map()) == versions_spec(repos@.take(i as int), p),
        decreases repos@.len() - i,
    {
        let repo = &repos[i];
        let ghost before = repos@.take(i as int);
        let mut j: usize = 0;
        while j < repo.deps.entries.len()
            invariant
                i < repos@.len(),
                repo == repos@[i as int],
                before == repos@.take(i as int),
                j <= repo.deps.entries@.len(),
                repo.deps.wf(),
                p1@ == "lxp-common-"@,
                p2@ == "lxp-design-system"@,
                table.wf(),
                forall|p: Seq<char>| #[trigger] table.view_map().contains_key(p) <==> (is_tracked(p) && (
                    declared_somewhere(before, p) || among_first(*repo, j as int, p))),
                forall|p: Seq<char>| #[trigger] table.view_map().contains_key(p) ==> table.view_map()[p].wf()
                    && str_view(table.view_map()[p].view_map()) == (if among_first(*repo, j as int, p) {
                    versions_spec(before, p).insert(repo.name@, repo.deps.view_map()[p]@)
                } else {
                    versions_spec(before, p)
                }),
            decreases repo.deps.entries@.len() - j,
        {
            let pkg = &repo.deps.entries[j].0;
            let ver = &repo.deps.entries[j].1;
            let pc = chars_of(pkg.as_str());
            proof {
                repo.deps.lemma_wf_idx(j as int);
                assert forall|k: int| 0 <= k < j implies repo.deps.key_at(k) != pkg@ by {
                    assert(keys_of(repo.deps.entries@)[k] == repo.deps.key_at(k));
                    assert(keys_of(repo.deps.entries@)[j as int] == pkg@);
                    crate::order::lemma_lt_irreflexive(pkg@);
                }
                assert forall|p: Seq<char>| among_first(*repo, j + 1, p) == (among_first(*repo, j as int, p) || p == pkg@) by {
                    if among_first(*repo, j + 1, p) {
                        let k = choose|k: int| 0 <= k < j + 1 && repo.deps.key_at(k) == p;
                    }
                }
            }
            if starts_with_exec(&pc, &p1) || starts_with_exec(&pc, &p2) {
                let ghost old_table = table.view_map();
                let mut inner = match table.remove_key(pkg) {
                    Some(m) => m,
                    None => StrMap::new(),
                };
                proof {
                    if !old_table.contains_key(pkg@) {
                        assert(!declared_somewhere(before, pkg@));
                        lemma_versions_undeclared(before, pkg@);
                        assert(str_view(inner.view_map()) =~= versions_spec(before, pkg@));
                    }
                }
                let ghost base = inner.view_map();
                inner.insert(repo.name.clone(), ver.clone());
                table.insert(pkg.clone(), inner);
                proof {
                    assert(str_view(inner.view_map()) =~= str_view(base).insert(repo.name@, ver@));
                    assert(repo.deps.view_map()[pkg@] == *ver);
                    assert forall|p: Seq<char>| #[trigger] table.view_map().contains_key(p) <==> (is_tracked(p) && (
                        declared_somewhere(before, p) || among_first(*repo, j + 1, p))) by {}
                }
            } else {
                proof {
                    assert(!is_tracked(pkg@));
                }
            }
            j = j + 1;
        }
        proof {
            assert forall|p: Seq<char>| among_first(*repo, repo.deps.entries@.len() as int, p) == repo.deps.view_map().contains_key(p) by {
                if repo.deps.view_map().contains_key(p) {
                    let k = repo.deps.idx(p);
                }
            }
            assert(repos@.take(i + 1).drop_last() =~= before);
            assert(repos@.take(i + 1).last() == repo);
            assert forall|p: Seq<char>| #[trigger] table.view_map().contains_key(p) <==> (is_tracked(p) && declared_somewhere(repos@.take(i + 1), p)) by {
                lemma_declared_step(repos@, i as int, p);
            }
        }
        i = i + 1;
    }
    assert(repos@.take(repos@.len() as int) =~= repos@);
    let ghost tv = table.view_map();
    let ghost tes = table.entries@;
    proof {
        assert forall|k: int| 0 <= k < tes.len() implies tv.contains_key(tes[k].0@) && tv[tes[k].0@] == tes[k].1 by {
            table.lemma_wf_idx(k);
        }
    }
    let mut rows: Vec<DriftRow> = Vec::new();
    for e in it: table.entries
        invariant
            tes == it.seq(),
            strictly_sorted(keys_of(tes)),
            forall|k: int| 0 <= k < tes.len() ==> tv.contains_key(tes[k].0@) && tv[tes[k].0@] == tes[k].1,
            forall|p: Seq<char>| #[trigger] tv.contains_key(p) ==> tv[p].wf()
                && str_view(tv[p].view_map()) == versions_spec(repos@, p),
            rows@.len() == it.index(),
            forall|k: int| 0 <= k < it.index() ==> {
                &&& (#[trigger] rows@[k]).package@ == tes[k].0@
                &&& rows@[k].versions == tes[k].1
                &&& rows@[k].level == level_spec(str_view(tes[k].1.view_map()))
            },
    {
        let (package, versions) = e;
        let level = drift_level(&versions);
        rows.push(DriftRow { package, versions, level });
    }
    proof {
        let names = rows@.map_values(|r: DriftRow| r.package@);
        assert(names =~= keys_of(tes));
        assert forall|p: Seq<char>| (exists|i: int| 0 <= i < rows@.len() && (#[trigger] rows@[i]).package@ == p)
            <==> (is_tracked(p) && declared_somewhere(repos@, p)) by {
            if tv.contains_key(p) {
                let k = table.idx(p);
                assert(rows@[k].package@ == p);
            }
            if exists|i: int| 0 <= i < rows@.len() && (#[trigger] rows@[i]).package@ == p {
                let i = choose|i: int| 0 <= i < rows@.len() && (#[trigger] rows@[i]).package@ == p;
                assert(tv.contains_key(tes[i].0@));
            }
        }
    }
    rows
}

/// A package declared by a single repo never drifts.
pub proof fn law_single_declaration_is_same(repo: Seq<char>, version: Seq<char>)
    ensures
        level_spec(Map::<Seq<char>, Seq<char>>::empty().insert(repo, version)) == DriftLevel::Same,
{
    let vs = Map::<Seq<char>, Seq<char>>::empty().insert(repo, version);
    assert forall|a: Seq<char>, b: Seq<char>| parses_at(vs, a) && parses_at(vs, b) implies major_at(vs, a) == major_at(
        vs,
        b,
    ) && minor_at(vs, a) == minor_at(vs, b) by {
        assert(a == repo && b == repo);
    }
}

/// Two version maps that agree on which repos have a parseable version and
/// on those versions' (major, minor) pairs have the same drift level.
proof fn lemma_same_parsed(vs1: Map<Seq<char>, Seq<char>>, vs2: Map<Seq<char>, Seq<char>>)
    requires
        forall|a: Seq<char>| #[trigger] parses_at(vs1, a) == parses_at(vs2, a),
        forall|a: Seq<char>|
            #![trigger major_at(vs1, a)]
            #![trigger major_at(vs2, a)]
            #![trigger minor_at(vs1, a)]
            #![trigger minor_at(vs2, a)]
            parses_at(vs1, a) ==> major_at(vs1, a) == major_at(vs2, a) && minor_at(vs1, a) == minor_at(vs2, a),
    ensures
        level_spec(vs1) == level_spec(vs2),
{
    let major1 = exists|a: Seq<char>, b: Seq<char>|
        #![trigger major_at(vs1, a), major_at(vs1, b)]
        parses_at(vs1, a) && parses_at(vs1, b) && major_at(vs1, a) != major_at(vs1, b);
    let major2 = exists|a: Seq<char>, b: Seq<char>|
        #![trigger major_at(vs2, a), major_at(vs2, b)]
        parses_at(vs2, a) && parses_at(vs2, b) && major_at(vs2, a) != major_at(vs2, b);
    if major1 {
        let (a, b) = choose|a: Seq<char>, b: Seq<char>|
            #![trigger major_at(vs1, a), major_at(vs1, b)]
            parses_at(vs1, a) && parses_at(vs1, b) && major_at(vs1, a) != major_at(vs1, b);
        assert(parses_at(vs2, a) && parses_at(vs2, b) && major_at(vs2, a) != major_at(vs2, b));
    }
    if major2 {
        let (a, b) = choose|a: Seq<char>, b: Seq<char>|
            #![trigger major_at(vs2, a), major_at(vs2, b)]
            parses_at(vs2, a) && parses_at(vs2, b) && major_at(vs2, a) != major_at(vs2, b);
        assert(parses_at(vs1, a) && parses_at(vs1, b) && major_at(vs1, a) != major_at(vs1, b));
    }
    let minor1 = exists|a: Seq<char>, b: Seq<char>|
        #![trigger minor_at(vs1, a), minor_at(vs1, b)]
        parses_at(vs1, a) && parses_at(vs1, b) && minor_at(vs1, a) != minor_at(vs1, b);
    let minor2 = exists|a: Seq<char>, b: Seq<char>|
        #![trigger minor_at(vs2, a), minor_at(vs2, b)]
        parses_at(vs2, a) && parses_at(vs2, b) && minor_at(vs2, a) != minor_at(vs2, b);
    if minor1 {
        let (a, b) = choose|a: Seq<char>, b: Seq<char>|
            #![trigger minor_at(vs1, a), minor_at(vs1, b)]
            parses_at(vs1, a) && parses_at(vs1, b) && minor_at(vs1, a) != minor_at(vs1, b);
        assert(parses_at(vs2, a) && parses_at(vs2, b) && minor_at(vs2, a) != minor_at(vs2, b));
    }
    if minor2 {
        let (a, b) = choose|a: Seq<char>, b: Seq<char>|
            #![trigger minor_at(vs2, a), minor_at(vs2, b)]
            parses_at(vs2, a) && parses_at(vs2, b) && minor_at(vs2, a) != minor_at(vs2, b);
        assert(parses_at(vs1, a) && parses_at(vs1, b) && minor_at(vs1, a) != minor_at(vs1, b));
    }
}

/// Only the (major, minor) pair of each version counts: two version maps
/// over the same repos whose versions parse to the same pairs (patch
/// components and version marks aside) have the same drift level.
pub proof fn law_patch_is_ignored(vs1: Map<Seq<char>, Seq<char>>, vs2: Map<Seq<char>, Seq<char>>)
    requires
        vs1.dom() == vs2.dom(),
        forall|k: Seq<char>| #[trigger] vs1.contains_key(k) ==> major_minor_spec(vs1[k]) == major_minor_spec(vs2[k]),
    ensures
        level_spec(vs1) == level_spec(vs2),
{
    assert forall|a: Seq<char>| #[trigger] parses_at(vs1, a) == parses_at(vs2, a) by {
        if vs1.contains_key(a) {
            assert(vs2.contains_key(a));
        } else {
            assert(!vs2.contains_key(a));
        }
    }
    assert forall|a: Seq<char>| parses_at(vs1, a) implies #[trigger] major_at(vs1, a) == major_at(vs2, a) && minor_at(
        vs1,
        a,
    ) == minor_at(vs2, a) by {
        assert(vs1.contains_key(a));
    }
    lemma_same_parsed(vs1, vs2);
}

/// Unparseable versions (`workspace:*`, `latest`, git URLs) are skipped:
/// adding one for a repo not listed yet leaves the drift level unchanged.
pub proof fn law_unparseable_versions_are_skipped(vs: Map<Seq<char>, Seq<char>>, repo: Seq<char>, version: Seq<char>)
    requires
        !vs.contains_key(repo),
        major_minor_spec(version) is None,
    ensures
        level_spec(vs.insert(repo, version)) == level_spec(vs),
{
    let vs2 = vs.insert(repo, version);
    assert forall|a: Seq<char>| #[trigger] parses_at(vs2, a) == parses_at(vs, a) by {
        if a != repo {
            assert(vs2.contains_key(a) == vs.contains_key(a));
            if vs.contains_key(a) {
                assert(vs2[a] == vs[a]);
            }
        }
    }
    assert forall|a: Seq<char>| parses_at(vs2, a) implies #[trigger] major_at(vs2, a) == major_at(vs, a) && minor_at(
        vs2,
        a,
    ) == minor_at(vs, a) by {
        assert(a != repo);
        assert(vs2[a] == vs[a]);
    }
    lemma_same_parsed(vs2, vs);
}

} // verus!
