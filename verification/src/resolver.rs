//! Import-specifier resolution for one repo: tsconfig `paths` aliases,
//! `baseUrl`, and relative imports, canonicalized so that alias and
//! relative imports of the same module compare equal.
use vstd::prelude::*;
use crate::paths::{
    comps, join_norm, norm_comps, norm_fold, path_components, render, vv, with_ext_spec,
    child_spec, NormPath, normalize_components, join_slash, root_comp, cur_comp, parent_comp,
    join_comps_norm, join_components_normalized, kept_segment, law_normalize_idempotent, lemma_norm_fold_plain,
};
use crate::order::compare_chars;
use crate::json::{JsonValue, jsonc_document, parse_jsonc};
use crate::text::{owned, byte_len, utf8_len, chars_of, is_prefix, push_char, push_str, starts_with_exec, copy_chars, string_from_chars};

verus! {

/// A normalized path as (absolute, segments).
pub type PathView = (bool, Seq<Seq<char>>);

/// Where an import points: an npm package specifier kept verbatim, or the
/// canonical path of an intra-repo module.
pub enum ResolvedImport {
    /// npm package specifier, kept verbatim (e.g. "fake-lib/components/Button")
    Package(String),
    /// normalized path of an intra-repo module (extension resolved when the file exists)
    File(NormPath),
}

/// The mathematical value of a `ResolvedImport`.
pub enum ImportTarget {
    Package(Seq<char>),
    File(PathView),
}

impl ResolvedImport {
    pub open spec fn view(&self) -> ImportTarget {
        match self {
            ResolvedImport::Package(s) => ImportTarget::Package(s@),
            ResolvedImport::File(p) => ImportTarget::File(p.view()),
        }
    }
}

/// One tsconfig `paths` entry, star-trimmed. `wildcard` records whether the
/// original pattern ended with `*`: wildcard patterns prefix-match, exact
/// patterns match only on full string equality.
pub struct PathAlias {
    pub prefix: String,
    pub wildcard: bool,
    pub targets: Vec<NormPath>,
}

/// Resolution context of one repo.
pub struct RepoResolver {
    pub repo_root: String,
    pub base_url: Option<NormPath>,
    /// Sorted by prefix length descending so the longest prefix wins,
    /// matching TypeScript's paths-resolution semantics.
    pub paths: Vec<PathAlias>,
}

/// Views of a list of normalized paths.
pub open spec fn npv(s: Seq<NormPath>) -> Seq<PathView> {
    s.map_values(|p: NormPath| p.view())
}

/// Files probed for a module base, in order: the base itself, the base with
/// `.ts`, `.tsx`, `.js`, `.jsx` appended, then `index.{ts,tsx,js,jsx}` under
/// it.
pub open spec fn ext_candidates(b: PathView) -> Seq<PathView> {
    seq![
        b,
        with_ext_spec(b, ".ts"@),
        with_ext_spec(b, ".tsx"@),
        with_ext_spec(b, ".js"@),
        with_ext_spec(b, ".jsx"@),
        child_spec(b, "index.ts"@),
        child_spec(b, "index.tsx"@),
        child_spec(b, "index.js"@),
        child_spec(b, "index.jsx"@),
    ]
}

/// The probe lists of several bases, one after the other.
pub open spec fn flat_ext(bases: Seq<PathView>) -> Seq<PathView>
    decreases bases.len(),
{
    if bases.len() == 0 {
        seq![]
    } else {
        flat_ext(bases.drop_last()) + ext_candidates(bases.last())
    }
}

/// The module bases an alias yields for `spec`: none unless the prefix
/// matches (an exact pattern only on full equality); otherwise each target,
/// joined with the rest of the specifier when there is one.
pub open spec fn alias_bases(a: PathAlias, spec: Seq<char>) -> Seq<PathView> {
    if is_prefix(a.prefix@, spec) && (a.wildcard || spec.len() == a.prefix@.len()) {
        let rest = spec.skip(a.prefix@.len() as int);
        npv(a.targets@).map_values(|t: PathView| target_base(t, rest))
    } else {
        seq![]
    }
}

/// One alias target joined with the rest of the specifier, if any.
pub open spec fn target_base(t: PathView, rest: Seq<char>) -> PathView {
    if rest.len() == 0 {
        t
    } else {
        join_norm(t, rest)
    }
}

/// The module bases of all aliases in order.
pub open spec fn aliases_bases(aliases: Seq<PathAlias>, spec: Seq<char>) -> Seq<PathView>
    decreases aliases.len(),
{
    if aliases.len() == 0 {
        seq![]
    } else {
        aliases_bases(aliases.drop_last(), spec) + alias_bases(aliases.last(), spec)
    }
}

/// The parent used to resolve a relative import: the importer's components
/// without the last one (the importer itself when it has no parent).
pub open spec fn parent_comps(c: Seq<Seq<char>>) -> Seq<Seq<char>> {
    if c.len() > 0 && c.last() != root_comp() {
        c.drop_last()
    } else {
        c
    }
}

/// `normalize(importer.parent().join(spec))` for a relative specifier.
pub open spec fn relative_base(importer: Seq<char>, spec: Seq<char>) -> PathView {
    norm_fold(parent_comps(comps(importer)) + comps(spec))
}

/// A relative specifier starts with `.`.
pub open spec fn is_relative(spec: Seq<char>) -> bool {
    spec.len() > 0 && spec[0] == '.'
}

impl RepoResolver {
    /// Bases contributed by `baseUrl`.
    pub open spec fn base_url_bases(&self, spec: Seq<char>) -> Seq<PathView> {
        match self.base_url {
            Some(b) => seq![join_norm(b.view(), spec)],
            None => seq![],
        }
    }

    /// The files probed, in order, when resolving `spec` from `importer`.
    pub open spec fn candidates_spec(&self, importer: Seq<char>, spec: Seq<char>) -> Seq<PathView> {
        if is_relative(spec) {
            ext_candidates(relative_base(importer, spec))
        } else {
            flat_ext(aliases_bases(self.paths@, spec) + self.base_url_bases(spec))
        }
    }

    /// The result when no probed file exists.
    pub open spec fn fallback_spec(&self, importer: Seq<char>, spec: Seq<char>) -> ImportTarget {
        if is_relative(spec) {
            ImportTarget::File(relative_base(importer, spec))
        } else {
            ImportTarget::Package(spec)
        }
    }
}

/// The first candidate whose probe succeeded, or the fallback.
pub open spec fn pick_spec(cands: Seq<PathView>, probes: Seq<bool>, fallback: ImportTarget) -> ImportTarget
    decreases cands.len(),
{
    if cands.len() == 0 || probes.len() == 0 {
        fallback
    } else if probes[0] {
        ImportTarget::File(cands[0])
    } else {
        pick_spec(cands.drop_first(), probes.drop_first(), fallback)
    }
}

/// Probes the filesystem through `Path::is_file`. What it answers depends
/// on the disk, so nothing is claimed of the result.
#[verifier::external_body]
fn path_is_file(path: &String) -> bool {
    std::path::Path::new(path.as_str()).is_file()
}

/// Appends the nine probe candidates of `b`.
fn push_ext_candidates(out: &mut Vec<NormPath>, b: &NormPath)
    ensures
        npv(final(out)@) == npv(old(out)@) + ext_candidates(b.view()),
{
    let ghost before = npv(out@);
    out.push(b.copy());
    out.push(b.with_ext(".ts"));
    out.push(b.with_ext(".tsx"));
    out.push(b.with_ext(".js"));
    out.push(b.with_ext(".jsx"));
    out.push(b.child("index.ts"));
    out.push(b.child("index.tsx"));
    out.push(b.child("index.js"));
    out.push(b.child("index.jsx"));
    assert(npv(out@) =~= before + ext_candidates(b.view()));
}

/// The probe lists of several bases, one after the other.
fn flatten_candidates(bases: &Vec<NormPath>) -> (r: Vec<NormPath>)
    ensures
        npv(r@) == flat_ext(npv(bases@)),
{
    let mut out: Vec<NormPath> = Vec::new();
    let mut i: usize = 0;
    while i < bases.len()
        invariant
            i <= bases@.len(),
            npv(out@) == flat_ext(npv(bases@).take(i as int)),
        decreases bases@.len() - i,
    {
        push_ext_candidates(&mut out, &bases[i]);
        assert(npv(bases@).take(i + 1).drop_last() =~= npv(bases@).take(i as int));
        i = i + 1;
    }
    assert(npv(bases@).take(bases@.len() as int) =~= npv(bases@));
    out
}

/// Appends the module bases that alias `a` yields for `spec`.
fn push_alias_bases(out: &mut Vec<NormPath>, a: &PathAlias, spec: &Vec<char>, spec_str: &str)
    requires
        spec@ == spec_str@,
    ensures
        npv(final(out)@) == npv(old(out)@) + alias_bases(*a, spec@),
{
    let prefix = chars_of(a.prefix.as_str());
    if !starts_with_exec(spec, &prefix) {
        assert(npv(out@) =~= npv(out@) + alias_bases(*a, spec@));
        return;
    }
    let plen = prefix.len();
    if !a.wildcard && spec.len() != plen {
        assert(npv(out@) =~= npv(out@) + alias_bases(*a, spec@));
        return;
    }
    let mut rest: Vec<char> = Vec::new();
    let mut k = plen;
    while k < spec.len()
        invariant
            plen <= k <= spec@.len(),
            rest@ == spec@.subrange(plen as int, k as int),
        decreases spec@.len() - k,
    {
        rest.push(spec[k]);
        assert(rest@ =~= spec@.subrange(plen as int, k + 1));
        k = k + 1;
    }
    assert(rest@ =~= spec@.skip(plen as int));
    let rest_str = string_from_chars(&rest);
    let ghost before = npv(out@);
    let ghost rv = rest@;
    let ghost ts = npv(a.targets@);
    let mut j: usize = 0;
    while j < a.targets.len()
        invariant
            j <= a.targets@.len(),
            ts == npv(a.targets@),
            rest_str@ == rv,
            rv.len() == rest@.len(),
            npv(out@) == before + ts.take(j as int).map_values(|t: PathView| target_base(t, rv)),
        decreases a.targets@.len() - j,
    {
        let ghost prev = npv(out@);
        if rest.len() == 0 {
            out.push(a.targets[j].copy());
        } else {
            out.push(a.targets[j].join_normalized(rest_str.as_str()));
        }
        assert(npv(out@).last() == target_base(ts[j as int], rv));
        assert(ts.take(j + 1).map_values(|t: PathView| target_base(t, rv)) =~= ts.take(j as int).map_values(|t: PathView| target_base(t, rv)).push(target_base(ts[j as int], rv)));
        assert(npv(out@) =~= prev.push(target_base(ts[j as int], rv)));
        j = j + 1;
    }
    assert(ts.take(a.targets@.len() as int) =~= ts);
}

impl RepoResolver {
    /// The files probed, in order, when resolving `specifier` from
    /// `importer` (the absolute path of the importing file).
    pub fn candidates(&self, importer: &str, specifier: &str) -> (r: Vec<NormPath>)
        ensures
            npv(r@) == self.candidates_spec(importer@, specifier@),
    {
        let spec = chars_of(specifier);
        if spec.len() > 0 && spec[0] == '.' {
            let base = self.relative_base(importer, specifier);
            let mut out: Vec<NormPath> = Vec::new();
            push_ext_candidates(&mut out, &base);
            assert(npv(out@) =~= ext_candidates(base.view()));
            return out;
        }
        let mut bases: Vec<NormPath> = Vec::new();
        let mut i: usize = 0;
        while i < self.paths.len()
            invariant
                i <= self.paths@.len(),
                spec@ == specifier@,
                npv(bases@) == aliases_bases(self.paths@.take(i as int), spec@),
            decreases self.paths@.len() - i,
        {
            push_alias_bases(&mut bases, &self.paths[i], &spec, specifier);
            assert(self.paths@.take(i + 1).drop_last() =~= self.paths@.take(i as int));
            i = i + 1;
        }
        assert(self.paths@.take(self.paths@.len() as int) =~= self.paths@);
        let ghost ab = npv(bases@);
        match &self.base_url {
            Some(b) => {
                bases.push(b.join_normalized(specifier));
            }
            None => {}
        }
        assert(npv(bases@) =~= aliases_bases(self.paths@, spec@) + self.base_url_bases(spec@));
        flatten_candidates(&bases)
    }

    /// `normalize(importer.parent().join(specifier))`.
    pub fn relative_base(&self, importer: &str, specifier: &str) -> (r: NormPath)
        ensures
            r.view() == relative_base(importer@, specifier@),
    {
        let mut ic = path_components(importer);
        let n = ic.len();
        if n > 0 {
            let last = &ic[n - 1];
            let is_root = last.len() == 1 && last[0] == '/';
            proof {
                if vv(ic@).last() == root_comp() {
                    assert(ic@[n - 1]@ == root_comp());
                    assert(last@[0] == '/');
                }
                if is_root {
                    assert(last@ =~= root_comp());
                }
            }
            if !is_root {
                let ghost before = vv(ic@);
                ic.pop();
                assert(vv(ic@) =~= before.drop_last());
            }
        }
        let sc = path_components(specifier);
        let ghost a = vv(ic@);
        let mut j: usize = 0;
        while j < sc.len()
            invariant
                j <= sc@.len(),
                vv(ic@) == a + vv(sc@).take(j as int),
            decreases sc@.len() - j,
        {
            let ghost prev = vv(ic@);
            ic.push(copy_chars(&sc[j]));
            assert(vv(ic@) =~= prev.push(sc@[j as int]@));
            assert(vv(sc@).take(j + 1) =~= vv(sc@).take(j as int).push(sc@[j as int]@));
            j = j + 1;
        }
        assert(vv(sc@).take(sc@.len() as int) =~= vv(sc@));
        normalize_components(&ic)
    }

    /// What resolution gives when no probed file exists.
    pub fn fallback(&self, importer: &str, specifier: &str) -> (r: ResolvedImport)
        ensures
            r.view() == self.fallback_spec(importer@, specifier@),
    {
        let spec = chars_of(specifier);
        if spec.len() > 0 && spec[0] == '.' {
            ResolvedImport::File(self.relative_base(importer, specifier))
        } else {
            ResolvedImport::Package(string_from_chars(&spec))
        }
    }
}

/// The first candidate whose probe succeeded (`probes[i]` answers for
/// `cands[i]`), or the fallback when none did.
pub fn pick(cands: &Vec<NormPath>, probes: &Vec<bool>, fallback: ResolvedImport) -> (r: ResolvedImport)
    ensures
        r.view() == pick_spec(npv(cands@), probes@, fallback.view()),
{
    let mut i: usize = 0;
    assert(npv(cands@).skip(0) =~= npv(cands@));
    assert(probes@.skip(0) =~= probes@);
    while i < cands.len() && i < probes.len()
        invariant
            i <= cands@.len(),
            i <= probes@.len(),
            pick_spec(npv(cands@), probes@, fallback.view()) == pick_spec(npv(cands@).skip(i as int), probes@.skip(i as int), fallback.view()),
        decreases cands@.len() - i,
    {
        assert(npv(cands@).skip(i as int).drop_first() =~= npv(cands@).skip(i + 1));
        assert(probes@.skip(i as int).drop_first() =~= probes@.skip(i + 1));
        if probes[i] {
            return ResolvedImport::File(cands[i].copy());
        }
        i = i + 1;
    }
    assert(npv(cands@).skip(i as int).len() == 0 || probes@.skip(i as int).len() == 0);
    fallback
}

/// The first `true` probe decides.
pub proof fn lemma_pick_first(cands: Seq<PathView>, probes: Seq<bool>, fallback: ImportTarget, i: int)
    requires
        probes.len() == cands.len(),
        0 <= i <= cands.len(),
        forall|k: int| 0 <= k < i ==> !probes[k],
        i < cands.len() ==> probes[i],
    ensures
        pick_spec(cands, probes, fallback) == (if i < cands.len() {
            ImportTarget::File(cands[i])
        } else {
            fallback
        }),
    decreases i,
{
    if i > 0 {
        lemma_pick_first(cands.drop_first(), probes.drop_first(), fallback, i - 1);
    }
}

impl RepoResolver {
    /// Resolves `specifier` imported from `importer` (the path of the
    /// importing file): a relative specifier becomes the first existing
    /// probe candidate, else its normalized base; any other specifier becomes
    /// the first existing alias / `baseUrl` candidate, else stays a package
    /// specifier. Which candidates exist is read from the disk.
    pub fn resolve(&self, importer: &str, specifier: &str) -> (r: ResolvedImport)
        ensures
            exists|probes: Seq<bool>|
                probes.len() == self.candidates_spec(importer@, specifier@).len() && r.view()
                    == pick_spec(
                    self.candidates_spec(importer@, specifier@),
                    probes,
                    self.fallback_spec(importer@, specifier@),
                ),
    {
        let cands = self.candidates(importer, specifier);
        let ghost cs = npv(cands@);
        let ghost fb = self.fallback_spec(importer@, specifier@);
        let mut i: usize = 0;
        while i < cands.len()
            invariant
                i <= cands@.len(),
                cs == npv(cands@),
                cs == self.candidates_spec(importer@, specifier@),
                fb == self.fallback_spec(importer@, specifier@),
            decreases cands@.len() - i,
        {
            let text = cands[i].render();
            if path_is_file(&text) {
                let ghost probes = Seq::new(cs.len(), |k: int| k == i);
                proof {
                    lemma_pick_first(cs, probes, fb, i as int);
                }
                let r = ResolvedImport::File(cands[i].copy());
                assert(probes.len() == cs.len() && r.view() == pick_spec(cs, probes, fb));
                return r;
            }
            i = i + 1;
        }
        let ghost probes = Seq::new(cs.len(), |k: int| false);
        proof {
            lemma_pick_first(cs, probes, fb, cs.len() as int);
        }
        let r = self.fallback(importer, specifier);
        assert(probes.len() == cs.len() && r.view() == pick_spec(cs, probes, fb));
        r
    }
}

/// `a` is a leading run of `b`.
pub open spec fn comps_prefix(a: Seq<Seq<char>>, b: Seq<Seq<char>>) -> bool {
    a.len() <= b.len() && b.take(a.len() as int) == a
}

/// `Path::file_name`: the last component when it is a plain segment.
pub open spec fn file_name_of(c: Seq<Seq<char>>) -> Option<Seq<char>> {
    if c.len() > 0 && c.last() != root_comp() && c.last() != cur_comp() && c.last() != parent_comp() {
        Some(c.last())
    } else {
        None
    }
}

fn comps_prefix_exec(a: &Vec<Vec<char>>, b: &Vec<Vec<char>>) -> (r: bool)
    ensures
        r == comps_prefix(vv(a@), vv(b@)),
{
    if a.len() > b.len() {
        return false;
    }
    let mut i: usize = 0;
    while i < a.len()
        invariant
            a@.len() <= b@.len(),
            i <= a@.len(),
            forall|k: int| 0 <= k < i ==> vv(b@)[k] == vv(a@)[k],
        decreases a@.len() - i,
    {
        if compare_chars(&a[i], &b[i]) != 0 {
            assert(vv(b@).take(a@.len() as int)[i as int] != vv(a@)[i as int]);
            return false;
        }
        i = i + 1;
    }
    assert(vv(b@).take(a@.len() as int) =~= vv(a@));
    true
}

impl RepoResolver {
    /// How a resolved import is shown: packages verbatim; a file inside the
    /// repo as `<repo name>/<repo-relative path>`; any other file as its
    /// full path.
    pub open spec fn display_spec(&self, t: ImportTarget) -> Seq<char> {
        match t {
            ImportTarget::Package(s) => s,
            ImportTarget::File(p) => {
                let pc = norm_comps(p);
                let rc = comps(self.repo_root@);
                let rc2 = norm_comps(norm_fold(rc));
                let rest = if comps_prefix(rc, pc) {
                    Some(pc.skip(rc.len() as int))
                } else if comps_prefix(rc2, pc) {
                    Some(pc.skip(rc2.len() as int))
                } else {
                    None
                };
                match (rest, file_name_of(rc)) {
                    (Some(r), Some(f)) => f + seq!['/'] + join_slash(r),
                    _ => render(p),
                }
            }
        }
    }

    /// Display: packages verbatim; files as repo-name-prefixed repo-relative
    /// paths (`lxp-web/src/components/X/index.tsx`). The prefix keeps sources
    /// unambiguous across repos, and makes the display independent of whether
    /// the scan root was given relative or absolute.
    pub fn display(&self, resolved: &ResolvedImport) -> (s: String)
        ensures
            s@ == self.display_spec(resolved.view()),
    {
        match resolved {
            ResolvedImport::Package(name) => name.clone(),
            ResolvedImport::File(path) => {
                let pc = path.components();
                let rc = path_components(self.repo_root.as_str());
                let rc2 = normalize_components(&rc).components();
                let skip: usize;
                if comps_prefix_exec(&rc, &pc) {
                    skip = rc.len();
                } else if comps_prefix_exec(&rc2, &pc) {
                    skip = rc2.len();
                } else {
                    return path.render();
                }
                let n = rc.len();
                if n == 0 {
                    return path.render();
                }
                let last = &rc[n - 1];
                let special = (last.len() == 1 && (last[0] == '/' || last[0] == '.')) || (last.len() == 2
                    && last[0] == '.' && last[1] == '.');
                proof {
                    let l = vv(rc@).last();
                    assert(l == last@);
                    if l == root_comp() || l == cur_comp() {
                        assert(last@[0] == l[0]);
                    }
                    if l == parent_comp() {
                        assert(last@[0] == '.' && last@[1] == '.');
                    }
                    if special {
                        if last@.len() == 1 && last@[0] == '/' {
                            assert(last@ =~= root_comp());
                        } else if last@.len() == 1 {
                            assert(last@ =~= cur_comp());
                        } else {
                            assert(last@ =~= parent_comp());
                        }
                    }
                }
                if special {
                    return path.render();
                }
                let mut out = string_from_chars(last);
                push_char(&mut out, '/');
                let ghost lead = out@;
                let ghost r = vv(pc@).skip(skip as int);
                assert(vv(pc@).len() == pc@.len());
                let mut k = skip;
                while k < pc.len()
                    invariant
                        skip <= k <= pc@.len(),
                        r == vv(pc@).skip(skip as int),
                        r.len() == pc@.len() - skip,
                        forall|q: int| 0 <= q < r.len() ==> r[q] == pc@[q + skip]@,
                        out@ == lead + join_slash(r.take(k - skip)),
                    decreases pc@.len() - k,
                {
                    let ghost prev = out@;
                    assert(r.take(k - skip + 1).drop_last() =~= r.take(k - skip));
                    assert(r.take(k - skip + 1).last() == pc@[k as int]@);
                    if k > skip {
                        push_char(&mut out, '/');
                    }
                    push_str(&mut out, &string_from_chars(&pc[k]));
                    if k == skip {
                        assert(out@ =~= lead + join_slash(r.take(k - skip + 1)));
                    } else {
                        assert(out@ =~= lead + join_slash(r.take(k - skip + 1)));
                    }
                    k = k + 1;
                }
                assert(r.take(pc@.len() - skip) =~= r);
                out
            }
        }
    }
}

/// The text with every trailing `*` removed.
pub open spec fn trim_stars(s: Seq<char>) -> Seq<char>
    decreases s.len(),
{
    if s.len() > 0 && s.last() == '*' {
        trim_stars(s.drop_last())
    } else {
        s
    }
}

/// (prefix, wildcard, targets) of an alias.
pub type AliasView = (Seq<char>, bool, Seq<PathView>);

impl PathAlias {
    pub open spec fn view(&self) -> AliasView {
        (self.prefix@, self.wildcard, npv(self.targets@))
    }
}

/// Views of a list of aliases.
pub open spec fn aliases_view(s: Seq<PathAlias>) -> Seq<AliasView> {
    s.map_values(|a: PathAlias| a.view())
}

/// The string members of a `paths` target array, star-trimmed and joined
/// onto the alias root.
pub open spec fn str_targets(items: Seq<JsonValue>, root: Seq<Seq<char>>) -> Seq<PathView>
    decreases items.len(),
{
    if items.len() == 0 {
        seq![]
    } else {
        let prev = str_targets(items.drop_last(), root);
        match items.last() {
            JsonValue::Str(t) => prev.push(join_comps_norm(root, trim_stars(t@))),
            _ => prev,
        }
    }
}

/// One alias per `paths` member whose value is an array, in member order.
pub open spec fn raw_aliases(entries: Seq<(String, JsonValue)>, root: Seq<Seq<char>>) -> Seq<AliasView>
    decreases entries.len(),
{
    if entries.len() == 0 {
        seq![]
    } else {
        let prev = raw_aliases(entries.drop_last(), root);
        let (pattern, targets) = entries.last();
        match targets {
            JsonValue::Array(items) => prev.push(
                (
                    trim_stars(pattern@),
                    pattern@.len() > 0 && pattern@.last() == '*',
                    str_targets(items@, root),
                ),
            ),
            _ => prev,
        }
    }
}

/// Sort key of an alias: the byte length of its prefix.
pub open spec fn key_len(a: AliasView) -> nat {
    utf8_len(a.0)
}

/// Inserts `x` into `s` before the first element with a shorter prefix.
pub open spec fn insert_desc(s: Seq<AliasView>, x: AliasView) -> Seq<AliasView>
    decreases s.len(),
{
    if s.len() == 0 {
        seq![x]
    } else if key_len(s[0]) >= key_len(x) {
        seq![s[0]] + insert_desc(s.drop_first(), x)
    } else {
        seq![x] + s
    }
}

/// Stable sort by prefix length, longest first.
pub open spec fn sort_desc(s: Seq<AliasView>) -> Seq<AliasView>
    decreases s.len(),
{
    if s.len() == 0 {
        seq![]
    } else {
        insert_desc(sort_desc(s.drop_last()), s.last())
    }
}

pub proof fn lemma_insert_desc_at(s: Seq<AliasView>, x: AliasView, p: int)
    requires
        0 <= p <= s.len(),
        forall|k: int| 0 <= k < p ==> key_len(#[trigger] s[k]) >= key_len(x),
        p < s.len() ==> key_len(s[p]) < key_len(x),
    ensures
        insert_desc(s, x) == s.insert(p, x),
    decreases s.len(),
{
    if s.len() == 0 {
        assert(s.insert(p, x) =~= seq![x]);
    } else if p == 0 {
        assert(s.insert(0, x) =~= seq![x] + s);
    } else {
        assert forall|k: int| 0 <= k < p - 1 implies key_len(#[trigger] s.drop_first()[k]) >= key_len(x) by {
            assert(s.drop_first()[k] == s[k + 1]);
        }
        lemma_insert_desc_at(s.drop_first(), x, p - 1);
        assert(s.insert(p, x) =~= seq![s[0]] + s.drop_first().insert(p - 1, x));
    }
}

/// Views of an optional normalized path.
pub open spec fn opt_view(o: Option<NormPath>) -> Option<PathView> {
    match o {
        Some(p) => Some(p.view()),
        None => None,
    }
}

/// `baseUrl` of a tsconfig, joined onto the repo root.
pub open spec fn tsconfig_base_url(repo_root: Seq<char>, config: JsonValue) -> Option<PathView> {
    match config.get_spec("compilerOptions"@) {
        Some(co) => match co.get_spec("baseUrl"@) {
            Some(JsonValue::Str(b)) => Some(join_comps_norm(comps(repo_root), b@)),
            _ => None,
        },
        None => None,
    }
}

/// The directory alias targets are relative to: `baseUrl` when set, else
/// the repo root.
pub open spec fn alias_root_comps(repo_root: Seq<char>, config: JsonValue) -> Seq<Seq<char>> {
    match tsconfig_base_url(repo_root, config) {
        Some(b) => norm_comps(b),
        None => comps(repo_root),
    }
}

/// The aliases of a tsconfig, longest prefix first.
pub open spec fn tsconfig_aliases(repo_root: Seq<char>, config: JsonValue) -> Seq<AliasView> {
    match config.get_spec("compilerOptions"@) {
        Some(co) => match co.get_spec("paths"@) {
            Some(JsonValue::Object(es)) => sort_desc(raw_aliases(es@, alias_root_comps(repo_root, config))),
            _ => seq![],
        },
        None => seq![],
    }
}

/// The string members of an array, star-trimmed and joined onto `root`.
fn collect_targets(items: &Vec<JsonValue>, root: &Vec<Vec<char>>) -> (r: Vec<NormPath>)
    ensures
        npv(r@) == str_targets(items@, vv(root@)),
{
    let mut out: Vec<NormPath> = Vec::new();
    let mut i: usize = 0;
    while i < items.len()
        invariant
            i <= items@.len(),
            npv(out@) == str_targets(items@.take(i as int), vv(root@)),
        decreases items@.len() - i,
    {
        assert(items@.take(i + 1).drop_last() =~= items@.take(i as int));
        match &items[i] {
            JsonValue::Str(t) => {
                let tc = chars_of(t.as_str());
                assert(tc@.take(tc@.len() as int) =~= tc@);
                let mut n = tc.len();
                while n > 0 && tc[n - 1] == '*'
                    invariant
                        n <= tc@.len(),
                        trim_stars(tc@) == trim_stars(tc@.take(n as int)),
                    decreases n,
                {
                    assert(tc@.take(n as int).drop_last() =~= tc@.take(n - 1));
                    n = n - 1;
                }
                let mut trimmed: Vec<char> = Vec::new();
                let mut k: usize = 0;
                while k < n
                    invariant
                        k <= n <= tc@.len(),
                        trimmed@ == tc@.take(k as int),
                    decreases n - k,
                {
                    trimmed.push(tc[k]);
                    assert(trimmed@ =~= tc@.take(k + 1));
                    k = k + 1;
                }
                assert(trim_stars(tc@.take(n as int)) == tc@.take(n as int));
                let ts = string_from_chars(&trimmed);
                let ghost prev = npv(out@);
                out.push(join_components_normalized(root, ts.as_str()));
                assert(npv(out@) =~= prev.push(join_comps_norm(vv(root@), trim_stars(t@))));
            }
            _ => {}
        }
        i = i + 1;
    }
    assert(items@.take(items@.len() as int) =~= items@);
    out
}

impl RepoResolver {
    /// A resolver with no aliases (missing or broken tsconfig).
    pub fn without_aliases(repo_root: &str) -> (r: RepoResolver)
        ensures
            r.repo_root@ == repo_root@,
            r.base_url is None,
            r.paths@.len() == 0,
    {
        RepoResolver { repo_root: string_from_chars(&chars_of(repo_root)), base_url: None, paths: Vec::new() }
    }

    /// Builds the resolver of the repo at `repo_root` from its parsed
    /// tsconfig: `compilerOptions.baseUrl` joined onto the repo root, and one
    /// alias per `compilerOptions.paths` member with an array value (star-
    /// trimmed pattern, string targets star-trimmed and joined onto the
    /// alias root), longest prefix first.
    pub fn from_tsconfig(repo_root: &str, config: &JsonValue) -> (r: RepoResolver)
        ensures
            r.repo_root@ == repo_root@,
            opt_view(r.base_url) == tsconfig_base_url(repo_root@, *config),
            aliases_view(r.paths@) == tsconfig_aliases(repo_root@, *config),
    {
        let root_comps = path_components(repo_root);
        let co = config.get("compilerOptions");
        let base_url: Option<NormPath> = match co {
            Some(c) => match c.get("baseUrl") {
                Some(JsonValue::Str(b)) => Some(join_components_normalized(&root_comps, b.as_str())),
                _ => None,
            },
            None => None,
        };
        let alias_root = match &base_url {
            Some(b) => b.components(),
            None => path_components(repo_root),
        };
        let mut paths: Vec<PathAlias> = Vec::new();
        match co {
            Some(c) => match c.get("paths") {
                Some(JsonValue::Object(es)) => {
                    let ghost ar = alias_root_comps(repo_root@, *config);
                    assert(vv(alias_root@) == ar);
                    let mut i: usize = 0;
                    while i < es.len()
                        invariant
                            i <= es@.len(),
                            vv(alias_root@) == ar,
                            aliases_view(paths@) == sort_desc(raw_aliases(es@.take(i as int), ar)),
                        decreases es@.len() - i,
                    {
                        assert(es@.take(i + 1).drop_last() =~= es@.take(i as int));
                        assert(es@.take(i + 1).last() == es@[i as int]);
                        let ghost raw = raw_aliases(es@.take(i as int), ar);
                        let pattern = &es[i].0;
                        match &es[i].1 {
                            JsonValue::Array(items) => {
                                let pc = chars_of(pattern.as_str());
                                let wildcard = pc.len() > 0 && pc[pc.len() - 1] == '*';
                                assert(pc@.take(pc@.len() as int) =~= pc@);
                                let mut n = pc.len();
                                while n > 0 && pc[n - 1] == '*'
                                    invariant
                                        n <= pc@.len(),
                                        trim_stars(pc@) == trim_stars(pc@.take(n as int)),
                                    decreases n,
                                {
                                    assert(pc@.take(n as int).drop_last() =~= pc@.take(n - 1));
                                    n = n - 1;
                                }
                                let mut trimmed: Vec<char> = Vec::new();
                                let mut k: usize = 0;
                                while k < n
                                    invariant
                                        k <= n <= pc@.len(),
                                        trimmed@ == pc@.take(k as int),
                                    decreases n - k,
                                {
                                    trimmed.push(pc[k]);
                                    assert(trimmed@ =~= pc@.take(k + 1));
                                    k = k + 1;
                                }
                                assert(pc@.take(pc@.len() as int) =~= pc@);
                                assert(trim_stars(pc@.take(n as int)) == pc@.take(n as int));
                                let alias = PathAlias {
                                    prefix: string_from_chars(&trimmed),
                                    wildcard,
                                    targets: collect_targets(items, &alias_root),
                                };
                                let key = byte_len(alias.prefix.as_str());
                                let mut p: usize = 0;
                                while p < paths.len() && byte_len(paths[p].prefix.as_str()) >= key
                                    invariant
                                        p <= paths@.len(),
                                        key == key_len(alias.view()),
                                        forall|q: int| 0 <= q < p ==> key_len(#[trigger] aliases_view(paths@)[q]) >= key_len(alias.view()),
                                    decreases paths@.len() - p,
                                {
                                    assert(aliases_view(paths@)[p as int] == paths@[p as int].view());
                                    p = p + 1;
                                }
                                proof {
                                    if p < paths@.len() {
                                        assert(aliases_view(paths@)[p as int] == paths@[p as int].view());
                                    }
                                }
                                let ghost before = aliases_view(paths@);
                                proof {
                                    lemma_insert_desc_at(before, alias.view(), p as int);
                                }
                                let ghost av = alias.view();
                                assert(av == (trim_stars(pattern@), pattern@.len() > 0 && pattern@.last() == '*', str_targets(items@, ar)));
                                assert(raw_aliases(es@.take(i + 1), ar) == raw.push(av));
                                assert(raw.push(av).drop_last() =~= raw);
                                assert(sort_desc(raw.push(av)) == insert_desc(sort_desc(raw), av));
                                paths.insert(p, alias);
                                assert(aliases_view(paths@) =~= before.insert(p as int, av));
                            }
                            _ => {}
                        }
                        i = i + 1;
                    }
                    assert(es@.take(es@.len() as int) =~= es@);
                }
                _ => {}
            },
            None => {}
        }
        proof {
            if co is None || !(co->0.get_spec("paths"@) matches Some(JsonValue::Object(_))) {
                assert(aliases_view(paths@) =~= seq![]);
            }
        }
        RepoResolver { repo_root: string_from_chars(&chars_of(repo_root)), base_url, paths }
    }
}

/// `t` is a possible resolution of `spec` from `importer`: what some answer
/// of the disk probes gives.
pub open spec fn resolves_to(r: &RepoResolver, importer: Seq<char>, spec: Seq<char>, t: ImportTarget) -> bool {
    exists|probes: Seq<bool>|
        probes.len() == r.candidates_spec(importer, spec).len() && t == pick_spec(
            r.candidates_spec(importer, spec),
            probes,
            r.fallback_spec(importer, spec),
        )
}

/// What reading a repo's `tsconfig.json` gave: no such file, a read error
/// (with its message), or the file's text.
pub enum TsconfigFile {
    Missing,
    Unreadable(String),
    Text(String),
}

/// The resolver without aliases and the warning of a tsconfig that could
/// not be read or parsed, for the reason given.
pub open spec fn unreadable_spec(
    r: (RepoResolver, Option<String>),
    repo_root: Seq<char>,
    tsconfig_path: Seq<char>,
    reason: Seq<char>,
) -> bool {
    &&& r.0.repo_root@ == repo_root
    &&& r.0.base_url is None
    &&& r.0.paths@.len() == 0
    &&& r.1 matches Some(w) && w@ == tsconfig_path + ": unreadable tsconfig.json ("@ + reason
        + "), alias resolution disabled"@
}

/// The resolver a repo gets from the outcome of parsing its tsconfig: a
/// parsed document gives `from_tsconfig` and no warning; a parse error
/// gives a resolver without aliases and a warning with the error.
pub open spec fn from_parsed_spec(
    r: (RepoResolver, Option<String>),
    repo_root: Seq<char>,
    tsconfig_path: Seq<char>,
    parsed: Result<JsonValue, Seq<char>>,
) -> bool {
    match parsed {
        Ok(v) => {
            &&& r.0.repo_root@ == repo_root
            &&& opt_view(r.0.base_url) == tsconfig_base_url(repo_root, v)
            &&& aliases_view(r.0.paths@) == tsconfig_aliases(repo_root, v)
            &&& r.1 is None
        },
        Err(e) => unreadable_spec(r, repo_root, tsconfig_path, e),
    }
}

/// The resolver a repo gets from what reading its `tsconfig.json` gave,
/// and the warning it raises: a missing file names the repo root, a read
/// error or a JSONC parse error names the tsconfig and the reason.
pub open spec fn from_repo_spec(
    r: (RepoResolver, Option<String>),
    repo_root: Seq<char>,
    tsconfig_path: Seq<char>,
    file: TsconfigFile,
) -> bool {
    match file {
        TsconfigFile::Text(t) => from_parsed_spec(r, repo_root, tsconfig_path, jsonc_document(t@)),
        TsconfigFile::Missing => {
            &&& r.0.repo_root@ == repo_root
            &&& r.0.base_url is None
            &&& r.0.paths@.len() == 0
            &&& r.1 matches Some(w) && w@ == repo_root + ": no tsconfig.json, alias resolution disabled"@
        },
        TsconfigFile::Unreadable(e) => unreadable_spec(r, repo_root, tsconfig_path, e@),
    }
}

/// The resolver without aliases and the warning naming `reason`.
fn unreadable(repo_root: &str, tsconfig_path: &str, reason: &str) -> (r: (RepoResolver, Option<String>))
    ensures
        unreadable_spec(r, repo_root@, tsconfig_path@, reason@),
{
    let mut w = owned(tsconfig_path);
    push_str(&mut w, ": unreadable tsconfig.json (");
    push_str(&mut w, reason);
    push_str(&mut w, "), alias resolution disabled");
    (RepoResolver::without_aliases(repo_root), Some(w))
}

impl RepoResolver {
    /// The resolver of the repo at `repo_root` from the outcome of parsing
    /// its tsconfig (at `tsconfig_path`), with the warning a parse error
    /// raises.
    pub fn from_parsed(repo_root: &str, tsconfig_path: &str, parsed: Result<JsonValue, String>) -> (r: (RepoResolver, Option<String>))
        ensures
            from_parsed_spec(r, repo_root@, tsconfig_path@, match parsed {
                Ok(v) => Ok::<JsonValue, Seq<char>>(v),
                Err(e) => Err::<JsonValue, Seq<char>>(e@),
            }),
    {
        match parsed {
            Ok(v) => (RepoResolver::from_tsconfig(repo_root, &v), None),
            Err(e) => unreadable(repo_root, tsconfig_path, e.as_str()),
        }
    }

    /// The resolver of the repo at `repo_root` from what reading its
    /// tsconfig (at `tsconfig_path`) gave: its text is parsed as JSONC;
    /// a missing, unreadable or unparsable tsconfig disables aliases and
    /// raises a warning.
    pub fn from_repo(repo_root: &str, tsconfig_path: &str, file: TsconfigFile) -> (r: (RepoResolver, Option<String>))
        ensures
            from_repo_spec(r, repo_root@, tsconfig_path@, file),
    {
        match file {
            TsconfigFile::Text(t) => {
                let parsed = parse_jsonc(t.as_str());
                RepoResolver::from_parsed(repo_root, tsconfig_path, parsed)
            },
            TsconfigFile::Missing => {
                let mut w = owned(repo_root);
                push_str(&mut w, ": no tsconfig.json, alias resolution disabled");
                (RepoResolver::without_aliases(repo_root), Some(w))
            },
            TsconfigFile::Unreadable(e) => unreadable(repo_root, tsconfig_path, e.as_str()),
        }
    }
}

/// An exact (star-less) `paths` pattern matches only the whole specifier:
/// a specifier that merely starts with it gets no candidate from it. A
/// wildcard pattern yields one candidate per target for every specifier it
/// prefixes.
pub proof fn law_exact_alias_matches_whole_specifier(a: PathAlias, spec: Seq<char>)
    ensures
        !a.wildcard && spec != a.prefix@ ==> alias_bases(a, spec).len() == 0,
        a.wildcard && is_prefix(a.prefix@, spec) ==> alias_bases(a, spec).len() == a.targets@.len(),
{
    if !a.wildcard && is_prefix(a.prefix@, spec) && spec.len() == a.prefix@.len() {
        assert(spec =~= spec.subrange(0, a.prefix@.len() as int));
    }
}

/// The path whose components are `cs` (a leading root makes it absolute).
pub open spec fn path_of(cs: Seq<Seq<char>>) -> PathView {
    if cs.len() > 0 && cs[0] == root_comp() {
        (true, cs.drop_first())
    } else {
        (false, cs)
    }
}

/// A list of components that begins with the root's normalized form and
/// goes on with plain segments starts with the root as given only where the
/// root is already normal.
proof fn lemma_root_prefix_of_normal(rc: Seq<Seq<char>>, rel: Seq<Seq<char>>)
    requires
        forall|i: int| 0 <= i < rel.len() ==> kept_segment(#[trigger] rel[i]),
        comps_prefix(rc, norm_comps(norm_fold(rc)) + rel),
    ensures
        rc == norm_comps(norm_fold(rc)),
{
    law_normalize_idempotent(rc);
    let p = norm_fold(rc);
    let rc2 = norm_comps(p);
    let pc = rc2 + rel;
    assert(forall|i: int| 0 <= i < rc.len() ==> rc[i] == #[trigger] pc[i]) by {
        assert(pc.take(rc.len() as int) == rc);
        assert forall|i: int| 0 <= i < rc.len() implies rc[i] == #[trigger] pc[i] by {
            assert(pc.take(rc.len() as int)[i] == pc[i]);
        }
    }
    // every component of `pc` past a leading root is a plain segment
    assert forall|i: int| 0 <= i < pc.len() && !(i == 0 && p.0) implies kept_segment(#[trigger] pc[i]) by {
        if i < rc2.len() {
            if p.0 {
                assert(rc2[i] == p.1[i - 1]);
            } else {
                assert(rc2[i] == p.1[i]);
            }
        } else {
            assert(pc[i] == rel[i - rc2.len()]);
        }
    }
    if rc.len() == 0 {
        assert(rc2 =~= rc);
    } else if rc[0] == root_comp() {
        assert(p.0) by {
            if !p.0 {
                assert(kept_segment(pc[0]));
            }
        }
        let rest = rc.drop_first();
        let pre: Seq<Seq<char>> = seq![root_comp()];
        assert(pre.drop_last() =~= Seq::<Seq<char>>::empty());
        assert forall|i: int| 0 <= i < rest.len() implies kept_segment(#[trigger] rest[i]) by {
            assert(rest[i] == pc[i + 1]);
        }
        lemma_norm_fold_plain(pre, rest);
        assert(pre + rest =~= rc);
        assert(rc2 =~= rc);
    } else {
        assert forall|i: int| 0 <= i < rc.len() implies kept_segment(#[trigger] rc[i]) by {
            assert(rc[i] == pc[i]);
            if i == 0 && p.0 {
                assert(pc[0] == root_comp());
            }
        }
        let pre: Seq<Seq<char>> = seq![];
        lemma_norm_fold_plain(pre, rc);
        assert(pre + rc =~= rc);
        assert(rc2 =~= rc);
    }
}

/// A file below the repo root shows as the root's name and its path below
/// the root, whether it is written under the root as given or under the
/// root's normalized form; a file under neither shows as its full path; a
/// package shows verbatim.
pub proof fn law_display_under_either_root_form(r: RepoResolver, rel: Seq<Seq<char>>, other: PathView, pkg: Seq<char>)
    requires
        file_name_of(comps(r.repo_root@)) is Some,
        forall|i: int| 0 <= i < rel.len() ==> kept_segment(#[trigger] rel[i]),
    ensures
        ({
            let rc = comps(r.repo_root@);
            let shown = file_name_of(rc)->0 + seq!['/'] + join_slash(rel);
            &&& r.display_spec(ImportTarget::File(path_of(rc + rel))) == shown
            &&& r.display_spec(ImportTarget::File(path_of(norm_comps(norm_fold(rc)) + rel))) == shown
            &&& !comps_prefix(rc, norm_comps(other)) && !comps_prefix(norm_comps(norm_fold(rc)), norm_comps(other))
                ==> r.display_spec(ImportTarget::File(other)) == render(other)
        }),
        r.display_spec(ImportTarget::Package(pkg)) == pkg,
{
    let rc = comps(r.repo_root@);
    let rc2 = norm_comps(norm_fold(rc));
    assert(norm_comps(path_of(rc + rel)) =~= rc + rel);
    assert((rc + rel).take(rc.len() as int) =~= rc);
    assert((rc + rel).skip(rc.len() as int) =~= rel);
    let pc = rc2 + rel;
    assert(norm_comps(path_of(pc)) =~= pc);
    assert(pc.take(rc2.len() as int) =~= rc2);
    assert(pc.skip(rc2.len() as int) =~= rel);
    if comps_prefix(rc, pc) {
        lemma_root_prefix_of_normal(rc, rel);
    }
}

} // verus!
