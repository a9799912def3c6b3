//! Impact hits: one per import of the symbol, with its resolved source.
use vstd::prelude::*;
use crate::analyzer::FileFindings;
use crate::order::{compare_str, seq_lt};
use crate::resolver::{ImportTarget, RepoResolver};
use crate::sort::{is_ordered, lemma_sort_ordered, strict_weak_on, Ranked, sorted_stable, sort_stable_spec};
use crate::order::{lemma_lt_irreflexive, lemma_lt_transitive, lemma_lt_trichotomy};
use crate::strmap::StrSet;
use crate::text::{chars_of, contains_exec, contains_seq, copy_string};

verus! {

/// One import of the symbol in one file.
pub struct ImpactHit {
    pub repo: String,
    /// path relative to the repo root
    pub file: String,
    pub line: usize,
    /// resolved import source (package verbatim / repo-prefixed file path)
    pub source: String,
    pub refs: usize,
    pub jsx_uses: usize,
    pub jsx_props: StrSet,
    /// 1-based line of each JSX render site (the import line is `line`)
    pub jsx_lines: Vec<usize>,
}

/// Hits sort by repo, then file, then line.
impl Ranked for ImpactHit {
    open spec fn before(&self, other: &Self) -> bool {
        seq_lt(self.repo@, other.repo@) || (self.repo@ == other.repo@ && (seq_lt(self.file@, other.file@) || (
        self.file@ == other.file@ && self.line < other.line)))
    }

    fn before_exec(&self, other: &Self) -> (b: bool) {
        let c = compare_str(self.repo.as_str(), other.repo.as_str());
        if c != 0 {
            return c < 0;
        }
        let d = compare_str(self.file.as_str(), other.file.as_str());
        if d != 0 {
            return d < 0;
        }
        self.line < other.line
    }
}

/// Hits in (repo, file, line) order; equal keys keep their order.
pub fn sort_hits(hits: Vec<ImpactHit>) -> (r: Vec<ImpactHit>)
    ensures
        r@ == sort_stable_spec(hits@),
{
    sorted_stable(hits)
}

/// Whether `text` mentions `symbol` at all: every import form names the
/// symbol literally, so a file without it cannot match.
pub fn mentions(text: &str, symbol: &str) -> (b: bool)
    ensures
        b == contains_seq(text@, symbol@),
{
    let t = chars_of(text);
    let s = chars_of(symbol);
    contains_exec(&t, &s)
}

/// `shown` is what the resolver displays for some resolution of `spec`
/// imported from `importer`.
pub open spec fn shown_source(resolver: &RepoResolver, importer: Seq<char>, spec: Seq<char>, shown: Seq<char>) -> bool {
    exists|t: ImportTarget| #[trigger] crate::resolver::resolves_to(resolver, importer, spec, t) && shown == resolver.display_spec(t)
}

/// The displayed source of every finding's import, resolved from `importer`.
pub fn resolve_sources(resolver: &RepoResolver, importer: &str, findings: &Vec<FileFindings>) -> (r: Vec<String>)
    ensures
        r@.len() == findings@.len(),
        forall|i: int| 0 <= i < r@.len() ==> shown_source(resolver, importer@, findings@[i].source@, #[trigger] r@[i]@),
{
    let mut out: Vec<String> = Vec::new();
    let mut i: usize = 0;
    while i < findings.len()
        invariant
            i <= findings@.len(),
            out@.len() == i,
            forall|k: int| 0 <= k < i ==> shown_source(resolver, importer@, findings@[k].source@, #[trigger] out@[k]@),
        decreases findings@.len() - i,
    {
        let t = resolver.resolve(importer, findings[i].source.as_str());
        let d = resolver.display(&t);
        assert(crate::resolver::resolves_to(resolver, importer@, findings@[i as int].source@, t.view()));
        out.push(d);
        i = i + 1;
    }
    out
}

/// The hit a finding yields, given its displayed source.
pub open spec fn hit_of(h: ImpactHit, repo: Seq<char>, file: Seq<char>, f: FileFindings, source: Seq<char>) -> bool {
    &&& h.repo@ == repo
    &&& h.file@ == file
    &&& h.line == f.line
    &&& h.source@ == source
    &&& h.refs == f.refs
    &&& h.jsx_uses == f.jsx_uses
    &&& h.jsx_props == f.jsx_props
    &&& h.jsx_lines == f.jsx_lines
}

/// The finding survives the `--from` filter: a substring of its source.
pub open spec fn passes_from(source: Seq<char>, from: Option<Seq<char>>) -> bool {
    match from {
        Some(f) => contains_seq(source, f),
        None => true,
    }
}

/// Indices of the findings that pass the filter, in order.
pub open spec fn kept_indices(sources: Seq<Seq<char>>, from: Option<Seq<char>>) -> Seq<int>
    decreases sources.len(),
{
    if sources.len() == 0 {
        seq![]
    } else {
        let prev = kept_indices(sources.drop_last(), from);
        if passes_from(sources.last(), from) {
            prev.push(sources.len() - 1)
        } else {
            prev
        }
    }
}

/// `out` holds, in order, the hit of each finding that `kept` names, all
/// of them below `bound`.
pub open spec fn hits_agree(
    out: Seq<ImpactHit>,
    kept: Seq<int>,
    bound: int,
    repo: Seq<char>,
    file: Seq<char>,
    fs: Seq<FileFindings>,
    sources: Seq<String>,
) -> bool {
    &&& out.len() == kept.len()
    &&& forall|q: int| 0 <= q < out.len() ==> #[trigger] hit_at(out[q], kept[q], bound, repo, file, fs, sources)
}

/// `h` is the hit of finding `k`, which lies below `bound`.
pub open spec fn hit_at(
    h: ImpactHit,
    k: int,
    bound: int,
    repo: Seq<char>,
    file: Seq<char>,
    fs: Seq<FileFindings>,
    sources: Seq<String>,
) -> bool {
    &&& 0 <= k < bound
    &&& hit_of(h, repo, file, fs[k], sources[k]@)
}

proof fn lemma_hits_step(
    old_out: Seq<ImpactHit>,
    out: Seq<ImpactHit>,
    prev: Seq<int>,
    kept: Seq<int>,
    i: int,
    keep: bool,
    repo: Seq<char>,
    file: Seq<char>,
    fs: Seq<FileFindings>,
    sources: Seq<String>,
)
    requires
        0 <= i,
        hits_agree(old_out, prev, i, repo, file, fs, sources),
        keep ==> kept == prev.push(i) && out.len() == old_out.len() + 1 && out.drop_last() == old_out
            && hit_of(out.last(), repo, file, fs[i], sources[i]@),
        !keep ==> kept == prev && out == old_out,
    ensures
        hits_agree(out, kept, i + 1, repo, file, fs, sources),
{
    assert forall|q: int| 0 <= q < out.len() implies #[trigger] hit_at(out[q], kept[q], i + 1, repo, file, fs, sources) by {
        assert(prev.len() == old_out.len());
        if q < old_out.len() {
            assert(hit_at(old_out[q], prev[q], i, repo, file, fs, sources));
            if keep {
                assert(out.drop_last()[q] == out[q]);
            }
            assert(out[q] == old_out[q]);
            assert(kept[q] == prev[q]);
        } else {
            assert(out[q] == out.last());
        }
    }
}

/// The optional filter as a value.
pub open spec fn opt_str(o: Option<&str>) -> Option<Seq<char>> {
    match o {
        Some(s) => Some(s@),
        None => None,
    }
}

/// The hits of one file: each finding whose displayed source contains
/// `from` (every finding when there is no filter), in order.
pub fn file_hits(repo: &str, file: &str, findings: Vec<FileFindings>, sources: &Vec<String>, from: Option<&str>) -> (r: Vec<ImpactHit>)
    requires
        sources@.len() == findings@.len(),
    ensures
        hits_agree(
            r@,
            kept_indices(sources@.map_values(|s: String| s@), opt_str(from)),
            findings@.len() as int,
            repo@,
            file@,
            findings@,
            sources@,
        ),
{
    let n: usize = findings.len();
    let ghost fs = findings@;
    let ghost sv = sources@.map_values(|s: String| s@);
    let ghost fv = opt_str(from);
    let fc: Option<Vec<char>> = match from {
        Some(f) => Some(chars_of(f)),
        None => None,
    };
    let mut out: Vec<ImpactHit> = Vec::new();
    let mut i: usize = 0;
    let ghost mut kept: Seq<int> = seq![];
    for f in it: findings
        invariant
            fs == it.seq(),
            sources@.len() == fs.len(),
            sv == sources@.map_values(|s: String| s@),
            fv == opt_str(from),
            fc matches Some(c) ==> fv == Some(c@),
            fc is None ==> fv is None,
            i == it.index(),
            i <= fs.len(),
            fs.len() == n,
            kept == kept_indices(sv.take(i as int), fv),
            hits_agree(out@, kept, i as int, repo@, file@, fs, sources@),
    {
        assert(i < fs.len());
        assert(f == fs[i as int]);
        let src = &sources[i];
        let keep = match &fc {
            Some(c) => contains_exec(&chars_of(src.as_str()), c),
            None => true,
        };
        assert(sv.take(i + 1).drop_last() =~= sv.take(i as int));
        assert(sv.take(i + 1).last() == sources@[i as int]@);
        assert(keep == passes_from(sv[i as int], fv));
        let ghost old_out = out@;
        let ghost prev = kept;
        if keep {
            let h = ImpactHit {
                repo: crate::text::string_from_chars(&chars_of(repo)),
                file: crate::text::string_from_chars(&chars_of(file)),
                line: f.line,
                source: copy_string(src),
                refs: f.refs,
                jsx_uses: f.jsx_uses,
                jsx_props: f.jsx_props,
                jsx_lines: f.jsx_lines,
            };
            assert(hit_of(h, repo@, file@, fs[i as int], sources@[i as int]@));
            out.push(h);
            assert(out@.drop_last() =~= old_out);
            proof {
                kept = kept.push(i as int);
            }
        }
        proof {
            lemma_hits_step(old_out, out@, prev, kept, i as int, keep, repo@, file@, fs, sources@);
        }
        i = i + 1;
    }
    assert(sv.take(fs.len() as int) =~= sv);
    out
}

proof fn lemma_hit_lt(a: ImpactHit, b: ImpactHit, c: ImpactHit)
    ensures
        !a.before(&a),
        a.before(&b) && b.before(&c) ==> a.before(&c),
        a.before(&b) || b.before(&a) || (a.repo@ == b.repo@ && a.file@ == b.file@ && a.line == b.line),
        !(a.before(&b) && b.before(&a)),
{
    lemma_lt_irreflexive(a.repo@);
    lemma_lt_irreflexive(a.file@);
    lemma_lt_trichotomy(a.repo@, b.repo@);
    lemma_lt_trichotomy(a.file@, b.file@);
    lemma_lt_trichotomy(b.repo@, c.repo@);
    lemma_lt_trichotomy(b.file@, c.file@);
    if seq_lt(a.repo@, b.repo@) && seq_lt(b.repo@, c.repo@) {
        lemma_lt_transitive(a.repo@, b.repo@, c.repo@);
    }
    if seq_lt(a.file@, b.file@) && seq_lt(b.file@, c.file@) {
        lemma_lt_transitive(a.file@, b.file@, c.file@);
    }
}

/// Sorted hits come in (repo, file, line) order.
pub proof fn law_hits_ordered(hits: Seq<ImpactHit>)
    ensures
        is_ordered(sort_stable_spec(hits)),
        sort_stable_spec(hits).to_multiset() == hits.to_multiset(),
{
    assert(strict_weak_on(hits)) by {
        assert forall|i: int| 0 <= i < hits.len() implies !(#[trigger] hits[i]).before(&hits[i]) by {
            lemma_hit_lt(hits[i], hits[i], hits[i]);
        }
        assert forall|i: int, j: int, k: int|
            #![trigger hits[i], hits[j], hits[k]]
            0 <= i < hits.len() && 0 <= j < hits.len() && 0 <= k < hits.len() && hits[i].before(&hits[j])
                && hits[j].before(&hits[k]) implies hits[i].before(&hits[k]) by {
            lemma_hit_lt(hits[i], hits[j], hits[k]);
        }
        assert forall|i: int, j: int, k: int|
            #![trigger hits[i], hits[j], hits[k]]
            0 <= i < hits.len() && 0 <= j < hits.len() && 0 <= k < hits.len() && !hits[i].before(&hits[j])
                && !hits[j].before(&hits[i]) && !hits[j].before(&hits[k]) && !hits[k].before(
                &hits[j],
            ) implies !hits[i].before(&hits[k]) && !hits[k].before(&hits[i]) by {
            lemma_hit_lt(hits[i], hits[j], hits[k]);
            lemma_hit_lt(hits[k], hits[j], hits[i]);
            lemma_hit_lt(hits[i], hits[k], hits[j]);
        }
    }
    lemma_sort_ordered(hits);
    crate::sort::lemma_sort_permutes(hits);
}

} // verus!
