//! Where a symbol is really declared: the repository most of its imports
//! point at, the shallowest file there that declares it, and an excerpt of
//! the declaration.
use vstd::prelude::*;
use crate::clones::{is_repo_name, repo_named};
use crate::digits::{decimal, push_decimal};
use crate::discover::Repo;
use crate::impact::ImpactHit;
use crate::order::{compare_str, seq_lt};
use crate::paths::{comps, path_components, vv};
use crate::walk::{comps_lt, lemma_comps_lt_irreflexive, lemma_comps_lt_transitive, lemma_comps_lt_trichotomy, path_before};
use crate::tally::{is_most_common, most_common};
use crate::text::{chars_of, copy_string, join, lines_exec, owned, push_joined, push_str, string_from_chars, text_lines, views};

verus! {

/// Cap per section (props interface / declaration) so one giant component
/// body cannot blow up the pack.
pub const MAX_SECTION_LINES: usize = 30;

/// The located declaration of a symbol.
pub struct Definition {
    pub repo: String,
    /// path relative to the defining repo's root
    pub file: String,
    /// 1-based line of the symbol's declaration
    pub line: usize,
    /// `<symbol>Props` declaration (when in the same file) + the symbol's
    /// declaration, each capped at MAX_SECTION_LINES
    pub excerpt: String,
}

/// The part of `s` before its first `/` (all of `s` when it has none).
pub open spec fn first_segment(s: Seq<char>) -> Seq<char>
    decreases s.len(),
{
    if s.len() == 0 || s[0] == '/' {
        seq![]
    } else {
        seq![s[0]] + first_segment(s.drop_first())
    }
}

/// Repo defining the component behind one hit's import: a source whose
/// first path segment names a workspace repo points at that repo; otherwise
/// the import stayed inside the hit's own repo.
pub open spec fn defining_repo(h: ImpactHit, repos: Seq<Repo>) -> Seq<char> {
    let first = first_segment(h.source@);
    if repo_named(repos, first) {
        first
    } else {
        h.repo@
    }
}

/// The name of the repo defining the component behind a hit's import.
pub fn defining_repo_name(hit: &ImpactHit, repos: &Vec<Repo>) -> (r: String)
    ensures
        r@ == defining_repo(*hit, repos@),
{
    let s = chars_of(hit.source.as_str());
    let mut first: Vec<char> = Vec::new();
    let mut i: usize = 0;
    assert(s@.skip(0) =~= s@);
    assert(first@ + first_segment(s@.skip(0)) =~= first_segment(s@));
    while i < s.len() && s[i] != '/'
        invariant
            i <= s@.len(),
            s@ == hit.source@,
            first_segment(s@) == first@ + first_segment(s@.skip(i as int)),
        decreases s@.len() - i,
    {
        assert(s@.skip(i as int).drop_first() =~= s@.skip(i + 1));
        first.push(s[i]);
        assert(first_segment(s@) =~= first@ + first_segment(s@.skip(i + 1)));
        i = i + 1;
    }
    assert(s@.skip(0) =~= s@);
    assert(first_segment(s@.skip(i as int)) =~= Seq::<char>::empty());
    assert(first@ =~= first_segment(s@));
    let name = string_from_chars(&first);
    if is_repo_name(repos, name.as_str()) {
        name
    } else {
        copy_string(&hit.repo)
    }
}

/// The defining repo that most hits point at (ties to the smaller name);
/// `None` without hits.
pub fn dominant_defining_repo(hits: &Vec<ImpactHit>, repos: &Vec<Repo>) -> (r: Option<String>)
    ensures
        hits@.len() == 0 ==> r is None,
        hits@.len() > 0 ==> (r matches Some(k) && is_most_common(
            hits@.map_values(|h: ImpactHit| defining_repo(h, repos@)),
            k@,
        )),
{
    let mut keys: Vec<String> = Vec::new();
    let mut i: usize = 0;
    while i < hits.len()
        invariant
            i <= hits@.len(),
            views(keys@) == hits@.take(i as int).map_values(|h: ImpactHit| defining_repo(h, repos@)),
        decreases hits@.len() - i,
    {
        let ghost before = views(keys@);
        keys.push(defining_repo_name(&hits[i], repos));
        assert(views(keys@) =~= before.push(keys@[i as int]@));
        assert(hits@.take(i + 1).map_values(|h: ImpactHit| defining_repo(h, repos@)) =~= hits@.take(
            i as int,
        ).map_values(|h: ImpactHit| defining_repo(h, repos@)).push(defining_repo(hits@[i as int], repos@)));
        i = i + 1;
    }
    assert(hits@.take(hits@.len() as int) =~= hits@);
    most_common(&keys)
}

/// The index of the first repo named `name`.
pub fn repo_index(repos: &Vec<Repo>, name: &str) -> (r: Option<usize>)
    ensures
        r is None <==> !repo_named(repos@, name@),
        r matches Some(i) ==> i < repos@.len() && repos@[i as int].name@ == name@ && forall|j: int|
            0 <= j < i ==> (#[trigger] repos@[j]).name@ != name@,
{
    let mut j: usize = 0;
    while j < repos.len()
        invariant
            j <= repos@.len(),
            forall|q: int| 0 <= q < j ==> (#[trigger] repos@[q]).name@ != name@,
        decreases repos@.len() - j,
    {
        if compare_str(repos[j].name.as_str(), name) == 0 {
            return Some(j);
        }
        j = j + 1;
    }
    None
}

/// Same-name declarations in several files: the shallower path wins, then
/// the one that sorts first component by component.
pub open spec fn decl_path_before(a: Seq<char>, b: Seq<char>) -> bool {
    comps(a).len() < comps(b).len() || (comps(a).len() == comps(b).len() && comps_lt(comps(a), comps(b)))
}

/// The declaring file picked among `paths`: none sorts strictly before it,
/// and it sorts strictly before every earlier one (the first of the
/// smallest, as a stable sort puts it).
pub open spec fn is_picked(paths: Seq<Seq<char>>, i: int) -> bool {
    &&& 0 <= i < paths.len()
    &&& forall|j: int| 0 <= j < paths.len() ==> !decl_path_before(#[trigger] paths[j], paths[i])
    &&& forall|j: int| 0 <= j < i ==> decl_path_before(paths[i], #[trigger] paths[j])
}

/// Which of the files declaring the symbol to take; `None` for no files.
pub fn pick_declaration(paths: &Vec<String>) -> (r: Option<usize>)
    ensures
        paths@.len() == 0 ==> r is None,
        paths@.len() > 0 ==> (r matches Some(i) && is_picked(views(paths@), i as int)),
{
    let ghost pv = views(paths@);
    if paths.len() == 0 {
        return None;
    }
    let mut best: usize = 0;
    let mut best_n = path_components(paths[0].as_str()).len();
    let mut i: usize = 1;
    proof {
        lemma_comps_lt_irreflexive(comps(pv[0]));
    }
    while i < paths.len()
        invariant
            1 <= i <= paths@.len(),
            pv == views(paths@),
            best < i,
            best_n == comps(pv[best as int]).len(),
            forall|j: int| 0 <= j < i ==> !decl_path_before(#[trigger] pv[j], pv[best as int]),
            forall|j: int| 0 <= j < best ==> decl_path_before(pv[best as int], #[trigger] pv[j]),
        decreases paths@.len() - i,
    {
        let n = path_components(paths[i].as_str()).len();
        let ghost ci = comps(pv[i as int]);
        let ghost cb = comps(pv[best as int]);
        proof {
            lemma_comps_lt_trichotomy(ci, cb);
        }
        if n < best_n || (n == best_n && path_before(paths[i].as_str(), paths[best].as_str())) {
            proof {
                assert forall|j: int| 0 <= j < i + 1 implies !decl_path_before(#[trigger] pv[j], pv[i as int]) by {
                    lemma_comps_lt_irreflexive(ci);
                    if j < i && comps(pv[j]).len() == n && comps_lt(comps(pv[j]), ci) {
                        lemma_comps_lt_transitive(comps(pv[j]), ci, cb);
                    }
                }
                assert forall|j: int| 0 <= j < i implies decl_path_before(pv[i as int], #[trigger] pv[j]) by {
                    lemma_comps_lt_trichotomy(comps(pv[j]), cb);
                    if comps(pv[j]).len() == n && n == best_n && !comps_lt(comps(pv[j]), cb) {
                        if comps_lt(cb, comps(pv[j])) {
                            lemma_comps_lt_transitive(ci, cb, comps(pv[j]));
                        }
                    }
                }
            }
            best = i;
            best_n = n;
        }
        i = i + 1;
    }
    Some(best)
}

/// The note for a symbol declared in several files of the defining repo.
pub fn multi_declaration_warning(count: usize, repo: &str, symbol: &str, picked: &str) -> (w: String)
    ensures
        w@ == decimal(count as nat) + " files in "@ + repo@ + " declare "@ + symbol@ + "; picked "@ + picked@,
{
    let mut w = String::new();
    push_decimal(&mut w, count);
    push_str(&mut w, " files in ");
    push_str(&mut w, repo);
    push_str(&mut w, " declare ");
    push_str(&mut w, symbol);
    push_str(&mut w, "; picked ");
    push_str(&mut w, picked);
    w
}

/// The two names a props declaration goes by: `<symbol>Props` and
/// `I<symbol>Props`, in that order of preference.
pub fn props_names(symbol: &str) -> (r: Vec<String>)
    ensures
        views(r@) == seq![symbol@ + "Props"@, "I"@ + symbol@ + "Props"@],
{
    let mut a = owned(symbol);
    push_str(&mut a, "Props");
    let mut b = owned("I");
    push_str(&mut b, symbol);
    push_str(&mut b, "Props");
    let mut r: Vec<String> = Vec::new();
    r.push(a);
    r.push(b);
    assert(views(r@) =~= seq![symbol@ + "Props"@, "I"@ + symbol@ + "Props"@]);
    r
}

/// Lines `start..=end` (1-based) of `text`, at most `MAX_SECTION_LINES` of
/// them followed by a truncation marker when the range is longer, each
/// line ended by a newline.
pub open spec fn sliced(text: Seq<char>, start: int, end: int) -> Seq<char> {
    let ls = text_lines(text);
    let capped = if end < start + MAX_SECTION_LINES - 1 {
        end
    } else {
        start + MAX_SECTION_LINES - 1
    };
    let from = if start - 1 < ls.len() {
        start - 1
    } else {
        ls.len() as int
    };
    let to = if from + (capped - start + 1) < ls.len() {
        from + (capped - start + 1)
    } else {
        ls.len() as int
    };
    let piece = ls.subrange(from, to);
    let shown = if capped < end {
        piece.push("// … truncated"@)
    } else {
        piece
    };
    join(shown, "\n"@) + seq!['\n']
}

/// 1-based inclusive line slice, capped at MAX_SECTION_LINES with a marker.
pub fn slice_lines(text: &str, start: usize, end: usize) -> (r: String)
    requires
        1 <= start <= end,
        start + MAX_SECTION_LINES <= usize::MAX,
    ensures
        r@ == sliced(text@, start as int, end as int),
{
    let capped = if end < start + MAX_SECTION_LINES - 1 {
        end
    } else {
        start + MAX_SECTION_LINES - 1
    };
    let ls = lines_exec(text);
    let ghost lv = ls@.map_values(|l: Vec<char>| l@);
    let n = ls.len();
    let from = if start - 1 < n {
        start - 1
    } else {
        n
    };
    let count = capped - start + 1;
    let to = if from < n && n - from > count {
        from + count
    } else {
        n
    };
    let mut parts: Vec<String> = Vec::new();
    let mut k: usize = from;
    while k < to
        invariant
            from <= k <= to <= n,
            n == ls@.len(),
            lv == ls@.map_values(|l: Vec<char>| l@),
            views(parts@) == lv.subrange(from as int, k as int),
        decreases to - k,
    {
        let ghost before = views(parts@);
        parts.push(string_from_chars(&ls[k]));
        assert(views(parts@) =~= before.push(lv[k as int]));
        assert(lv.subrange(from as int, k + 1) =~= lv.subrange(from as int, k as int).push(lv[k as int]));
        k = k + 1;
    }
    if capped < end {
        let ghost before = views(parts@);
        parts.push(owned("// … truncated"));
        assert(views(parts@) =~= before.push("// … truncated"@));
    }
    let mut out = String::new();
    push_joined(&mut out, &parts, "\n");
    crate::text::push_char(&mut out, '\n');
    out
}

/// The excerpt of a definition: the props declaration's slice and a blank
/// separator when there is one, then the declaration's slice.
pub open spec fn excerpt_spec(text: Seq<char>, props: Option<(usize, usize)>, decl: (usize, usize)) -> Seq<char> {
    let head = match props {
        Some(p) => sliced(text, p.0 as int, p.1 as int) + seq!['\n'],
        None => seq![],
    };
    head + sliced(text, decl.0 as int, decl.1 as int)
}

/// A declaration's line range is usable for slicing.
pub open spec fn range_ok(r: (usize, usize)) -> bool {
    1 <= r.0 <= r.1 && r.0 + MAX_SECTION_LINES <= usize::MAX
}

/// The excerpt of a definition from the declaring file's text.
pub fn definition_excerpt(text: &str, props: Option<(usize, usize)>, decl: (usize, usize)) -> (r: String)
    requires
        range_ok(decl),
        props matches Some(p) ==> range_ok(p),
    ensures
        r@ == excerpt_spec(text@, props, decl),
{
    let mut out = String::new();
    match props {
        Some(p) => {
            let s = slice_lines(text, p.0, p.1);
            push_str(&mut out, s.as_str());
            crate::text::push_char(&mut out, '\n');
        },
        None => {},
    }
    let d = slice_lines(text, decl.0, decl.1);
    push_str(&mut out, d.as_str());
    out
}

} // verus!
