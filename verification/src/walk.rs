//! Which files of a repository are scanned, and in what order.
use vstd::prelude::*;
use crate::order::{compare_chars, lemma_lt_irreflexive, lemma_lt_transitive, lemma_lt_trichotomy, seq_lt};
use crate::paths::{comps, cur_comp, parent_comp, path_components, root_comp, vv};
use crate::sort::{Ranked, sort_stable_spec, sorted_stable};
use crate::text::{chars_of, ends_with_exec, is_suffix};

verus! {

/// Directories never descended into.
pub open spec fn is_skipped_dir_name(n: Seq<char>) -> bool {
    n == "node_modules"@ || n == "build"@ || n == "dist"@ || n == "coverage"@
}

/// Whether a directory is never descended into.
pub fn is_skipped_dir(name: &str) -> (b: bool)
    ensures
        b == is_skipped_dir_name(name@),
{
    let n = chars_of(name);
    let eq = |lit: &str| -> (r: bool)
        ensures
            r == (n@ == lit@),
        { crate::order::compare_chars(&n, &chars_of(lit)) == 0 };
    eq("node_modules") || eq("build") || eq("dist") || eq("coverage")
}

/// The file name of a path: its last component, when that is a plain name.
pub open spec fn file_name(p: Seq<char>) -> Option<Seq<char>> {
    let cs = comps(p);
    if cs.len() > 0 && cs.last() != root_comp() && cs.last() != cur_comp() && cs.last() != parent_comp() {
        Some(cs.last())
    } else {
        None
    }
}

/// Index of the last `.` of `s` below `n`, or -1.
pub open spec fn last_dot(s: Seq<char>, n: int) -> int
    decreases n,
{
    if n <= 0 {
        -1
    } else if s[n - 1] == '.' {
        n - 1
    } else {
        last_dot(s, n - 1)
    }
}

/// The extension of a file name, as `Path::extension` gives it: the text
/// after the last `.`, unless there is none or the only one leads the name.
pub open spec fn extension_of(name: Seq<char>) -> Option<Seq<char>> {
    let k = last_dot(name, name.len() as int);
    if k <= 0 {
        None
    } else {
        Some(name.subrange(k + 1, name.len() as int))
    }
}

/// A scanned source file: a `.ts`, `.tsx`, `.js` or `.jsx` file that is not
/// a `.d.ts` declaration file.
pub open spec fn is_source_path(p: Seq<char>) -> bool {
    match file_name(p) {
        Some(n) => match extension_of(n) {
            Some(e) => (e == "ts"@ || e == "tsx"@ || e == "js"@ || e == "jsx"@) && !is_suffix(".d.ts"@, p),
            None => false,
        },
        None => false,
    }
}

/// Whether a file is scanned.
pub fn is_source_file(path: &str) -> (b: bool)
    ensures
        b == is_source_path(path@),
{
    let cs = path_components(path);
    let n = cs.len();
    if n == 0 {
        return false;
    }
    let last = &cs[n - 1];
    let root: Vec<char> = chars_of("/");
    let cur: Vec<char> = chars_of(".");
    let parent: Vec<char> = chars_of("..");
    proof {
        reveal_strlit("/");
        reveal_strlit(".");
        reveal_strlit("..");
        assert(vv(cs@).last() == last@);
        assert(root@ == root_comp());
        assert(cur@ == cur_comp());
        assert(parent@ == parent_comp());
        assert(comps(path@) == vv(cs@));
    }
    if compare_chars(last, &root) == 0 || compare_chars(last, &cur) == 0 || compare_chars(last, &parent) == 0 {
        return false;
    }
    let mut k: usize = last.len();
    while k > 0 && last[k - 1] != '.'
        invariant
            k <= last@.len(),
            last_dot(last@, last@.len() as int) == last_dot(last@, k as int),
        decreases k,
    {
        k = k - 1;
    }
    proof {
        assert(last_dot(last@, k as int) == k - 1);
        assert(file_name(path@) == Some(last@));
    }
    if k <= 1 {
        return false;
    }
    let mut ext: Vec<char> = Vec::new();
    let mut i: usize = k;
    while i < last.len()
        invariant
            k <= i <= last@.len(),
            ext@ == last@.subrange(k as int, i as int),
        decreases last@.len() - i,
    {
        ext.push(last[i]);
        assert(ext@ =~= last@.subrange(k as int, i + 1));
        i = i + 1;
    }
    let known = compare_chars(&ext, &chars_of("ts")) == 0 || compare_chars(&ext, &chars_of("tsx")) == 0
        || compare_chars(&ext, &chars_of("js")) == 0 || compare_chars(&ext, &chars_of("jsx")) == 0;
    known && !ends_with_exec(&chars_of(path), &chars_of(".d.ts"))
}

/// Component-wise order of paths, as `PathBuf`'s `Ord` compares them.
pub open spec fn comps_lt(a: Seq<Seq<char>>, b: Seq<Seq<char>>) -> bool
    decreases a.len(),
{
    if a.len() == 0 {
        b.len() > 0
    } else if b.len() == 0 {
        false
    } else if seq_lt(a[0], b[0]) {
        true
    } else if a[0] != b[0] {
        false
    } else {
        comps_lt(a.drop_first(), b.drop_first())
    }
}

/// Whether path `p` sorts before path `q`, component by component.
pub fn path_before(p: &str, q: &str) -> (b: bool)
    ensures
        b == comps_lt(comps(p@), comps(q@)),
{
    let a = path_components(p);
    let c = path_components(q);
    let ghost av = vv(a@);
    let ghost cv = vv(c@);
    let mut i: usize = 0;
    assert(av.skip(0) =~= av);
    assert(cv.skip(0) =~= cv);
    while i < a.len() && i < c.len()
        invariant
            i <= a@.len(),
            i <= c@.len(),
            av == vv(a@),
            cv == vv(c@),
            av == comps(p@),
            cv == comps(q@),
            comps_lt(av, cv) == comps_lt(av.skip(i as int), cv.skip(i as int)),
        decreases a@.len() - i,
    {
        let r = compare_chars(&a[i], &c[i]);
        proof {
            assert(av.skip(i as int)[0] == a@[i as int]@);
            assert(cv.skip(i as int)[0] == c@[i as int]@);
            assert(av.skip(i as int).drop_first() =~= av.skip(i + 1));
            assert(cv.skip(i as int).drop_first() =~= cv.skip(i + 1));
        }
        if r < 0 {
            return true;
        }
        if r > 0 {
            return false;
        }
        i = i + 1;
    }
    i < c.len()
}

/// No path sorts before itself.
pub proof fn lemma_comps_lt_irreflexive(a: Seq<Seq<char>>)
    ensures
        !comps_lt(a, a),
    decreases a.len(),
{
    if a.len() > 0 {
        lemma_lt_irreflexive(a[0]);
        lemma_comps_lt_irreflexive(a.drop_first());
    }
}

/// The component order is transitive.
pub proof fn lemma_comps_lt_transitive(a: Seq<Seq<char>>, b: Seq<Seq<char>>, c: Seq<Seq<char>>)
    requires
        comps_lt(a, b),
        comps_lt(b, c),
    ensures
        comps_lt(a, c),
    decreases a.len(),
{
    if a.len() > 0 && b.len() > 0 && c.len() > 0 {
        lemma_lt_trichotomy(a[0], b[0]);
        lemma_lt_trichotomy(b[0], c[0]);
        if seq_lt(a[0], b[0]) && seq_lt(b[0], c[0]) {
            lemma_lt_transitive(a[0], b[0], c[0]);
        } else if a[0] == b[0] && b[0] == c[0] {
            lemma_comps_lt_transitive(a.drop_first(), b.drop_first(), c.drop_first());
        }
    }
}

/// Of two paths, one sorts first or they are the same.
pub proof fn lemma_comps_lt_trichotomy(a: Seq<Seq<char>>, b: Seq<Seq<char>>)
    ensures
        comps_lt(a, b) || comps_lt(b, a) || a == b,
        !(comps_lt(a, b) && comps_lt(b, a)),
    decreases a.len(),
{
    if a.len() > 0 && b.len() > 0 {
        lemma_lt_trichotomy(a[0], b[0]);
        if a[0] == b[0] {
            lemma_comps_lt_trichotomy(a.drop_first(), b.drop_first());
            if a.drop_first() == b.drop_first() {
                assert(a =~= seq![a[0]] + a.drop_first());
                assert(b =~= seq![b[0]] + b.drop_first());
            }
        }
    } else if a.len() == 0 && b.len() == 0 {
        assert(a =~= b);
    }
}

/// A path of a scanned file.
pub struct SourcePath {
    pub path: String,
}

/// Paths sort component by component.
impl Ranked for SourcePath {
    open spec fn before(&self, other: &Self) -> bool {
        comps_lt(comps(self.path@), comps(other.path@))
    }

    fn before_exec(&self, other: &Self) -> (b: bool) {
        path_before(self.path.as_str(), other.path.as_str())
    }
}

/// The files in path order.
pub fn sort_source_paths(paths: Vec<SourcePath>) -> (r: Vec<SourcePath>)
    ensures
        r@ == sort_stable_spec(paths@),
{
    sorted_stable(paths)
}

} // verus!
