//! Unix path semantics for the resolver: the components `std::path` splits a
//! path into, and normalized paths with `..` resolved lexically.
use vstd::prelude::*;
use crate::text::{chars_of, copy_chars, copy_string, push_char, push_str, string_from_chars};

verus! {

/// The component that a leading `/` stands for.
pub open spec fn root_comp() -> Seq<char> {
    seq!['/']
}

/// The current-directory component `.`.
pub open spec fn cur_comp() -> Seq<char> {
    seq!['.']
}

/// The parent-directory component `..`.
pub open spec fn parent_comp() -> Seq<char> {
    seq!['.', '.']
}

/// The component for one segment between separators: empty segments and
/// interior `.` yield none.
pub open spec fn emit_segment(cur: Seq<char>) -> Seq<Seq<char>> {
    if cur.len() == 0 || cur == cur_comp() {
        seq![]
    } else {
        seq![cur]
    }
}

/// Components of the text after the leading root / current-directory part,
/// `cur` being the segment read so far.
pub open spec fn body_comps(s: Seq<char>, cur: Seq<char>) -> Seq<Seq<char>>
    decreases s.len(),
{
    if s.len() == 0 {
        emit_segment(cur)
    } else if s[0] == '/' {
        emit_segment(cur) + body_comps(s.drop_first(), seq![])
    } else {
        body_comps(s.drop_first(), cur.push(s[0]))
    }
}

/// The components of a path as `Path::components` yields them on Unix:
/// `/` for a leading root, `.` only as a leading current directory, `..` as
/// is, and every other non-empty segment.
pub open spec fn comps(s: Seq<char>) -> Seq<Seq<char>> {
    if s.len() > 0 && s[0] == '/' {
        seq![root_comp()] + body_comps(s.drop_first(), seq![])
    } else if s.len() > 0 && s[0] == '.' && (s.len() == 1 || s[1] == '/') {
        seq![cur_comp()] + body_comps(s.drop_first(), seq![])
    } else {
        body_comps(s, seq![])
    }
}

/// A path with no `.` and `..` left: an optional root and plain segments.
pub struct NormPath {
    pub absolute: bool,
    pub parts: Vec<String>,
}

/// The segments of a normalized path as character sequences.
pub open spec fn parts_view(parts: Seq<String>) -> Seq<Seq<char>> {
    parts.map_values(|p: String| p@)
}

/// A plain segment: non-empty, no separator, neither `.` nor `..`.
pub open spec fn is_plain(p: Seq<char>) -> bool {
    p.len() > 0 && !p.contains('/') && p != cur_comp() && p != parent_comp()
}

/// One step of lexical normalization (`normalize` in the resolver): a root
/// restarts at `/`, `.` is dropped, `..` pops a segment when there is one.
pub open spec fn norm_step(acc: (bool, Seq<Seq<char>>), c: Seq<char>) -> (bool, Seq<Seq<char>>) {
    if c == root_comp() {
        (true, seq![])
    } else if c == cur_comp() {
        acc
    } else if c == parent_comp() {
        if acc.1.len() > 0 {
            (acc.0, acc.1.drop_last())
        } else {
            acc
        }
    } else {
        (acc.0, acc.1.push(c))
    }
}

/// Lexical normalization of a component list, no filesystem access.
pub open spec fn norm_fold(cs: Seq<Seq<char>>) -> (bool, Seq<Seq<char>>)
    decreases cs.len(),
{
    if cs.len() == 0 {
        (false, seq![])
    } else {
        norm_step(norm_fold(cs.drop_last()), cs.last())
    }
}

/// Segments joined with `/`.
pub open spec fn join_slash(parts: Seq<Seq<char>>) -> Seq<char>
    decreases parts.len(),
{
    if parts.len() == 0 {
        seq![]
    } else if parts.len() == 1 {
        parts[0]
    } else {
        join_slash(parts.drop_last()) + seq!['/'] + parts.last()
    }
}

/// The text of a normalized path.
pub open spec fn render(p: (bool, Seq<Seq<char>>)) -> Seq<char> {
    (if p.0 {
        seq!['/']
    } else {
        seq![]
    }) + join_slash(p.1)
}

/// The components of a normalized path.
pub open spec fn norm_comps(p: (bool, Seq<Seq<char>>)) -> Seq<Seq<char>> {
    (if p.0 {
        seq![root_comp()]
    } else {
        seq![]
    }) + p.1
}

impl NormPath {
    /// (absolute, segments).
    pub open spec fn view(&self) -> (bool, Seq<Seq<char>>) {
        (self.absolute, parts_view(self.parts@))
    }

    /// Every segment is plain.
    pub open spec fn wf(&self) -> bool {
        forall|i: int| 0 <= i < self.parts@.len() ==> is_plain(#[trigger] self.parts@[i]@)
    }

    /// The path as text.
    pub fn render(&self) -> (s: String)
        ensures
            s@ == render(self.view()),
    {
        let mut s = String::new();
        if self.absolute {
            push_char(&mut s, '/');
        }
        let ghost lead = s@;
        let mut i: usize = 0;
        while i < self.parts.len()
            invariant
                i <= self.parts@.len(),
                lead == (if self.absolute { seq!['/'] } else { seq![] }),
                s@ == lead + join_slash(parts_view(self.parts@).take(i as int)),
            decreases self.parts@.len() - i,
        {
            let ghost pv = parts_view(self.parts@);
            assert(pv.take(i + 1).drop_last() =~= pv.take(i as int));
            if i > 0 {
                push_char(&mut s, '/');
            } else {
                assert(pv.take(0).len() == 0);
            }
            push_str(&mut s, self.parts[i].as_str());
            if i == 0 {
                assert(s@ =~= lead + join_slash(pv.take(1)));
            } else {
                assert(s@ =~= lead + join_slash(pv.take(i + 1)));
            }
            i = i + 1;
        }
        assert(parts_view(self.parts@).take(self.parts@.len() as int) =~= parts_view(self.parts@));
        s
    }
}

/// The character sequences of a list of character vectors.
pub open spec fn vv(cs: Seq<Vec<char>>) -> Seq<Seq<char>> {
    cs.map_values(|c: Vec<char>| c@)
}

/// Pushes the component for segment `cur`, as `emit_segment` does.
fn emit(out: &mut Vec<Vec<char>>, cur: Vec<char>)
    ensures
        vv(final(out)@) == vv(old(out)@) + emit_segment(cur@),
{
    let dot = cur.len() == 1 && cur[0] == '.';
    if cur.len() == 0 || dot {
        proof {
            if cur@.len() == 1 && cur@[0] == '.' {
                assert(cur@ =~= cur_comp());
            }
        }
        assert(vv(out@) =~= vv(out@) + emit_segment(cur@));
    } else {
        proof {
            if cur@ == cur_comp() {
                assert(cur@[0] == '.');
            }
        }
        out.push(cur);
        assert(vv(out@) =~= vv(old(out)@) + emit_segment(cur@));
    }
}

/// The components of a path, as `Path::components` yields them on Unix.
pub fn path_components(path: &str) -> (r: Vec<Vec<char>>)
    ensures
        vv(r@) == comps(path@),
{
    let s = chars_of(path);
    let mut out: Vec<Vec<char>> = Vec::new();
    let mut i: usize = 0;
    if s.len() > 0 && s[0] == '/' {
        let mut rc: Vec<char> = Vec::new();
        rc.push('/');
        assert(rc@ =~= root_comp());
        out.push(rc);
        i = 1;
        assert(vv(out@) =~= seq![root_comp()]);
    } else if s.len() > 0 && s[0] == '.' && (s.len() == 1 || s[1] == '/') {
        let mut cc: Vec<char> = Vec::new();
        cc.push('.');
        assert(cc@ =~= cur_comp());
        out.push(cc);
        i = 1;
        assert(vv(out@) =~= seq![cur_comp()]);
    } else {
        assert(vv(out@) =~= seq![]);
    }
    let ghost lead = vv(out@);
    assert(s@.skip(i as int) =~= (if i == 1 { s@.drop_first() } else { s@ }));
    assert(comps(s@) == lead + body_comps(s@.skip(i as int), seq![]));
    let mut cur: Vec<char> = Vec::new();
    while i < s.len()
        invariant
            i <= s.len(),
            comps(s@) == vv(out@) + body_comps(s@.skip(i as int), cur@),
        decreases s.len() - i,
    {
        assert(s@.skip(i as int).drop_first() =~= s@.skip(i + 1));
        if s[i] == '/' {
            let seg = cur;
            cur = Vec::new();
            let ghost before = vv(out@);
            emit(&mut out, seg);
            assert(vv(out@) + body_comps(s@.skip(i + 1), cur@) =~= before + (emit_segment(seg@) + body_comps(s@.skip(i + 1), seq![])));
        } else {
            cur.push(s[i]);
        }
        i = i + 1;
    }
    assert(s@.skip(i as int).len() == 0);
    let ghost before = vv(out@);
    emit(&mut out, cur);
    out
}

/// Lexical normalization of a component list.
pub fn normalize_components(cs: &Vec<Vec<char>>) -> (p: NormPath)
    ensures
        p.view() == norm_fold(vv(cs@)),
{
    let mut absolute = false;
    let mut parts: Vec<String> = Vec::new();
    let mut i: usize = 0;
    while i < cs.len()
        invariant
            i <= cs@.len(),
            (absolute, parts_view(parts@)) == norm_fold(vv(cs@).take(i as int)),
        decreases cs@.len() - i,
    {
        let c = &cs[i];
        assert(vv(cs@).take(i + 1).drop_last() =~= vv(cs@).take(i as int));
        assert(vv(cs@).take(i + 1).last() == c@);
        if c.len() == 1 && c[0] == '/' {
            assert(c@ =~= root_comp());
            absolute = true;
            parts = Vec::new();
            assert(parts_view(parts@) =~= seq![]);
        } else if c.len() == 1 && c[0] == '.' {
            assert(c@ =~= cur_comp());
        } else if c.len() == 2 && c[0] == '.' && c[1] == '.' {
            assert(c@ =~= parent_comp());
            assert(c@ != root_comp());
            assert(c@ != cur_comp());
            if parts.len() > 0 {
                let ghost before = parts_view(parts@);
                parts.pop();
                assert(parts_view(parts@) =~= before.drop_last());
            }
        } else {
            proof {
                if c@ == root_comp() {
                    assert(c@[0] == '/');
                }
                if c@ == cur_comp() {
                    assert(c@[0] == '.');
                }
                if c@ == parent_comp() {
                    assert(c@[0] == '.' && c@[1] == '.');
                }
            }
            let ghost before = parts_view(parts@);
            parts.push(string_from_chars(c));
            assert(parts_view(parts@) =~= before.push(c@));
        }
        i = i + 1;
    }
    assert(vv(cs@).take(cs@.len() as int) =~= vv(cs@));
    NormPath { absolute, parts }
}

/// `b` with `ext` appended to its text (`format!("{}{ext}", b.display())`).
pub open spec fn with_ext_spec(b: (bool, Seq<Seq<char>>), ext: Seq<char>) -> (bool, Seq<Seq<char>>) {
    if b.1.len() == 0 {
        (b.0, seq![ext])
    } else {
        (b.0, b.1.drop_last().push(b.1.last() + ext))
    }
}

/// `b` joined with the plain segment `name`.
pub open spec fn child_spec(b: (bool, Seq<Seq<char>>), name: Seq<char>) -> (bool, Seq<Seq<char>>) {
    (b.0, b.1.push(name))
}

/// `normalize(base.join(rest))` for a normalized `base`: an absolute `rest`
/// replaces the base.
pub open spec fn join_norm(base: (bool, Seq<Seq<char>>), rest: Seq<char>) -> (bool, Seq<Seq<char>>) {
    join_comps_norm(norm_comps(base), rest)
}

/// `normalize(base.join(rest))` for a base given by its components: an
/// absolute `rest` replaces the base.
pub open spec fn join_comps_norm(base: Seq<Seq<char>>, rest: Seq<char>) -> (bool, Seq<Seq<char>>) {
    if rest.len() > 0 && rest[0] == '/' {
        norm_fold(comps(rest))
    } else {
        norm_fold(base + comps(rest))
    }
}

/// `normalize(base.join(rest))` for a base given by its components.
pub fn join_components_normalized(base: &Vec<Vec<char>>, rest: &str) -> (r: NormPath)
    ensures
        r.view() == join_comps_norm(vv(base@), rest@),
{
    let rc = path_components(rest);
    let rs = chars_of(rest);
    if rs.len() > 0 && rs[0] == '/' {
        normalize_components(&rc)
    } else {
        let mut all: Vec<Vec<char>> = Vec::new();
        let mut i: usize = 0;
        while i < base.len()
            invariant
                i <= base@.len(),
                vv(all@) == vv(base@).take(i as int),
            decreases base@.len() - i,
        {
            let ghost prev = vv(all@);
            all.push(copy_chars(&base[i]));
            assert(vv(all@) =~= prev.push(base@[i as int]@));
            assert(vv(base@).take(i + 1) =~= vv(base@).take(i as int).push(base@[i as int]@));
            i = i + 1;
        }
        assert(vv(base@).take(base@.len() as int) =~= vv(base@));
        let ghost a = vv(all@);
        let mut j: usize = 0;
        while j < rc.len()
            invariant
                j <= rc@.len(),
                vv(all@) == a + vv(rc@).take(j as int),
            decreases rc@.len() - j,
        {
            let ghost before = vv(all@);
            all.push(copy_chars(&rc[j]));
            assert(vv(all@) =~= before.push(rc@[j as int]@));
            assert(vv(rc@).take(j + 1) =~= vv(rc@).take(j as int).push(rc@[j as int]@));
            j = j + 1;
        }
        assert(vv(rc@).take(rc@.len() as int) =~= vv(rc@));
        normalize_components(&all)
    }
}

impl NormPath {
    /// A copy of the path.
    pub fn copy(&self) -> (r: NormPath)
        ensures
            r.view() == self.view(),
    {
        let mut parts: Vec<String> = Vec::new();
        let mut i: usize = 0;
        while i < self.parts.len()
            invariant
                i <= self.parts@.len(),
                parts_view(parts@) == parts_view(self.parts@).take(i as int),
            decreases self.parts@.len() - i,
        {
            let ghost before = parts_view(parts@);
            let c = copy_string(&self.parts[i]);
            parts.push(c);
            assert(parts_view(parts@) =~= before.push(self.parts@[i as int]@));
            assert(parts_view(self.parts@).take(i + 1) =~= parts_view(self.parts@).take(i as int).push(self.parts@[i as int]@));
            i = i + 1;
        }
        assert(parts_view(self.parts@).take(self.parts@.len() as int) =~= parts_view(self.parts@));
        NormPath { absolute: self.absolute, parts }
    }

    /// The components of the path: `/` when absolute, then the segments.
    pub fn components(&self) -> (r: Vec<Vec<char>>)
        ensures
            vv(r@) == norm_comps(self.view()),
    {
        let mut out: Vec<Vec<char>> = Vec::new();
        if self.absolute {
            let mut rc: Vec<char> = Vec::new();
            rc.push('/');
            assert(rc@ =~= root_comp());
            out.push(rc);
        }
        let ghost lead = vv(out@);
        assert(lead =~= (if self.absolute { seq![root_comp()] } else { seq![] }));
        let mut i: usize = 0;
        while i < self.parts.len()
            invariant
                i <= self.parts@.len(),
                vv(out@) == lead + parts_view(self.parts@).take(i as int),
            decreases self.parts@.len() - i,
        {
            let ghost before = vv(out@);
            out.push(chars_of(self.parts[i].as_str()));
            assert(vv(out@) =~= before.push(self.parts@[i as int]@));
            assert(parts_view(self.parts@).take(i + 1) =~= parts_view(self.parts@).take(i as int).push(self.parts@[i as int]@));
            i = i + 1;
        }
        assert(parts_view(self.parts@).take(self.parts@.len() as int) =~= parts_view(self.parts@));
        out
    }

    /// The path with `ext` appended to its last segment.
    pub fn with_ext(&self, ext: &str) -> (r: NormPath)
        ensures
            r.view() == with_ext_spec(self.view(), ext@),
    {
        let mut r = self.copy();
        if r.parts.len() == 0 {
            r.parts.push(string_from_chars(&chars_of(ext)));
            assert(parts_view(r.parts@) =~= seq![ext@]);
        } else {
            let ghost before = parts_view(r.parts@);
            let mut last = r.parts.pop().unwrap();
            push_str(&mut last, ext);
            r.parts.push(last);
            assert(parts_view(r.parts@) =~= before.drop_last().push(before.last() + ext@));
        }
        r
    }

    /// The path joined with the plain segment `name`.
    pub fn child(&self, name: &str) -> (r: NormPath)
        ensures
            r.view() == child_spec(self.view(), name@),
    {
        let mut r = self.copy();
        let ghost before = parts_view(r.parts@);
        r.parts.push(string_from_chars(&chars_of(name)));
        assert(parts_view(r.parts@) =~= before.push(name@));
        r
    }

    /// `normalize(self.join(rest))`.
    pub fn join_normalized(&self, rest: &str) -> (r: NormPath)
        ensures
            r.view() == join_norm(self.view(), rest@),
    {
        let c = self.components();
        join_components_normalized(&c, rest)
    }
}

/// A segment that lexical normalization keeps: neither a root, `.` nor `..`.
pub open spec fn kept_segment(c: Seq<char>) -> bool {
    c != root_comp() && c != cur_comp() && c != parent_comp()
}

/// Normalization keeps only plain segments.
proof fn lemma_norm_fold_kept(cs: Seq<Seq<char>>)
    ensures
        forall|i: int| 0 <= i < norm_fold(cs).1.len() ==> kept_segment(#[trigger] norm_fold(cs).1[i]),
    decreases cs.len(),
{
    if cs.len() > 0 {
        lemma_norm_fold_kept(cs.drop_last());
        let a = norm_fold(cs.drop_last());
        let r = norm_fold(cs);
        assert forall|i: int| 0 <= i < r.1.len() implies kept_segment(#[trigger] r.1[i]) by {
            if i < a.1.len() {
                assert(r.1[i] == a.1[i]);
            }
        }
    }
}

/// Folding plain segments after a prefix that normalizes to a bare root
/// (or to nothing) appends them.
pub(crate) proof fn lemma_norm_fold_plain(pre: Seq<Seq<char>>, parts: Seq<Seq<char>>)
    requires
        norm_fold(pre).1.len() == 0,
        forall|i: int| 0 <= i < parts.len() ==> kept_segment(#[trigger] parts[i]),
    ensures
        norm_fold(pre + parts) == (norm_fold(pre).0, parts),
    decreases parts.len(),
{
    if parts.len() == 0 {
        assert(pre + parts =~= pre);
    } else {
        lemma_norm_fold_plain(pre, parts.drop_last());
        assert((pre + parts).drop_last() =~= pre + parts.drop_last());
        assert((pre + parts).last() == parts.last());
        assert(parts.drop_last().push(parts.last()) =~= parts);
    }
}

/// Normalizing is idempotent, and a normalized path holds no `.` or `..`
/// segment: normalizing the components of a normalized path gives it back.
pub proof fn law_normalize_idempotent(cs: Seq<Seq<char>>)
    ensures
        forall|i: int| 0 <= i < norm_fold(cs).1.len() ==> kept_segment(#[trigger] norm_fold(cs).1[i]),
        norm_fold(norm_comps(norm_fold(cs))) == norm_fold(cs),
{
    lemma_norm_fold_kept(cs);
    let p = norm_fold(cs);
    let pre: Seq<Seq<char>> = if p.0 { seq![root_comp()] } else { seq![] };
    assert(norm_fold(pre) == (p.0, Seq::<Seq<char>>::empty())) by {
        if p.0 {
            assert(pre.drop_last() =~= Seq::<Seq<char>>::empty());
        }
    }
    lemma_norm_fold_plain(pre, p.1);
    assert(norm_comps(p) == pre + p.1);
}

} // verus!
