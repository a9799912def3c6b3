//! Top-level function-shaped declarations of one file, fingerprinted by
//! their normalized body tokens. The syntax walk reports the marked spans
//! and the declarations; the tokenizing, signature rendering and line
//! numbering happen here.
use vstd::prelude::*;
use crate::analyzer::{line_at, line_of, parse_error, parse_error_message, parse_failed, parse_failed_spec, ParseOutcome};
use crate::sort::{Ranked, sorted_stable, sort_stable_spec};
use crate::spans::{boundaries, byte_offset, char_index, index_at, is_boundary, lemma_char_index};
use crate::text::{
    chars_of, is_alphanumeric, is_whitespace, join, owned, push_joined, push_str, string_from_chars,
    trim_chars, trim_ws, unicode_alphanumeric, unicode_whitespace, utf8_len, views,
};

verus! {

/// Floor below which a candidate body is too trivial to cluster
/// (passthroughs like `x => !!x`).
pub const DEFAULT_MIN_TOKENS: usize = 10;

/// The declaration form of a candidate.
#[derive(PartialEq, Eq, Structural, Clone, Copy, Debug)]
pub enum CandidateKind {
    /// `function f() {}` declaration (incl. `export` / `export default`)
    Fn,
    /// `const f = () => {}` / `= function () {}` variable form
    Const,
}

/// One top-level function-shaped declaration, fingerprinted for clustering.
pub struct Candidate {
    pub name: String,
    pub exported: bool,
    pub kind: CandidateKind,
    /// 1-based line of the declaration
    pub line: usize,
    /// display-only signature: raw param list + return type when annotated
    pub sig: String,
    /// normalized body token sequence, joined with spaces — the cluster key
    pub fingerprint: String,
    /// number of normalized body tokens (the `--min-tokens` floor input)
    pub token_count: usize,
    /// string/regex literal texts found in the body, for the cluster note
    pub literals: Vec<String>,
}

/// What the syntax walk found at a span.
pub enum MarkKind {
    /// any identifier (binding, reference, property name, private name)
    Ident,
    /// a string literal, by its value
    StringLit(String),
    /// a regular-expression literal
    RegExp,
    /// a template element, by its raw text
    Template(String),
    /// a numeric or big-integer literal
    Numeric,
    /// a comment
    Comment,
}

/// One marked span, in bytes of the source.
pub struct SpanMark {
    pub start: usize,
    pub end: usize,
    pub kind: MarkKind,
}

/// One top-level function-shaped declaration, as the walk reports it.
pub struct FnDecl {
    pub name: String,
    pub exported: bool,
    pub kind: CandidateKind,
    /// byte offset of the declaration statement (`export` included)
    pub start: usize,
    /// byte spans of the parameters, the rest parameter last
    pub params: Vec<(usize, usize)>,
    /// byte span of the return-type annotation, which starts at its `:`
    pub return_type: Option<(usize, usize)>,
    /// byte span of the body
    pub body: (usize, usize),
}

/// Marks sort by their start.
impl Ranked for SpanMark {
    open spec fn before(&self, other: &Self) -> bool {
        self.start < other.start
    }

    fn before_exec(&self, other: &Self) -> (b: bool) {
        self.start < other.start
    }
}

/// The characters of the byte span `[s, e)`.
pub open spec fn span_chars(cs: Seq<char>, s: int, e: int) -> Seq<char> {
    cs.subrange(char_index(cs, s), char_index(cs, e))
}

/// A literal written with double quotes around its value.
pub open spec fn quoted(v: Seq<char>) -> Seq<char> {
    seq!['"'] + v + seq!['"']
}

/// A token, unless it is empty.
pub open spec fn nonempty(x: Seq<char>) -> Seq<Seq<char>> {
    if x.len() > 0 {
        seq![x]
    } else {
        seq![]
    }
}

/// The tokens and the noted literals that one mark contributes: an
/// identifier becomes `$ID`, a literal its text (strings with canonical
/// double quotes), a comment nothing. String and regex literals are noted.
pub open spec fn mark_emits(cs: Seq<char>, m: SpanMark) -> (Seq<Seq<char>>, Seq<Seq<char>>) {
    match m.kind {
        MarkKind::Ident => (seq!["$ID"@], seq![]),
        MarkKind::StringLit(v) => (seq![quoted(v@)], seq![quoted(v@)]),
        MarkKind::RegExp => (
            nonempty(span_chars(cs, m.start as int, m.end as int)),
            seq![span_chars(cs, m.start as int, m.end as int)],
        ),
        MarkKind::Template(raw) => (nonempty(raw@), seq![]),
        MarkKind::Numeric => (nonempty(span_chars(cs, m.start as int, m.end as int)), seq![]),
        MarkKind::Comment => (seq![], seq![]),
    }
}

/// Characters that extend a keyword run.
pub open spec fn is_word(c: char) -> bool {
    unicode_alphanumeric(c) || c == '_' || c == '$'
}

/// End of the run of word characters starting at `i`, stopping at `stop`.
pub open spec fn word_end(cs: Seq<char>, i: int, stop: int) -> int
    decreases stop - i,
{
    if i < stop && is_word(cs[i]) {
        word_end(cs, i + 1, stop)
    } else {
        i
    }
}

/// A word run never ends before it starts, nor after its stop.
pub proof fn lemma_word_end(cs: Seq<char>, i: int, stop: int)
    ensures
        word_end(cs, i, stop) >= i,
        i <= stop ==> word_end(cs, i, stop) <= stop,
    decreases stop - i,
{
    if i < stop && is_word(cs[i]) {
        lemma_word_end(cs, i + 1, stop);
    }
}

/// Index of the first mark at or after byte `s`, scanning from the front
/// (the partition point of marks sorted by start).
pub open spec fn first_from(ms: Seq<SpanMark>, s: int, i: int) -> int
    decreases ms.len() - i,
{
    if 0 <= i < ms.len() && ms[i].start < s {
        first_from(ms, s, i + 1)
    } else {
        i
    }
}

/// Prepends one token list pair to another.
pub open spec fn cons(
    x: (Seq<Seq<char>>, Seq<Seq<char>>),
    rest: (Seq<Seq<char>>, Seq<Seq<char>>),
) -> (Seq<Seq<char>>, Seq<Seq<char>>) {
    (x.0 + rest.0, x.1 + rest.1)
}

/// Normalized tokens and noted literals of the characters from `cur` to
/// `end`, `nm` being the next mark (marks sorted by start, positions in
/// characters). A mark starting at the cursor emits its tokens and moves the
/// cursor to its end; a mark starting before the cursor was swallowed by an
/// outer span and is passed over; otherwise whitespace is dropped, a run of
/// word characters up to the next mark is one token, and any other character
/// is a token of its own. Spans never end before they start; the cursor
/// never moves back.
pub open spec fn tokens_from(cs: Seq<char>, ms: Seq<SpanMark>, end: int, cur: int, nm: int) -> (
    Seq<Seq<char>>,
    Seq<Seq<char>>,
)
    decreases (if cur < end {
        end - cur
    } else {
        0
    }), (if 0 <= nm < ms.len() {
        ms.len() - nm
    } else {
        0
    }),
{
    if cur >= end || nm < 0 {
        (seq![], seq![])
    } else if nm < ms.len() && char_index(cs, ms[nm].start as int) == cur {
        let e = char_index(cs, ms[nm].end as int);
        let next = if e < cur {
            cur
        } else {
            e
        };
        cons(mark_emits(cs, ms[nm]), tokens_from(cs, ms, end, next, nm + 1))
    } else if nm < ms.len() && char_index(cs, ms[nm].start as int) < cur {
        tokens_from(cs, ms, end, cur, nm + 1)
    } else {
        let stop = if nm < ms.len() && char_index(cs, ms[nm].start as int) < end {
            char_index(cs, ms[nm].start as int)
        } else {
            end
        };
        let c = cs[cur];
        if unicode_whitespace(c) {
            tokens_from(cs, ms, end, cur + 1, nm)
        } else if is_word(c) {
            let w = word_end(cs, cur, stop);
            proof {
                lemma_word_end(cs, cur + 1, stop);
            }
            cons((seq![cs.subrange(cur, w)], seq![]), tokens_from(cs, ms, end, w, nm))
        } else {
            cons((seq![seq![c]], seq![]), tokens_from(cs, ms, end, cur + 1, nm))
        }
    }
}

/// The tokens and literals of a body spanning bytes `[s, e)`.
pub open spec fn body_tokens(cs: Seq<char>, ms: Seq<SpanMark>, s: int, e: int) -> (
    Seq<Seq<char>>,
    Seq<Seq<char>>,
) {
    tokens_from(cs, ms, char_index(cs, e), char_index(cs, s), first_from(ms, s, 0))
}

/// `s` without its leading colons.
pub open spec fn strip_colons(s: Seq<char>) -> Seq<char>
    decreases s.len(),
{
    if s.len() > 0 && s[0] == ':' {
        strip_colons(s.drop_first())
    } else {
        s
    }
}

/// The display signature: raw parameter list in parentheses, then
/// ` => ` and the return type when one is annotated.
pub open spec fn sig_spec(cs: Seq<char>, params: Seq<(usize, usize)>, rt: Option<(usize, usize)>) -> Seq<char> {
    let ps = params.map_values(|p: (usize, usize)| span_chars(cs, p.0 as int, p.1 as int));
    let base = seq!['('] + join(ps, ", "@) + seq![')'];
    match rt {
        Some(r) => base + " => "@ + trim_ws(strip_colons(span_chars(cs, r.0 as int, r.1 as int))),
        None => base,
    }
}

/// Every span the walk reported lies on character boundaries, ends no
/// earlier than it starts, and stays inside the text.
pub open spec fn spans_ok(cs: Seq<char>, ms: Seq<SpanMark>, ds: Seq<FnDecl>) -> bool {
    &&& forall|i: int| 0 <= i < ms.len() ==> span_ok(cs, (#[trigger] ms[i]).start as int, ms[i].end as int)
    &&& forall|i: int| 0 <= i < ds.len() ==> decl_ok(cs, #[trigger] ds[i])
}

/// A byte span on character boundaries, not reversed.
pub open spec fn span_ok(cs: Seq<char>, s: int, e: int) -> bool {
    is_boundary(cs, s) && is_boundary(cs, e) && s <= e
}

/// The spans of a declaration are well placed.
pub open spec fn decl_ok(cs: Seq<char>, d: FnDecl) -> bool {
    &&& d.start <= utf8_len(cs)
    &&& d.start < usize::MAX
    &&& span_ok(cs, d.body.0 as int, d.body.1 as int)
    &&& forall|k: int| 0 <= k < d.params@.len() ==> span_ok(cs, (#[trigger] d.params@[k]).0 as int, d.params@[k].1 as int)
    &&& d.return_type matches Some(r) ==> span_ok(cs, r.0 as int, r.1 as int)
}

/// `c` is the candidate that declaration `d` yields.
pub open spec fn candidate_of(c: Candidate, cs: Seq<char>, ms: Seq<SpanMark>, d: FnDecl) -> bool {
    let t = body_tokens(cs, ms, d.body.0 as int, d.body.1 as int);
    &&& c.name@ == d.name@
    &&& c.exported == d.exported
    &&& c.kind == d.kind
    &&& c.line == line_at(vstd::utf8::encode_utf8(cs), d.start as int)
    &&& c.sig@ == sig_spec(cs, d.params@, d.return_type)
    &&& c.token_count == t.0.len()
    &&& c.fingerprint@ == join(t.0, " "@)
    &&& views(c.literals@) == t.1
}

/// A mark resolved to what it contributes, positions in characters.
struct TokMark {
    start: usize,
    end: usize,
    tokens: Vec<String>,
    literals: Vec<String>,
}

/// `t` is mark `m` resolved against the characters `cs`.
spec fn resolved(t: TokMark, cs: Seq<char>, m: SpanMark) -> bool {
    &&& t.start == char_index(cs, m.start as int)
    &&& t.end == char_index(cs, m.end as int)
    &&& t.start <= t.end <= cs.len()
    &&& views(t.tokens@) == mark_emits(cs, m).0
    &&& views(t.literals@) == mark_emits(cs, m).1
}

/// The characters of the byte span `[s, e)`.
fn span_text(cs: &Vec<char>, bounds: &Vec<usize>, text: &str, s: usize, e: usize) -> (r: Vec<char>)
    requires
        cs@ == text@,
        bounds@.len() == text@.len() + 1,
        forall|i: int| 0 <= i <= text@.len() ==> #[trigger] bounds@[i] == byte_offset(text@, i),
        span_ok(text@, s as int, e as int),
    ensures
        r@ == span_chars(text@, s as int, e as int),
{
    let a = index_at(bounds, text, s).unwrap();
    let b = index_at(bounds, text, e).unwrap();
    proof {
        let ka = choose|i: int| 0 <= i <= text@.len() && #[trigger] byte_offset(text@, i) == s;
        let kb = choose|i: int| 0 <= i <= text@.len() && #[trigger] byte_offset(text@, i) == e;
        lemma_char_index(text@, ka);
        lemma_char_index(text@, kb);
        if kb < ka {
            crate::spans::lemma_offset_monotone(text@, kb, ka);
        }
    }
    let mut r: Vec<char> = Vec::new();
    let mut k: usize = a;
    while k < b
        invariant
            a <= k <= b <= cs@.len(),
            r@ == cs@.subrange(a as int, k as int),
        decreases b - k,
    {
        r.push(cs[k]);
        assert(r@ =~= cs@.subrange(a as int, k + 1));
        k = k + 1;
    }
    r
}

/// One token list holding `x`.
fn single(x: String) -> (r: Vec<String>)
    ensures
        views(r@) == seq![x@],
{
    let mut r: Vec<String> = Vec::new();
    r.push(x);
    assert(views(r@) =~= seq![x@]);
    r
}

/// The token list for a literal text, which is empty for an empty text.
fn nonempty_exec(x: Vec<char>) -> (r: Vec<String>)
    ensures
        views(r@) == nonempty(x@),
{
    if x.len() > 0 {
        single(string_from_chars(&x))
    } else {
        let r: Vec<String> = Vec::new();
        assert(views(r@) =~= nonempty(x@));
        r
    }
}

/// Resolves one mark.
fn resolve_mark(cs: &Vec<char>, bounds: &Vec<usize>, text: &str, m: &SpanMark) -> (t: TokMark)
    requires
        cs@ == text@,
        bounds@.len() == text@.len() + 1,
        forall|i: int| 0 <= i <= text@.len() ==> #[trigger] bounds@[i] == byte_offset(text@, i),
        span_ok(text@, m.start as int, m.end as int),
    ensures
        resolved(t, text@, *m),
{
    let a = index_at(bounds, text, m.start).unwrap();
    let b = index_at(bounds, text, m.end).unwrap();
    proof {
        let ka = choose|i: int| 0 <= i <= text@.len() && #[trigger] byte_offset(text@, i) == m.start;
        let kb = choose|i: int| 0 <= i <= text@.len() && #[trigger] byte_offset(text@, i) == m.end;
        lemma_char_index(text@, ka);
        lemma_char_index(text@, kb);
        if kb < ka {
            crate::spans::lemma_offset_monotone(text@, kb, ka);
        }
    }
    let empty: Vec<String> = Vec::new();
    assert(views(empty@) =~= Seq::<Seq<char>>::empty());
    match &m.kind {
        MarkKind::Ident => TokMark { start: a, end: b, tokens: single(owned("$ID")), literals: empty },
        MarkKind::StringLit(v) => {
            let mut q = String::new();
            push_str(&mut q, "\"");
            push_str(&mut q, v.as_str());
            push_str(&mut q, "\"");
            proof {
                reveal_strlit("\"");
                assert(q@ =~= quoted(v@));
            }
            let q2 = crate::text::copy_string(&q);
            TokMark { start: a, end: b, tokens: single(q), literals: single(q2) }
        },
        MarkKind::RegExp => {
            let x = span_text(cs, bounds, text, m.start, m.end);
            let lit = single(string_from_chars(&x));
            TokMark { start: a, end: b, tokens: nonempty_exec(x), literals: lit }
        },
        MarkKind::Template(raw) => TokMark {
            start: a,
            end: b,
            tokens: nonempty_exec(chars_of(raw.as_str())),
            literals: empty,
        },
        MarkKind::Numeric => {
            let x = span_text(cs, bounds, text, m.start, m.end);
            TokMark { start: a, end: b, tokens: nonempty_exec(x), literals: empty }
        },
        MarkKind::Comment => TokMark { start: a, end: b, tokens: empty, literals: Vec::new() },
    }
}

/// Appends copies of `src` to `dst`.
fn append_copies(dst: &mut Vec<String>, src: &Vec<String>)
    ensures
        views(final(dst)@) == views(old(dst)@) + views(src@),
{
    let ghost start = views(dst@);
    let mut i: usize = 0;
    while i < src.len()
        invariant
            i <= src@.len(),
            views(dst@) == start + views(src@).take(i as int),
        decreases src@.len() - i,
    {
        let ghost before = views(dst@);
        dst.push(crate::text::copy_string(&src[i]));
        assert(views(dst@) =~= before.push(src@[i as int]@));
        assert(views(src@).take(i + 1) =~= views(src@).take(i as int).push(src@[i as int]@));
        i = i + 1;
    }
    assert(views(src@).take(src@.len() as int) =~= views(src@));
}

/// Whether `c` extends a keyword run.
fn word_char(c: char) -> (b: bool)
    ensures
        b == is_word(c),
{
    is_alphanumeric(c) || c == '_' || c == '$'
}

/// The tokens and noted literals of characters `[start, end)`, the next
/// mark being `nm0`.
fn tokenize(
    cs: &Vec<char>,
    tms: &Vec<TokMark>,
    Ghost(ms): Ghost<Seq<SpanMark>>,
    start: usize,
    end: usize,
    nm0: usize,
) -> (r: (Vec<String>, Vec<String>))
    requires
        tms@.len() == ms.len(),
        forall|i: int| 0 <= i < ms.len() ==> resolved(#[trigger] tms@[i], cs@, ms[i]),
        end <= cs@.len(),
        nm0 <= ms.len(),
    ensures
        (views(r.0@), views(r.1@)) == tokens_from(cs@, ms, end as int, start as int, nm0 as int),
{
    let ghost whole = tokens_from(cs@, ms, end as int, start as int, nm0 as int);
    let mut toks: Vec<String> = Vec::new();
    let mut lits: Vec<String> = Vec::new();
    let mut cursor: usize = start;
    let mut nm: usize = nm0;
    assert(cons((views(toks@), views(lits@)), whole) =~= whole);
    while cursor < end
        invariant
            tms@.len() == ms.len(),
            forall|i: int| 0 <= i < ms.len() ==> resolved(#[trigger] tms@[i], cs@, ms[i]),
            end <= cs@.len(),
            nm <= ms.len(),
            whole == cons(
                (views(toks@), views(lits@)),
                tokens_from(cs@, ms, end as int, cursor as int, nm as int),
            ),
        decreases (if cursor < end {
            end - cursor
        } else {
            0
        }), ms.len() - nm,
    {
        let ghost acc = (views(toks@), views(lits@));
        let ghost rest = tokens_from(cs@, ms, end as int, cursor as int, nm as int);
        if nm < tms.len() && tms[nm].start == cursor {
            let ghost m = ms[nm as int];
            assert(resolved(tms@[nm as int], cs@, m));
            append_copies(&mut toks, &tms[nm].tokens);
            append_copies(&mut lits, &tms[nm].literals);
            let e = tms[nm].end;
            cursor = if e < cursor {
                cursor
            } else {
                e
            };
            nm = nm + 1;
            proof {
                let next = tokens_from(cs@, ms, end as int, cursor as int, nm as int);
                assert(rest == cons(mark_emits(cs@, m), next));
                assert(cons(acc, cons(mark_emits(cs@, m), next)) =~= cons((views(toks@), views(lits@)), next));
            }
        } else if nm < tms.len() && tms[nm].start < cursor {
            assert(resolved(tms@[nm as int], cs@, ms[nm as int]));
            nm = nm + 1;
        } else {
            proof {
                if nm < ms.len() {
                    assert(resolved(tms@[nm as int], cs@, ms[nm as int]));
                }
            }
            let stop: usize = if nm < tms.len() && tms[nm].start < end {
                tms[nm].start
            } else {
                end
            };
            let c = cs[cursor];
            if is_whitespace(c) {
                cursor = cursor + 1;
            } else if word_char(c) {
                let mut w: usize = cursor;
                while w < stop && word_char(cs[w])
                    invariant
                        cursor <= w <= stop <= end <= cs@.len(),
                        word_end(cs@, cursor as int, stop as int) == word_end(cs@, w as int, stop as int),
                    decreases stop - w,
                {
                    w = w + 1;
                }
                proof {
                    lemma_word_end(cs@, cursor as int + 1, stop as int);
                }
                let mut piece: Vec<char> = Vec::new();
                let mut k: usize = cursor;
                while k < w
                    invariant
                        cursor <= k <= w <= cs@.len(),
                        piece@ == cs@.subrange(cursor as int, k as int),
                    decreases w - k,
                {
                    piece.push(cs[k]);
                    assert(piece@ =~= cs@.subrange(cursor as int, k + 1));
                    k = k + 1;
                }
                let ghost before = views(toks@);
                toks.push(string_from_chars(&piece));
                proof {
                    let next = tokens_from(cs@, ms, end as int, w as int, nm as int);
                    assert(views(toks@) =~= before.push(piece@));
                    assert(cons(acc, cons((seq![piece@], seq![]), next)) =~= cons((views(toks@), views(lits@)), next));
                }
                cursor = w;
            } else {
                let mut one: Vec<char> = Vec::new();
                one.push(c);
                let ghost before = views(toks@);
                toks.push(string_from_chars(&one));
                proof {
                    let next = tokens_from(cs@, ms, end as int, cursor + 1, nm as int);
                    assert(one@ =~= seq![c]);
                    assert(views(toks@) =~= before.push(seq![c]));
                    assert(cons(acc, cons((seq![seq![c]], seq![]), next)) =~= cons((views(toks@), views(lits@)), next));
                }
                cursor = cursor + 1;
            }
        }
    }
    assert(cons((views(toks@), views(lits@)), tokens_from(cs@, ms, end as int, cursor as int, nm as int)) =~= (views(toks@), views(lits@)));
    (toks, lits)
}

/// `s` without its leading colons.
fn strip_colons_exec(s: &Vec<char>) -> (r: Vec<char>)
    ensures
        r@ == strip_colons(s@),
{
    let n = s.len();
    let mut i: usize = 0;
    assert(s@.subrange(0, n as int) =~= s@);
    while i < n && s[i] == ':'
        invariant
            n == s@.len(),
            i <= n,
            strip_colons(s@) == strip_colons(s@.subrange(i as int, n as int)),
        decreases n - i,
    {
        assert(s@.subrange(i as int, n as int).drop_first() =~= s@.subrange(i + 1, n as int));
        i = i + 1;
    }
    let mut r: Vec<char> = Vec::new();
    let mut k: usize = i;
    while k < n
        invariant
            i <= k <= n,
            n == s@.len(),
            r@ == s@.subrange(i as int, k as int),
        decreases n - k,
    {
        r.push(s[k]);
        assert(r@ =~= s@.subrange(i as int, k + 1));
        k = k + 1;
    }
    r
}

/// The display signature of a declaration.
fn render_sig(
    cs: &Vec<char>,
    bounds: &Vec<usize>,
    text: &str,
    params: &Vec<(usize, usize)>,
    return_type: Option<(usize, usize)>,
) -> (r: String)
    requires
        cs@ == text@,
        bounds@.len() == text@.len() + 1,
        forall|i: int| 0 <= i <= text@.len() ==> #[trigger] bounds@[i] == byte_offset(text@, i),
        forall|k: int| 0 <= k < params@.len() ==> span_ok(text@, (#[trigger] params@[k]).0 as int, params@[k].1 as int),
        return_type matches Some(rt) ==> span_ok(text@, rt.0 as int, rt.1 as int),
    ensures
        r@ == sig_spec(text@, params@, return_type),
{
    let ghost ps = params@.map_values(|p: (usize, usize)| span_chars(text@, p.0 as int, p.1 as int));
    let mut parts: Vec<String> = Vec::new();
    let mut i: usize = 0;
    while i < params.len()
        invariant
            cs@ == text@,
            bounds@.len() == text@.len() + 1,
            forall|i: int| 0 <= i <= text@.len() ==> #[trigger] bounds@[i] == byte_offset(text@, i),
            forall|k: int| 0 <= k < params@.len() ==> span_ok(text@, (#[trigger] params@[k]).0 as int, params@[k].1 as int),
            i <= params@.len(),
            ps == params@.map_values(|p: (usize, usize)| span_chars(text@, p.0 as int, p.1 as int)),
            views(parts@) == ps.take(i as int),
        decreases params@.len() - i,
    {
        let (a, b) = params[i];
        let piece = span_text(cs, bounds, text, a, b);
        let ghost before = views(parts@);
        parts.push(string_from_chars(&piece));
        assert(views(parts@) =~= before.push(piece@));
        assert(ps.take(i + 1) =~= ps.take(i as int).push(ps[i as int]));
        i = i + 1;
    }
    assert(ps.take(params@.len() as int) =~= ps);
    let mut out = String::new();
    push_str(&mut out, "(");
    push_joined(&mut out, &parts, ", ");
    push_str(&mut out, ")");
    proof {
        reveal_strlit("(");
        reveal_strlit(")");
        assert(out@ =~= seq!['('] + join(ps, ", "@) + seq![')']);
    }
    match return_type {
        Some(rt) => {
            let raw = span_text(cs, bounds, text, rt.0, rt.1);
            let ty = trim_chars(&strip_colons_exec(&raw));
            push_str(&mut out, " => ");
            let tys = string_from_chars(&ty);
            push_str(&mut out, tys.as_str());
        },
        None => {},
    }
    out
}

/// The index of the first mark at or after byte `s`.
fn first_mark_from(ms: &Vec<SpanMark>, s: usize) -> (r: usize)
    ensures
        r == first_from(ms@, s as int, 0),
        r <= ms@.len(),
{
    let mut i: usize = 0;
    while i < ms.len() && ms[i].start < s
        invariant
            i <= ms@.len(),
            first_from(ms@, s as int, 0) == first_from(ms@, s as int, i as int),
        decreases ms@.len() - i,
    {
        i = i + 1;
    }
    i
}

/// The candidate one declaration yields.
fn build_candidate(
    text: &str,
    cs: &Vec<char>,
    bounds: &Vec<usize>,
    ms: &Vec<SpanMark>,
    tms: &Vec<TokMark>,
    d: &FnDecl,
) -> (c: Candidate)
    requires
        cs@ == text@,
        bounds@.len() == text@.len() + 1,
        forall|i: int| 0 <= i <= text@.len() ==> #[trigger] bounds@[i] == byte_offset(text@, i),
        tms@.len() == ms@.len(),
        forall|i: int| 0 <= i < ms@.len() ==> resolved(#[trigger] tms@[i], cs@, ms@[i]),
        decl_ok(text@, *d),
    ensures
        candidate_of(c, text@, ms@, *d),
{
    let nm0 = first_mark_from(ms, d.body.0);
    let s = index_at(bounds, text, d.body.0).unwrap();
    let e = index_at(bounds, text, d.body.1).unwrap();
    proof {
        let kb = choose|i: int| 0 <= i <= text@.len() && #[trigger] byte_offset(text@, i) == d.body.1;
        lemma_char_index(text@, kb);
    }
    let (toks, lits) = tokenize(cs, tms, Ghost(ms@), s, e, nm0);
    let mut fp = String::new();
    push_joined(&mut fp, &toks, " ");
    assert(fp@ =~= join(views(toks@), " "@));
    Candidate {
        name: crate::text::copy_string(&d.name),
        exported: d.exported,
        kind: d.kind,
        line: line_of(text, d.start),
        sig: render_sig(cs, bounds, text, &d.params, d.return_type),
        fingerprint: fp,
        token_count: toks.len(),
        literals: lits,
    }
}

/// Every top-level function-shaped declaration of one file as a candidate,
/// in declaration order: `function f() {}`, `const f = () => {}`,
/// `const f = function () {}`, plain or behind `export` / named
/// `export default`. A file that failed to parse yields an error naming it.
pub fn file_candidates(
    path: &str,
    text: &str,
    outcome: &ParseOutcome,
    marks: Vec<SpanMark>,
    decls: &Vec<FnDecl>,
) -> (r: Result<Vec<Candidate>, String>)
    requires
        spans_ok(text@, marks@, decls@),
    ensures
        parse_failed_spec(*outcome) ==> (r matches Err(e) && e@ == parse_error_message(path@, outcome.diagnostics)),
        !parse_failed_spec(*outcome) ==> (r matches Ok(cands) && cands@.len() == decls@.len() && forall|i: int|
            0 <= i < cands@.len() ==> candidate_of(
                #[trigger] cands@[i],
                text@,
                sort_stable_spec(marks@),
                decls@[i],
            )),
{
    if parse_failed(outcome) {
        return Err(parse_error(path, outcome.diagnostics));
    }
    let ghost input = marks@;
    let ms = sorted_stable(marks);
    let cs = chars_of(text);
    let bounds = boundaries(text);
    let mut tms: Vec<TokMark> = Vec::new();
    let mut i: usize = 0;
    while i < ms.len()
        invariant
            ms@ == sort_stable_spec(input),
            spans_ok(text@, input, decls@),
            cs@ == text@,
            bounds@.len() == text@.len() + 1,
            forall|i: int| 0 <= i <= text@.len() ==> #[trigger] bounds@[i] == byte_offset(text@, i),
            i <= ms@.len(),
            tms@.len() == i,
            forall|k: int| 0 <= k < i ==> resolved(#[trigger] tms@[k], cs@, ms@[k]),
        decreases ms@.len() - i,
    {
        proof {
            crate::sort::lemma_sort_members(input, i as int);
            let j = choose|j: int| 0 <= j < input.len() && input[j] == ms@[i as int];
            assert(span_ok(text@, input[j].start as int, input[j].end as int));
        }
        let t = resolve_mark(&cs, &bounds, text, &ms[i]);
        tms.push(t);
        i = i + 1;
    }
    let mut out: Vec<Candidate> = Vec::new();
    let mut j: usize = 0;
    while j < decls.len()
        invariant
            ms@ == sort_stable_spec(input),
            spans_ok(text@, input, decls@),
            cs@ == text@,
            bounds@.len() == text@.len() + 1,
            forall|i: int| 0 <= i <= text@.len() ==> #[trigger] bounds@[i] == byte_offset(text@, i),
            tms@.len() == ms@.len(),
            forall|k: int| 0 <= k < ms@.len() ==> resolved(#[trigger] tms@[k], cs@, ms@[k]),
            j <= decls@.len(),
            out@.len() == j,
            forall|k: int| 0 <= k < j ==> candidate_of(#[trigger] out@[k], text@, ms@, decls@[k]),
        decreases decls@.len() - j,
    {
        assert(decl_ok(text@, decls@[j as int]));
        let c = build_candidate(text, &cs, &bounds, &ms, &tms, &decls[j]);
        out.push(c);
        j = j + 1;
    }
    Ok(out)
}

/// Template text is body text: where the walk meets a template element
/// with non-empty raw text, that text is the next body token.
pub proof fn law_template_text_is_a_token(
    cs: Seq<char>,
    ms: Seq<SpanMark>,
    end: int,
    cur: int,
    nm: int,
    raw: Seq<char>,
)
    requires
        0 <= nm < ms.len(),
        cur < end,
        char_index(cs, ms[nm].start as int) == cur,
        ms[nm].kind matches MarkKind::Template(r) && r@ == raw,
        raw.len() > 0,
    ensures
        tokens_from(cs, ms, end, cur, nm).0.len() > 0,
        tokens_from(cs, ms, end, cur, nm).0[0] == raw,
{
    let e = mark_emits(cs, ms[nm]);
    assert(e.0 == seq![raw]);
}

/// Two bodies whose marks differ only in the text of one template element
/// tokenize apart: the template texts are tokens, so bodies that differ in
/// them never share a fingerprint.
pub proof fn law_template_texts_tell_bodies_apart(
    cs: Seq<char>,
    ms1: Seq<SpanMark>,
    ms2: Seq<SpanMark>,
    end: int,
    cur: int,
    nm: int,
    raw1: Seq<char>,
    raw2: Seq<char>,
)
    requires
        0 <= nm < ms1.len(),
        ms1.len() == ms2.len(),
        ms1[nm].start == ms2[nm].start,
        cur < end,
        char_index(cs, ms1[nm].start as int) == cur,
        ms1[nm].kind matches MarkKind::Template(r) && r@ == raw1,
        ms2[nm].kind matches MarkKind::Template(r) && r@ == raw2,
        raw1.len() > 0,
        raw2.len() > 0,
        raw1 != raw2,
    ensures
        tokens_from(cs, ms1, end, cur, nm).0 != tokens_from(cs, ms2, end, cur, nm).0,
{
    law_template_text_is_a_token(cs, ms1, end, cur, nm, raw1);
    law_template_text_is_a_token(cs, ms2, end, cur, nm, raw2);
}

/// Names do not matter and comments are not there: where the walk meets
/// an identifier, the next token is `$ID` whatever the identifier's text;
/// where it meets a comment, the tokens are those that follow the comment;
/// and a string literal is its value between double quotes, whichever
/// quotes the source used.
pub proof fn law_identifiers_comments_and_strings(cs: Seq<char>, ms: Seq<SpanMark>, end: int, cur: int, nm: int)
    requires
        0 <= nm < ms.len(),
        cur < end,
        char_index(cs, ms[nm].start as int) == cur,
    ensures
        ms[nm].kind is Ident ==> tokens_from(cs, ms, end, cur, nm).0.len() > 0 && tokens_from(cs, ms, end, cur, nm).0[0]
            == "$ID"@,
        ms[nm].kind is Comment ==> tokens_from(cs, ms, end, cur, nm) == tokens_from(
            cs,
            ms,
            end,
            if char_index(cs, ms[nm].end as int) < cur {
                cur
            } else {
                char_index(cs, ms[nm].end as int)
            },
            nm + 1,
        ),
        ms[nm].kind matches MarkKind::StringLit(v) ==> tokens_from(cs, ms, end, cur, nm).0.len() > 0 && tokens_from(
            cs,
            ms,
            end,
            cur,
            nm,
        ).0[0] == seq!['"'] + v@ + seq!['"'],
{
    let e = char_index(cs, ms[nm].end as int);
    let next = if e < cur {
        cur
    } else {
        e
    };
    let rest = tokens_from(cs, ms, end, next, nm + 1);
    if ms[nm].kind is Comment {
        assert(seq![] + rest.0 =~= rest.0);
        assert(Seq::<Seq<char>>::empty() + rest.1 =~= rest.1);
    }
}

} // verus!
