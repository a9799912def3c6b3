//! One file's imports and usages of a symbol. The syntax tree is walked
//! outside the library; what the walk reports arrives here as plain facts,
//! and the matching, counting and line numbering happen here.
use vstd::prelude::*;
use crate::strmap::StrSet;
use crate::order::compare_str;
use crate::digits::{decimal, push_decimal};
use crate::text::{push_str, string_from_chars, chars_of, utf8_len, copy_string};

verus! {

/// One specifier of an import declaration.
pub enum ImportBinding {
    /// `import { imported as local }` (`local` equals `imported` without `as`)
    Named(String, String),
    /// `import local from ...`
    Default(String),
    /// `import * as local from ...`
    Namespace(String),
}

/// One top-level import declaration.
pub struct ImportFact {
    /// byte offset of the declaration in the file
    pub start: usize,
    /// the module specifier as written
    pub source: String,
    pub bindings: Vec<ImportBinding>,
}

/// The tag of a JSX opening element.
pub enum JsxTag {
    /// a component tag that is an identifier reference (`<Button>`)
    Ident(String),
    /// a member-expression tag (`<A.B.C>`): its root identifier, `None` for
    /// a `this` root
    Member(Option<String>),
    /// an intrinsic or namespaced tag (`<div>`, `<svg:rect>`)
    Other,
}

/// One node the walk reports, in walk order.
pub enum UsageFact {
    /// an identifier reference outside JSX tag names
    IdentRef(String),
    /// a JSX opening element: byte offset, tag, names of its plain attributes
    JsxOpen(usize, JsxTag, Vec<String>),
}

/// What the walk of one file reports.
pub struct FileSyntax {
    pub imports: Vec<ImportFact>,
    pub usages: Vec<UsageFact>,
}

/// How parsing ended.
pub struct ParseOutcome {
    /// the parser gave up
    pub panicked: bool,
    /// an error-severity diagnostic was reported
    pub has_errors: bool,
    /// the program has no statements
    pub empty_body: bool,
    /// number of diagnostics
    pub diagnostics: usize,
}

/// One import of the symbol and how the file uses its local binding.
pub struct FileFindings {
    /// 1-based line of the matching import statement
    pub line: usize,
    /// raw import specifier as written in the source
    pub source: String,
    /// Identifier references to the local binding, excluding the import
    /// binding itself and plain JSX tag names (those are `jsx_uses`), plus
    /// one per member-expression JSX tag rooted at the binding.
    pub refs: usize,
    /// number of times used as a JSX element with a plain-identifier tag
    pub jsx_uses: usize,
    /// union of prop names across JSX uses
    pub jsx_props: StrSet,
    /// 1-based line of each JSX use, in source order
    pub jsx_lines: Vec<usize>,
}

/// The local name a binding gives `symbol`, if it imports it: a named
/// import matches on the imported (source) name, a default import on the
/// local name; namespace imports never match.
pub open spec fn binding_local(b: ImportBinding, symbol: Seq<char>) -> Option<Seq<char>> {
    match b {
        ImportBinding::Named(imported, local) => if imported@ == symbol {
            Some(local@)
        } else {
            None
        },
        ImportBinding::Default(local) => if local@ == symbol {
            Some(local@)
        } else {
            None
        },
        ImportBinding::Namespace(_) => None,
    }
}

/// Local names bound to `symbol` by a list of bindings, in order.
pub open spec fn binding_matches(bs: Seq<ImportBinding>, symbol: Seq<char>) -> Seq<Seq<char>>
    decreases bs.len(),
{
    if bs.len() == 0 {
        seq![]
    } else {
        let prev = binding_matches(bs.drop_last(), symbol);
        match binding_local(bs.last(), symbol) {
            Some(l) => prev.push(l),
            None => prev,
        }
    }
}

/// (local name, specifier, statement offset) of every binding of `symbol`,
/// in source order.
pub open spec fn import_matches(imports: Seq<ImportFact>, symbol: Seq<char>) -> Seq<(Seq<char>, Seq<char>, usize)>
    decreases imports.len(),
{
    if imports.len() == 0 {
        seq![]
    } else {
        let last = imports.last();
        import_matches(imports.drop_last(), symbol) + binding_matches(last.bindings@, symbol).map_values(
            |l: Seq<char>| (l, last.source@, last.start),
        )
    }
}

/// References to `local`: identifier references plus member-expression JSX
/// tags rooted at it.
pub open spec fn count_refs(us: Seq<UsageFact>, local: Seq<char>) -> nat
    decreases us.len(),
{
    if us.len() == 0 {
        0
    } else {
        let prev = count_refs(us.drop_last(), local);
        match us.last() {
            UsageFact::IdentRef(n) => if n@ == local {
                prev + 1
            } else {
                prev
            },
            UsageFact::JsxOpen(_, JsxTag::Member(Some(root)), _) => if root@ == local {
                prev + 1
            } else {
                prev
            },
            _ => prev,
        }
    }
}

/// `f` renders `local` as a plain JSX tag.
pub open spec fn is_jsx_use(f: UsageFact, local: Seq<char>) -> bool {
    match f {
        UsageFact::JsxOpen(_, JsxTag::Ident(n), _) => n@ == local,
        _ => false,
    }
}

/// Offsets of the JSX renders of `local`, in order.
pub open spec fn jsx_sites(us: Seq<UsageFact>, local: Seq<char>) -> Seq<usize>
    decreases us.len(),
{
    if us.len() == 0 {
        seq![]
    } else {
        let prev = jsx_sites(us.drop_last(), local);
        match us.last() {
            UsageFact::JsxOpen(start, JsxTag::Ident(n), _) => if n@ == local {
                prev.push(start)
            } else {
                prev
            },
            _ => prev,
        }
    }
}

/// Union of the attribute names of the JSX renders of `local`.
pub open spec fn jsx_prop_set(us: Seq<UsageFact>, local: Seq<char>) -> Set<Seq<char>>
    decreases us.len(),
{
    if us.len() == 0 {
        Set::empty()
    } else {
        let prev = jsx_prop_set(us.drop_last(), local);
        match us.last() {
            UsageFact::JsxOpen(_, JsxTag::Ident(n), props) => if n@ == local {
                prev + names_set(props@)
            } else {
                prev
            },
            _ => prev,
        }
    }
}

/// The strings of a list, as a set of character sequences.
pub open spec fn names_set(ps: Seq<String>) -> Set<Seq<char>> {
    Set::new(|x: Seq<char>| exists|j: int| 0 <= j < ps.len() && (#[trigger] ps[j])@ == x)
}

/// Number of newline bytes.
pub open spec fn newlines(bs: Seq<u8>) -> nat
    decreases bs.len(),
{
    if bs.len() == 0 {
        0
    } else {
        newlines(bs.drop_last()) + if bs.last() == 10u8 {
            1nat
        } else {
            0nat
        }
    }
}

/// 1-based line of byte offset `off`.
pub open spec fn line_at(bytes: Seq<u8>, off: int) -> int {
    1 + newlines(bytes.take(off)) as int
}

/// The file failed to parse: the parser gave up, or it reported errors and
/// produced no statements. Error-tolerant files with a usable tree are
/// still analyzed.
pub open spec fn parse_failed_spec(o: ParseOutcome) -> bool {
    o.panicked || (o.has_errors && o.empty_body)
}

/// 1-based line of byte offset `off` of `text`.
pub fn line_of(text: &str, off: usize) -> (r: usize)
    requires
        off <= utf8_len(text@),
        off < usize::MAX,
    ensures
        r == line_at(vstd::utf8::encode_utf8(text@), off as int),
{
    let bytes = text.as_bytes();
    let ghost bs = vstd::utf8::encode_utf8(text@);
    assert(bytes@ == bs);
    let mut count: usize = 0;
    let mut i: usize = 0;
    while i < off
        invariant
            i <= off <= bytes@.len(),
            bytes@ == bs,
            off < usize::MAX,
            count == newlines(bs.take(i as int)),
            count <= i,
        decreases off - i,
    {
        assert(bs.take(i + 1).drop_last() =~= bs.take(i as int));
        if bytes[i] == 10u8 {
            count = count + 1;
        }
        i = i + 1;
    }
    count + 1
}

/// Whether parsing failed, as `parse_failed_spec` states.
pub fn parse_failed(o: &ParseOutcome) -> (b: bool)
    ensures
        b == parse_failed_spec(*o),
{
    o.panicked || (o.has_errors && o.empty_body)
}

/// Offsets are inside the file.
pub open spec fn offsets_in_file(text: Seq<char>, syntax: FileSyntax) -> bool {
    &&& forall|i: int| 0 <= i < syntax.imports@.len() ==> (#[trigger] syntax.imports@[i]).start <= utf8_len(text)
        && syntax.imports@[i].start < usize::MAX
    &&& forall|i: int| 0 <= i < syntax.usages@.len() ==> match #[trigger] syntax.usages@[i] {
        UsageFact::JsxOpen(start, _, _) => start <= utf8_len(text) && start < usize::MAX,
        _ => true,
    }
}

/// The bindings of `symbol` in source order.
fn collect_matches(imports: &Vec<ImportFact>, symbol: &str) -> (r: Vec<(String, String, usize)>)
    ensures
        r@.map_values(|m: (String, String, usize)| (m.0@, m.1@, m.2)) == import_matches(imports@, symbol@),
{
    let mut out: Vec<(String, String, usize)> = Vec::new();
    let mut i: usize = 0;
    while i < imports.len()
        invariant
            i <= imports@.len(),
            out@.map_values(|m: (String, String, usize)| (m.0@, m.1@, m.2)) == import_matches(imports@.take(i as int), symbol@),
        decreases imports@.len() - i,
    {
        let imp = &imports[i];
        let ghost base = out@.map_values(|m: (String, String, usize)| (m.0@, m.1@, m.2));
        let mut j: usize = 0;
        while j < imp.bindings.len()
            invariant
                j <= imp.bindings@.len(),
                out@.map_values(|m: (String, String, usize)| (m.0@, m.1@, m.2)) == base + binding_matches(imp.bindings@.take(j as int), symbol@).map_values(
                    |l: Seq<char>| (l, imp.source@, imp.start),
                ),
            decreases imp.bindings@.len() - j,
        {
            let ghost prev = out@.map_values(|m: (String, String, usize)| (m.0@, m.1@, m.2));
            let ghost bm = binding_matches(imp.bindings@.take(j as int), symbol@);
            assert(imp.bindings@.take(j + 1).drop_last() =~= imp.bindings@.take(j as int));
            assert(imp.bindings@.take(j + 1).last() == imp.bindings@[j as int]);
            let local: Option<&String> = match &imp.bindings[j] {
                ImportBinding::Named(imported, local) => if compare_str(imported.as_str(), symbol) == 0 {
                    Some(local)
                } else {
                    None
                },
                ImportBinding::Default(local) => if compare_str(local.as_str(), symbol) == 0 {
                    Some(local)
                } else {
                    None
                },
                ImportBinding::Namespace(_) => None,
            };
            match local {
                Some(l) => {
                    out.push((copy_string(l), copy_string(&imp.source), imp.start));
                    assert(out@.map_values(|m: (String, String, usize)| (m.0@, m.1@, m.2)) =~= prev.push((l@, imp.source@, imp.start)));
                    assert(bm.push(l@).map_values(|x: Seq<char>| (x, imp.source@, imp.start)) =~= bm.map_values(|x: Seq<char>| (x, imp.source@, imp.start)).push((l@, imp.source@, imp.start)));
                }
                None => {}
            }
            j = j + 1;
        }
        assert(imp.bindings@.take(imp.bindings@.len() as int) =~= imp.bindings@);
        assert(imports@.take(i + 1).drop_last() =~= imports@.take(i as int));
        assert(imports@.take(i + 1).last() == imports@[i as int]);
        i = i + 1;
    }
    assert(imports@.take(imports@.len() as int) =~= imports@);
    out
}

/// Lines of a list of offsets.
pub open spec fn lines_of(bytes: Seq<u8>, offs: Seq<usize>) -> Seq<int> {
    offs.map_values(|o: usize| line_at(bytes, o as int))
}

/// How `text` uses the binding `local`.
fn usage_findings(text: &str, usages: &Vec<UsageFact>, local: &String) -> (r: (usize, usize, StrSet, Vec<usize>))
    requires
        forall|i: int| 0 <= i < usages@.len() ==> match #[trigger] usages@[i] {
            UsageFact::JsxOpen(start, _, _) => start <= utf8_len(text@) && start < usize::MAX,
            _ => true,
        },
    ensures
        r.0 == count_refs(usages@, local@),
        r.1 == jsx_sites(usages@, local@).len(),
        r.2.wf(),
        r.2.view_set() == jsx_prop_set(usages@, local@),
        r.3@.map_values(|x: usize| x as int) == lines_of(vstd::utf8::encode_utf8(text@), jsx_sites(usages@, local@)),
{
    let ghost bs = vstd::utf8::encode_utf8(text@);
    let mut refs: usize = 0;
    let mut jsx: usize = 0;
    let mut props = StrSet::new();
    let mut lines: Vec<usize> = Vec::new();
    let mut i: usize = 0;
    while i < usages.len()
        invariant
            i <= usages@.len(),
            bs == vstd::utf8::encode_utf8(text@),
            forall|k: int| 0 <= k < usages@.len() ==> match #[trigger] usages@[k] {
                UsageFact::JsxOpen(start, _, _) => start <= utf8_len(text@) && start < usize::MAX,
                _ => true,
            },
            refs == count_refs(usages@.take(i as int), local@),
            refs <= i,
            jsx == jsx_sites(usages@.take(i as int), local@).len(),
            jsx <= i,
            props.wf(),
            props.view_set() == jsx_prop_set(usages@.take(i as int), local@),
            lines@.map_values(|x: usize| x as int) == lines_of(bs, jsx_sites(usages@.take(i as int), local@)),
        decreases usages@.len() - i,
    {
        let ghost pre = usages@.take(i as int);
        assert(usages@.take(i + 1).drop_last() =~= pre);
        assert(usages@.take(i + 1).last() == usages@[i as int]);
        match &usages[i] {
            UsageFact::IdentRef(n) => {
                if compare_str(n.as_str(), local.as_str()) == 0 {
                    refs = refs + 1;
                }
            }
            UsageFact::JsxOpen(start, tag, attrs) => {
                match tag {
                    JsxTag::Ident(n) => {
                        if compare_str(n.as_str(), local.as_str()) == 0 {
                            jsx = jsx + 1;
                            let ghost before = props.view_set();
                            let mut k: usize = 0;
                            while k < attrs.len()
                                invariant
                                    k <= attrs@.len(),
                                    props.wf(),
                                    props.view_set() == before + names_set(attrs@.take(k as int)),
                                decreases attrs@.len() - k,
                            {
                                let ghost pv = props.view_set();
                                props.insert(copy_string(&attrs[k]));
                                let ghost a1 = attrs@.take(k as int);
                                let ghost a2 = attrs@.take(k + 1);
                                assert forall|x: Seq<char>| names_set(a2).contains(x) == names_set(a1).insert(attrs@[k as int]@).contains(x) by {
                                    if names_set(a2).contains(x) {
                                        let j = choose|j: int| 0 <= j < a2.len() && (#[trigger] a2[j])@ == x;
                                        if j < k {
                                            assert(a1[j] == a2[j]);
                                        }
                                    }
                                    if names_set(a1).contains(x) {
                                        let j = choose|j: int| 0 <= j < a1.len() && (#[trigger] a1[j])@ == x;
                                        assert(a2[j] == a1[j]);
                                    }
                                    if x == attrs@[k as int]@ {
                                        assert(a2[k as int] == attrs@[k as int]);
                                    }
                                }
                                assert(names_set(a2) =~= names_set(a1).insert(attrs@[k as int]@));
                                assert(props.view_set() =~= before + names_set(a2));
                                k = k + 1;
                            }
                            assert(attrs@.take(attrs@.len() as int) =~= attrs@);
                            let l = line_of(text, *start);
                            let ghost lv = lines@.map_values(|x: usize| x as int);
                            lines.push(l);
                            assert(lines@.map_values(|x: usize| x as int) =~= lv.push(l as int));
                            assert(jsx_sites(usages@.take(i + 1), local@) == jsx_sites(pre, local@).push(*start));
                            assert(lines_of(bs, jsx_sites(pre, local@).push(*start)) =~= lines_of(bs, jsx_sites(pre, local@)).push(line_at(bs, *start as int)));
                        }
                    }
                    JsxTag::Member(root) => {
                        match root {
                            Some(r) => {
                                if compare_str(r.as_str(), local.as_str()) == 0 {
                                    refs = refs + 1;
                                }
                            }
                            None => {}
                        }
                    }
                    JsxTag::Other => {}
                }
            }
        }
        proof {
            if !is_jsx_use(usages@[i as int], local@) {
                assert(jsx_sites(usages@.take(i + 1), local@) == jsx_sites(pre, local@));
            }
        }
        i = i + 1;
    }
    assert(usages@.take(usages@.len() as int) =~= usages@);
    (refs, jsx, props, lines)
}

/// The value of one finding.
pub open spec fn finding_matches(f: FileFindings, text: Seq<char>, usages: Seq<UsageFact>, m: (Seq<char>, Seq<char>, usize)) -> bool {
    let bs = vstd::utf8::encode_utf8(text);
    &&& f.line == line_at(bs, m.2 as int)
    &&& f.source@ == m.1
    &&& f.refs == count_refs(usages, m.0)
    &&& f.jsx_uses == jsx_sites(usages, m.0).len()
    &&& f.jsx_props.wf()
    &&& f.jsx_props.view_set() == jsx_prop_set(usages, m.0)
    &&& f.jsx_lines@.map_values(|x: usize| x as int) == lines_of(bs, jsx_sites(usages, m.0))
}

/// One finding per import of `symbol` (named import matching the SOURCE
/// name incl. `as` renames, or default import matching the local name);
/// namespace imports are skipped.
pub fn analyze_syntax(text: &str, syntax: &FileSyntax, symbol: &str) -> (r: Vec<FileFindings>)
    requires
        offsets_in_file(text@, *syntax),
    ensures
        r@.len() == import_matches(syntax.imports@, symbol@).len(),
        forall|i: int| 0 <= i < r@.len() ==> finding_matches(#[trigger] r@[i], text@, syntax.usages@, import_matches(syntax.imports@, symbol@)[i]),
{
    let ms = collect_matches(&syntax.imports, symbol);
    let ghost mv = ms@.map_values(|m: (String, String, usize)| (m.0@, m.1@, m.2));
    proof {
        assert forall|k: int| 0 <= k < ms@.len() implies ms@[k].2 <= utf8_len(text@) && ms@[k].2 < usize::MAX by {
            let imps = syntax.imports@;
            lemma_match_offsets(imps, symbol@, k, utf8_len(text@));
            assert(mv[k] == (ms@[k].0@, ms@[k].1@, ms@[k].2));
        }
    }
    let mut out: Vec<FileFindings> = Vec::new();
    let mut i: usize = 0;
    while i < ms.len()
        invariant
            i <= ms@.len(),
            mv == ms@.map_values(|m: (String, String, usize)| (m.0@, m.1@, m.2)),
            mv == import_matches(syntax.imports@, symbol@),
            forall|k: int| 0 <= k < ms@.len() ==> ms@[k].2 <= utf8_len(text@) && ms@[k].2 < usize::MAX,
            forall|k: int| 0 <= k < syntax.usages@.len() ==> match #[trigger] syntax.usages@[k] {
                UsageFact::JsxOpen(start, _, _) => start <= utf8_len(text@) && start < usize::MAX,
                _ => true,
            },
            out@.len() == i,
            forall|k: int| 0 <= k < i ==> finding_matches(#[trigger] out@[k], text@, syntax.usages@, mv[k]),
        decreases ms@.len() - i,
    {
        let m = &ms[i];
        let (refs, jsx_uses, jsx_props, jsx_lines) = usage_findings(text, &syntax.usages, &m.0);
        let line = line_of(text, m.2);
        let f = FileFindings { line, source: copy_string(&m.1), refs, jsx_uses, jsx_props, jsx_lines };
        assert(mv[i as int] == (m.0@, m.1@, m.2));
        out.push(f);
        i = i + 1;
    }
    out
}

/// Offsets of matches are offsets of imports.
proof fn lemma_match_offsets(imports: Seq<ImportFact>, symbol: Seq<char>, k: int, n: nat)
    requires
        forall|i: int| 0 <= i < imports.len() ==> (#[trigger] imports[i]).start <= n && imports[i].start < usize::MAX,
        0 <= k < import_matches(imports, symbol).len(),
    ensures
        import_matches(imports, symbol)[k].2 <= n,
        import_matches(imports, symbol)[k].2 < usize::MAX,
    decreases imports.len(),
{
    let d = imports.drop_last();
    let prev = import_matches(d, symbol);
    if k < prev.len() {
        assert forall|i: int| 0 <= i < d.len() implies (#[trigger] d[i]).start <= n && d[i].start < usize::MAX by {
            assert(d[i] == imports[i]);
        }
        lemma_match_offsets(d, symbol, k, n);
    } else {
        assert(imports.last() == imports[imports.len() - 1]);
    }
}

/// The message for a file that failed to parse.
pub open spec fn parse_error_message(path: Seq<char>, diagnostics: usize) -> Seq<char> {
    "failed to parse "@ + path + ": "@ + decimal(diagnostics as nat) + " parser diagnostic(s)"@
}

/// The error for a file that failed to parse.
pub fn parse_error(path: &str, diagnostics: usize) -> (e: String)
    ensures
        e@ == parse_error_message(path@, diagnostics),
{
    let mut e = String::new();
    push_str(&mut e, "failed to parse ");
    push_str(&mut e, path);
    push_str(&mut e, ": ");
    push_decimal(&mut e, diagnostics);
    push_str(&mut e, " parser diagnostic(s)");
    e
}

/// One `FileFindings` per matching import of `symbol` (named import
/// matching the SOURCE name incl. `as` renames, or default import matching
/// the local name). Namespace imports are skipped. A file that failed to
/// parse yields an error naming it.
pub fn analyze_file(path: &str, text: &str, outcome: &ParseOutcome, syntax: &FileSyntax, symbol: &str) -> (r: Result<Vec<FileFindings>, String>)
    requires
        offsets_in_file(text@, *syntax),
    ensures
        parse_failed_spec(*outcome) ==> (r matches Err(e) && e@ == parse_error_message(path@, outcome.diagnostics)),
        !parse_failed_spec(*outcome) ==> (r matches Ok(fs) && fs@.len() == import_matches(syntax.imports@, symbol@).len()
            && forall|i: int| 0 <= i < fs@.len() ==> finding_matches(#[trigger] fs@[i], text@, syntax.usages@, import_matches(syntax.imports@, symbol@)[i])),
{
    if parse_failed(outcome) {
        return Err(parse_error(path, outcome.diagnostics));
    }
    Ok(analyze_syntax(text, syntax, symbol))
}

/// Every attribute name of a render of `local` among `us` is in the prop set.
proof fn lemma_render_props_in_set(us: Seq<UsageFact>, local: Seq<char>, i: int, x: Seq<char>)
    requires
        0 <= i < us.len(),
        us[i] matches UsageFact::JsxOpen(_, JsxTag::Ident(n), props) && n@ == local && names_set(props@).contains(x),
    ensures
        jsx_prop_set(us, local).contains(x),
    decreases us.len(),
{
    if i < us.len() - 1 {
        lemma_render_props_in_set(us.drop_last(), local, i, x);
        assert(us.drop_last()[i] == us[i]);
    } else {
        assert(us.last() == us[i]);
    }
}

/// Every name in the prop set was passed on some render of `local`.
proof fn lemma_set_props_from_render(us: Seq<UsageFact>, local: Seq<char>, x: Seq<char>)
    requires
        jsx_prop_set(us, local).contains(x),
    ensures
        exists|i: int|
            0 <= i < us.len() && (#[trigger] us[i] matches UsageFact::JsxOpen(_, JsxTag::Ident(n), props) && n@
                == local && names_set(props@).contains(x)),
    decreases us.len(),
{
    if us.len() > 0 {
        let last = us.last();
        let from_last = match last {
            UsageFact::JsxOpen(_, JsxTag::Ident(n), props) => n@ == local && names_set(props@).contains(x),
            _ => false,
        };
        if from_last {
            assert(us[us.len() - 1] == last);
        } else {
            lemma_set_props_from_render(us.drop_last(), local, x);
            let i = choose|i: int|
                0 <= i < us.drop_last().len() && (#[trigger] us.drop_last()[i] matches UsageFact::JsxOpen(
                    _,
                    JsxTag::Ident(n),
                    props,
                ) && n@ == local && names_set(props@).contains(x));
            assert(us[i] == us.drop_last()[i]);
        }
    }
}

/// A finding's props are the union over all renders of the imported
/// binding: a name is among them exactly when some render of that binding
/// passes it, so a later render never hides the props of an earlier one.
pub proof fn law_finding_props_are_the_union_of_renders(
    f: FileFindings,
    text: Seq<char>,
    usages: Seq<UsageFact>,
    m: (Seq<char>, Seq<char>, usize),
    x: Seq<char>,
)
    requires
        finding_matches(f, text, usages, m),
    ensures
        f.jsx_props.view_set().contains(x) <==> exists|i: int|
            0 <= i < usages.len() && (#[trigger] usages[i] matches UsageFact::JsxOpen(_, JsxTag::Ident(n), props)
                && n@ == m.0 && exists|j: int| 0 <= j < props@.len() && (#[trigger] props@[j])@ == x),
{
    if f.jsx_props.view_set().contains(x) {
        lemma_set_props_from_render(usages, m.0, x);
        let i = choose|i: int|
            0 <= i < usages.len() && (#[trigger] usages[i] matches UsageFact::JsxOpen(_, JsxTag::Ident(n), props) && n@
                == m.0 && names_set(props@).contains(x));
        assert(usages[i] matches UsageFact::JsxOpen(_, JsxTag::Ident(n), props) && n@ == m.0 && exists|j: int|
            0 <= j < props@.len() && (#[trigger] props@[j])@ == x);
    }
    if exists|i: int|
        0 <= i < usages.len() && (#[trigger] usages[i] matches UsageFact::JsxOpen(_, JsxTag::Ident(n), props) && n@
            == m.0 && exists|j: int| 0 <= j < props@.len() && (#[trigger] props@[j])@ == x) {
        let i = choose|i: int|
            0 <= i < usages.len() && (#[trigger] usages[i] matches UsageFact::JsxOpen(_, JsxTag::Ident(n), props)
                && n@ == m.0 && exists|j: int| 0 <= j < props@.len() && (#[trigger] props@[j])@ == x);
        lemma_render_props_in_set(usages, m.0, i, x);
    }
}

/// Appending usages never takes a name out of the props.
pub proof fn law_props_grow_with_usages(us: Seq<UsageFact>, more: Seq<UsageFact>, local: Seq<char>)
    ensures
        jsx_prop_set(us, local).subset_of(jsx_prop_set(us + more, local)),
    decreases more.len(),
{
    if more.len() == 0 {
        assert(us + more =~= us);
    } else {
        law_props_grow_with_usages(us, more.drop_last(), local);
        assert((us + more).drop_last() =~= us + more.drop_last());
    }
}

} // verus!
