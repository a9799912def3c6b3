//! The top-level statements of a file as the syntax walk reports them, and
//! what the scans read off them: which declarations are clone candidates,
//! which values a file exports, and where a symbol is declared.
use vstd::prelude::*;
use crate::analyzer::{line_at, line_of};
use crate::fingerprint::{CandidateKind, FnDecl};
use crate::order::compare_str;
use crate::text::{copy_string, utf8_len, views};

verus! {

/// A function as the walk reports it.
pub struct FnShape {
    /// its own name, if it has one
    pub name: Option<String>,
    /// byte spans of the parameters, the rest parameter last
    pub params: Vec<(usize, usize)>,
    /// byte span of the return-type annotation, which starts at its `:`
    pub return_type: Option<(usize, usize)>,
    /// byte span of the body; none for an overload or a `declare`d function
    pub body: Option<(usize, usize)>,
}

/// What a declarator binds.
pub enum Pattern {
    /// a plain identifier
    Ident(String),
    /// a destructuring pattern, with every name it binds
    Destructured(Vec<String>),
}

/// What a declarator is initialized with.
pub enum Init {
    /// an arrow function: its parameters, return type and body spans
    Arrow { params: Vec<(usize, usize)>, return_type: Option<(usize, usize)>, body: (usize, usize) },
    /// a function expression
    Function(FnShape),
    /// any other expression (a call wrapping a function among them), or none
    Other,
}

/// One declarator of a `const` / `let` / `var` declaration.
pub struct Declarator {
    pub pattern: Pattern,
    pub init: Init,
}

/// What a declaration declares.
pub enum DeclShape {
    Function(FnShape),
    Variable(Vec<Declarator>),
    /// a class, by its name if it has one
    Class(Option<String>),
    Enum(String),
    Interface(String),
    TypeAlias(String),
    /// any other declaration (namespaces, `import x =`, ...)
    Other,
}

/// One top-level statement.
pub enum TopStatement {
    /// a declaration, exported when it stands behind `export`; the span is
    /// the statement's, `export` included
    Declaration { decl: DeclShape, exported: bool, span: (usize, usize) },
    /// `export default` of a function or class declaration
    ExportDefault { decl: DeclShape, span: (usize, usize) },
    /// any other statement (imports, re-exports, expressions, ...)
    Other,
}

/// Two declarations carry the same facts.
pub open spec fn decl_eq(a: FnDecl, b: FnDecl) -> bool {
    &&& a.name@ == b.name@
    &&& a.exported == b.exported
    &&& a.kind == b.kind
    &&& a.start == b.start
    &&& a.params@ == b.params@
    &&& a.return_type == b.return_type
    &&& a.body == b.body
}

/// Two lists of declarations carry the same facts, in order.
pub open spec fn decls_match(r: Seq<FnDecl>, s: Seq<FnDecl>) -> bool {
    &&& r.len() == s.len()
    &&& forall|i: int| 0 <= i < r.len() ==> decl_eq(#[trigger] r[i], s[i])
}

/// A function declaration is a candidate when it has a name and a body.
pub open spec fn fn_candidates(f: FnShape, exported: bool, start: usize) -> Seq<FnDecl> {
    match (f.name, f.body) {
        (Some(n), Some(b)) => seq![
            FnDecl {
                name: n,
                exported,
                kind: CandidateKind::Fn,
                start,
                params: f.params,
                return_type: f.return_type,
                body: b,
            },
        ],
        _ => seq![],
    }
}

/// A declarator is a candidate when it binds a plain identifier to an
/// arrow function or to a function expression with a body; a wrapped
/// function (`memo(() => ...)`) is not.
pub open spec fn declarator_candidates(d: Declarator, exported: bool, start: usize) -> Seq<FnDecl> {
    match d.pattern {
        Pattern::Ident(n) => match d.init {
            Init::Arrow { params, return_type, body } => seq![
                FnDecl { name: n, exported, kind: CandidateKind::Const, start, params, return_type, body },
            ],
            Init::Function(f) => match f.body {
                Some(b) => seq![
                    FnDecl {
                        name: n,
                        exported,
                        kind: CandidateKind::Const,
                        start,
                        params: f.params,
                        return_type: f.return_type,
                        body: b,
                    },
                ],
                None => seq![],
            },
            Init::Other => seq![],
        },
        Pattern::Destructured(_) => seq![],
    }
}

/// The candidates of a declaration's declarators, in order.
pub open spec fn declarators_candidates(ds: Seq<Declarator>, exported: bool, start: usize) -> Seq<FnDecl>
    decreases ds.len(),
{
    if ds.len() == 0 {
        seq![]
    } else {
        declarators_candidates(ds.drop_last(), exported, start) + declarator_candidates(ds.last(), exported, start)
    }
}

/// The candidates of one top-level statement: plain or exported function
/// and variable declarations, and a default-exported function declaration.
/// Classes (and so their methods), nested functions and everything else
/// yield none.
pub open spec fn statement_candidates(s: TopStatement) -> Seq<FnDecl> {
    match s {
        TopStatement::Declaration { decl, exported, span } => match decl {
            DeclShape::Function(f) => fn_candidates(f, exported, span.0),
            DeclShape::Variable(ds) => declarators_candidates(ds@, exported, span.0),
            _ => seq![],
        },
        TopStatement::ExportDefault { decl, span } => match decl {
            DeclShape::Function(f) => fn_candidates(f, true, span.0),
            _ => seq![],
        },
        TopStatement::Other => seq![],
    }
}

/// The candidates of a file's top-level statements, in order.
pub open spec fn candidate_decls_spec(ss: Seq<TopStatement>) -> Seq<FnDecl>
    decreases ss.len(),
{
    if ss.len() == 0 {
        seq![]
    } else {
        candidate_decls_spec(ss.drop_last()) + statement_candidates(ss.last())
    }
}

proof fn lemma_decls_match_append(r1: Seq<FnDecl>, s1: Seq<FnDecl>, r2: Seq<FnDecl>, s2: Seq<FnDecl>)
    requires
        decls_match(r1, s1),
        decls_match(r2, s2),
    ensures
        decls_match(r1 + r2, s1 + s2),
{
    assert forall|i: int| 0 <= i < (r1 + r2).len() implies decl_eq(#[trigger] (r1 + r2)[i], (s1 + s2)[i]) by {
        if i >= r1.len() {
            assert((r1 + r2)[i] == r2[i - r1.len()]);
            assert((s1 + s2)[i] == s2[i - s1.len()]);
        }
    }
}

/// A copy of a list of spans.
fn copy_spans(v: &Vec<(usize, usize)>) -> (r: Vec<(usize, usize)>)
    ensures
        r@ == v@,
{
    let mut r: Vec<(usize, usize)> = Vec::new();
    let mut i: usize = 0;
    while i < v.len()
        invariant
            i <= v@.len(),
            r@ == v@.take(i as int),
        decreases v@.len() - i,
    {
        r.push(v[i]);
        assert(v@.take(i + 1) =~= v@.take(i as int).push(v@[i as int]));
        i = i + 1;
    }
    assert(v@.take(v@.len() as int) =~= v@);
    r
}

fn fn_decls(f: &FnShape, exported: bool, start: usize) -> (r: Vec<FnDecl>)
    ensures
        decls_match(r@, fn_candidates(*f, exported, start)),
{
    match (&f.name, &f.body) {
        (Some(n), Some(b)) => {
            let d = FnDecl {
                name: copy_string(n),
                exported,
                kind: CandidateKind::Fn,
                start,
                params: copy_spans(&f.params),
                return_type: f.return_type,
                body: *b,
            };
            let r = vec![d];
            assert(decl_eq(r@[0], fn_candidates(*f, exported, start)[0]));
            r
        },
        _ => Vec::new(),
    }
}

fn declarator_decls(d: &Declarator, exported: bool, start: usize) -> (r: Vec<FnDecl>)
    ensures
        decls_match(r@, declarator_candidates(*d, exported, start)),
{
    let n = match &d.pattern {
        Pattern::Ident(n) => n,
        Pattern::Destructured(_) => return Vec::new(),
    };
    match &d.init {
        Init::Arrow { params, return_type, body } => {
            let r = vec![
                FnDecl {
                    name: copy_string(n),
                    exported,
                    kind: CandidateKind::Const,
                    start,
                    params: copy_spans(params),
                    return_type: *return_type,
                    body: *body,
                },
            ];
            assert(decl_eq(r@[0], declarator_candidates(*d, exported, start)[0]));
            r
        },
        Init::Function(f) => match &f.body {
            Some(b) => {
                let r = vec![
                    FnDecl {
                        name: copy_string(n),
                        exported,
                        kind: CandidateKind::Const,
                        start,
                        params: copy_spans(&f.params),
                        return_type: f.return_type,
                        body: *b,
                    },
                ];
                assert(decl_eq(r@[0], declarator_candidates(*d, exported, start)[0]));
                r
            },
            None => Vec::new(),
        },
        Init::Other => Vec::new(),
    }
}

fn variable_decls(ds: &Vec<Declarator>, exported: bool, start: usize) -> (r: Vec<FnDecl>)
    ensures
        decls_match(r@, declarators_candidates(ds@, exported, start)),
{
    let mut out: Vec<FnDecl> = Vec::new();
    let mut i: usize = 0;
    while i < ds.len()
        invariant
            i <= ds@.len(),
            decls_match(out@, declarators_candidates(ds@.take(i as int), exported, start)),
        decreases ds@.len() - i,
    {
        let ghost before = out@;
        let mut one = declarator_decls(&ds[i], exported, start);
        let ghost added = one@;
        out.append(&mut one);
        proof {
            let t = ds@.take(i + 1);
            assert(t.drop_last() =~= ds@.take(i as int));
            assert(t.last() == ds@[i as int]);
            lemma_decls_match_append(
                before,
                declarators_candidates(ds@.take(i as int), exported, start),
                added,
                declarator_candidates(ds@[i as int], exported, start),
            );
        }
        i = i + 1;
    }
    assert(ds@.take(ds@.len() as int) =~= ds@);
    out
}

fn statement_decls(s: &TopStatement) -> (r: Vec<FnDecl>)
    ensures
        decls_match(r@, statement_candidates(*s)),
{
    match s {
        TopStatement::Declaration { decl, exported, span } => match decl {
            DeclShape::Function(f) => fn_decls(f, *exported, span.0),
            DeclShape::Variable(ds) => variable_decls(ds, *exported, span.0),
            _ => Vec::new(),
        },
        TopStatement::ExportDefault { decl, span } => match decl {
            DeclShape::Function(f) => fn_decls(f, true, span.0),
            _ => Vec::new(),
        },
        TopStatement::Other => Vec::new(),
    }
}

/// The clone candidates among a file's top-level statements, in order:
/// named functions with a body and `const` bindings of an arrow function
/// or a function expression with a body, plain, behind `export` or (for a
/// function) behind `export default`.
pub fn candidate_decls(stmts: &Vec<TopStatement>) -> (r: Vec<FnDecl>)
    ensures
        decls_match(r@, candidate_decls_spec(stmts@)),
{
    let mut out: Vec<FnDecl> = Vec::new();
    let mut i: usize = 0;
    while i < stmts.len()
        invariant
            i <= stmts@.len(),
            decls_match(out@, candidate_decls_spec(stmts@.take(i as int))),
        decreases stmts@.len() - i,
    {
        let ghost before = out@;
        let mut one = statement_decls(&stmts[i]);
        let ghost added = one@;
        out.append(&mut one);
        proof {
            let t = stmts@.take(i + 1);
            assert(t.drop_last() =~= stmts@.take(i as int));
            assert(t.last() == stmts@[i as int]);
            lemma_decls_match_append(
                before,
                candidate_decls_spec(stmts@.take(i as int)),
                added,
                statement_candidates(stmts@[i as int]),
            );
        }
        i = i + 1;
    }
    assert(stmts@.take(stmts@.len() as int) =~= stmts@);
    out
}

/// The name of an optional name, as a list.
pub open spec fn opt_names(o: Option<String>) -> Seq<Seq<char>> {
    match o {
        Some(n) => seq![n@],
        None => seq![],
    }
}

/// The names a pattern binds.
pub open spec fn pattern_names(p: Pattern) -> Seq<Seq<char>> {
    match p {
        Pattern::Ident(n) => seq![n@],
        Pattern::Destructured(ns) => views(ns@),
    }
}

/// The names the declarators bind, in order.
pub open spec fn declarator_names(ds: Seq<Declarator>) -> Seq<Seq<char>>
    decreases ds.len(),
{
    if ds.len() == 0 {
        seq![]
    } else {
        declarator_names(ds.drop_last()) + pattern_names(ds.last().pattern)
    }
}

/// The value names a declaration binds: variables, functions, classes and
/// enums; type-only declarations bind none.
pub open spec fn value_names(d: DeclShape) -> Seq<Seq<char>> {
    match d {
        DeclShape::Variable(ds) => declarator_names(ds@),
        DeclShape::Function(f) => opt_names(f.name),
        DeclShape::Class(c) => opt_names(c),
        DeclShape::Enum(n) => seq![n@],
        _ => seq![],
    }
}

/// The name a default export of a function or class declaration gives.
pub open spec fn default_names(d: DeclShape) -> Seq<Seq<char>> {
    match d {
        DeclShape::Function(f) => opt_names(f.name),
        DeclShape::Class(c) => opt_names(c),
        _ => seq![],
    }
}

/// The values a statement exports and declares itself: those of an
/// exported declaration, or the name of a default-exported function or
/// class. Re-exports declare nothing here.
pub open spec fn exported_names(s: TopStatement) -> Seq<Seq<char>> {
    match s {
        TopStatement::Declaration { decl, exported, .. } => if exported {
            value_names(decl)
        } else {
            seq![]
        },
        TopStatement::ExportDefault { decl, .. } => default_names(decl),
        TopStatement::Other => seq![],
    }
}

/// Where a statement starts, when the walk gave its span.
pub open spec fn statement_span(s: TopStatement) -> Option<(usize, usize)> {
    match s {
        TopStatement::Declaration { span, .. } => Some(span),
        TopStatement::ExportDefault { span, .. } => Some(span),
        TopStatement::Other => None,
    }
}

/// The exported values of one statement, each with the 1-based line on
/// which the statement starts (none when its start lies past the text).
pub open spec fn statement_exports(s: TopStatement, text: Seq<char>) -> Seq<(Seq<char>, int)> {
    match statement_span(s) {
        Some(span) => if span.0 <= utf8_len(text) {
            let line = line_at(vstd::utf8::encode_utf8(text), span.0 as int);
            exported_names(s).map_values(|n: Seq<char>| (n, line))
        } else {
            seq![]
        },
        None => seq![],
    }
}

/// The exported values of a file, statement by statement, with their lines.
pub open spec fn exported_values_spec(ss: Seq<TopStatement>, text: Seq<char>) -> Seq<(Seq<char>, int)>
    decreases ss.len(),
{
    if ss.len() == 0 {
        seq![]
    } else {
        exported_values_spec(ss.drop_last(), text) + statement_exports(ss.last(), text)
    }
}

/// A list of (name, line) pairs as values.
pub open spec fn name_lines(v: Seq<(String, usize)>) -> Seq<(Seq<char>, int)> {
    v.map_values(|p: (String, usize)| (p.0@, p.1 as int))
}

fn opt_name_list(o: &Option<String>) -> (r: Vec<String>)
    ensures
        views(r@) == opt_names(*o),
{
    match o {
        Some(n) => {
            let r = vec![copy_string(n)];
            assert(views(r@) =~= seq![n@]);
            r
        },
        None => {
            let r: Vec<String> = Vec::new();
            assert(views(r@) =~= Seq::<Seq<char>>::empty());
            r
        },
    }
}

/// Appends copies of `names`.
fn push_names(out: &mut Vec<String>, names: &Vec<String>)
    ensures
        views(final(out)@) == views(old(out)@) + views(names@),
{
    let ghost start = views(out@);
    let mut i: usize = 0;
    while i < names.len()
        invariant
            i <= names@.len(),
            views(out@) == start + views(names@.take(i as int)),
        decreases names@.len() - i,
    {
        let ghost prev = out@;
        out.push(copy_string(&names[i]));
        assert(views(out@) =~= views(prev).push(names@[i as int]@));
        assert(views(names@.take(i + 1)) =~= views(names@.take(i as int)).push(names@[i as int]@));
        i = i + 1;
    }
    assert(names@.take(names@.len() as int) =~= names@);
}

fn value_name_list(d: &DeclShape) -> (r: Vec<String>)
    ensures
        views(r@) == value_names(*d),
{
    match d {
        DeclShape::Variable(ds) => {
            let mut out: Vec<String> = Vec::new();
            let mut i: usize = 0;
            assert(views(out@) =~= declarator_names(ds@.take(0)));
            while i < ds.len()
                invariant
                    i <= ds@.len(),
                    views(out@) == declarator_names(ds@.take(i as int)),
                decreases ds@.len() - i,
            {
                match &ds[i].pattern {
                    Pattern::Ident(n) => {
                        let one = vec![copy_string(n)];
                        assert(views(one@) =~= seq![n@]);
                        push_names(&mut out, &one);
                    },
                    Pattern::Destructured(ns) => push_names(&mut out, ns),
                }
                proof {
                    let t = ds@.take(i + 1);
                    assert(t.drop_last() =~= ds@.take(i as int));
                    assert(t.last() == ds@[i as int]);
                }
                i = i + 1;
            }
            assert(ds@.take(ds@.len() as int) =~= ds@);
            out
        },
        DeclShape::Function(f) => opt_name_list(&f.name),
        DeclShape::Class(c) => opt_name_list(c),
        DeclShape::Enum(n) => {
            let r = vec![copy_string(n)];
            assert(views(r@) =~= seq![n@]);
            r
        },
        _ => {
            let r: Vec<String> = Vec::new();
            assert(views(r@) =~= Seq::<Seq<char>>::empty());
            r
        },
    }
}

fn default_name_list(d: &DeclShape) -> (r: Vec<String>)
    ensures
        views(r@) == default_names(*d),
{
    match d {
        DeclShape::Function(f) => opt_name_list(&f.name),
        DeclShape::Class(c) => opt_name_list(c),
        _ => {
            let r: Vec<String> = Vec::new();
            assert(views(r@) =~= Seq::<Seq<char>>::empty());
            r
        },
    }
}

fn exported_name_list(s: &TopStatement) -> (r: Vec<String>)
    ensures
        views(r@) == exported_names(*s),
{
    match s {
        TopStatement::Declaration { decl, exported, .. } => if *exported {
            value_name_list(decl)
        } else {
            let r: Vec<String> = Vec::new();
            assert(views(r@) =~= Seq::<Seq<char>>::empty());
            r
        },
        TopStatement::ExportDefault { decl, .. } => default_name_list(decl),
        TopStatement::Other => {
            let r: Vec<String> = Vec::new();
            assert(views(r@) =~= Seq::<Seq<char>>::empty());
            r
        },
    }
}

/// The values a file exports and declares itself, each with the 1-based
/// line of its statement, in statement order: exported variables,
/// functions, classes and enums, and named default-exported functions and
/// classes.
pub fn exported_values(stmts: &Vec<TopStatement>, text: &str) -> (r: Vec<(String, usize)>)
    requires
        utf8_len(text@) < usize::MAX,
    ensures
        name_lines(r@) == exported_values_spec(stmts@, text@),
{
    let n = text.len();
    let mut out: Vec<(String, usize)> = Vec::new();
    let mut i: usize = 0;
    assert(name_lines(out@) =~= exported_values_spec(stmts@.take(0), text@));
    while i < stmts.len()
        invariant
            i <= stmts@.len(),
            n == utf8_len(text@),
            n < usize::MAX,
            name_lines(out@) == exported_values_spec(stmts@.take(i as int), text@),
        decreases stmts@.len() - i,
    {
        let s = &stmts[i];
        let start: Option<usize> = match s {
            TopStatement::Declaration { span, .. } => Some(span.0),
            TopStatement::ExportDefault { span, .. } => Some(span.0),
            TopStatement::Other => None,
        };
        let ghost before = name_lines(out@);
        match start {
            Some(st) => {
                if st <= n {
                    let line = line_of(text, st);
                    let names = exported_name_list(s);
                    let mut k: usize = 0;
                    while k < names.len()
                        invariant
                            k <= names@.len(),
                            name_lines(out@) == before + views(names@.take(k as int)).map_values(
                                |x: Seq<char>| (x, line as int),
                            ),
                        decreases names@.len() - k,
                    {
                        let ghost prev = out@;
                        out.push((copy_string(&names[k]), line));
                        assert(name_lines(out@) =~= name_lines(prev).push((names@[k as int]@, line as int)));
                        assert(views(names@.take(k + 1)).map_values(|x: Seq<char>| (x, line as int)) =~= views(
                            names@.take(k as int),
                        ).map_values(|x: Seq<char>| (x, line as int)).push((names@[k as int]@, line as int)));
                        k = k + 1;
                    }
                    assert(names@.take(names@.len() as int) =~= names@);
                    assert(statement_exports(*s, text@) =~= views(names@).map_values(|x: Seq<char>| (x, line as int)));
                } else {
                    assert(statement_exports(*s, text@) =~= Seq::<(Seq<char>, int)>::empty());
                }
            },
            None => {
                assert(statement_exports(*s, text@) =~= Seq::<(Seq<char>, int)>::empty());
            },
        }
        proof {
            let t = stmts@.take(i + 1);
            assert(t.drop_last() =~= stmts@.take(i as int));
            assert(t.last() == stmts@[i as int]);
            assert(name_lines(out@) =~= exported_values_spec(t, text@));
        }
        i = i + 1;
    }
    assert(stmts@.take(stmts@.len() as int) =~= stmts@);
    out
}

/// The type names a declaration binds.
pub open spec fn type_names(d: DeclShape) -> Seq<Seq<char>> {
    match d {
        DeclShape::Interface(n) => seq![n@],
        DeclShape::TypeAlias(n) => seq![n@],
        _ => seq![],
    }
}

/// Every name a top-level statement declares, values and types alike,
/// exported or not.
pub open spec fn declared_names(s: TopStatement) -> Seq<Seq<char>> {
    match s {
        TopStatement::Declaration { decl, .. } => value_names(decl) + type_names(decl),
        TopStatement::ExportDefault { decl, .. } => default_names(decl),
        TopStatement::Other => seq![],
    }
}

/// The span of the first statement that declares `symbol`.
pub open spec fn declaring_span(ss: Seq<TopStatement>, symbol: Seq<char>) -> Option<(usize, usize)>
    decreases ss.len(),
{
    if ss.len() == 0 {
        None
    } else if declared_names(ss[0]).contains(symbol) {
        statement_span(ss[0])
    } else {
        declaring_span(ss.drop_first(), symbol)
    }
}

/// The 1-based first and last line of the first top-level statement that
/// declares `symbol` (`export` included); none where no statement does, or
/// where its span does not lie in the text.
pub open spec fn declaration_lines_spec(text: Seq<char>, ss: Seq<TopStatement>, symbol: Seq<char>) -> Option<(int, int)> {
    span_lines(text, declaring_span(ss, symbol))
}

/// Whether `names` holds `name`.
fn holds_name(names: &Vec<String>, name: &str) -> (b: bool)
    ensures
        b == views(names@).contains(name@),
{
    let mut i: usize = 0;
    while i < names.len()
        invariant
            i <= names@.len(),
            forall|k: int| 0 <= k < i ==> names@[k]@ != name@,
        decreases names@.len() - i,
    {
        if compare_str(names[i].as_str(), name) == 0 {
            assert(views(names@)[i as int] == name@);
            return true;
        }
        i = i + 1;
    }
    assert forall|k: int| 0 <= k < views(names@).len() implies views(names@)[k] != name@ by {
        assert(views(names@)[k] == names@[k]@);
    }
    false
}

/// Whether a statement declares `symbol`.
fn declares(s: &TopStatement, symbol: &str) -> (b: bool)
    ensures
        b == declared_names(*s).contains(symbol@),
{
    match s {
        TopStatement::Declaration { decl, .. } => {
            let mut names = value_name_list(decl);
            let ghost values = views(names@);
            match decl {
                DeclShape::Interface(n) => names.push(copy_string(n)),
                DeclShape::TypeAlias(n) => names.push(copy_string(n)),
                _ => {},
            }
            assert(views(names@) =~= values + type_names(*decl));
            holds_name(&names, symbol)
        },
        TopStatement::ExportDefault { decl, .. } => {
            let names = default_name_list(decl);
            holds_name(&names, symbol)
        },
        TopStatement::Other => {
            assert(declared_names(*s) =~= Seq::<Seq<char>>::empty());
            false
        },
    }
}

/// The lines of the statement spanning `span`, as `declaration_lines_spec`
/// gives them once the statement is found.
pub open spec fn span_lines(text: Seq<char>, span: Option<(usize, usize)>) -> Option<(int, int)> {
    match span {
        Some(span) => if span.1 > utf8_len(text) || span.0 > span.1 {
            None
        } else {
            let end_at = if span.1 > span.0 {
                span.1 - 1
            } else {
                span.1 as int
            };
            let bytes = vstd::utf8::encode_utf8(text);
            Some((line_at(bytes, span.0 as int), line_at(bytes, end_at)))
        },
        None => None,
    }
}

fn lines_of_span(text: &str, span: Option<(usize, usize)>) -> (r: Option<(usize, usize)>)
    requires
        utf8_len(text@) < usize::MAX,
    ensures
        match r {
            Some(lines) => span_lines(text@, span) == Some((lines.0 as int, lines.1 as int)),
            None => span_lines(text@, span) is None,
        },
{
    let (s, e) = match span {
        Some(span) => span,
        None => return None,
    };
    if e > text.len() || s > e {
        return None;
    }
    let end_at = if e > s { e - 1 } else { e };
    Some((line_of(text, s), line_of(text, end_at)))
}

/// The 1-based first and last line of the top-level declaration of
/// `symbol`: the first statement declaring it, `export` included.
pub fn declaration_lines(text: &str, stmts: &Vec<TopStatement>, symbol: &str) -> (r: Option<(usize, usize)>)
    requires
        utf8_len(text@) < usize::MAX,
    ensures
        match r {
            Some(lines) => declaration_lines_spec(text@, stmts@, symbol@) == Some((lines.0 as int, lines.1 as int)),
            None => declaration_lines_spec(text@, stmts@, symbol@) is None,
        },
{
    let mut i: usize = 0;
    assert(stmts@.skip(0) =~= stmts@);
    while i < stmts.len()
        invariant
            i <= stmts@.len(),
            utf8_len(text@) < usize::MAX,
            declaring_span(stmts@, symbol@) == declaring_span(stmts@.skip(i as int), symbol@),
        decreases stmts@.len() - i,
    {
        assert(stmts@.skip(i as int)[0] == stmts@[i as int]);
        assert(stmts@.skip(i as int).drop_first() =~= stmts@.skip(i + 1));
        if declares(&stmts[i], symbol) {
            let span = match &stmts[i] {
                TopStatement::Declaration { span, .. } => Some(*span),
                TopStatement::ExportDefault { span, .. } => Some(*span),
                TopStatement::Other => None,
            };
            return lines_of_span(text, span);
        }
        i = i + 1;
    }
    assert(stmts@.skip(i as int).len() == 0);
    None
}

} // verus!
