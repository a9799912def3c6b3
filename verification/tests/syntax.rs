//! Analyzer and fingerprint behaviour on real source text: the files are
//! parsed and walked with oxc here, and the library does the rest.
use std::path::Path;

use lxp_scan::analyzer::{
    analyze_file, FileFindings, FileSyntax, ImportBinding, ImportFact, JsxTag, ParseOutcome, UsageFact,
};
use lxp_scan::decls::{
    candidate_decls, declaration_lines, exported_values, DeclShape, Declarator, FnShape, Init, Pattern, TopStatement,
};
use lxp_scan::fingerprint::{file_candidates, Candidate, CandidateKind, FnDecl, MarkKind, SpanMark, DEFAULT_MIN_TOKENS};
use oxc_allocator::Allocator;
use oxc_ast::ast::{
    BigIntLiteral, BindingIdentifier, Declaration, ExportDefaultDeclarationKind, Expression, FormalParameters,
    Function, IdentifierName, IdentifierReference, ImportDeclarationSpecifier, JSXAttributeItem, JSXAttributeName,
    JSXElementName, JSXMemberExpression, JSXMemberExpressionObject, JSXOpeningElement, NumericLiteral,
    PrivateIdentifier, Program, RegExpLiteral, Statement, StringLiteral, TemplateElement, VariableDeclarator,
};
use oxc_ast_visit::{walk, Visit};
use oxc_parser::Parser;
use oxc_span::{GetSpan, SourceType, Span};

fn outcome_of(panicked: bool, has_errors: bool, empty_body: bool, diagnostics: usize) -> ParseOutcome {
    ParseOutcome { panicked, has_errors, empty_body, diagnostics }
}

struct UsageWalk {
    usages: Vec<UsageFact>,
}

fn member_root(member: &JSXMemberExpression) -> Option<String> {
    let mut object = &member.object;
    loop {
        match object {
            JSXMemberExpressionObject::IdentifierReference(id) => return Some(id.name.to_string()),
            JSXMemberExpressionObject::MemberExpression(inner) => object = &inner.object,
            JSXMemberExpressionObject::ThisExpression(_) => return None,
        }
    }
}

impl<'a> Visit<'a> for UsageWalk {
    fn visit_identifier_reference(&mut self, it: &IdentifierReference<'a>) {
        self.usages.push(UsageFact::IdentRef(it.name.to_string()));
    }

    fn visit_jsx_element_name(&mut self, _it: &JSXElementName<'a>) {}

    fn visit_jsx_opening_element(&mut self, it: &JSXOpeningElement<'a>) {
        let tag = match &it.name {
            JSXElementName::IdentifierReference(id) => JsxTag::Ident(id.name.to_string()),
            JSXElementName::MemberExpression(m) => JsxTag::Member(member_root(m)),
            _ => JsxTag::Other,
        };
        let mut attrs = Vec::new();
        for attr in &it.attributes {
            if let JSXAttributeItem::Attribute(a) = attr {
                if let JSXAttributeName::Identifier(name) = &a.name {
                    attrs.push(name.name.to_string());
                }
            }
        }
        self.usages.push(UsageFact::JsxOpen(it.span.start as usize, tag, attrs));
        walk::walk_jsx_opening_element(self, it);
    }
}

fn imports_of(program: &Program) -> Vec<ImportFact> {
    let mut out = Vec::new();
    for stmt in &program.body {
        let Statement::ImportDeclaration(decl) = stmt else { continue };
        let mut bindings = Vec::new();
        if let Some(specs) = &decl.specifiers {
            for spec in specs {
                bindings.push(match spec {
                    ImportDeclarationSpecifier::ImportSpecifier(s) => {
                        ImportBinding::Named(s.imported.name().to_string(), s.local.name.to_string())
                    }
                    ImportDeclarationSpecifier::ImportDefaultSpecifier(s) => {
                        ImportBinding::Default(s.local.name.to_string())
                    }
                    ImportDeclarationSpecifier::ImportNamespaceSpecifier(s) => {
                        ImportBinding::Namespace(s.local.name.to_string())
                    }
                });
            }
        }
        out.push(ImportFact { start: decl.span.start as usize, source: decl.source.value.to_string(), bindings });
    }
    out
}

fn source_type(path: &str) -> SourceType {
    let st = SourceType::from_path(Path::new(path)).unwrap();
    if path.ends_with(".js") { st.with_jsx(true) } else { st }
}

fn analyze(path: &str, src: &str, symbol: &str) -> Result<Vec<FileFindings>, String> {
    let allocator = Allocator::default();
    let ret = Parser::new(&allocator, src, source_type(path)).parse();
    let outcome = outcome_of(ret.panicked, ret.diagnostics.has_errors(), ret.program.body.is_empty(), ret.diagnostics.len());
    let mut walker = UsageWalk { usages: Vec::new() };
    walker.visit_program(&ret.program);
    let syntax = FileSyntax { imports: imports_of(&ret.program), usages: walker.usages };
    analyze_file(path, src, &outcome, &syntax, symbol)
}

struct MarkWalk<'s> {
    text: &'s str,
    marks: Vec<SpanMark>,
}

impl MarkWalk<'_> {
    fn mark(&mut self, span: Span, kind: MarkKind) {
        self.marks.push(SpanMark { start: span.start as usize, end: span.end as usize, kind });
    }
}

impl<'a> Visit<'a> for MarkWalk<'_> {
    fn visit_binding_identifier(&mut self, it: &BindingIdentifier<'a>) {
        self.mark(it.span, MarkKind::Ident);
    }

    fn visit_identifier_reference(&mut self, it: &IdentifierReference<'a>) {
        self.mark(it.span, MarkKind::Ident);
    }

    fn visit_identifier_name(&mut self, it: &IdentifierName<'a>) {
        self.mark(it.span, MarkKind::Ident);
    }

    fn visit_private_identifier(&mut self, it: &PrivateIdentifier<'a>) {
        self.mark(it.span, MarkKind::Ident);
    }

    fn visit_string_literal(&mut self, it: &StringLiteral<'a>) {
        self.mark(it.span, MarkKind::StringLit(it.value.to_string()));
    }

    fn visit_reg_exp_literal(&mut self, it: &RegExpLiteral<'a>) {
        self.mark(it.span, MarkKind::RegExp);
    }

    fn visit_template_element(&mut self, it: &TemplateElement<'a>) {
        self.mark(it.span, MarkKind::Template(it.value.raw.to_string()));
    }

    fn visit_numeric_literal(&mut self, it: &NumericLiteral<'a>) {
        self.mark(it.span, MarkKind::Numeric);
    }

    fn visit_big_int_literal(&mut self, it: &BigIntLiteral<'a>) {
        let _ = self.text;
        self.mark(it.span, MarkKind::Numeric);
    }
}

fn span_pair(s: Span) -> (usize, usize) {
    (s.start as usize, s.end as usize)
}

fn param_spans(params: &FormalParameters) -> Vec<(usize, usize)> {
    let mut ps: Vec<(usize, usize)> = params.items.iter().map(|p| span_pair(p.span())).collect();
    if let Some(rest) = &params.rest {
        ps.push(span_pair(rest.span));
    }
    ps
}

fn fn_shape(f: &Function) -> FnShape {
    FnShape {
        name: f.id.as_ref().map(|id| id.name.to_string()),
        params: param_spans(&f.params),
        return_type: f.return_type.as_ref().map(|r| span_pair(r.span)),
        body: f.body.as_ref().map(|b| span_pair(b.span())),
    }
}

fn declarator(d: &VariableDeclarator) -> Declarator {
    let pattern = match d.id.get_binding_identifier() {
        Some(id) => Pattern::Ident(id.name.to_string()),
        None => Pattern::Destructured(d.id.get_binding_identifiers().iter().map(|id| id.name.to_string()).collect()),
    };
    let init = match &d.init {
        Some(Expression::ArrowFunctionExpression(a)) => Init::Arrow {
            params: param_spans(&a.params),
            return_type: a.return_type.as_ref().map(|r| span_pair(r.span)),
            body: span_pair(a.body.span()),
        },
        Some(Expression::FunctionExpression(f)) => Init::Function(fn_shape(f)),
        _ => Init::Other,
    };
    Declarator { pattern, init }
}

fn decl_shape(d: &Declaration) -> DeclShape {
    match d {
        Declaration::FunctionDeclaration(f) => DeclShape::Function(fn_shape(f)),
        Declaration::VariableDeclaration(v) => DeclShape::Variable(v.declarations.iter().map(declarator).collect()),
        Declaration::ClassDeclaration(c) => DeclShape::Class(c.id.as_ref().map(|id| id.name.to_string())),
        Declaration::TSEnumDeclaration(e) => DeclShape::Enum(e.id.name.to_string()),
        Declaration::TSInterfaceDeclaration(i) => DeclShape::Interface(i.id.name.to_string()),
        Declaration::TSTypeAliasDeclaration(t) => DeclShape::TypeAlias(t.id.name.to_string()),
        _ => DeclShape::Other,
    }
}

/// The top-level statements in the library's shapes, one arm per variant.
fn top_statements(program: &Program) -> Vec<TopStatement> {
    program
        .body
        .iter()
        .map(|stmt| {
            let span = span_pair(stmt.span());
            match stmt {
                Statement::ExportDeclaration(e) => {
                    TopStatement::Declaration { decl: decl_shape(&e.declaration), exported: true, span }
                }
                Statement::ExportDefaultDeclaration(e) => match &e.declaration {
                    ExportDefaultDeclarationKind::FunctionDeclaration(f) => {
                        TopStatement::ExportDefault { decl: DeclShape::Function(fn_shape(f)), span }
                    }
                    ExportDefaultDeclarationKind::ClassDeclaration(c) => TopStatement::ExportDefault {
                        decl: DeclShape::Class(c.id.as_ref().map(|id| id.name.to_string())),
                        span,
                    },
                    _ => TopStatement::Other,
                },
                _ => match stmt.as_declaration() {
                    Some(d) => TopStatement::Declaration { decl: decl_shape(d), exported: false, span },
                    None => TopStatement::Other,
                },
            }
        })
        .collect()
}

fn statements_of(src: &str) -> Vec<TopStatement> {
    let allocator = Allocator::default();
    let ret = Parser::new(&allocator, src, source_type("/fixtures/x.tsx")).parse();
    top_statements(&ret.program)
}

fn candidates(path: &str, src: &str) -> Result<Vec<Candidate>, String> {
    let allocator = Allocator::default();
    let ret = Parser::new(&allocator, src, source_type(path)).parse();
    let outcome = outcome_of(ret.panicked, ret.diagnostics.has_errors(), ret.program.body.is_empty(), ret.diagnostics.len());
    let mut walker = MarkWalk { text: src, marks: Vec::new() };
    walker.visit_program(&ret.program);
    let mut marks = walker.marks;
    for c in &ret.program.comments {
        marks.push(SpanMark { start: c.span.start as usize, end: c.span.end as usize, kind: MarkKind::Comment });
    }
    let decls = candidate_decls(&top_statements(&ret.program));
    file_candidates(path, src, &outcome, marks, &decls)
}

fn tsx(name: &str) -> String {
    format!("/fixtures/{name}.tsx")
}

fn ts(name: &str) -> String {
    format!("/fixtures/{name}.ts")
}

#[test]
fn named_import_with_jsx_props_and_refs() {
    let src = r#"
import { Button } from 'fake-lib/components/Button'
const wrapped = Button
export const P = () => <Button variant="primary" size="large">hi</Button>
"#;
    let findings = analyze(&tsx("named"), src, "Button").unwrap();
    assert_eq!(findings.len(), 1);
    let f = &findings[0];
    assert_eq!(f.source, "fake-lib/components/Button");
    assert_eq!(f.line, 2);
    assert_eq!(f.refs, 1, "only `wrapped = Button` counts as a ref");
    assert_eq!(f.jsx_uses, 1);
    assert_eq!(f.jsx_props.to_vec(), vec!["size".to_string(), "variant".to_string()]);
}

#[test]
fn renamed_import_matches_source_name_and_tracks_local() {
    let src = r#"
import { Button as Btn } from 'fake-lib/components/Button'
export const P = () => <Btn disabled />
"#;
    let findings = analyze(&tsx("renamed"), src, "Button").unwrap();
    assert_eq!(findings.len(), 1);
    let f = &findings[0];
    assert_eq!(f.jsx_uses, 1);
    assert_eq!(f.jsx_props.to_vec(), vec!["disabled".to_string()]);
}

#[test]
fn member_expression_jsx_tag_counts_root_as_ref() {
    let src = r#"
import { Button } from 'lib'
export const P = () => <Button.Icon color="red" />
"#;
    let findings = analyze(&tsx("member"), src, "Button").unwrap();
    assert_eq!(findings.len(), 1);
    let f = &findings[0];
    assert_eq!(f.refs, 1, "root of <Button.Icon /> is a ref to Button");
    assert_eq!(f.jsx_uses, 0, "the component rendered is Button.Icon, not Button");
    assert!(f.jsx_props.to_vec().is_empty(), "props belong to Button.Icon, not Button");
}

#[test]
fn default_import_matches_local_name() {
    let src = "\nimport Whole from './whole'\nWhole()\n";
    let findings = analyze(&tsx("default"), src, "Whole").unwrap();
    assert_eq!(findings.len(), 1);
    assert_eq!(findings[0].refs, 1);
}

#[test]
fn unrelated_symbol_with_same_substring_is_not_matched() {
    let src = r#"
import { ButtonGroup } from 'fake-lib/components/ButtonGroup'
export const P = () => <ButtonGroup />
"#;
    let findings = analyze(&tsx("substring"), src, "Button").unwrap();
    assert!(findings.is_empty());
}

#[test]
fn local_symbol_without_import_is_not_matched() {
    let src = "\nconst Button = 'local'\nconsole.log(Button)\n";
    let findings = analyze(&tsx("local"), src, "Button").unwrap();
    assert!(findings.is_empty());
}

#[test]
fn analyzer_broken_file_is_an_error_not_a_panic() {
    let src = "import { from 'nope";
    let result = analyze(&tsx("broken"), src, "Button");
    assert!(result.is_err());
}

#[test]
fn jsx_lines_follow_each_render_site() {
    let src = "import { Button } from 'lib'\n\nexport const P = () => (\n  <div>\n    <Button />\n    <Button size=\"s\" />\n  </div>\n)\n";
    let findings = analyze(&tsx("lines"), src, "Button").unwrap();
    assert_eq!(findings[0].jsx_uses, 2);
    assert_eq!(findings[0].jsx_lines, vec![5, 6]);
}

#[test]
fn parse_failure_message_names_the_file_and_counts_diagnostics() {
    let outcome = outcome_of(true, true, true, 1);
    let syntax = FileSyntax { imports: Vec::new(), usages: Vec::new() };
    match analyze_file("src/broken.ts", "", &outcome, &syntax, "Button") {
        Err(err) => assert_eq!(err, "failed to parse src/broken.ts: 1 parser diagnostic(s)"),
        Ok(_) => panic!("a file the parser gave up on is an error"),
    }
}

#[test]
fn recoverable_errors_with_statements_still_analyze() {
    let outcome = outcome_of(false, true, false, 2);
    let imports = vec![ImportFact {
        start: 0,
        source: "lib".to_string(),
        bindings: vec![ImportBinding::Named("Button".to_string(), "B".to_string())],
    }];
    let usages = vec![UsageFact::IdentRef("B".to_string()), UsageFact::IdentRef("Button".to_string())];
    let syntax = FileSyntax { imports, usages };
    let findings = analyze_file("x.ts", "import { Button as B } from 'lib'\nB\n", &outcome, &syntax, "Button").unwrap();
    assert_eq!(findings.len(), 1);
    assert_eq!(findings[0].refs, 1);
    assert_eq!(findings[0].line, 1);
}

const CLEAN_PAIR: &str = r#"
export const isEmail = (email: string) => {
  const re = /^[^\s@]+@[^\s@]+\.[^\s@]+$/
  return re.test(String(email).toLowerCase())
}
export function validateEmail(value: string) {
  const re = /^[^\s@]+@[^\s@]+\.[^\s@]+$/
  return re.test(String(value).toLowerCase())
}
"#;

#[test]
fn arrow_and_function_with_identical_bodies_share_a_fingerprint() {
    let cands = candidates(&ts("pair"), CLEAN_PAIR).unwrap();
    assert_eq!(cands.len(), 2, "both declaration forms are candidates");
    let is_email = cands.iter().find(|c| c.name == "isEmail").unwrap();
    let validate = cands.iter().find(|c| c.name == "validateEmail").unwrap();
    assert_eq!(is_email.fingerprint, validate.fingerprint, "identifier names must be normalized away");
    assert!(is_email.exported && validate.exported);
    assert_eq!(is_email.kind, CandidateKind::Const);
    assert_eq!(validate.kind, CandidateKind::Fn);
    assert_eq!(is_email.line, 2);
    assert_eq!(validate.line, 6);
}

#[test]
fn the_email_validator_body_clears_the_default_floor() {
    let cands = candidates(&ts("floor-keep"), CLEAN_PAIR).unwrap();
    assert_eq!(cands.len(), 2, "floor test must not pass vacuously");
    for c in &cands {
        assert!(
            c.token_count >= DEFAULT_MIN_TOKENS,
            "{} has {} tokens, must clear the floor of {DEFAULT_MIN_TOKENS}",
            c.name,
            c.token_count
        );
    }
}

#[test]
fn trivial_passthroughs_fall_below_the_default_floor() {
    let src = "export const identity = (x: unknown) => !!x\nexport const yes = () => true\n";
    let cands = candidates(&ts("floor-drop"), src).unwrap();
    assert_eq!(cands.len(), 2);
    for c in &cands {
        assert!(c.token_count < DEFAULT_MIN_TOKENS, "{} has {} tokens, must fall below the floor", c.name, c.token_count);
    }
}

#[test]
fn different_regex_literals_produce_different_fingerprints() {
    let src = r#"
export const isEmail = (v: string) => {
  const re = /^[^\s@]+@[^\s@]+\.[^\s@]+$/
  return re.test(String(v).toLowerCase())
}
export const isPhone = (v: string) => {
  const re = /^\+?[0-9]{7,15}$/
  return re.test(String(v).toLowerCase())
}
"#;
    let cands = candidates(&ts("regex"), src).unwrap();
    let email = cands.iter().find(|c| c.name == "isEmail").unwrap();
    let phone = cands.iter().find(|c| c.name == "isPhone").unwrap();
    assert_ne!(email.fingerprint, phone.fingerprint, "regex literals are the discriminating signal and must be kept");
}

#[test]
fn string_literals_discriminate_but_quote_style_does_not() {
    let a = candidates(&ts("qa"), "const f = (a: string) => a.replace('x', 'y')\n").unwrap();
    let b = candidates(&ts("qb"), "const g = (b: string) => b.replace(\"x\", \"y\")\n").unwrap();
    let c = candidates(&ts("qc"), "const h = (c: string) => c.replace('x', 'z')\n").unwrap();
    assert_eq!(a[0].fingerprint, b[0].fingerprint, "quote style is not a semantic difference");
    assert_ne!(a[0].fingerprint, c[0].fingerprint, "different string contents must not collide");
}

#[test]
fn comments_and_whitespace_do_not_affect_the_fingerprint() {
    let plain = "const f = (a: number) => {\n  return a * 2\n}\n";
    let noisy = "const g = (b: number) => {\n  // double it\n  return b   * /* inline */ 2\n}\n";
    let a = candidates(&ts("plain"), plain).unwrap();
    let b = candidates(&ts("noisy"), noisy).unwrap();
    assert_eq!(a[0].fingerprint, b[0].fingerprint);
}

#[test]
fn non_exported_top_level_functions_are_candidates_marked_unexported() {
    let src = "function collapse(s: string) { return s.replace(/\\s+/g, ' ').trim() }\nconst local = (n: number) => { return n.toFixed(2).padStart(8, '0') }\n";
    let cands = candidates(&ts("plainfns"), src).unwrap();
    assert_eq!(cands.len(), 2);
    assert!(cands.iter().all(|c| !c.exported));
}

#[test]
fn named_default_export_function_is_a_candidate() {
    let src = "export default function widget(input: string) { return input.split(',').map(Number).filter(Boolean) }\n";
    let cands = candidates(&ts("defexp"), src).unwrap();
    assert_eq!(cands.len(), 1);
    assert_eq!(cands[0].name, "widget");
    assert!(cands[0].exported);
}

#[test]
fn class_methods_object_methods_and_nested_closures_are_skipped() {
    let src = r#"
export class Store {
  load(key: string) { return this.cache.get(key.trim().toLowerCase()) }
}
export const handlers = {
  onSave(data: string) { return data.trim().toLowerCase().padEnd(10) }
}
export function outer(items: string[]) {
  const inner = (s: string) => s.trim().toLowerCase().padEnd(10)
  return items.map(inner)
}
"#;
    let cands = candidates(&ts("nested"), src).unwrap();
    let names: Vec<&str> = cands.iter().map(|c| c.name.as_str()).collect();
    assert_eq!(names, vec!["outer"], "only the top-level function counts");
}

#[test]
fn substring_names_do_not_leak_between_candidates() {
    let src = "\nexport const isEmailFlow = (flow: string) => flow.startsWith('email:')\n";
    let cands = candidates(&ts("flow"), src).unwrap();
    assert_eq!(cands.len(), 1);
    assert_eq!(cands[0].name, "isEmailFlow");
}

#[test]
fn sig_records_params_and_return_type_literals_record_body_literals() {
    let cands = candidates(&ts("sig"), CLEAN_PAIR).unwrap();
    let is_email = cands.iter().find(|c| c.name == "isEmail").unwrap();
    assert_eq!(is_email.sig, "(email: string)");
    assert!(
        is_email.literals.iter().any(|l| l.contains(r"^[^\s@]+@[^\s@]+\.[^\s@]+$")),
        "body regex must be recorded for the cluster note: {:?}",
        is_email.literals
    );
    let src = "export function toCount(input: string): number { return input.split(',').map(Number).length }\n";
    let typed = candidates(&ts("sig2"), src).unwrap();
    assert_eq!(typed[0].sig, "(input: string) => number");
}

#[test]
fn fingerprint_broken_file_is_an_error_not_a_panic() {
    assert!(candidates(&ts("broken"), "import { from 'nope").is_err());
}

#[test]
fn fingerprint_tokens_are_exact() {
    let src = "const f = (a: number) => {\n  return a * 2 // twice\n}\n";
    let cands = candidates(&ts("exact"), src).unwrap();
    assert_eq!(cands[0].fingerprint, "{ return $ID * 2 }");
    assert_eq!(cands[0].token_count, 6);
    assert!(cands[0].literals.is_empty());
}

#[test]
fn string_literals_are_requoted_and_noted() {
    let src = "const f = (s: string) => s + 'é x'\n";
    let cands = candidates(&ts("quote"), src).unwrap();
    assert_eq!(cands[0].fingerprint, "$ID + \"é x\"");
    assert_eq!(cands[0].literals, vec!["\"é x\"".to_string()]);
}

#[test]
fn unmarked_words_and_unicode_punctuation_are_split() {
    // `typeof` is a keyword run, `≠` is one punctuation token; no identifier
    // marks are handed in, so every word is a keyword run here
    let text = "x => typeof x≠y";
    let outcome = outcome_of(false, false, false, 0);
    let decl = FnDecl {
        name: "f".to_string(),
        exported: false,
        kind: CandidateKind::Const,
        start: 0,
        params: vec![(0, 1)],
        return_type: None,
        body: (5, text.len()),
    };
    let cands = file_candidates("u.ts", text, &outcome, Vec::new(), &vec![decl]).unwrap();
    assert_eq!(cands[0].fingerprint, "typeof x ≠ y");
    assert_eq!(cands[0].sig, "(x)");
}

#[test]
fn exported_values_cover_exported_declarations_and_named_defaults() {
    let src = "import { x } from './x';\n\
export const Button = () => null, { a, b: [c] } = x;\n\
export function useThing() {}\n\
export class Card {}\n\
export enum Tone { A }\n\
export interface Props {}\n\
export type Alias = string;\n\
const Local = 1;\n\
export default function Page() {}\n\
export { Local };\n";
    let stmts = statements_of(src);
    let got = exported_values(&stmts, src);
    let want: Vec<(String, usize)> = vec![
        ("Button".to_string(), 2),
        ("a".to_string(), 2),
        ("c".to_string(), 2),
        ("useThing".to_string(), 3),
        ("Card".to_string(), 4),
        ("Tone".to_string(), 5),
        ("Page".to_string(), 9),
    ];
    assert_eq!(got, want);
}

#[test]
fn declaration_lines_find_the_first_declaring_statement() {
    let src = "import { Button } from './b';\n\
\n\
export interface ButtonProps {\n\
  label: string;\n\
}\n\
export const Button = (p: ButtonProps) => {\n\
  return null;\n\
};\n\
type Inner = number;\n";
    let stmts = statements_of(src);
    assert_eq!(declaration_lines(src, &stmts, "Button"), Some((6, 8)));
    assert_eq!(declaration_lines(src, &stmts, "ButtonProps"), Some((3, 5)));
    assert_eq!(declaration_lines(src, &stmts, "Inner"), Some((9, 9)));
    assert_eq!(declaration_lines(src, &stmts, "Missing"), None);
}

#[test]
fn candidate_selection_by_statement_shape() {
    let shape = |name: Option<&str>, body: Option<(usize, usize)>| FnShape {
        name: name.map(|n| n.to_string()),
        params: vec![(10, 11)],
        return_type: None,
        body,
    };
    let stmts = vec![
        TopStatement::Declaration { decl: DeclShape::Function(shape(Some("f"), Some((20, 30)))), exported: false, span: (0, 30) },
        TopStatement::Declaration { decl: DeclShape::Function(shape(Some("overload"), None)), exported: true, span: (31, 40) },
        TopStatement::Declaration {
            decl: DeclShape::Variable(vec![
                Declarator {
                    pattern: Pattern::Ident("g".to_string()),
                    init: Init::Arrow { params: vec![], return_type: Some((45, 50)), body: (52, 60) },
                },
                Declarator { pattern: Pattern::Ident("wrapped".to_string()), init: Init::Other },
                Declarator {
                    pattern: Pattern::Destructured(vec!["d".to_string()]),
                    init: Init::Function(shape(None, Some((70, 80)))),
                },
                Declarator { pattern: Pattern::Ident("h".to_string()), init: Init::Function(shape(Some("inner"), Some((85, 90)))) },
            ]),
            exported: true,
            span: (41, 90),
        },
        TopStatement::Declaration { decl: DeclShape::Class(Some("C".to_string())), exported: true, span: (91, 120) },
        TopStatement::ExportDefault { decl: DeclShape::Function(shape(Some("Page"), Some((130, 140)))), span: (121, 140) },
        TopStatement::ExportDefault { decl: DeclShape::Function(shape(None, Some((150, 160)))), span: (141, 160) },
        TopStatement::Other,
    ];
    let got: Vec<(String, bool, CandidateKind, usize, (usize, usize))> =
        candidate_decls(&stmts).into_iter().map(|d| (d.name, d.exported, d.kind, d.start, d.body)).collect();
    assert_eq!(
        got,
        vec![
            ("f".to_string(), false, CandidateKind::Fn, 0, (20, 30)),
            ("g".to_string(), true, CandidateKind::Const, 41, (52, 60)),
            ("h".to_string(), true, CandidateKind::Const, 41, (85, 90)),
            ("Page".to_string(), true, CandidateKind::Fn, 121, (130, 140)),
        ]
    );
}
