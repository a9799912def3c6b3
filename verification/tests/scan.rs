use lxp_scan::analyzer::FileFindings;
use lxp_scan::discover::{deps_from_manifest, deps_from_text, malformed_manifest, sort_repos, unreadable_manifest, unreadable_root, Repo};
use lxp_scan::dupes::{dupe_entries, dupe_entry, export_file_wanted, export_index, find_dupe_groups, is_component_shaped, mentions_export};
use lxp_scan::impact::{file_hits, mentions, sort_hits, ImpactHit};
use lxp_scan::json::JsonValue;
use lxp_scan::messages::{
    clones_summary, drift_empty_hint, dupes_summary, impact_summary, no_clusters_hint, no_exports, no_match_hint,
    skipped, suppressed_warnings, unreadable, unreadable_excerpt, warning_line,
};
use lxp_scan::paths::{join_components_normalized, path_components, NormPath};
use lxp_scan::resolver::{pick, PathAlias, RepoResolver, ResolvedImport, TsconfigFile};
use lxp_scan::strmap::{StrMap, StrSet};
use lxp_scan::walk::{is_skipped_dir, is_source_file, sort_source_paths, SourcePath};

const ROOT: &str = "/nonexistent-ws/app-one";

fn norm(base: &str, rest: &str) -> NormPath {
    join_components_normalized(&path_components(base), rest)
}

fn importer() -> String {
    format!("{ROOT}/src/page.tsx")
}

fn shown(r: &RepoResolver, x: &ResolvedImport) -> String {
    r.display(x)
}

#[test]
fn package_specifier_stays_package() {
    let resolver = RepoResolver::without_aliases(ROOT);
    let r = resolver.resolve(&importer(), "fake-lib/components/Button");
    assert!(matches!(&r, ResolvedImport::Package(p) if p == "fake-lib/components/Button"));
}

#[test]
fn relative_import_without_a_file_keeps_the_normalized_base() {
    let resolver = RepoResolver::without_aliases(ROOT);
    let r = resolver.resolve(&importer(), "./utils/../utils/helpers");
    match &r {
        ResolvedImport::File(p) => assert_eq!(p.render(), format!("{ROOT}/src/utils/helpers")),
        _ => panic!("a relative import is a file"),
    }
    assert_eq!(shown(&resolver, &r), "app-one/src/utils/helpers");
}

#[test]
fn display_is_repo_prefixed_for_files_and_verbatim_for_packages() {
    let resolver = RepoResolver::without_aliases(ROOT);
    let file = ResolvedImport::File(norm(ROOT, "src/utils/helpers.ts"));
    assert_eq!(resolver.display(&file), "app-one/src/utils/helpers.ts");
    let package = ResolvedImport::Package("fake-lib/components/Button".to_string());
    assert_eq!(resolver.display(&package), "fake-lib/components/Button");
}

#[test]
fn exact_paths_pattern_matches_only_on_full_equality() {
    let resolver = RepoResolver {
        repo_root: ROOT.to_string(),
        base_url: None,
        paths: vec![PathAlias { prefix: "@utils".to_string(), wildcard: false, targets: vec![norm(ROOT, "src/utils")] }],
    };
    let r = resolver.resolve(&importer(), "@utilshelpers");
    assert!(matches!(&r, ResolvedImport::Package(p) if p == "@utilshelpers"));
    assert!(resolver.candidates(&importer(), "@utilshelpers").is_empty());
    let helpers = RepoResolver {
        repo_root: ROOT.to_string(),
        base_url: None,
        paths: vec![PathAlias {
            prefix: "@helpers".to_string(),
            wildcard: false,
            targets: vec![norm(ROOT, "src/utils/helpers")],
        }],
    };
    let cands = helpers.candidates(&importer(), "@helpers");
    assert_eq!(cands.len(), 9);
    // the `.ts` probe is the one that exists
    let probes: Vec<bool> = (0..cands.len()).map(|i| i == 1).collect();
    let picked = pick(&cands, &probes, helpers.fallback(&importer(), "@helpers"));
    match picked {
        ResolvedImport::File(p) => assert_eq!(p.render(), format!("{ROOT}/src/utils/helpers.ts")),
        _ => panic!("expected the probed file"),
    }
}

#[test]
fn wildcard_alias_and_base_url_candidates_come_in_order() {
    let resolver = RepoResolver {
        repo_root: ROOT.to_string(),
        base_url: Some(norm(ROOT, "src")),
        paths: vec![PathAlias { prefix: "utils/".to_string(), wildcard: true, targets: vec![norm(ROOT, "src/utils")] }],
    };
    let cands: Vec<String> = resolver.candidates(&importer(), "utils/helpers").iter().map(|p| p.render()).collect();
    assert_eq!(cands.len(), 18);
    assert_eq!(cands[0], format!("{ROOT}/src/utils/helpers"));
    assert_eq!(cands[1], format!("{ROOT}/src/utils/helpers.ts"));
    assert_eq!(cands[5], format!("{ROOT}/src/utils/helpers/index.ts"));
    assert_eq!(cands[9], format!("{ROOT}/src/utils/helpers"));
    let none: Vec<bool> = vec![false; cands.len()];
    let fallback = pick(&resolver.candidates(&importer(), "utils/helpers"), &none, resolver.fallback(&importer(), "utils/helpers"));
    assert!(matches!(&fallback, ResolvedImport::Package(p) if p == "utils/helpers"));
}

#[test]
fn tsconfig_aliases_are_star_trimmed_and_longest_first() {
    let config = JsonValue::Object(vec![(
        "compilerOptions".to_string(),
        JsonValue::Object(vec![
            ("baseUrl".to_string(), JsonValue::Str(".".to_string())),
            (
                "paths".to_string(),
                JsonValue::Object(vec![
                    ("@/*".to_string(), JsonValue::Array(vec![JsonValue::Str("src/*".to_string())])),
                    ("@components/*".to_string(), JsonValue::Array(vec![JsonValue::Str("src/components/*".to_string())])),
                    ("@exact".to_string(), JsonValue::Array(vec![JsonValue::Str("src/exact".to_string())])),
                    ("ignored".to_string(), JsonValue::Str("src".to_string())),
                ]),
            ),
        ]),
    )]);
    let r = RepoResolver::from_tsconfig(ROOT, &config);
    assert_eq!(r.base_url.as_ref().map(|b| b.render()), Some(ROOT.to_string()));
    let aliases: Vec<(String, bool, Vec<String>)> = r
        .paths
        .iter()
        .map(|a| (a.prefix.clone(), a.wildcard, a.targets.iter().map(|t| t.render()).collect()))
        .collect();
    assert_eq!(
        aliases,
        vec![
            ("@components/".to_string(), true, vec![format!("{ROOT}/src/components")]),
            ("@exact".to_string(), false, vec![format!("{ROOT}/src/exact")]),
            ("@/".to_string(), true, vec![format!("{ROOT}/src")]),
        ]
    );
}

#[test]
fn includes_ts_tsx_and_skips_node_modules_md_and_dts() {
    assert!(is_source_file("app-one/src/page.tsx"));
    assert!(is_source_file("app-one/src/utils/helpers.ts"));
    assert!(is_source_file("x.js"));
    assert!(is_source_file("x.jsx"));
    assert!(!is_source_file("app-one/readme.md"));
    assert!(!is_source_file("app-one/src/globals.d.ts"));
    assert!(is_skipped_dir("node_modules"));
    assert!(is_skipped_dir("dist"));
    assert!(!is_skipped_dir("src"));
}

#[test]
fn source_paths_sort_by_component() {
    let paths = vec![
        SourcePath { path: "/r/src/b.ts".to_string() },
        SourcePath { path: "/r/src-x/a.ts".to_string() },
        SourcePath { path: "/r/src/a/z.ts".to_string() },
    ];
    let sorted: Vec<String> = sort_source_paths(paths).into_iter().map(|p| p.path).collect();
    assert_eq!(sorted, vec!["/r/src/a/z.ts", "/r/src/b.ts", "/r/src-x/a.ts"]);
}

#[test]
fn merges_dependencies_and_dev_dependencies() {
    let doc = JsonValue::Object(vec![
        ("name".to_string(), JsonValue::Str("app-one".to_string())),
        (
            "dependencies".to_string(),
            JsonValue::Object(vec![
                ("lxp-common-components-js".to_string(), JsonValue::Str("^3.1.32".to_string())),
                ("weird".to_string(), JsonValue::Number("1".to_string())),
            ]),
        ),
        (
            "devDependencies".to_string(),
            JsonValue::Object(vec![("lxp-common-constants-js".to_string(), JsonValue::Str("^1.0.24".to_string()))]),
        ),
    ]);
    let deps = deps_from_manifest(&doc);
    assert_eq!(deps.get(&"lxp-common-components-js".to_string()).map(String::as_str), Some("^3.1.32"));
    assert_eq!(deps.get(&"lxp-common-constants-js".to_string()).map(String::as_str), Some("^1.0.24"));
    assert!(deps.get(&"weird".to_string()).is_none());
    assert_eq!(deps.len(), 2);
    assert_eq!(deps_from_manifest(&JsonValue::Null).len(), 0);
}

#[test]
fn discovery_messages_and_order() {
    let repos = vec![
        Repo { name: "b".to_string(), root: "/w/b".to_string(), deps: StrMap::new() },
        Repo { name: "a".to_string(), root: "/w/a".to_string(), deps: StrMap::new() },
    ];
    let names: Vec<String> = sort_repos(repos).into_iter().map(|r| r.name).collect();
    assert_eq!(names, vec!["a", "b"]);
    assert_eq!(unreadable_manifest("x", "denied"), "x: cannot read package.json: denied");
    assert_eq!(malformed_manifest("broken-repo", "eof"), "broken-repo: malformed package.json: eof");
    assert_eq!(unreadable_root("/definitely/not/here", "gone"), "cannot read root /definitely/not/here: gone");
}

#[test]
fn reports_names_declared_in_multiple_repos_only() {
    let entries = vec![
        dupe_entry("fake-lib", "components/Button.tsx", "Button".to_string(), 8),
        dupe_entry("app-one", "src/utils/helpers.ts", "Button".to_string(), 3),
        dupe_entry("app-one", "src/Card.tsx", "Card".to_string(), 1),
        dupe_entry("app-two", "src/local-button.tsx", "Button".to_string(), 2),
        dupe_entry("app-one", "src/a.tsx", "Solo".to_string(), 1),
        dupe_entry("app-one", "src/b.tsx", "Solo".to_string(), 1),
    ];
    let groups = find_dupe_groups(entries);
    assert_eq!(groups.len(), 1, "Solo stays in one repo, Card in one file");
    assert_eq!(groups[0].name, "Button");
    assert_eq!(groups[0].repo_count, 3);
    let repos: Vec<&str> = groups[0].sites.iter().map(|s| s.repo.as_str()).collect();
    assert_eq!(repos, vec!["app-one", "app-two", "fake-lib"]);
}

#[test]
fn groups_sort_by_repo_count_then_name() {
    let entries = vec![
        dupe_entry("a", "x.tsx", "Zeta".to_string(), 1),
        dupe_entry("b", "x.tsx", "Zeta".to_string(), 1),
        dupe_entry("c", "x.tsx", "Zeta".to_string(), 1),
        dupe_entry("a", "y.tsx", "Beta".to_string(), 1),
        dupe_entry("b", "y.tsx", "Beta".to_string(), 1),
        dupe_entry("a", "z.tsx", "Alpha".to_string(), 1),
        dupe_entry("c", "z.tsx", "Alpha".to_string(), 1),
    ];
    let names: Vec<String> = find_dupe_groups(entries).into_iter().map(|g| g.name).collect();
    assert_eq!(names, vec!["Zeta", "Alpha", "Beta"]);
}

#[test]
fn component_shaped_names_and_export_prefilter() {
    assert!(is_component_shaped("Button"));
    assert!(!is_component_shaped("ButtonProps"));
    assert!(!is_component_shaped("formatThing"));
    assert!(!is_component_shaped(""));
    assert!(mentions_export("export const X = 1"));
    assert!(!mentions_export("const X = 1"));
}

fn finding(line: usize, source: &str) -> FileFindings {
    FileFindings {
        line,
        source: source.to_string(),
        refs: 1,
        jsx_uses: 0,
        jsx_props: StrSet::new(),
        jsx_lines: Vec::new(),
    }
}

#[test]
fn from_filter_narrows_by_source() {
    let findings = vec![finding(1, "./a"), finding(2, "fake-lib")];
    let sources = vec!["app-one/src/a.ts".to_string(), "fake-lib/components/Button".to_string()];
    let all = file_hits("app-one", "src/page.tsx", findings, &sources, None);
    assert_eq!(all.len(), 2);
    assert_eq!(all[1].source, "fake-lib/components/Button");
    assert_eq!(all[0].line, 1);
    let findings = vec![finding(1, "./a"), finding(2, "fake-lib")];
    let some = file_hits("app-one", "src/page.tsx", findings, &sources, Some("fake-lib"));
    assert_eq!(some.len(), 1);
    assert_eq!(some[0].line, 2);
    assert_eq!(some[0].repo, "app-one");
    let findings = vec![finding(1, "./a")];
    let none = file_hits("app-one", "src/page.tsx", findings, &vec!["app-one/src/a.ts".to_string()], Some("no-such-lib"));
    assert!(none.is_empty());
}

#[test]
fn hits_sort_by_repo_file_line() {
    let h = |repo: &str, file: &str, line: usize| ImpactHit {
        repo: repo.to_string(),
        file: file.to_string(),
        line,
        source: "s".to_string(),
        refs: 0,
        jsx_uses: 0,
        jsx_props: StrSet::new(),
        jsx_lines: Vec::new(),
    };
    let sorted = sort_hits(vec![h("b", "a.ts", 1), h("a", "b.ts", 9), h("a", "b.ts", 2), h("a", "a.ts", 5)]);
    let keys: Vec<(String, String, usize)> = sorted.into_iter().map(|x| (x.repo, x.file, x.line)).collect();
    assert_eq!(
        keys,
        vec![
            ("a".to_string(), "a.ts".to_string(), 5),
            ("a".to_string(), "b.ts".to_string(), 2),
            ("a".to_string(), "b.ts".to_string(), 9),
            ("b".to_string(), "a.ts".to_string(), 1),
        ]
    );
    assert!(mentions("import { Button } from 'x'", "Button"));
    assert!(!mentions("import { Card } from 'x'", "Button"));
}

#[test]
fn messages_are_exact() {
    assert_eq!(warning_line("x"), "warn: x");
    assert_eq!(suppressed_warnings(4), "4 warning(s) suppressed; rerun with --verbose");
    assert_eq!(skipped("failed to parse a.ts: 1 parser diagnostic(s)"), "failed to parse a.ts: 1 parser diagnostic(s), skipped");
    assert_eq!(unreadable("a.ts", "denied"), "a.ts: unreadable (denied), skipped");
    assert_eq!(unreadable_excerpt("a.ts", "denied"), "a.ts: unreadable (denied), excerpt skipped");
    assert_eq!(impact_summary(3, 2, 1), "\n3 usage site(s) in 2 file(s) across 1 repo(s)");
    assert_eq!(no_match_hint("/ws"), "hint: no matches under /ws — check --root, drop/adjust --from, or add --verbose");
    assert_eq!(dupes_summary(2), "\n2 name(s) exported from more than one repo");
    assert_eq!(clones_summary(0), "\n0 clone cluster(s)");
    assert_eq!(
        no_clusters_hint("/ws"),
        "hint: no clusters under /ws — check --root, lower --min-tokens, or add --same-file/--verbose"
    );
    assert_eq!(
        drift_empty_hint("/ws", 3),
        "no lxp-common-*/lxp-design-system dependencies found under /ws (3 repo(s) discovered) — is --root pointing at the FE workspace?"
    );
    assert_eq!(no_exports("/ws"), "no exported components found under /ws — is --root pointing at the FE workspace?");
}

#[test]
fn export_index_lists_each_name_once_with_sites_in_order() {
    let entries = vec![
        dupe_entry("lib", "src/Card.tsx", "Card".to_string(), 9),
        dupe_entry("app", "src/Button.tsx", "Button".to_string(), 2),
        dupe_entry("lib", "src/Button.tsx", "Button".to_string(), 3),
    ];
    let index = export_index(entries);
    let names: Vec<&str> = index.iter().map(|(n, _)| n.as_str()).collect();
    assert_eq!(names, vec!["Button", "Card"]);
    let repos: Vec<&str> = index[0].1.iter().map(|s| s.repo.as_str()).collect();
    assert_eq!(repos, vec!["app", "lib"]);
    assert_eq!(index[1].1[0].line, 9);
    assert!(export_index(Vec::new()).is_empty());
}

/// Resolution against a disk on which exactly `existing` are files.
fn resolve_on(r: &RepoResolver, importer: &str, spec: &str, existing: &[String]) -> ResolvedImport {
    let cands = r.candidates(importer, spec);
    let probes: Vec<bool> = cands.iter().map(|c| existing.contains(&c.render())).collect();
    pick(&cands, &probes, r.fallback(importer, spec))
}

const APP_ONE_TSCONFIG: &str = r#"{
  // JSONC: comments and trailing commas are accepted
  "compilerOptions": {
    "baseUrl": "src",
    "paths": {
      "utils/*": ["utils/*"], /* helpers */
    },
  },
}"#;

/// The app-one resolver, from its JSONC tsconfig, which parses cleanly.
fn app_one() -> RepoResolver {
    let tsconfig = format!("{ROOT}/tsconfig.json");
    let (resolver, warning) = RepoResolver::from_repo(ROOT, &tsconfig, TsconfigFile::Text(APP_ONE_TSCONFIG.to_string()));
    assert_eq!(warning, None, "app-one tsconfig should parse without warnings");
    resolver
}

fn app_one_files() -> Vec<String> {
    vec![format!("{ROOT}/src/page.tsx"), format!("{ROOT}/src/utils/helpers.ts")]
}

fn file_of(r: &ResolvedImport) -> String {
    match r {
        ResolvedImport::File(p) => p.render(),
        ResolvedImport::Package(p) => panic!("expected a file, got package {p}"),
    }
}

#[test]
fn paths_alias_resolves_to_existing_file() {
    let r = resolve_on(&app_one(), &importer(), "utils/helpers", &app_one_files());
    assert_eq!(file_of(&r), format!("{ROOT}/src/utils/helpers.ts"));
}

#[test]
fn relative_import_canonicalizes_same_as_alias() {
    let resolver = app_one();
    let via_relative = resolve_on(&resolver, &importer(), "./utils/helpers", &app_one_files());
    let via_alias = resolve_on(&resolver, &importer(), "utils/helpers", &app_one_files());
    assert_eq!(file_of(&via_relative), file_of(&via_alias));
    assert_eq!(resolver.display(&via_relative), resolver.display(&via_alias));
    assert_eq!(resolver.display(&via_alias), "app-one/src/utils/helpers.ts");
}

#[test]
fn base_url_resolves_bare_specifier_not_covered_by_paths() {
    let importer = format!("{ROOT}/src/utils/helpers.ts");
    let r = resolve_on(&app_one(), &importer, "page", &app_one_files());
    assert_eq!(file_of(&r), format!("{ROOT}/src/page.tsx"));
}

#[test]
fn jsonc_tsconfig_gives_base_url_and_aliases() {
    let r = app_one();
    assert_eq!(r.repo_root, ROOT);
    assert_eq!(r.base_url.as_ref().map(|b| b.render()), Some(format!("{ROOT}/src")));
    assert_eq!(r.paths.len(), 1);
    assert_eq!(r.paths[0].prefix, "utils/");
    assert!(r.paths[0].wildcard);
    assert_eq!(r.paths[0].targets[0].render(), format!("{ROOT}/src/utils"));
}

#[test]
fn missing_tsconfig_only_warns_and_still_resolves_relative() {
    let root = "/nonexistent-ws/app-two";
    let (resolver, warning) =
        RepoResolver::from_repo(root, &format!("{root}/tsconfig.json"), TsconfigFile::Missing);
    assert_eq!(warning, Some(format!("{root}: no tsconfig.json, alias resolution disabled")));
    assert!(resolver.base_url.is_none());
    assert!(resolver.paths.is_empty());
    let existing = vec![format!("{root}/src/whole.ts")];
    let r = resolve_on(&resolver, &format!("{root}/src/other.tsx"), "../src/whole", &existing);
    assert_eq!(file_of(&r), format!("{root}/src/whole.ts"));
}

#[test]
fn unreadable_tsconfig_warns_with_the_reason() {
    let path = format!("{ROOT}/tsconfig.json");
    let (resolver, warning) =
        RepoResolver::from_repo(ROOT, &path, TsconfigFile::Unreadable("permission denied".to_string()));
    assert_eq!(
        warning,
        Some(format!("{path}: unreadable tsconfig.json (permission denied), alias resolution disabled"))
    );
    assert!(resolver.base_url.is_none() && resolver.paths.is_empty());
}

#[test]
fn broken_tsconfig_warns_and_disables_aliases() {
    let path = format!("{ROOT}/tsconfig.json");
    let (resolver, warning) = RepoResolver::from_repo(ROOT, &path, TsconfigFile::Text("{ \"compilerOptions\": ".to_string()));
    let w = warning.expect("a broken tsconfig warns");
    assert!(w.starts_with(&format!("{path}: unreadable tsconfig.json (")), "{w}");
    assert!(w.ends_with("), alias resolution disabled"), "{w}");
    assert!(w.len() > format!("{path}: unreadable tsconfig.json (), alias resolution disabled").len());
    assert!(resolver.base_url.is_none() && resolver.paths.is_empty());
    let (_, direct) = RepoResolver::from_parsed(ROOT, &path, Err("bad".to_string()));
    assert_eq!(direct, Some(format!("{path}: unreadable tsconfig.json (bad), alias resolution disabled")));
}

#[test]
fn manifest_text_gives_merged_dependencies_or_the_malformed_warning() {
    let text = r#"{"name": "app", "dependencies": {"react": "^18.0.0"}, "devDependencies": {"vitest": "1.0.0", "odd": 3}}"#;
    let deps = deps_from_text("app-one", text).expect("valid JSON");
    assert_eq!(deps.get(&"react".to_string()).map(|s| s.as_str()), Some("^18.0.0"));
    assert_eq!(deps.get(&"vitest".to_string()).map(|s| s.as_str()), Some("1.0.0"));
    assert!(deps.get(&"odd".to_string()).is_none());
    assert_eq!(deps.len(), 2);
    let err = deps_from_text("app-one", "{ not json").err().expect("malformed");
    assert!(err.starts_with("app-one: malformed package.json: "), "{err}");
    assert!(err.len() > "app-one: malformed package.json: ".len());
    // comments are JSONC, not JSON
    assert!(deps_from_text("app-one", "{} // note").is_err());
}

#[test]
fn duplicate_scan_reads_export_files_that_are_not_stories_or_tests() {
    assert!(export_file_wanted("src/Button.tsx", "export const Button = () => null;"));
    assert!(!export_file_wanted("src/Button.tsx", "const Button = () => null;"));
    assert!(!export_file_wanted("src/Button.stories.tsx", "export const Primary = {};"));
    assert!(!export_file_wanted("src/Button.test.tsx", "export const X = 1;"));
    assert!(!export_file_wanted("src/__tests__/Button.tsx", "export const X = 1;"));
}

#[test]
fn dupe_entries_keep_component_shaped_names_in_order() {
    let exports = vec![
        ("Button".to_string(), 3),
        ("ButtonProps".to_string(), 1),
        ("useThing".to_string(), 7),
        ("Card".to_string(), 9),
        ("_Hidden".to_string(), 2),
    ];
    let entries = dupe_entries("app-one", "src/ui.tsx", exports);
    let got: Vec<(String, String, String, usize)> = entries
        .iter()
        .map(|e| (e.name.clone(), e.site.repo.clone(), e.site.file.clone(), e.site.line))
        .collect();
    assert_eq!(
        got,
        vec![
            ("Button".to_string(), "app-one".to_string(), "src/ui.tsx".to_string(), 3),
            ("Card".to_string(), "app-one".to_string(), "src/ui.tsx".to_string(), 9),
        ]
    );
    assert!(dupe_entries("a", "b.ts", Vec::new()).is_empty());
}

#[test]
fn display_is_the_same_under_either_root_form() {
    let resolver = RepoResolver::without_aliases("/ws/x/../app-one");
    let file = ResolvedImport::File(norm("/ws/app-one", "src/a.ts"));
    assert_eq!(resolver.display(&file), "app-one/src/a.ts");
    let plain = RepoResolver::without_aliases("/ws/app-one");
    assert_eq!(plain.display(&file), "app-one/src/a.ts");
    let other = ResolvedImport::File(norm("/elsewhere", "b.ts"));
    assert_eq!(resolver.display(&other), "/elsewhere/b.ts");
}

#[test]
fn normalizing_twice_changes_nothing() {
    let once = norm("/r/a/./b/../c", "../d/./e");
    assert_eq!(once.render(), "/r/a/d/e");
    let twice = join_components_normalized(&once.components(), "");
    assert_eq!(twice.render(), once.render());
    let rel = norm("a/../../b", ".");
    assert_eq!(rel.render(), "b");
    assert_eq!(join_components_normalized(&rel.components(), "").render(), "b");
}

#[test]
fn jsonc_paths_become_aliases_longest_prefix_first() {
    let text = r#"{
  // no baseUrl: targets sit under the repo root
  "compilerOptions": {
    "paths": {
      "@/*": ["src/*"],
      "@components/*": ["src/components/*", "shared/components/*", 7],
      "@exact": ["src/exact.ts"],
      "@skipped": "src/not-an-array",
    },
  },
}"#;
    let (r, warning) = RepoResolver::from_repo(ROOT, "tsconfig.json", TsconfigFile::Text(text.to_string()));
    assert_eq!(warning, None);
    assert!(r.base_url.is_none());
    let aliases: Vec<(String, bool, Vec<String>)> = r
        .paths
        .iter()
        .map(|a| (a.prefix.clone(), a.wildcard, a.targets.iter().map(|t| t.render()).collect()))
        .collect();
    assert_eq!(
        aliases,
        vec![
            (
                "@components/".to_string(),
                true,
                vec![format!("{ROOT}/src/components/"), format!("{ROOT}/shared/components/")]
                    .into_iter()
                    .map(|s| s.trim_end_matches('/').to_string())
                    .collect()
            ),
            ("@exact".to_string(), false, vec![format!("{ROOT}/src/exact.ts")]),
            ("@/".to_string(), true, vec![format!("{ROOT}/src")]),
        ]
    );
}
