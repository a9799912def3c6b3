use lxp_scan::context::{
    pack_context, pack_excerpts, ContextPack, SameNameGroup, UsageExcerpt, count_files, count_hit_repos, excerpt_of, is_test_file, prop_counts, props_key, split_same_name, EXCERPT_LINES,
};
use lxp_scan::definition::{
    Definition, defining_repo_name, definition_excerpt, dominant_defining_repo, multi_declaration_warning, pick_declaration,
    props_names, repo_index, slice_lines, MAX_SECTION_LINES,
};
use lxp_scan::discover::Repo;
use lxp_scan::impact::ImpactHit;
use lxp_scan::report::{context_markdown, context_markdown_with};
use lxp_scan::select::select_sites;
use lxp_scan::strmap::{StrMap, StrSet};
use lxp_scan::tally::most_common;

fn set(items: &[&str]) -> StrSet {
    let mut s = StrSet::new();
    for i in items {
        s.insert(i.to_string());
    }
    s
}

fn hit(repo: &str, file: &str, jsx_uses: usize) -> ImpactHit {
    ImpactHit {
        repo: repo.to_string(),
        file: file.to_string(),
        line: 1,
        source: "lib".to_string(),
        refs: 0,
        jsx_uses,
        jsx_props: StrSet::new(),
        jsx_lines: if jsx_uses > 0 { vec![1] } else { vec![] },
    }
}

fn sourced(repo: &str, file: &str, source: &str, props: &[&str]) -> ImpactHit {
    ImpactHit {
        repo: repo.to_string(),
        file: file.to_string(),
        line: 2,
        source: source.to_string(),
        refs: 0,
        jsx_uses: 1,
        jsx_props: set(props),
        jsx_lines: vec![5],
    }
}

fn repo(name: &str) -> Repo {
    Repo { name: name.to_string(), root: format!("/ws/{name}"), deps: StrMap::new() }
}

#[test]
fn test_files_are_selected_last() {
    let hits = vec![
        hit("app", "src/__test__/Thing.test.tsx", 1),
        hit("app", "src/Thing.spec.tsx", 1),
        hit("app", "src/pages/Real.tsx", 1),
    ];
    let selected = select_sites(&hits, 1);
    assert_eq!(selected[0].file, "src/pages/Real.tsx");
    let all = select_sites(&hits, 3);
    assert_eq!(all.len(), 3);
}

#[test]
fn selection_round_robins_across_repos_and_respects_cap() {
    let hits = vec![
        hit("app-one", "src/a.tsx", 1),
        hit("app-one", "src/b.tsx", 1),
        hit("app-two", "src/c.tsx", 1),
    ];
    let picked = select_sites(&hits, 2);
    assert_eq!(picked.len(), 2);
    let repos: Vec<&str> = picked.iter().map(|h| h.repo.as_str()).collect();
    assert_eq!(repos, vec!["app-one", "app-two"], "one excerpt per repo before repeats");
    let all = select_sites(&hits, 8);
    assert_eq!(all.len(), 3);
}

#[test]
fn rendering_sites_come_before_reference_only_sites() {
    let hits = vec![hit("app", "src/refs.ts", 0), hit("app", "src/render.tsx", 1)];
    let picked = select_sites(&hits, 1);
    assert_eq!(picked[0].file, "src/render.tsx");
}

#[test]
fn long_declarations_are_truncated() {
    let text = (1..=50).map(|i| format!("line{i}")).collect::<Vec<_>>().join("\n");
    let sliced = slice_lines(&text, 1, 50);
    assert_eq!(sliced.lines().count(), MAX_SECTION_LINES + 1);
    assert!(sliced.ends_with("// … truncated\n"));
}

#[test]
fn short_slices_are_exact() {
    let text = "a\nb\nc\nd\n";
    assert_eq!(slice_lines(text, 2, 3), "b\nc\n");
    assert_eq!(definition_excerpt(text, Some((1, 1)), (3, 4)), "a\n\nc\nd\n");
    assert_eq!(definition_excerpt(text, None, (4, 4)), "d\n");
}

#[test]
fn test_file_patterns() {
    assert!(is_test_file("src/__tests__/x.tsx"));
    assert!(is_test_file("src/x.test.ts"));
    assert!(is_test_file("src/x.spec.ts"));
    assert!(!is_test_file("src/testing/x.ts"));
}

#[test]
fn excerpts_anchor_on_the_render_site_not_the_import() {
    let text = "import { Button } from 'lib'\n\nexport const P = () => (\n  <div>\n  <Button variant=\"primary\" />\n  </div>\n)\n";
    let h = sourced("app-one", "src/page.tsx", "lib", &["variant"]);
    let e = excerpt_of(&h, text);
    assert_eq!(e.line, 5, "anchor must be the JSX line, not the import");
    assert!(e.code.starts_with("  <Button"), "got: {}", e.code);
    assert!(e.code.contains("variant=\"primary\""));
    assert_eq!(e.code.lines().count(), 3);
    assert!(EXCERPT_LINES >= 3);
}

#[test]
fn props_are_counted_across_sites_most_frequent_first() {
    let hits = vec![
        sourced("a", "1.tsx", "lib", &["size", "variant"]),
        sourced("a", "2.tsx", "lib", &["variant"]),
        sourced("b", "3.tsx", "lib", &["disabled"]),
    ];
    let counts = prop_counts(&hits);
    assert_eq!(
        counts,
        vec![("variant".to_string(), 2), ("disabled".to_string(), 1), ("size".to_string(), 1)]
    );
    assert_eq!(count_files(&hits), 3);
    assert_eq!(count_hit_repos(&hits), 2);
    assert_eq!(props_key(&hits[0]), "size,variant");
}

#[test]
fn same_name_components_are_split_out_not_mixed_in() {
    let repos = vec![repo("app-one"), repo("app-two"), repo("fake-lib")];
    let hits = vec![
        sourced("app-one", "src/page.tsx", "fake-lib/components/Button", &[]),
        sourced("app-two", "src/other.tsx", "fake-lib/components/Button", &[]),
        sourced("app-two", "src/special.tsx", "app-two/src/local-button.tsx", &[]),
    ];
    let (main, others) = split_same_name(hits, &repos);
    assert_eq!(main.len(), 2);
    assert!(main.iter().all(|h| !h.file.ends_with("special.tsx")));
    assert_eq!(others.len(), 1);
    assert_eq!(others[0].repo, "app-two");
    assert_eq!(others[0].sites, 1);
    assert!(others[0].from_hint.contains("local-button"));
}

#[test]
fn defining_repo_follows_the_source_prefix() {
    let repos = vec![repo("app-one"), repo("fake-lib")];
    assert_eq!(defining_repo_name(&sourced("app-one", "x", "fake-lib/components/Button", &[]), &repos), "fake-lib");
    assert_eq!(defining_repo_name(&sourced("app-one", "x", "src/utils/helpers.ts", &[]), &repos), "app-one");
    let hits = vec![
        sourced("app-one", "x", "fake-lib/components/Button", &[]),
        sourced("app-one", "y", "src/Button.tsx", &[]),
        sourced("app-two", "z", "fake-lib", &[]),
    ];
    assert_eq!(dominant_defining_repo(&hits, &repos).as_deref(), Some("fake-lib"));
    assert_eq!(dominant_defining_repo(&Vec::new(), &repos), None);
    assert_eq!(repo_index(&repos, "fake-lib"), Some(1));
    assert_eq!(repo_index(&repos, "nope"), None);
}

#[test]
fn shallowest_declaration_wins_then_lexicographic() {
    let paths = vec![
        "/ws/lib/src/deep/Button.tsx".to_string(),
        "/ws/lib/src/b.tsx".to_string(),
        "/ws/lib/src/a.tsx".to_string(),
    ];
    assert_eq!(pick_declaration(&paths), Some(2));
    assert_eq!(pick_declaration(&Vec::new()), None);
    assert_eq!(
        multi_declaration_warning(3, "lib", "Button", "/ws/lib/src/a.tsx"),
        "3 files in lib declare Button; picked /ws/lib/src/a.tsx"
    );
    assert_eq!(props_names("Card"), vec!["CardProps", "ICardProps"]);
}

#[test]
fn most_common_breaks_ties_by_name() {
    let keys = vec!["b".to_string(), "a".to_string(), "b".to_string(), "a".to_string()];
    assert_eq!(most_common(&keys).as_deref(), Some("a"));
    assert_eq!(most_common(&vec!["z".to_string()]).as_deref(), Some("z"));
    assert_eq!(most_common(&Vec::new()), None);
}

fn sample_pack(definition: Option<Definition>) -> ContextPack {
    ContextPack {
        symbol: "Button".to_string(),
        total_sites: 3,
        total_files: 2,
        total_repos: 2,
        prop_counts: vec![("variant".to_string(), 2), ("size".to_string(), 1)],
        definition,
        excerpts: vec![UsageExcerpt {
            repo: "app-one".to_string(),
            file: "src/page.tsx".to_string(),
            line: 5,
            jsx_props: set(&["variant"]),
            code: "  <Button variant=\"primary\" />".to_string(),
        }],
        same_name: vec![SameNameGroup {
            repo: "app-two".to_string(),
            sites: 1,
            from_hint: "app-two/src/local-button.tsx".to_string(),
        }],
    }
}

#[test]
fn markdown_pack_sections_are_exact() {
    let def = Definition {
        repo: "fake-lib".to_string(),
        file: "components/Button/Button.tsx".to_string(),
        line: 8,
        excerpt: "export const Button = () => null\n".to_string(),
    };
    let md = context_markdown(&sample_pack(Some(def)), "fixtures");
    assert_eq!(
        md,
        "# Context: Button\n\nScanned fixtures · 3 sites · 2 files · 2 repos\n\n## Definition\nfake-lib/components/Button/Button.tsx:8\n```tsx\nexport const Button = () => null\n```\n\n## Props observed across usages\nvariant ×2 · size ×1\n\n## Usage excerpts (1 of 3 sites)\n### app-one · src/page.tsx:5\n```tsx\n  <Button variant=\"primary\" />\n```\n\n## Other components named Button (NOT in this pack)\n- app-two — 1 site(s) · repack with `--from \"app-two/src/local-button.tsx\"`\n"
    );
}

#[test]
fn markdown_pack_without_definition_says_so_and_takes_rendered_code() {
    let md = context_markdown_with(&sample_pack(None), "/ws", "", &vec!["<CODE>".to_string()]);
    assert!(md.contains("\n## Definition\nnot located (no top-level declaration found in the workspace)\n"), "{md}");
    assert!(md.contains("```tsx\n<CODE>\n```\n"), "{md}");
}

#[test]
fn declaring_files_of_equal_depth_order_component_by_component() {
    // "a" < "a-b" as components, though "/r/a-b" < "/r/a/" as text
    let paths = vec!["/r/a-b/x.ts".to_string(), "/r/a/x.ts".to_string()];
    assert_eq!(pick_declaration(&paths), Some(1));
    let paths = vec!["/r/a/x.ts".to_string(), "/r/a-b/x.ts".to_string()];
    assert_eq!(pick_declaration(&paths), Some(0));
}

#[test]
fn split_keeps_every_hit_and_the_largest_group() {
    let repos = vec![repo("app-one"), repo("app-two"), repo("fake-lib"), repo("other-lib")];
    let hits = vec![
        sourced("app-one", "a.tsx", "fake-lib/Button", &[]),
        sourced("app-one", "b.tsx", "app-two/src/local-button", &[]),
        sourced("app-two", "c.tsx", "fake-lib/Button", &[]),
        sourced("app-two", "d.tsx", "other-lib/Button", &[]),
        sourced("app-one", "e.tsx", "fake-lib/Button", &[]),
    ];
    let total = hits.len();
    let (own, groups) = split_same_name(hits, &repos);
    assert_eq!(own.len(), 3);
    assert_eq!(own.len() + groups.iter().map(|g| g.sites).sum::<usize>(), total);
    assert!(groups.iter().all(|g| g.sites <= own.len()));
    let names: Vec<&str> = groups.iter().map(|g| g.repo.as_str()).collect();
    assert_eq!(names, vec!["app-two", "other-lib"]);
}

#[test]
fn excerpts_come_from_readable_sites_only() {
    let hits = vec![hit("app", "a.tsx", 1), hit("app", "b.tsx", 1), hit("app", "c.tsx", 0)];
    let selected: Vec<&ImpactHit> = hits.iter().collect();
    let texts = vec![Some("<Button />\nnext".to_string()), None, Some("import x".to_string())];
    let excerpts = pack_excerpts(&selected, &texts);
    let got: Vec<(String, usize, String)> = excerpts.iter().map(|e| (e.file.clone(), e.line, e.code.clone())).collect();
    assert_eq!(
        got,
        vec![("a.tsx".to_string(), 1, "<Button />\nnext".to_string()), ("c.tsx".to_string(), 1, "import x".to_string())]
    );
    assert!(pack_excerpts(&Vec::new(), &Vec::new()).is_empty());
}

#[test]
fn pack_counts_its_own_hits() {
    let hits = vec![
        sourced("app-one", "a.tsx", "lib", &["size", "tone"]),
        sourced("app-one", "a.tsx", "lib", &["size"]),
        sourced("app-two", "b.tsx", "lib", &["tone"]),
        sourced("app-two", "c.tsx", "lib", &["size"]),
    ];
    let p = pack_context("Button", hits, Vec::new(), None, Vec::new());
    assert_eq!(p.symbol, "Button");
    assert_eq!((p.total_sites, p.total_files, p.total_repos), (4, 3, 2));
    assert_eq!(p.prop_counts, vec![("size".to_string(), 3), ("tone".to_string(), 2)]);
    assert!(p.definition.is_none() && p.excerpts.is_empty() && p.same_name.is_empty());
}
