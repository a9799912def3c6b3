use comfy_table::presets::UTF8_BORDERS_ONLY;
use comfy_table::Table;
use lxp_scan::clones::{CloneCluster, CloneSite, ClonesOutput};
use lxp_scan::discover::Repo;
use lxp_scan::drift::{compute_drift, DriftLevel, DriftRow};
use lxp_scan::dupes::{DeclSite, DupeGroup};
use lxp_scan::fingerprint::CandidateKind;
use lxp_scan::impact::ImpactHit;
use lxp_scan::report::{
    clones_report, drift_consumers, drift_rows, dupes_report, impact_header, impact_report, impact_rows, level_text,
};
use lxp_scan::strmap::{StrMap, StrSet};

fn set(items: &[&str]) -> StrSet {
    let mut s = StrSet::new();
    for i in items {
        s.insert(i.to_string());
    }
    s
}

fn repo(name: &str, deps: &[(&str, &str)]) -> Repo {
    let mut map = StrMap::new();
    for (k, v) in deps {
        map.insert(k.to_string(), v.to_string());
    }
    Repo { name: name.into(), root: format!("/tmp/{name}"), deps: map }
}

fn hit(repo: &str, file: &str, line: usize, refs: usize, jsx_uses: usize, props: &[&str], jsx_lines: Vec<usize>) -> ImpactHit {
    ImpactHit {
        repo: repo.to_string(),
        file: file.to_string(),
        line,
        source: "fake-lib/components/Button".to_string(),
        refs,
        jsx_uses,
        jsx_props: set(props),
        jsx_lines,
    }
}

fn sample_hits() -> Vec<ImpactHit> {
    vec![
        hit("app-one", "src/page.tsx", 1, 0, 1, &["variant", "size"], vec![1]),
        hit("app-one", "src/util.ts", 3, 2, 0, &[], Vec::new()),
        hit("app-two", "src/other.tsx", 7, 0, 0, &[], Vec::new()),
    ]
}

fn sample_rows() -> Vec<DriftRow> {
    let repos = vec![
        repo("a", &[("lxp-common-components-js", "^3.1.32")]),
        repo("b", &[("lxp-common-components-js", "^2.1.56")]),
    ];
    compute_drift(&repos)
}

/// Renders rows the way the command line does when stdout is not a terminal.
fn render(header: Vec<String>, rows: Vec<Vec<String>>) -> String {
    let mut table = Table::new();
    table.load_preset(UTF8_BORDERS_ONLY);
    table.set_header(header);
    for r in rows {
        table.add_row(r);
    }
    table.to_string()
}

fn drift_table(rows: &Vec<DriftRow>, names: &Vec<String>) -> String {
    let consumers = drift_consumers(rows, names);
    let mut header = vec!["package".to_string()];
    header.extend(consumers.iter().cloned());
    header.push("drift".to_string());
    render(header, drift_rows(rows, &consumers))
}

#[test]
fn impact_report_groups_hits_under_one_header_per_repo() {
    let report = impact_report(&sample_hits());
    let lines: Vec<&str> = report.lines().collect();
    assert_eq!(lines[0], "app-one (2 sites)");
    assert_eq!(report.lines().filter(|l| l.starts_with("app-one")).count(), 1);
    assert!(report.contains("\napp-two (1 site)\n"));
}

#[test]
fn impact_report_hit_lines_carry_location_counts_source_and_props() {
    let report = impact_report(&sample_hits());
    assert!(report.contains("  src/page.tsx:1\n"));
    assert!(report.contains("jsx ×1"));
    assert!(report.contains("props: size, variant"));
    assert!(report.contains("ref ×2"));
    assert!(report.contains("from fake-lib/components/Button"));
    assert!(report.contains("import only"));
}

#[test]
fn impact_report_on_no_hits_is_empty() {
    assert_eq!(impact_report(&Vec::new()), "");
}

#[test]
fn impact_report_exact_text() {
    let report = impact_report(&sample_hits());
    assert_eq!(
        report,
        "app-one (2 sites)\n  src/page.tsx:1\n      jsx ×1 · from fake-lib/components/Button · props: size, variant\n  src/util.ts:3\n      ref ×2 · from fake-lib/components/Button\n\napp-two (1 site)\n  src/other.tsx:7\n      import only · from fake-lib/components/Button\n"
    );
}

fn sample_clones() -> ClonesOutput {
    ClonesOutput {
        clusters: vec![CloneCluster {
            members: vec![
                CloneSite {
                    repo: "app-one".to_string(),
                    file: "src/utils/validators.ts".to_string(),
                    line: 3,
                    name: "isEmail".to_string(),
                    exported: true,
                    kind: CandidateKind::Const,
                    sig: "(email: string)".to_string(),
                },
                CloneSite {
                    repo: "app-two".to_string(),
                    file: "src/utils/check.ts".to_string(),
                    line: 2,
                    name: "validateEmail".to_string(),
                    exported: false,
                    kind: CandidateKind::Fn,
                    sig: "(value: string)".to_string(),
                },
            ],
            token_count: 24,
            sig: "(email: string)".to_string(),
            literals: vec![r"/^[^\s@]+@[^\s@]+\.[^\s@]+$/".to_string()],
            notes: vec![
                "no isEmail/validateEmail export found in lxp-common-functions-js — candidate shared home".to_string()
            ],
        }],
        npm_only_packages: vec!["lxp-common-components-js".to_string(), "lxp-common-functions-js".to_string()],
    }
}

#[test]
fn clones_report_shows_header_aligned_members_literals_and_notes() {
    let report = clones_report(&sample_clones());
    let lines: Vec<&str> = report.lines().collect();
    assert_eq!(lines[0], "CLONE CLUSTER #1 — 2 members · sig (email: string) · 24 tokens");
    assert!(report.contains("  app-one · src/utils/validators.ts:3"));
    assert!(report.contains("isEmail\n"));
    assert!(report.contains("validateEmail (not exported)"), "unexported members are flagged: {report}");
    assert!(report.contains(r"literals: /^[^\s@]+@[^\s@]+\.[^\s@]+$/"));
    assert!(report.contains("  → no isEmail/validateEmail export found"));
    assert!(report.contains(
        "note: 2 lxp-common-* package(s) are npm-only (not scanned); body-clone detection skipped for them: lxp-common-components-js, lxp-common-functions-js"
    ));
    let member_lines: Vec<&str> = lines.iter().filter(|l| l.contains(" · src/")).copied().collect();
    let name_cols: Vec<usize> =
        member_lines.iter().map(|l| l.find("isEmail").or_else(|| l.find("validateEmail")).unwrap()).collect();
    assert_eq!(name_cols[0], name_cols[1], "aligned: {member_lines:?}");
}

#[test]
fn clones_report_with_no_clusters_still_prints_the_npm_footer() {
    let out = ClonesOutput { clusters: vec![], npm_only_packages: vec!["lxp-common-functions-js".to_string()] };
    let report = clones_report(&out);
    assert!(report.starts_with("note: 1 lxp-common-* package(s)"));
}

#[test]
fn clones_report_on_fully_empty_output_is_empty() {
    let out = ClonesOutput { clusters: vec![], npm_only_packages: vec![] };
    assert_eq!(clones_report(&out), "");
}

#[test]
fn impact_table_row_has_location_source_counts_and_joined_props() {
    let table = render(impact_header(), impact_rows(&sample_hits()));
    let row_line = table.lines().find(|l| l.contains("app-one")).expect("data row for app-one");
    assert!(row_line.contains("src/page.tsx:1"));
    assert!(row_line.contains("fake-lib/components/Button"));
    assert!(row_line.contains(" 0 "));
    assert!(row_line.contains(" 1 "));
    assert!(row_line.contains("size, variant"));
}

#[test]
fn impact_rows_cells_are_exact() {
    let rows = impact_rows(&sample_hits());
    assert_eq!(
        rows[0],
        vec!["app-one", "src/page.tsx:1", "fake-lib/components/Button", "0", "1", "size, variant"]
    );
    assert_eq!(rows[2][5], "");
    assert_eq!(impact_header(), vec!["repo", "file:line", "from", "refs", "jsx", "props"]);
}

#[test]
fn report_table_contains_versions_and_dash_for_missing() {
    let rows = sample_rows();
    let names = vec!["a".to_string(), "b".to_string()];
    let table = drift_table(&rows, &names);
    let row_line = table.lines().find(|l| l.contains("lxp-common-components-js")).unwrap();
    assert!(row_line.contains("^3.1.32"));
    assert!(row_line.contains("^2.1.56"));
}

#[test]
fn report_drift_table_drops_repos_without_tracked_packages_but_keeps_dash_for_partial() {
    let repos = vec![
        repo("app-a", &[("lxp-common-components-js", "^3.1.32"), ("lxp-common-hooks-js", "^0.0.8")]),
        repo("app-b", &[("lxp-common-components-js", "^2.1.56")]),
        repo("app-c", &[("react", "^18.0.0")]),
    ];
    let rows = compute_drift(&repos);
    let names: Vec<String> = repos.iter().map(|r| r.name.clone()).collect();
    let table = drift_table(&rows, &names);
    assert!(!table.contains("app-c"));
    let hooks_row = table.lines().find(|l| l.contains("lxp-common-hooks-js")).unwrap();
    assert!(hooks_row.contains(" - "));
}

#[test]
fn drift_cells_are_exact() {
    let repos = vec![
        repo("app-a", &[("lxp-common-components-js", "^3.1.32"), ("lxp-common-hooks-js", "^0.0.8")]),
        repo("app-b", &[("lxp-common-components-js", "^2.1.56")]),
        repo("app-c", &[("react", "^18.0.0")]),
    ];
    let rows = compute_drift(&repos);
    let names: Vec<String> = repos.iter().map(|r| r.name.clone()).collect();
    let consumers = drift_consumers(&rows, &names);
    assert_eq!(consumers, vec!["app-a", "app-b"]);
    let cells = drift_rows(&rows, &consumers);
    assert_eq!(cells[0], vec!["lxp-common-components-js", "^3.1.32", "^2.1.56", "Major"]);
    assert_eq!(cells[1], vec!["lxp-common-hooks-js", "^0.0.8", "-", "Same"]);
    assert_eq!(level_text(DriftLevel::Minor), "Minor");
}

#[test]
fn dupes_report_lists_every_site_under_its_name() {
    let groups = vec![DupeGroup {
        name: "Button".to_string(),
        sites: vec![
            DeclSite { repo: "app-one".to_string(), file: "src/Button.tsx".to_string(), line: 3 },
            DeclSite { repo: "fake-lib".to_string(), file: "components/Button.tsx".to_string(), line: 8 },
        ],
        repo_count: 2,
    }];
    let report = dupes_report(&groups);
    assert_eq!(report, "Button — 2 repos\n  app-one · src/Button.tsx:3\n  fake-lib · components/Button.tsx:8\n");
    assert_eq!(dupes_report(&Vec::new()), "");
}
