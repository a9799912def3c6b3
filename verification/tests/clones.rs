//! Clone clustering over a small in-memory workspace: each repo lists the
//! candidates its files yield (fingerprints written out), and the scan
//! pipeline of the command line is followed with the library's functions.
use lxp_scan::clones::{
    add_exports, clone_file_wanted, cluster_entries, entry_of, find_clusters, has_function_syntax, is_noise_file, keep_candidate, kind_matches, npm_notes,
    npm_only_common_packages, CloneCluster, CloneOptions, CloneSite, ClonesOutput, KindFilter,
};
use lxp_scan::discover::Repo;
use lxp_scan::fingerprint::{Candidate, CandidateKind};
use lxp_scan::strmap::{StrMap, StrSet};

const EMAIL: &str = "{ const $ID = /^[^\\s@]+@[^\\s@]+\\.[^\\s@]+$/ return $ID . $ID ( $ID ( $ID ) . $ID ( ) ) }";
const PHONE: &str = "{ const $ID = /^\\+?[0-9]{7,15}$/ return $ID . $ID ( $ID ( $ID ) . $ID ( ) ) }";
const COLLAPSE: &str = "{ return $ID . $ID ( /\\s+/g , \" \" ) . $ID ( ) }";
const PHONE_NUMBER: &str = "{ return /^[0-9]{10}$/ . $ID ( $ID . $ID ( ) ) }";
const COMMAS: &str = "{ return $ID . $ID ( ) . $ID ( /\\B(?=(\\d{3})+(?!\\d))/g , \",\" ) }";

fn cand(name: &str, exported: bool, kind: CandidateKind, line: usize, fp: &str, tokens: usize, lits: &[&str]) -> Candidate {
    Candidate {
        name: name.to_string(),
        exported,
        kind,
        line,
        sig: "(value: string)".to_string(),
        fingerprint: fp.to_string(),
        token_count: tokens,
        literals: lits.iter().map(|s| s.to_string()).collect(),
    }
}

fn repo(name: &str, deps: &[&str]) -> Repo {
    let mut map = StrMap::new();
    for d in deps {
        map.insert(d.to_string(), "^1.0.0".to_string());
    }
    Repo { name: name.to_string(), root: format!("/ws/{name}"), deps: map }
}

/// (repo, file, text prefilter sample, candidates)
fn workspace() -> Vec<(&'static str, &'static str, Vec<Candidate>)> {
    let (kc, kf) = (CandidateKind::Const, CandidateKind::Fn);
    vec![
        (
            "app-one",
            "src/utils/validators.ts",
            vec![
                cand("isEmail", true, kc, 2, EMAIL, 24, &["/^[^\\s@]+@[^\\s@]+\\.[^\\s@]+$/"]),
                cand("identity", true, kc, 6, "!! $ID", 3, &[]),
                cand("isEmailFlow", true, kc, 7, "$ID . $ID ( \"email:\" )", 6, &["\"email:\""]),
            ],
        ),
        ("app-one", "src/utils/text.ts", vec![cand("collapseWhitespace", false, kf, 1, COLLAPSE, 12, &["/\\s+/g", "\" \""])]),
        ("app-one", "src/Button.stories.tsx", vec![cand("isEmail", true, kc, 1, EMAIL, 24, &[])]),
        (
            "app-one",
            "src/phone.ts",
            vec![
                cand("isPhone", true, kc, 1, PHONE, 24, &["/^\\+?[0-9]{7,15}$/"]),
                cand("checkPhone", true, kc, 5, PHONE, 24, &["/^\\+?[0-9]{7,15}$/"]),
            ],
        ),
        ("app-one", "src/num.ts", vec![cand("numberWithCommas", true, kc, 1, COMMAS, 14, &[])]),
        (
            "app-two",
            "src/utils/check.ts",
            vec![
                cand("validateEmail", true, kf, 3, EMAIL, 24, &["/^[^\\s@]+@[^\\s@]+\\.[^\\s@]+$/"]),
                cand("alwaysTrue", true, kc, 8, "true", 1, &[]),
                cand("isValidPhoneNumber", true, kc, 9, PHONE_NUMBER, 11, &[]),
            ],
        ),
        ("app-two", "src/local.ts", vec![cand("collapseWhitespace", false, kf, 4, COLLAPSE, 12, &[])]),
        ("app-three", "src/phone.ts", vec![cand("checkPhoneNumber", true, kf, 2, PHONE_NUMBER, 11, &[])]),
        ("lxp-common-widgets-js", "src/format.ts", vec![cand("formatAmountWithCommas", true, kf, 4, COMMAS, 14, &[])]),
    ]
}

fn repos() -> Vec<Repo> {
    vec![
        repo("app-one", &["lxp-common-components-js", "lxp-common-functions-js", "react"]),
        repo("app-three", &[]),
        repo("app-two", &["lxp-common-constants-js", "lxp-common-widgets-js"]),
        repo("lxp-common-widgets-js", &[]),
    ]
}

fn scan(opts: &CloneOptions) -> ClonesOutput {
    let mut entries = Vec::new();
    for (repo, file, cands) in workspace() {
        if is_noise_file(file) {
            continue;
        }
        entries.extend(cluster_entries(repo, file, cands, opts));
    }
    let repos = repos();
    let npm_only = npm_only_common_packages(&repos);
    let mut exports: StrMap<StrSet> = StrMap::new();
    add_exports(&mut exports, "lxp-common-functions-js", &vec!["isValidPhoneNumber".to_string()]);
    add_exports(&mut exports, "lxp-common-components-js", &vec!["Button".to_string()]);
    ClonesOutput { clusters: find_clusters(entries, opts, &exports), npm_only_packages: npm_only }
}

fn cluster_with<'a>(out: &'a ClonesOutput, name: &str) -> Option<&'a CloneCluster> {
    out.clusters.iter().find(|c| c.members.iter().any(|m| m.name == name))
}

#[test]
fn clean_email_pair_clusters_across_repos_despite_different_names() {
    let out = scan(&CloneOptions::default());
    let cluster = cluster_with(&out, "isEmail").expect("email cluster must exist");
    let names: Vec<&str> = cluster.members.iter().map(|m| m.name.as_str()).collect();
    assert_eq!(names, vec!["isEmail", "validateEmail"], "sorted by repo");
    assert!(cluster.members.iter().all(|m| m.exported));
    assert_eq!(cluster.members[0].repo, "app-one");
    assert_eq!(cluster.members[1].repo, "app-two");
    assert!(cluster.members[0].file.ends_with("validators.ts"));
    assert!(
        cluster.literals.iter().any(|l| l.contains("[^\\s@]+@")),
        "the discriminating regex is surfaced: {:?}",
        cluster.literals
    );
}

#[test]
fn same_shape_different_regex_does_not_join_the_email_cluster() {
    let out = scan(&CloneOptions::default());
    let email = cluster_with(&out, "isEmail").unwrap();
    assert!(!email.members.iter().any(|m| m.name == "isPhone"), "phone validator has a different regex literal");
}

#[test]
fn passthroughs_and_substring_names_never_cluster() {
    let out = scan(&CloneOptions::default());
    for name in ["identity", "alwaysTrue", "isEmailFlow"] {
        assert!(cluster_with(&out, name).is_none(), "{name} must not appear in any cluster");
    }
}

#[test]
fn raising_the_floor_drops_the_email_cluster() {
    let out = scan(&CloneOptions { min_tokens: 500, ..Default::default() });
    assert!(cluster_with(&out, "isEmail").is_none());
}

#[test]
fn non_exported_copies_cluster_and_are_flagged_unexported() {
    let out = scan(&CloneOptions::default());
    let cluster = cluster_with(&out, "collapseWhitespace").expect("local util pair");
    assert_eq!(cluster.members.len(), 2);
    assert!(cluster.members.iter().all(|m| !m.exported));
}

#[test]
fn same_file_clusters_are_hidden_by_default_and_shown_with_the_flag() {
    let default_out = scan(&CloneOptions::default());
    assert!(cluster_with(&default_out, "isPhone").is_none(), "isPhone/checkPhone live in one file");
    let same_file_out = scan(&CloneOptions { same_file: true, ..Default::default() });
    let cluster = cluster_with(&same_file_out, "isPhone").expect("same-file cluster");
    assert!(cluster.members.iter().any(|m| m.name == "checkPhone"));
}

#[test]
fn symbol_filter_keeps_only_clusters_containing_that_name() {
    let out = scan(&CloneOptions { symbol: Some("validateEmail".to_string()), ..Default::default() });
    assert_eq!(out.clusters.len(), 1);
    assert!(cluster_with(&out, "isEmail").is_some());
}

#[test]
fn kind_filter_restricts_candidates_before_clustering() {
    let out = scan(&CloneOptions { kind: KindFilter::Fn, ..Default::default() });
    assert!(cluster_with(&out, "isEmail").is_none(), "isEmail is a const arrow; alone, validateEmail cannot cluster");
    assert!(
        cluster_with(&out, "collapseWhitespace").is_some(),
        "both collapseWhitespace copies are function declarations"
    );
}

#[test]
fn npm_only_common_packages_are_listed_in_the_footer() {
    let out = scan(&CloneOptions::default());
    assert_eq!(
        out.npm_only_packages,
        vec!["lxp-common-components-js", "lxp-common-constants-js", "lxp-common-functions-js"]
    );
}

#[test]
fn cluster_note_reports_existing_export_in_npm_common_package() {
    let out = scan(&CloneOptions::default());
    let cluster = cluster_with(&out, "isValidPhoneNumber").expect("phone-number pair");
    assert!(cluster.members.iter().any(|m| m.name == "checkPhoneNumber"), "the differently-named copy clusters with it");
    assert!(
        cluster
            .notes
            .iter()
            .any(|n| n.contains("isValidPhoneNumber") && n.contains("already exists in lxp-common-functions-js")),
        "notes: {:?}",
        cluster.notes
    );
}

#[test]
fn member_in_a_cloned_common_repo_beats_the_shared_home_hint() {
    let out = scan(&CloneOptions::default());
    let cluster =
        cluster_with(&out, "numberWithCommas").expect("app copy clusters with the cloned common repo implementation");
    assert!(cluster.members.iter().any(|m| m.repo == "lxp-common-widgets-js" && m.name == "formatAmountWithCommas"));
    assert!(cluster.notes.iter().any(|n| n.contains("already implemented in lxp-common-widgets-js")), "notes: {:?}", cluster.notes);
    assert!(!cluster.notes.iter().any(|n| n.contains("candidate shared home")), "notes: {:?}", cluster.notes);
}

#[test]
fn cluster_without_npm_hit_gets_a_shared_home_hint() {
    let out = scan(&CloneOptions::default());
    let cluster = cluster_with(&out, "isEmail").unwrap();
    assert_eq!(
        cluster.notes,
        vec!["no isEmail/validateEmail export found in lxp-common-components-js, lxp-common-functions-js — candidate shared home"]
    );
}

#[test]
fn output_is_deterministic_across_runs() {
    let a = scan(&CloneOptions::default());
    let b = scan(&CloneOptions::default());
    let key = |o: &ClonesOutput| -> Vec<Vec<(String, String, usize)>> {
        o.clusters
            .iter()
            .map(|c| c.members.iter().map(|m| (m.repo.clone(), m.file.clone(), m.line)).collect())
            .collect()
    };
    assert_eq!(key(&a), key(&b));
}

#[test]
fn clusters_are_ordered_largest_first_then_by_first_site() {
    let out = scan(&CloneOptions::default());
    let firsts: Vec<(&str, &str)> =
        out.clusters.iter().map(|c| (c.members[0].repo.as_str(), c.members[0].file.as_str())).collect();
    assert_eq!(
        firsts,
        vec![
            ("app-one", "src/num.ts"),
            ("app-one", "src/utils/text.ts"),
            ("app-one", "src/utils/validators.ts"),
            ("app-three", "src/phone.ts"),
        ]
    );
    let email = cluster_with(&out, "isEmail").unwrap();
    assert_eq!(email.token_count, 24);
    assert_eq!(email.sig, "(value: string)");
}

#[test]
fn literals_are_sorted_and_deduplicated() {
    let opts = CloneOptions::default();
    let entries = vec![
        entry_of("a", "x.ts", cand("f", true, CandidateKind::Fn, 1, COLLAPSE, 12, &["\"b\"", "\"a\"", "\"b\""])),
        entry_of("b", "y.ts", cand("g", true, CandidateKind::Fn, 1, COLLAPSE, 12, &[])),
    ];
    let clusters = find_clusters(entries, &opts, &StrMap::new());
    assert_eq!(clusters[0].literals, vec!["\"a\"", "\"b\""]);
    assert!(clusters[0].notes.is_empty());
}

#[test]
fn notes_follow_the_exports_map() {
    let site = |repo: &str, name: &str| CloneSite {
        repo: repo.to_string(),
        file: "f.ts".to_string(),
        line: 1,
        name: name.to_string(),
        exported: true,
        kind: CandidateKind::Fn,
        sig: "()".to_string(),
    };
    let mut exports: StrMap<StrSet> = StrMap::new();
    add_exports(&mut exports, "lxp-common-functions-js", &vec!["a".to_string()]);
    let notes = npm_notes(&vec![site("app", "a"), site("lxp-common-x", "b")], &exports);
    assert_eq!(
        notes,
        vec![
            "already implemented in lxp-common-x — import it instead of duplicating",
            "an export named a already exists in lxp-common-functions-js",
        ]
    );
}

#[test]
fn scan_prefilters() {
    assert!(is_noise_file("src/a.stories.tsx"));
    assert!(is_noise_file("src/__tests__/a.ts"));
    assert!(!is_noise_file("src/a.ts"));
    assert!(has_function_syntax("const f = () => 1"));
    assert!(has_function_syntax("function f() {}"));
    assert!(!has_function_syntax("export const X = 1"));
    let c = cand("f", true, CandidateKind::Const, 1, "x", 10, &[]);
    assert!(kind_matches(KindFilter::Const, &c));
    assert!(!kind_matches(KindFilter::Fn, &c));
    assert!(kind_matches(KindFilter::All, &c));
    assert!(keep_candidate(&c, &CloneOptions::default()));
    assert!(!keep_candidate(&c, &CloneOptions { min_tokens: 11, ..Default::default() }));
}

#[test]
fn cluster_entries_keep_the_floor_and_kind_in_order() {
    let (kc, kf) = (CandidateKind::Const, CandidateKind::Fn);
    let cands = vec![
        cand("a", true, kc, 1, "x", 12, &["\"lit\""]),
        cand("b", true, kf, 2, "y", 3, &[]),
        cand("c", false, kf, 5, "z", 10, &[]),
    ];
    let all = CloneOptions { min_tokens: 10, symbol: None, kind: KindFilter::All, same_file: false };
    let es = cluster_entries("app", "src/x.ts", cands, &all);
    let got: Vec<(String, String, String, usize, bool, usize)> = es
        .iter()
        .map(|e| {
            let s = &e.member.site;
            (e.fingerprint.clone(), s.repo.clone(), s.file.clone(), s.line, s.exported, e.member.token_count)
        })
        .collect();
    assert_eq!(
        got,
        vec![
            ("x".to_string(), "app".to_string(), "src/x.ts".to_string(), 1, true, 12),
            ("z".to_string(), "app".to_string(), "src/x.ts".to_string(), 5, false, 10),
        ]
    );
    assert_eq!(es[0].member.literals, vec!["\"lit\"".to_string()]);
    let fns = CloneOptions { min_tokens: 1, symbol: None, kind: KindFilter::Fn, same_file: false };
    let names: Vec<String> = cluster_entries(
        "app",
        "src/x.ts",
        vec![cand("a", true, kc, 1, "x", 12, &[]), cand("b", true, kf, 2, "y", 3, &[])],
        &fns,
    )
    .iter()
    .map(|e| e.member.site.name.clone())
    .collect();
    assert_eq!(names, vec!["b".to_string()]);
}

#[test]
fn clone_scan_reads_files_with_function_syntax_that_are_not_stories_or_tests() {
    assert!(clone_file_wanted("src/a.ts", "export const f = (x) => x;"));
    assert!(clone_file_wanted("src/a.ts", "function f() {}"));
    assert!(!clone_file_wanted("src/a.ts", "export const N = 3;"));
    assert!(!clone_file_wanted("src/a.stories.tsx", "function f() {}"));
    assert!(!clone_file_wanted("src/a.spec.ts", "const f = () => 1;"));
}
