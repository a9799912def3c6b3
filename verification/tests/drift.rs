use lxp_scan::discover::Repo;
use lxp_scan::drift::{compute_drift, major_minor, DriftLevel};
use lxp_scan::strmap::StrMap;

fn repo(name: &str, deps: &[(&str, &str)]) -> Repo {
    let mut map = StrMap::new();
    for (k, v) in deps {
        map.insert(k.to_string(), v.to_string());
    }
    Repo {
        name: name.into(),
        root: format!("/tmp/{name}"),
        deps: map,
    }
}

#[test]
fn flags_major_drift() {
    let repos = vec![
        repo("a", &[("lxp-common-components-js", "^3.1.32")]),
        repo("b", &[("lxp-common-components-js", "^2.1.56")]),
    ];
    let rows = compute_drift(&repos);
    assert_eq!(rows.len(), 1);
    assert_eq!(rows[0].level, DriftLevel::Major);
}

#[test]
fn flags_minor_drift() {
    let repos = vec![
        repo("a", &[("lxp-common-permissions-js", "^1.1.59")]),
        repo("b", &[("lxp-common-permissions-js", "^1.2.10")]),
    ];
    let rows = compute_drift(&repos);
    assert_eq!(rows.len(), 1);
    assert_eq!(rows[0].level, DriftLevel::Minor);
}

#[test]
fn same_version_is_same_and_untracked_packages_are_ignored() {
    let repos = vec![
        repo(
            "a",
            &[("lxp-common-constants-js", "^1.0.24"), ("react", "^18.2.0")],
        ),
        repo(
            "b",
            &[("lxp-common-constants-js", "^1.0.24"), ("react", "^17.0.2")],
        ),
    ];
    let rows = compute_drift(&repos);
    assert_eq!(rows.len(), 1);
    assert_eq!(rows[0].package, "lxp-common-constants-js");
    assert_eq!(rows[0].level, DriftLevel::Same);
}

#[test]
fn package_present_in_only_one_repo_is_listed() {
    let repos = vec![
        repo("a", &[("lxp-common-hooks-js", "^0.0.8")]),
        repo("b", &[]),
    ];
    let rows = compute_drift(&repos);
    assert_eq!(rows.len(), 1);
    assert_eq!(rows[0].versions.len(), 1);
    assert_eq!(rows[0].level, DriftLevel::Same);
}

#[test]
fn patch_only_difference_is_same() {
    let repos = vec![
        repo("a", &[("lxp-design-system", "~4.2.1")]),
        repo("b", &[("lxp-design-system", "=4.2.9")]),
    ];
    let rows = compute_drift(&repos);
    assert_eq!(rows[0].level, DriftLevel::Same);
}

#[test]
fn unparseable_versions_are_skipped_for_the_level() {
    let repos = vec![
        repo("a", &[("lxp-common-a", "workspace:*")]),
        repo("b", &[("lxp-common-a", "^2.0.0")]),
        repo("c", &[("lxp-common-a", "latest")]),
    ];
    let rows = compute_drift(&repos);
    assert_eq!(rows[0].versions.len(), 3);
    assert_eq!(rows[0].level, DriftLevel::Same);
}

#[test]
fn rows_are_sorted_by_package_and_versions_by_repo() {
    let repos = vec![
        repo("zeta", &[("lxp-common-b", "1.0.0"), ("lxp-common-a", "1.0.0")]),
        repo("alpha", &[("lxp-common-a", "2.0.0")]),
    ];
    let rows = compute_drift(&repos);
    assert_eq!(rows.len(), 2);
    assert_eq!(rows[0].package, "lxp-common-a");
    assert_eq!(rows[1].package, "lxp-common-b");
    assert_eq!(rows[0].versions.entries[0].0, "alpha");
    assert_eq!(rows[0].versions.entries[1].0, "zeta");
    assert_eq!(rows[0].level, DriftLevel::Major);
}

#[test]
fn later_repo_of_the_same_name_wins() {
    let repos = vec![
        repo("a", &[("lxp-common-x", "1.0.0")]),
        repo("a", &[("lxp-common-x", "3.0.0")]),
    ];
    let rows = compute_drift(&repos);
    assert_eq!(rows[0].versions.entries.len(), 1);
    assert_eq!(rows[0].versions.entries[0].1, "3.0.0");
}

#[test]
fn major_minor_parses_requirements() {
    assert_eq!(major_minor("^3.1.32"), Some((3, 1)));
    assert_eq!(major_minor("v~=2"), Some((2, 0)));
    assert_eq!(major_minor("1.x.0"), Some((1, 0)));
    assert_eq!(major_minor("+7.+8"), Some((7, 8)));
    assert_eq!(major_minor("workspace:*"), None);
    assert_eq!(major_minor(""), None);
    assert_eq!(major_minor("99999999999999999999.1"), None);
    assert_eq!(major_minor("18446744073709551615.3"), Some((u64::MAX, 3)));
}
