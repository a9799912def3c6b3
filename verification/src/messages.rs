//! The warnings, summaries and hints the commands print.
use vstd::prelude::*;
use crate::digits::{decimal, push_decimal};
use crate::text::{owned, push_str};

verus! {

/// One warning, as shown with `--verbose`.
pub fn warning_line(w: &str) -> (s: String)
    ensures
        s@ == "warn: "@ + w@,
{
    let mut s = owned("warn: ");
    push_str(&mut s, w);
    s
}

/// The note that stands for the warnings without `--verbose`.
pub fn suppressed_warnings(n: usize) -> (s: String)
    ensures
        s@ == decimal(n as nat) + " warning(s) suppressed; rerun with --verbose"@,
{
    let mut s = String::new();
    push_decimal(&mut s, n);
    push_str(&mut s, " warning(s) suppressed; rerun with --verbose");
    s
}

/// A scan warning for a file that was skipped because of `err`.
pub fn skipped(err: &str) -> (s: String)
    ensures
        s@ == err@ + ", skipped"@,
{
    let mut s = owned(err);
    push_str(&mut s, ", skipped");
    s
}

/// A scan warning for a file that could not be read.
pub fn unreadable(path: &str, err: &str) -> (s: String)
    ensures
        s@ == path@ + ": unreadable ("@ + err@ + "), skipped"@,
{
    let mut s = owned(path);
    push_str(&mut s, ": unreadable (");
    push_str(&mut s, err);
    push_str(&mut s, "), skipped");
    s
}

/// A warning for an excerpt whose file could not be read.
pub fn unreadable_excerpt(path: &str, err: &str) -> (s: String)
    ensures
        s@ == path@ + ": unreadable ("@ + err@ + "), excerpt skipped"@,
{
    let mut s = owned(path);
    push_str(&mut s, ": unreadable (");
    push_str(&mut s, err);
    push_str(&mut s, "), excerpt skipped");
    s
}

/// The impact summary line.
pub fn impact_summary(sites: usize, files: usize, repos: usize) -> (s: String)
    ensures
        s@ == "\n"@ + decimal(sites as nat) + " usage site(s) in "@ + decimal(files as nat) + " file(s) across "@
            + decimal(repos as nat) + " repo(s)"@,
{
    let mut s = owned("\n");
    push_decimal(&mut s, sites);
    push_str(&mut s, " usage site(s) in ");
    push_decimal(&mut s, files);
    push_str(&mut s, " file(s) across ");
    push_decimal(&mut s, repos);
    push_str(&mut s, " repo(s)");
    s
}

/// The hint for a search that found nothing.
pub fn no_match_hint(root: &str) -> (s: String)
    ensures
        s@ == "hint: no matches under "@ + root@ + " — check --root, drop/adjust --from, or add --verbose"@,
{
    let mut s = owned("hint: no matches under ");
    push_str(&mut s, root);
    push_str(&mut s, " — check --root, drop/adjust --from, or add --verbose");
    s
}

/// The dupes summary line.
pub fn dupes_summary(groups: usize) -> (s: String)
    ensures
        s@ == "\n"@ + decimal(groups as nat) + " name(s) exported from more than one repo"@,
{
    let mut s = owned("\n");
    push_decimal(&mut s, groups);
    push_str(&mut s, " name(s) exported from more than one repo");
    s
}

/// The clones summary line.
pub fn clones_summary(clusters: usize) -> (s: String)
    ensures
        s@ == "\n"@ + decimal(clusters as nat) + " clone cluster(s)"@,
{
    let mut s = owned("\n");
    push_decimal(&mut s, clusters);
    push_str(&mut s, " clone cluster(s)");
    s
}

/// The hint for a clone scan that found nothing.
pub fn no_clusters_hint(root: &str) -> (s: String)
    ensures
        s@ == "hint: no clusters under "@ + root@ + " — check --root, lower --min-tokens, or add --same-file/--verbose"@,
{
    let mut s = owned("hint: no clusters under ");
    push_str(&mut s, root);
    push_str(&mut s, " — check --root, lower --min-tokens, or add --same-file/--verbose");
    s
}

/// The hint for a drift report with no tracked dependency.
pub fn drift_empty_hint(root: &str, repos: usize) -> (s: String)
    ensures
        s@ == "no lxp-common-*/lxp-design-system dependencies found under "@ + root@ + " ("@ + decimal(repos as nat)
            + " repo(s) discovered) — is --root pointing at the FE workspace?"@,
{
    let mut s = owned("no lxp-common-*/lxp-design-system dependencies found under ");
    push_str(&mut s, root);
    push_str(&mut s, " (");
    push_decimal(&mut s, repos);
    push_str(&mut s, " repo(s) discovered) — is --root pointing at the FE workspace?");
    s
}

/// The error for an explorer with nothing to show.
pub fn no_exports(root: &str) -> (s: String)
    ensures
        s@ == "no exported components found under "@ + root@ + " — is --root pointing at the FE workspace?"@,
{
    let mut s = owned("no exported components found under ");
    push_str(&mut s, root);
    push_str(&mut s, " — is --root pointing at the FE workspace?");
    s
}

} // verus!
