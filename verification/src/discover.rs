//! Workspace repositories: a repo is a first-level directory of the scan
//! root holding a `package.json`.
use vstd::prelude::*;
use crate::json::{JsonValue, json_document, parse_json};
use crate::order::{compare_str, seq_lt};
use crate::sort::{Ranked, sort_stable_spec, sorted_stable};
use crate::strmap::StrMap;
use crate::text::{copy_string, push_str};

verus! {

/// One repository of the workspace.
pub struct Repo {
    /// directory name under the scan root
    pub name: String,
    /// the repository's directory
    pub root: String,
    /// `dependencies` and `devDependencies` merged: package -> version
    pub deps: StrMap<String>,
}

/// Repos sort by name.
impl Ranked for Repo {
    open spec fn before(&self, other: &Self) -> bool {
        seq_lt(self.name@, other.name@)
    }

    fn before_exec(&self, other: &Self) -> (b: bool) {
        compare_str(self.name.as_str(), other.name.as_str()) < 0
    }
}

/// The repos ordered by name.
pub fn sort_repos(repos: Vec<Repo>) -> (r: Vec<Repo>)
    ensures
        r@ == sort_stable_spec(repos@),
{
    sorted_stable(repos)
}

/// The members of an object-valued member `key` of the manifest (none when
/// it is missing or not an object).
pub open spec fn section(doc: JsonValue, key: Seq<char>) -> Seq<(String, JsonValue)> {
    match doc.get_spec(key) {
        Some(JsonValue::Object(es)) => es@,
        _ => seq![],
    }
}

/// `m` with every string-valued member of `es` recorded, in order, a later
/// member overriding an earlier one of the same name.
pub open spec fn with_string_members(m: Map<Seq<char>, Seq<char>>, es: Seq<(String, JsonValue)>) -> Map<
    Seq<char>,
    Seq<char>,
>
    decreases es.len(),
{
    if es.len() == 0 {
        m
    } else {
        let m2 = match es[0].1 {
            JsonValue::Str(v) => m.insert(es[0].0@, v@),
            _ => m,
        };
        with_string_members(m2, es.drop_first())
    }
}

/// The dependencies a manifest declares: `dependencies` then
/// `devDependencies`, string versions only, a later entry overriding.
pub open spec fn manifest_deps(doc: JsonValue) -> Map<Seq<char>, Seq<char>> {
    with_string_members(
        with_string_members(Map::empty(), section(doc, "dependencies"@)),
        section(doc, "devDependencies"@),
    )
}

/// The versions of a string map, as character sequences.
pub open spec fn version_view(m: StrMap<String>) -> Map<Seq<char>, Seq<char>> {
    Map::new(|k: Seq<char>| m.view_map().contains_key(k), |k: Seq<char>| m.view_map()[k]@)
}

/// Records every string-valued member of `es`.
fn add_string_members(deps: &mut StrMap<String>, es: &Vec<(String, JsonValue)>)
    requires
        old(deps).wf(),
    ensures
        final(deps).wf(),
        version_view(*final(deps)) == with_string_members(version_view(*old(deps)), es@),
{
    let ghost target = with_string_members(version_view(*old(deps)), es@);
    let mut i: usize = 0;
    assert(es@.skip(0) =~= es@);
    while i < es.len()
        invariant
            i <= es@.len(),
            deps.wf(),
            target == with_string_members(version_view(*deps), es@.skip(i as int)),
        decreases es@.len() - i,
    {
        let ghost before = version_view(*deps);
        assert(es@.skip(i as int).drop_first() =~= es@.skip(i + 1));
        assert(es@.skip(i as int)[0] == es@[i as int]);
        match &es[i].1 {
            JsonValue::Str(v) => {
                deps.insert(copy_string(&es[i].0), copy_string(v));
                assert(version_view(*deps) =~= before.insert(es@[i as int].0@, v@));
            },
            _ => {},
        }
        i = i + 1;
    }
    assert(es@.skip(es@.len() as int) =~= Seq::<(String, JsonValue)>::empty());
}

/// The dependencies a parsed `package.json` declares.
pub fn deps_from_manifest(doc: &JsonValue) -> (r: StrMap<String>)
    ensures
        r.wf(),
        version_view(r) == manifest_deps(*doc),
{
    let mut deps: StrMap<String> = StrMap::new();
    assert(version_view(deps) =~= Map::<Seq<char>, Seq<char>>::empty());
    let empty: Vec<(String, JsonValue)> = Vec::new();
    match doc.get("dependencies") {
        Some(JsonValue::Object(es)) => add_string_members(&mut deps, es),
        _ => add_string_members(&mut deps, &empty),
    }
    match doc.get("devDependencies") {
        Some(JsonValue::Object(es)) => add_string_members(&mut deps, es),
        _ => add_string_members(&mut deps, &empty),
    }
    deps
}

/// The warning for a repo whose manifest cannot be read.
pub fn unreadable_manifest(name: &str, err: &str) -> (w: String)
    ensures
        w@ == name@ + ": cannot read package.json: "@ + err@,
{
    let mut w = crate::text::owned(name);
    push_str(&mut w, ": cannot read package.json: ");
    push_str(&mut w, err);
    w
}

/// The warning for a repo whose manifest is not valid JSON.
pub fn malformed_manifest(name: &str, err: &str) -> (w: String)
    ensures
        w@ == name@ + ": malformed package.json: "@ + err@,
{
    let mut w = crate::text::owned(name);
    push_str(&mut w, ": malformed package.json: ");
    push_str(&mut w, err);
    w
}

/// The dependencies of repo `name` from the text of its `package.json`,
/// parsed as JSON; text that does not parse gives the malformed-manifest
/// warning with the parser's message.
pub fn deps_from_text(name: &str, text: &str) -> (r: Result<StrMap<String>, String>)
    ensures
        match json_document(text@) {
            Ok(doc) => r matches Ok(deps) && deps.wf() && version_view(deps) == manifest_deps(doc),
            Err(e) => r matches Err(w) && w@ == name@ + ": malformed package.json: "@ + e,
        },
{
    match parse_json(text) {
        Ok(doc) => Ok(deps_from_manifest(&doc)),
        Err(e) => Err(malformed_manifest(name, e.as_str())),
    }
}

/// The error for a scan root that cannot be listed.
pub fn unreadable_root(root: &str, err: &str) -> (w: String)
    ensures
        w@ == "cannot read root "@ + root@ + ": "@ + err@,
{
    let mut w = crate::text::owned("cannot read root ");
    push_str(&mut w, root);
    push_str(&mut w, ": ");
    push_str(&mut w, err);
    w
}

} // verus!
