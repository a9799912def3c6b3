//! Plain-text reports and table cells. Table borders and terminal colours
//! are drawn outside the library; what goes into each cell is decided here.
use vstd::prelude::*;
use crate::digits::{decimal, push_decimal};
use crate::drift::{DriftLevel, DriftRow};
use crate::dupes::DupeGroup;
use crate::clones::{CloneCluster, CloneSite, ClonesOutput};
use crate::context::{ContextPack, SameNameGroup, UsageExcerpt};
use crate::text::{byte_len, utf8_len};
use crate::impact::ImpactHit;
use crate::order::{compare_str, lemma_lt_irreflexive, lemma_lt_transitive, lemma_lt_trichotomy};
use crate::sort::{is_ordered, Ranked};
use crate::text::{copy_string, join, owned, push_char, push_joined, push_str, views};

verus! {

/// The parts of a hit's detail line: reference and render counts (or
/// "import only"), the source, and the props when there are any.
pub open spec fn hit_parts(h: ImpactHit) -> Seq<Seq<char>> {
    let a: Seq<Seq<char>> = if h.refs > 0 {
        seq!["ref ×"@ + decimal(h.refs as nat)]
    } else {
        seq![]
    };
    let b = if h.jsx_uses > 0 {
        a.push("jsx ×"@ + decimal(h.jsx_uses as nat))
    } else {
        a
    };
    let c = if b.len() == 0 {
        seq!["import only"@]
    } else {
        b
    };
    let d = c.push("from "@ + h.source@);
    if h.jsx_props.members().len() > 0 {
        d.push("props: "@ + join(h.jsx_props.members(), ", "@))
    } else {
        d
    }
}

/// The two lines of one hit: location, then the detail parts.
pub open spec fn hit_lines(h: ImpactHit) -> Seq<char> {
    "  "@ + h.file@ + ":"@ + decimal(h.line as nat) + "\n"@ + "      "@ + join(hit_parts(h), " · "@) + "\n"@
}

/// The number of hits in repo `r`.
pub open spec fn repo_sites(hits: Seq<ImpactHit>, r: Seq<char>) -> nat
    decreases hits.len(),
{
    if hits.len() == 0 {
        0
    } else {
        repo_sites(hits.drop_last(), r) + if hits.last().repo@ == r {
            1nat
        } else {
            0nat
        }
    }
}

/// The header of a repo's group.
pub open spec fn repo_header(r: Seq<char>, n: nat) -> Seq<char> {
    r + " ("@ + decimal(n) + " site"@ + (if n == 1 {
        ""@
    } else {
        "s"@
    }) + ")\n"@
}

/// Hit `i` opens a repo's group: it is the first hit, or its repo differs
/// from the previous hit's.
pub open spec fn opens_group(hits: Seq<ImpactHit>, i: int) -> bool {
    i == 0 || hits[i].repo@ != hits[i - 1].repo@
}

/// What hit `i` adds to the report: a header (after a blank line unless it
/// is the first) when it opens a repo's group, then its two lines.
pub open spec fn hit_chunk(hits: Seq<ImpactHit>, i: int) -> Seq<char> {
    let head = if opens_group(hits, i) {
        (if i > 0 {
            "\n"@
        } else {
            ""@
        }) + repo_header(hits[i].repo@, repo_sites(hits, hits[i].repo@))
    } else {
        ""@
    };
    head + hit_lines(hits[i])
}

/// The chunks of the first `k` hits.
pub open spec fn report_upto(hits: Seq<ImpactHit>, k: int) -> Seq<char>
    decreases k,
{
    if k <= 0 {
        seq![]
    } else {
        report_upto(hits, k - 1) + hit_chunk(hits, k - 1)
    }
}

/// The grouped impact report: one header per run of hits in the same repo
/// (with the repo's total number of sites), two lines per hit.
pub open spec fn impact_report_spec(hits: Seq<ImpactHit>) -> Seq<char> {
    report_upto(hits, hits.len() as int)
}

/// The number of hits in repo `r`.
fn count_repo_sites(hits: &Vec<ImpactHit>, r: &String) -> (n: usize)
    ensures
        n == repo_sites(hits@, r@),
{
    let mut n: usize = 0;
    let mut i: usize = 0;
    while i < hits.len()
        invariant
            i <= hits@.len(),
            n == repo_sites(hits@.take(i as int), r@),
            n <= i,
        decreases hits@.len() - i,
    {
        assert(hits@.take(i + 1).drop_last() =~= hits@.take(i as int));
        if compare_str(hits[i].repo.as_str(), r.as_str()) == 0 {
            n = n + 1;
        }
        i = i + 1;
    }
    assert(hits@.take(hits@.len() as int) =~= hits@);
    n
}

/// Appends the two lines of one hit.
fn push_hit_lines(out: &mut String, h: &ImpactHit)
    ensures
        final(out)@ == old(out)@ + hit_lines(*h),
{
    let mut parts: Vec<String> = Vec::new();
    if h.refs > 0 {
        let mut p = owned("ref ×");
        push_decimal(&mut p, h.refs);
        parts.push(p);
    }
    if h.jsx_uses > 0 {
        let mut p = owned("jsx ×");
        push_decimal(&mut p, h.jsx_uses);
        parts.push(p);
    }
    if parts.len() == 0 {
        parts.push(owned("import only"));
    }
    let mut from = owned("from ");
    push_str(&mut from, h.source.as_str());
    parts.push(from);
    let props = h.jsx_props.to_vec();
    if props.len() > 0 {
        let mut p = owned("props: ");
        push_joined(&mut p, &props, ", ");
        parts.push(p);
    }
    proof {
        let a: Seq<Seq<char>> = if h.refs > 0 {
            seq!["ref ×"@ + decimal(h.refs as nat)]
        } else {
            seq![]
        };
        let b = if h.jsx_uses > 0 {
            a.push("jsx ×"@ + decimal(h.jsx_uses as nat))
        } else {
            a
        };
        assert(views(parts@) =~= hit_parts(*h));
    }
    push_str(out, "  ");
    push_str(out, h.file.as_str());
    push_str(out, ":");
    push_decimal(out, h.line);
    push_str(out, "\n");
    push_str(out, "      ");
    push_joined(out, &parts, " · ");
    push_str(out, "\n");
}

/// Grouped, borderless report: one header per repo, two lines per hit.
pub fn impact_report(hits: &Vec<ImpactHit>) -> (s: String)
    ensures
        s@ == impact_report_spec(hits@),
{
    let mut out = String::new();
    let mut i: usize = 0;
    while i < hits.len()
        invariant
            i <= hits@.len(),
            out@ == report_upto(hits@, i as int),
        decreases hits@.len() - i,
    {
        let ghost before = out@;
        let h = &hits[i];
        let fresh = i == 0 || compare_str(h.repo.as_str(), hits[i - 1].repo.as_str()) != 0;
        if fresh {
            if i > 0 {
                push_str(&mut out, "\n");
            }
            let n = count_repo_sites(hits, &h.repo);
            push_str(&mut out, h.repo.as_str());
            push_str(&mut out, " (");
            push_decimal(&mut out, n);
            push_str(&mut out, " site");
            if n != 1 {
                push_str(&mut out, "s");
            }
            push_str(&mut out, ")\n");
        }
        proof {
            let head = if fresh {
                (if i > 0 {
                    "\n"@
                } else {
                    ""@
                }) + repo_header(h.repo@, repo_sites(hits@, h.repo@))
            } else {
                ""@
            };
            reveal_strlit("");
            assert(out@ =~= before + head);
        }
        push_hit_lines(&mut out, h);
        proof {
            assert(out@ =~= before + hit_chunk(hits@, i as int));
        }
        i = i + 1;
    }
    out
}

/// The report of the first `k` dupe groups.
pub open spec fn dupes_upto(gs: Seq<DupeGroup>, k: int) -> Seq<char>
    decreases k,
{
    if k <= 0 {
        seq![]
    } else {
        let g = gs[k - 1];
        dupes_upto(gs, k - 1) + (if k - 1 > 0 {
            "\n"@
        } else {
            ""@
        }) + g.name@ + " — "@ + decimal(g.repo_count as nat) + " repos\n"@ + site_lines(g, g.sites@.len() as int)
    }
}

/// The site lines of the first `k` sites of a group.
pub open spec fn site_lines(g: DupeGroup, k: int) -> Seq<char>
    decreases k,
{
    if k <= 0 {
        seq![]
    } else {
        let s = g.sites@[k - 1];
        site_lines(g, k - 1) + "  "@ + s.repo@ + " · "@ + s.file@ + ":"@ + decimal(s.line as nat) + "\n"@
    }
}

/// Same grouped-list shape as the impact report: header per name, one line
/// per declaration site.
pub fn dupes_report(groups: &Vec<DupeGroup>) -> (s: String)
    ensures
        s@ == dupes_upto(groups@, groups@.len() as int),
{
    let mut out = String::new();
    let mut i: usize = 0;
    while i < groups.len()
        invariant
            i <= groups@.len(),
            out@ == dupes_upto(groups@, i as int),
        decreases groups@.len() - i,
    {
        let ghost before = out@;
        let g = &groups[i];
        if i > 0 {
            push_str(&mut out, "\n");
        }
        push_str(&mut out, g.name.as_str());
        push_str(&mut out, " — ");
        push_decimal(&mut out, g.repo_count);
        push_str(&mut out, " repos\n");
        let ghost head = out@;
        let mut j: usize = 0;
        while j < g.sites.len()
            invariant
                j <= g.sites@.len(),
                out@ == head + site_lines(*g, j as int),
            decreases g.sites@.len() - j,
        {
            let s = &g.sites[j];
            push_str(&mut out, "  ");
            push_str(&mut out, s.repo.as_str());
            push_str(&mut out, " · ");
            push_str(&mut out, s.file.as_str());
            push_str(&mut out, ":");
            push_decimal(&mut out, s.line);
            push_str(&mut out, "\n");
            proof {
                assert(out@ =~= head + site_lines(*g, j + 1));
            }
            j = j + 1;
        }
        proof {
            reveal_strlit("");
            assert(out@ =~= dupes_upto(groups@, i + 1));
        }
        i = i + 1;
    }
    out
}

/// Where a clone member lives: `repo · file:line`.
pub open spec fn site_loc(m: CloneSite) -> Seq<char> {
    m.repo@ + " · "@ + m.file@ + ":"@ + decimal(m.line as nat)
}

/// The widest location of the first `k` members, in bytes (as `String::len`
/// counts).
pub open spec fn loc_width(ms: Seq<CloneSite>, k: int) -> nat
    decreases k,
{
    if k <= 0 {
        0
    } else {
        let w = loc_width(ms, k - 1);
        let l = utf8_len(site_loc(ms[k - 1]));
        if l > w {
            l
        } else {
            w
        }
    }
}

/// `s` padded with spaces to `w` characters, as `{:<w$}` formats it.
pub open spec fn pad_to(s: Seq<char>, w: nat) -> Seq<char> {
    if w > s.len() {
        s + Seq::new((w - s.len()) as nat, |i: int| ' ')
    } else {
        s
    }
}

/// One member line of a cluster block.
pub open spec fn member_line(m: CloneSite, w: nat) -> Seq<char> {
    "  "@ + pad_to(site_loc(m), w) + "   "@ + m.name@ + (if m.exported {
        ""@
    } else {
        " (not exported)"@
    }) + "\n"@
}

/// The member lines of the first `k` members.
pub open spec fn member_lines(ms: Seq<CloneSite>, w: nat, k: int) -> Seq<char>
    decreases k,
{
    if k <= 0 {
        seq![]
    } else {
        member_lines(ms, w, k - 1) + member_line(ms[k - 1], w)
    }
}

/// The note lines of the first `k` notes.
pub open spec fn note_lines(notes: Seq<Seq<char>>, k: int) -> Seq<char>
    decreases k,
{
    if k <= 0 {
        seq![]
    } else {
        note_lines(notes, k - 1) + "  → "@ + notes[k - 1] + "\n"@
    }
}

/// The block of the cluster numbered `i` (from 0): header, aligned member
/// lines, the literal line when there are literals, the note lines.
pub open spec fn cluster_block(c: CloneCluster, i: int) -> Seq<char> {
    let ms = c.members@;
    (if i > 0 {
        "\n"@
    } else {
        ""@
    }) + "CLONE CLUSTER #"@ + decimal((i + 1) as nat) + " — "@ + decimal(ms.len()) + " members · sig "@ + c.sig@
        + " · "@ + decimal(c.token_count as nat) + " tokens\n"@ + member_lines(
        ms,
        loc_width(ms, ms.len() as int),
        ms.len() as int,
    ) + (if c.literals@.len() > 0 {
        "  → identical body · literals: "@ + join(views(c.literals@), " "@) + "\n"@
    } else {
        ""@
    }) + note_lines(views(c.notes@), c.notes@.len() as int)
}

/// The blocks of the first `k` clusters.
pub open spec fn clusters_upto(cs: Seq<CloneCluster>, k: int) -> Seq<char>
    decreases k,
{
    if k <= 0 {
        seq![]
    } else {
        clusters_upto(cs, k - 1) + cluster_block(cs[k - 1], k - 1)
    }
}

/// The clones report: one block per cluster, then the npm blind-spot note.
pub open spec fn clones_report_spec(out: ClonesOutput) -> Seq<char> {
    let pk = views(out.npm_only_packages@);
    clusters_upto(out.clusters@, out.clusters@.len() as int) + if pk.len() > 0 {
        (if out.clusters@.len() > 0 {
            "\n"@
        } else {
            ""@
        }) + "note: "@ + decimal(pk.len()) + " lxp-common-* package(s) are npm-only (not scanned); body-clone detection skipped for them: "@
            + join(pk, ", "@) + "\n"@
    } else {
        ""@
    }
}

/// The location of a member.
fn loc_of(m: &CloneSite) -> (s: String)
    ensures
        s@ == site_loc(*m),
{
    let mut s = copy_string(&m.repo);
    push_str(&mut s, " · ");
    push_str(&mut s, m.file.as_str());
    push_str(&mut s, ":");
    push_decimal(&mut s, m.line);
    s
}

/// The header line of cluster `i`.
pub open spec fn cluster_header(c: CloneCluster, i: int) -> Seq<char> {
    (if i > 0 {
        "\n"@
    } else {
        ""@
    }) + "CLONE CLUSTER #"@ + decimal((i + 1) as nat) + " — "@ + decimal(c.members@.len()) + " members · sig "@
        + c.sig@ + " · "@ + decimal(c.token_count as nat) + " tokens\n"@
}

/// The literal line and note lines of a cluster.
pub open spec fn cluster_tail(c: CloneCluster) -> Seq<char> {
    (if c.literals@.len() > 0 {
        "  → identical body · literals: "@ + join(views(c.literals@), " "@) + "\n"@
    } else {
        ""@
    }) + note_lines(views(c.notes@), c.notes@.len() as int)
}

fn push_cluster_header(out: &mut String, c: &CloneCluster, i: usize)
    requires
        i < usize::MAX,
    ensures
        final(out)@ == old(out)@ + cluster_header(*c, i as int),
{
    if i > 0 {
        push_str(out, "\n");
    }
    push_str(out, "CLONE CLUSTER #");
    push_decimal(out, i + 1);
    push_str(out, " — ");
    push_decimal(out, c.members.len());
    push_str(out, " members · sig ");
    push_str(out, c.sig.as_str());
    push_str(out, " · ");
    push_decimal(out, c.token_count);
    push_str(out, " tokens\n");
    proof {
        reveal_strlit("");
        assert(final(out)@ =~= old(out)@ + cluster_header(*c, i as int));
    }
}

/// Spaces up to `w` characters after a text of `n` characters.
fn push_padding(out: &mut String, n: usize, w: usize)
    ensures
        final(out)@ == old(out)@ + (if w > n {
            Seq::new((w - n) as nat, |i: int| ' ')
        } else {
            seq![]
        }),
{
    let ghost before = old(out)@;
    if w > n {
        let mut q: usize = n;
        assert(before =~= before + Seq::new((q - n) as nat, |i: int| ' '));
        while q < w
            invariant
                n <= q <= w,
                out@ == before + Seq::new((q - n) as nat, |i: int| ' '),
            decreases w - q,
        {
            push_char(out, ' ');
            assert(out@ =~= before + Seq::new((q + 1 - n) as nat, |i: int| ' '));
            q = q + 1;
        }
    } else {
        assert(out@ =~= before + Seq::<char>::empty());
    }
}

fn push_member_line(out: &mut String, m: &CloneSite, w: usize)
    ensures
        final(out)@ == old(out)@ + member_line(*m, w as nat),
{
    let loc = loc_of(m);
    let n = crate::text::chars_of(loc.as_str()).len();
    push_str(out, "  ");
    push_str(out, loc.as_str());
    push_padding(out, n, w);
    push_str(out, "   ");
    push_str(out, m.name.as_str());
    if !m.exported {
        push_str(out, " (not exported)");
    }
    push_str(out, "\n");
    proof {
        reveal_strlit("");
        assert(final(out)@ =~= old(out)@ + member_line(*m, w as nat));
    }
}

fn push_cluster_tail(out: &mut String, c: &CloneCluster)
    ensures
        final(out)@ == old(out)@ + cluster_tail(*c),
{
    let ghost start = old(out)@;
    if c.literals.len() > 0 {
        push_str(out, "  → identical body · literals: ");
        push_joined(out, &c.literals, " ");
        push_str(out, "\n");
    }
    let ghost mid = out@;
    let mut q: usize = 0;
    while q < c.notes.len()
        invariant
            q <= c.notes@.len(),
            out@ == mid + note_lines(views(c.notes@), q as int),
        decreases c.notes@.len() - q,
    {
        push_str(out, "  → ");
        push_str(out, c.notes[q].as_str());
        push_str(out, "\n");
        assert(out@ =~= mid + note_lines(views(c.notes@), q + 1));
        q = q + 1;
    }
    proof {
        reveal_strlit("");
        assert(out@ =~= start + cluster_tail(*c));
    }
}

/// Appends the block of cluster `i`.
fn push_cluster_block(out: &mut String, c: &CloneCluster, i: usize)
    requires
        i < usize::MAX,
    ensures
        final(out)@ == old(out)@ + cluster_block(*c, i as int),
{
    let ghost start = old(out)@;
    push_cluster_header(out, c, i);
    let ghost head = out@;
    let ms = &c.members;
    let mut w: usize = 0;
    let mut k: usize = 0;
    while k < ms.len()
        invariant
            k <= ms@.len(),
            w == loc_width(ms@, k as int),
        decreases ms@.len() - k,
    {
        let l = byte_len(loc_of(&ms[k]).as_str());
        if l > w {
            w = l;
        }
        k = k + 1;
    }
    let mut j: usize = 0;
    while j < ms.len()
        invariant
            j <= ms@.len(),
            w == loc_width(ms@, ms@.len() as int),
            out@ == head + member_lines(ms@, w as nat, j as int),
        decreases ms@.len() - j,
    {
        push_member_line(out, &ms[j], w);
        assert(out@ =~= head + member_lines(ms@, w as nat, j + 1));
        j = j + 1;
    }
    push_cluster_tail(out, c);
    assert(out@ =~= start + cluster_header(*c, i as int) + member_lines(ms@, w as nat, ms@.len() as int) + cluster_tail(*c));
    assert(cluster_block(*c, i as int) =~= cluster_header(*c, i as int) + member_lines(ms@, w as nat, ms@.len() as int) + cluster_tail(*c));
}

/// One block per cluster: numbered header, aligned member lines, `→` notes;
/// npm blind-spot footer at the end.
pub fn clones_report(out: &ClonesOutput) -> (s: String)
    ensures
        s@ == clones_report_spec(*out),
{
    let mut s = String::new();
    let mut i: usize = 0;
    while i < out.clusters.len()
        invariant
            i <= out.clusters@.len(),
            s@ == clusters_upto(out.clusters@, i as int),
        decreases out.clusters@.len() - i,
    {
        push_cluster_block(&mut s, &out.clusters[i], i);
        i = i + 1;
    }
    let ghost body = s@;
    if out.npm_only_packages.len() > 0 {
        if out.clusters.len() > 0 {
            push_str(&mut s, "\n");
        }
        push_str(&mut s, "note: ");
        push_decimal(&mut s, out.npm_only_packages.len());
        push_str(
            &mut s,
            " lxp-common-* package(s) are npm-only (not scanned); body-clone detection skipped for them: ",
        );
        push_joined(&mut s, &out.npm_only_packages, ", ");
        push_str(&mut s, "\n");
    }
    proof {
        reveal_strlit("");
        assert(s@ =~= clones_report_spec(*out));
    }
    s
}

/// The head of a context pack: title and totals.
pub open spec fn md_head(p: ContextPack, root: Seq<char>) -> Seq<char> {
    "# Context: "@ + p.symbol@ + "\n\nScanned "@ + root + " · "@ + decimal(p.total_sites as nat) + " sites · "@
        + decimal(p.total_files as nat) + " files · "@ + decimal(p.total_repos as nat) + " repos\n"@
}

/// The definition section, showing `code` as the excerpt.
pub open spec fn md_definition(p: ContextPack, code: Seq<char>) -> Seq<char> {
    "\n## Definition\n"@ + match p.definition {
        Some(d) => d.repo@ + "/"@ + d.file@ + ":"@ + decimal(d.line as nat) + "\n```tsx\n"@ + code + "```\n"@,
        None => "not located (no top-level declaration found in the workspace)\n"@,
    }
}

/// `prop ×count` for every prop.
pub open spec fn prop_labels(pcs: Seq<(String, usize)>) -> Seq<Seq<char>> {
    pcs.map_values(|e: (String, usize)| e.0@ + " ×"@ + decimal(e.1 as nat))
}

/// The prop frequency section, present when some prop was seen.
pub open spec fn md_props(p: ContextPack) -> Seq<char> {
    if p.prop_counts@.len() > 0 {
        "\n## Props observed across usages\n"@ + join(prop_labels(p.prop_counts@), " · "@) + "\n"@
    } else {
        ""@
    }
}

/// The blocks of the first `k` excerpts, showing `codes` as their code.
pub open spec fn excerpt_blocks(es: Seq<UsageExcerpt>, codes: Seq<Seq<char>>, k: int) -> Seq<char>
    decreases k,
{
    if k <= 0 {
        seq![]
    } else {
        let e = es[k - 1];
        excerpt_blocks(es, codes, k - 1) + "### "@ + e.repo@ + " · "@ + e.file@ + ":"@ + decimal(e.line as nat)
            + "\n```tsx\n"@ + codes[k - 1] + "\n```\n"@
    }
}

/// The lines of the first `k` same-name groups.
pub open spec fn same_name_lines(gs: Seq<SameNameGroup>, k: int) -> Seq<char>
    decreases k,
{
    if k <= 0 {
        seq![]
    } else {
        let g = gs[k - 1];
        same_name_lines(gs, k - 1) + "- "@ + g.repo@ + " — "@ + decimal(g.sites as nat) + " site(s) · repack with `--from \""@
            + g.from_hint@ + "\"`\n"@
    }
}

/// The same-name section, present when there are look-alikes.
pub open spec fn md_same_name(p: ContextPack) -> Seq<char> {
    if p.same_name@.len() > 0 {
        "\n## Other components named "@ + p.symbol@ + " (NOT in this pack)\n"@ + same_name_lines(
            p.same_name@,
            p.same_name@.len() as int,
        )
    } else {
        ""@
    }
}

/// The markdown pack, with `def_code` and `codes` shown as the definition's
/// and the excerpts' code.
pub open spec fn context_markdown_spec(p: ContextPack, root: Seq<char>, def_code: Seq<char>, codes: Seq<Seq<char>>) -> Seq<char> {
    md_head(p, root) + md_definition(p, def_code) + md_props(p) + "\n## Usage excerpts ("@ + decimal(
        p.excerpts@.len(),
    ) + " of "@ + decimal(p.total_sites as nat) + " sites)\n"@ + excerpt_blocks(
        p.excerpts@,
        codes,
        p.excerpts@.len() as int,
    ) + md_same_name(p)
}

fn push_md_head(out: &mut String, pack: &ContextPack, root: &str)
    ensures
        final(out)@ == old(out)@ + md_head(*pack, root@),
{
    push_str(out, "# Context: ");
    push_str(out, pack.symbol.as_str());
    push_str(out, "\n\nScanned ");
    push_str(out, root);
    push_str(out, " · ");
    push_decimal(out, pack.total_sites);
    push_str(out, " sites · ");
    push_decimal(out, pack.total_files);
    push_str(out, " files · ");
    push_decimal(out, pack.total_repos);
    push_str(out, " repos\n");
    assert(final(out)@ =~= old(out)@ + md_head(*pack, root@));
}

fn push_md_definition(out: &mut String, pack: &ContextPack, code: &str)
    ensures
        final(out)@ == old(out)@ + md_definition(*pack, code@),
{
    push_str(out, "\n## Definition\n");
    match &pack.definition {
        Some(d) => {
            push_str(out, d.repo.as_str());
            push_str(out, "/");
            push_str(out, d.file.as_str());
            push_str(out, ":");
            push_decimal(out, d.line);
            push_str(out, "\n```tsx\n");
            push_str(out, code);
            push_str(out, "```\n");
        },
        None => {
            push_str(out, "not located (no top-level declaration found in the workspace)\n");
        },
    }
    assert(final(out)@ =~= old(out)@ + md_definition(*pack, code@));
}

fn push_md_props(out: &mut String, pack: &ContextPack)
    ensures
        final(out)@ == old(out)@ + md_props(*pack),
{
    if pack.prop_counts.len() > 0 {
        let mut labels: Vec<String> = Vec::new();
        let mut i: usize = 0;
        while i < pack.prop_counts.len()
            invariant
                i <= pack.prop_counts@.len(),
                views(labels@) == prop_labels(pack.prop_counts@).take(i as int),
            decreases pack.prop_counts@.len() - i,
        {
            let mut l = copy_string(&pack.prop_counts[i].0);
            push_str(&mut l, " ×");
            push_decimal(&mut l, pack.prop_counts[i].1);
            let ghost before = views(labels@);
            labels.push(l);
            assert(views(labels@) =~= before.push(labels@[i as int]@));
            assert(prop_labels(pack.prop_counts@).take(i + 1) =~= prop_labels(pack.prop_counts@).take(i as int).push(
                prop_labels(pack.prop_counts@)[i as int],
            ));
            i = i + 1;
        }
        assert(prop_labels(pack.prop_counts@).take(pack.prop_counts@.len() as int) =~= prop_labels(
            pack.prop_counts@,
        ));
        push_str(out, "\n## Props observed across usages\n");
        push_joined(out, &labels, " · ");
        push_str(out, "\n");
    }
    proof {
        reveal_strlit("");
        assert(final(out)@ =~= old(out)@ + md_props(*pack));
    }
}

fn push_md_excerpts(out: &mut String, pack: &ContextPack, codes: &Vec<String>)
    requires
        codes@.len() == pack.excerpts@.len(),
    ensures
        final(out)@ == old(out)@ + "\n## Usage excerpts ("@ + decimal(pack.excerpts@.len()) + " of "@ + decimal(
            pack.total_sites as nat,
        ) + " sites)\n"@ + excerpt_blocks(pack.excerpts@, views(codes@), pack.excerpts@.len() as int),
{
    let ghost start = old(out)@;
    push_str(out, "\n## Usage excerpts (");
    push_decimal(out, pack.excerpts.len());
    push_str(out, " of ");
    push_decimal(out, pack.total_sites);
    push_str(out, " sites)\n");
    let ghost head = out@;
    let mut i: usize = 0;
    while i < pack.excerpts.len()
        invariant
            i <= pack.excerpts@.len(),
            codes@.len() == pack.excerpts@.len(),
            out@ == head + excerpt_blocks(pack.excerpts@, views(codes@), i as int),
        decreases pack.excerpts@.len() - i,
    {
        let e = &pack.excerpts[i];
        push_str(out, "### ");
        push_str(out, e.repo.as_str());
        push_str(out, " · ");
        push_str(out, e.file.as_str());
        push_str(out, ":");
        push_decimal(out, e.line);
        push_str(out, "\n```tsx\n");
        push_str(out, codes[i].as_str());
        push_str(out, "\n```\n");
        assert(out@ =~= head + excerpt_blocks(pack.excerpts@, views(codes@), i + 1));
        i = i + 1;
    }
}

fn push_md_same_name(out: &mut String, pack: &ContextPack)
    ensures
        final(out)@ == old(out)@ + md_same_name(*pack),
{
    let ghost start = old(out)@;
    if pack.same_name.len() > 0 {
        push_str(out, "\n## Other components named ");
        push_str(out, pack.symbol.as_str());
        push_str(out, " (NOT in this pack)\n");
        let ghost head = out@;
        let mut i: usize = 0;
        while i < pack.same_name.len()
            invariant
                i <= pack.same_name@.len(),
                out@ == head + same_name_lines(pack.same_name@, i as int),
            decreases pack.same_name@.len() - i,
        {
            let g = &pack.same_name[i];
            push_str(out, "- ");
            push_str(out, g.repo.as_str());
            push_str(out, " — ");
            push_decimal(out, g.sites);
            push_str(out, " site(s) · repack with `--from \"");
            push_str(out, g.from_hint.as_str());
            push_str(out, "\"`\n");
            assert(out@ =~= head + same_name_lines(pack.same_name@, i + 1));
            i = i + 1;
        }
    }
    proof {
        reveal_strlit("");
        assert(out@ =~= start + md_same_name(*pack));
    }
}

/// The markdown pack with the given code for the definition and for each
/// excerpt (highlighted or plain, as the caller renders them).
pub fn context_markdown_with(pack: &ContextPack, root_display: &str, def_code: &str, codes: &Vec<String>) -> (s: String)
    requires
        codes@.len() == pack.excerpts@.len(),
    ensures
        s@ == context_markdown_spec(*pack, root_display@, def_code@, views(codes@)),
{
    let mut out = String::new();
    push_md_head(&mut out, pack, root_display);
    push_md_definition(&mut out, pack, def_code);
    push_md_props(&mut out, pack);
    push_md_excerpts(&mut out, pack, codes);
    push_md_same_name(&mut out, pack);
    assert(out@ =~= context_markdown_spec(*pack, root_display@, def_code@, views(codes@)));
    out
}

/// The code of each excerpt, unrendered.
pub open spec fn plain_codes(es: Seq<UsageExcerpt>) -> Seq<Seq<char>> {
    es.map_values(|e: UsageExcerpt| e.code@)
}

/// The definition's excerpt, unrendered (empty without a definition).
pub open spec fn plain_definition(p: ContextPack) -> Seq<char> {
    match p.definition {
        Some(d) => d.excerpt@,
        None => seq![],
    }
}

/// LLM-ready markdown pack: definition, prop frequencies, usage excerpts,
/// code shown as it is.
pub fn context_markdown(pack: &ContextPack, root_display: &str) -> (s: String)
    ensures
        s@ == context_markdown_spec(*pack, root_display@, plain_definition(*pack), plain_codes(pack.excerpts@)),
{
    let def_code = match &pack.definition {
        Some(d) => copy_string(&d.excerpt),
        None => String::new(),
    };
    let mut codes: Vec<String> = Vec::new();
    let mut i: usize = 0;
    while i < pack.excerpts.len()
        invariant
            i <= pack.excerpts@.len(),
            views(codes@) == plain_codes(pack.excerpts@).take(i as int),
        decreases pack.excerpts@.len() - i,
    {
        let ghost before = views(codes@);
        codes.push(copy_string(&pack.excerpts[i].code));
        assert(views(codes@) =~= before.push(pack.excerpts@[i as int].code@));
        assert(plain_codes(pack.excerpts@).take(i + 1) =~= plain_codes(pack.excerpts@).take(i as int).push(
            pack.excerpts@[i as int].code@,
        ));
        i = i + 1;
    }
    assert(plain_codes(pack.excerpts@).take(pack.excerpts@.len() as int) =~= plain_codes(pack.excerpts@));
    context_markdown_with(pack, root_display, def_code.as_str(), &codes)
}

/// The cells of one impact-table row: repo, `file:line`, source, reference
/// and render counts, props joined with commas.
pub open spec fn impact_cells(h: ImpactHit) -> Seq<Seq<char>> {
    seq![
        h.repo@,
        h.file@ + ":"@ + decimal(h.line as nat),
        h.source@,
        decimal(h.refs as nat),
        decimal(h.jsx_uses as nat),
        join(h.jsx_props.members(), ", "@),
    ]
}

/// The header of the impact table.
pub fn impact_header() -> (r: Vec<String>)
    ensures
        views(r@) == seq!["repo"@, "file:line"@, "from"@, "refs"@, "jsx"@, "props"@],
{
    let mut r: Vec<String> = Vec::new();
    r.push(owned("repo"));
    r.push(owned("file:line"));
    r.push(owned("from"));
    r.push(owned("refs"));
    r.push(owned("jsx"));
    r.push(owned("props"));
    assert(views(r@) =~= seq!["repo"@, "file:line"@, "from"@, "refs"@, "jsx"@, "props"@]);
    r
}

/// The rows of the impact table, one per hit.
pub fn impact_rows(hits: &Vec<ImpactHit>) -> (r: Vec<Vec<String>>)
    ensures
        r@.len() == hits@.len(),
        forall|i: int| 0 <= i < r@.len() ==> views((#[trigger] r@[i])@) == impact_cells(hits@[i]),
{
    let mut rows: Vec<Vec<String>> = Vec::new();
    let mut i: usize = 0;
    while i < hits.len()
        invariant
            i <= hits@.len(),
            rows@.len() == i,
            forall|k: int| 0 <= k < i ==> views((#[trigger] rows@[k])@) == impact_cells(hits@[k]),
        decreases hits@.len() - i,
    {
        let h = &hits[i];
        let mut row: Vec<String> = Vec::new();
        row.push(copy_string(&h.repo));
        let mut loc = copy_string(&h.file);
        push_str(&mut loc, ":");
        push_decimal(&mut loc, h.line);
        row.push(loc);
        row.push(copy_string(&h.source));
        let mut refs = String::new();
        push_decimal(&mut refs, h.refs);
        row.push(refs);
        let mut jsx = String::new();
        push_decimal(&mut jsx, h.jsx_uses);
        row.push(jsx);
        let mut props = String::new();
        push_joined(&mut props, &h.jsx_props.to_vec(), ", ");
        row.push(props);
        assert(views(row@) =~= impact_cells(*h));
        rows.push(row);
        i = i + 1;
    }
    rows
}

/// The label of a drift level, as `Debug` spells it.
pub open spec fn level_label(l: DriftLevel) -> Seq<char> {
    match l {
        DriftLevel::Major => "Major"@,
        DriftLevel::Minor => "Minor"@,
        DriftLevel::Same => "Same"@,
    }
}

/// The label of a drift level.
pub fn level_text(l: DriftLevel) -> (s: String)
    ensures
        s@ == level_label(l),
{
    match l {
        DriftLevel::Major => owned("Major"),
        DriftLevel::Minor => owned("Minor"),
        DriftLevel::Same => owned("Same"),
    }
}

/// Some row records a version for repo `n`.
pub open spec fn consumes(rows: Seq<DriftRow>, n: Seq<char>) -> bool {
    exists|i: int| 0 <= i < rows.len() && (#[trigger] rows[i]).versions.has(n)
}

/// The names that some row records a version for, in order.
pub open spec fn consumers_of(rows: Seq<DriftRow>, names: Seq<Seq<char>>) -> Seq<Seq<char>>
    decreases names.len(),
{
    if names.len() == 0 {
        seq![]
    } else {
        let prev = consumers_of(rows, names.drop_last());
        if consumes(rows, names.last()) {
            prev.push(names.last())
        } else {
            prev
        }
    }
}

/// The repos that declare some tracked package, in the given order: a repo
/// consuming none would render an all-dash column.
pub fn drift_consumers(rows: &Vec<DriftRow>, repo_names: &Vec<String>) -> (r: Vec<String>)
    requires
        forall|i: int| 0 <= i < rows@.len() ==> (#[trigger] rows@[i]).versions.wf(),
    ensures
        views(r@) == consumers_of(rows@, views(repo_names@)),
{
    let mut out: Vec<String> = Vec::new();
    let mut i: usize = 0;
    while i < repo_names.len()
        invariant
            forall|i: int| 0 <= i < rows@.len() ==> (#[trigger] rows@[i]).versions.wf(),
            i <= repo_names@.len(),
            views(out@) == consumers_of(rows@, views(repo_names@).take(i as int)),
        decreases repo_names@.len() - i,
    {
        let name = &repo_names[i];
        let mut found = false;
        let mut j: usize = 0;
        while j < rows.len()
            invariant
                forall|i: int| 0 <= i < rows@.len() ==> (#[trigger] rows@[i]).versions.wf(),
                j <= rows@.len(),
                found == (exists|q: int| 0 <= q < j && (#[trigger] rows@[q]).versions.has(name@)),
            decreases rows@.len() - j,
        {
            if rows[j].versions.find(name).is_ok() {
                found = true;
            }
            j = j + 1;
        }
        let ghost before = views(out@);
        if found {
            out.push(copy_string(name));
        }
        proof {
            let t = views(repo_names@).take(i + 1);
            assert(t =~= views(repo_names@).take(i as int).push(name@));
            assert(t.drop_last() =~= views(repo_names@).take(i as int));
            assert(t.last() == name@);
            assert(found == consumes(rows@, name@));
            if found {
                assert(views(out@) =~= before.push(name@));
            } else {
                assert(views(out@) =~= before);
            }
            assert(views(out@) =~= consumers_of(rows@, t));
        }
        i = i + 1;
    }
    assert(views(repo_names@).take(repo_names@.len() as int) =~= views(repo_names@));
    out
}

/// The version repo `n` declares in a row, or `-`.
pub open spec fn version_cell(row: DriftRow, n: Seq<char>) -> Seq<char> {
    if row.versions.has(n) {
        row.versions.view_map()[n]@
    } else {
        "-"@
    }
}

/// The cells of one drift-table row: package, one version per consumer,
/// drift level.
pub open spec fn drift_cells(row: DriftRow, consumers: Seq<Seq<char>>) -> Seq<Seq<char>> {
    seq![row.package@] + consumers.map_values(|n: Seq<char>| version_cell(row, n)) + seq![level_label(row.level)]
}

/// The rows of the drift table.
pub fn drift_rows(rows: &Vec<DriftRow>, consumers: &Vec<String>) -> (r: Vec<Vec<String>>)
    requires
        forall|i: int| 0 <= i < rows@.len() ==> (#[trigger] rows@[i]).versions.wf(),
    ensures
        r@.len() == rows@.len(),
        forall|i: int| 0 <= i < r@.len() ==> views((#[trigger] r@[i])@) == drift_cells(rows@[i], views(consumers@)),
{
    let ghost cv = views(consumers@);
    let mut out: Vec<Vec<String>> = Vec::new();
    let mut i: usize = 0;
    while i < rows.len()
        invariant
            forall|i: int| 0 <= i < rows@.len() ==> (#[trigger] rows@[i]).versions.wf(),
            cv == views(consumers@),
            i <= rows@.len(),
            out@.len() == i,
            forall|k: int| 0 <= k < i ==> views((#[trigger] out@[k])@) == drift_cells(rows@[k], cv),
        decreases rows@.len() - i,
    {
        let row = &rows[i];
        assert(row.versions.wf());
        let mut cells: Vec<String> = Vec::new();
        cells.push(copy_string(&row.package));
        let mut j: usize = 0;
        while j < consumers.len()
            invariant
                row.versions.wf(),
                cv == views(consumers@),
                j <= consumers@.len(),
                views(cells@) == seq![row.package@] + cv.take(j as int).map_values(|n: Seq<char>| version_cell(*row, n)),
            decreases consumers@.len() - j,
        {
            let cell = match row.versions.get(&consumers[j]) {
                Some(v) => copy_string(v),
                None => owned("-"),
            };
            let ghost before = views(cells@);
            cells.push(cell);
            proof {
                assert(views(cells@) =~= before.push(version_cell(*row, cv[j as int])));
                assert(cv.take(j + 1).map_values(|n: Seq<char>| version_cell(*row, n)) =~= cv.take(j as int).map_values(
                    |n: Seq<char>| version_cell(*row, n),
                ).push(version_cell(*row, cv[j as int])));
            }
            j = j + 1;
        }
        assert(cv.take(consumers@.len() as int) =~= cv);
        let ghost before = views(cells@);
        cells.push(level_text(row.level));
        assert(views(cells@) =~= drift_cells(*row, cv));
        out.push(cells);
        i = i + 1;
    }
    out
}

/// Hits in (repo, file, line) order give each repo one header: two hits
/// that both open a group belong to different repos.
pub proof fn law_one_header_per_repo(hits: Seq<ImpactHit>)
    requires
        is_ordered(hits),
    ensures
        forall|i: int, j: int|
            #![trigger opens_group(hits, i), opens_group(hits, j)]
            0 <= i < j < hits.len() && opens_group(hits, i) && opens_group(hits, j) ==> hits[i].repo@ != hits[j].repo@,
{
    assert forall|i: int, j: int|
        #![trigger opens_group(hits, i), opens_group(hits, j)]
        0 <= i < j < hits.len() && opens_group(hits, i) && opens_group(hits, j) implies hits[i].repo@ != hits[j].repo@ by {
        let (a, b, c) = (hits[i].repo@, hits[j - 1].repo@, hits[j].repo@);
        assert(!hits[j].before(&hits[j - 1]));
        lemma_lt_trichotomy(b, c);
        if i < j - 1 {
            assert(!hits[j - 1].before(&hits[i]));
            lemma_lt_trichotomy(a, b);
            if a == c {
                lemma_lt_transitive(b, c, b);
                lemma_lt_irreflexive(b);
            }
        }
    }
}

} // verus!
