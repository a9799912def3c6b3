//! Fuzzy ranking of component names for the interactive explorer.
use vstd::prelude::*;
use crate::text::{byte_len, chars_of, contains_exec, contains_seq, is_prefix, is_subsequence, is_subsequence_exec, lower_chars, lower_seq, occurs_at, starts_with_exec, utf8_len};

verus! {

/// What one step of match class is worth: more than any candidate's
/// length in bytes, so the class decides before the length does.
pub open spec fn class_weight() -> int {
    0x1_0000_0000_0000_0000
}

/// Score of `candidate` for `query`: `None` means no match, higher is
/// better. An empty query matches everything with 0. Otherwise the match
/// is case-insensitive (ASCII): a prefix match beats a contiguous match
/// beats a subsequence match, and within a class the shorter candidate (in
/// bytes) ranks first.
pub open spec fn score_spec(query: Seq<char>, candidate: Seq<char>, candidate_bytes: int) -> Option<int> {
    if query.len() == 0 {
        Some(0)
    } else if match_class(query, candidate) == 0 {
        None
    } else {
        Some(match_class(query, candidate) * class_weight() - candidate_bytes)
    }
}

/// Case-insensitive match score; higher is better, `None` means no match.
/// Prefix beats substring beats subsequence; shorter candidates win ties so
/// `But` ranks `Button` above `ButtonGroupHeader`.
pub fn score(query: &str, candidate: &str) -> (r: Option<i128>)
    ensures
        r matches Some(v) ==> score_spec(query@, candidate@, utf8_len(candidate@) as int) == Some(v as int),
        r is None ==> score_spec(query@, candidate@, utf8_len(candidate@) as int) is None,
{
    if query.is_empty() {
        return Some(0);
    }
    let q = lower_chars(&chars_of(query));
    let c = lower_chars(&chars_of(candidate));
    let len_penalty = byte_len(candidate) as i128;
    let weight: i128 = 0x1_0000_0000_0000_0000;
    if starts_with_exec(&c, &q) {
        return Some(3 * weight - len_penalty);
    }
    if contains_exec(&c, &q) {
        return Some(2 * weight - len_penalty);
    }
    if is_subsequence_exec(&q, &c) {
        return Some(weight - len_penalty);
    }
    None
}

/// The match class of a non-empty query: 3 for a prefix match, 2 for a
/// contiguous match, 1 for a subsequence match, 0 for none.
pub open spec fn match_class(query: Seq<char>, candidate: Seq<char>) -> int {
    let q = lower_seq(query);
    let c = lower_seq(candidate);
    if is_prefix(q, c) {
        3
    } else if contains_seq(c, q) {
        2
    } else if is_subsequence(q, c) {
        1
    } else {
        0
    }
}

/// An empty query matches every candidate, all with score 0.
pub proof fn law_empty_query_matches_everything(candidate: Seq<char>, bytes: int)
    ensures
        score_spec(seq![], candidate, bytes) == Some(0int),
{
}

/// A better match class always scores higher, whatever the lengths:
/// prefix beats contiguous beats subsequence.
pub proof fn law_better_class_scores_higher(q1: Seq<char>, c1: Seq<char>, n1: int, q2: Seq<char>, c2: Seq<char>, n2: int)
    requires
        q1.len() > 0,
        q2.len() > 0,
        0 <= n1 <= usize::MAX,
        0 <= n2 <= usize::MAX,
        match_class(q2, c2) >= 1,
        match_class(q1, c1) > match_class(q2, c2),
    ensures
        score_spec(q1, c1, n1) matches Some(a) && score_spec(q2, c2, n2) matches Some(b) && a > b,
{
    let k1 = match_class(q1, c1);
    let k2 = match_class(q2, c2);
    assert(k1 * class_weight() >= (k2 + 1) * class_weight()) by (nonlinear_arith)
        requires
            k1 >= k2 + 1,
            class_weight() > 0,
    ;
    assert((k2 + 1) * class_weight() == k2 * class_weight() + class_weight()) by (nonlinear_arith);
}

/// Within one match class, the shorter candidate scores higher.
pub proof fn law_shorter_candidate_wins(q: Seq<char>, c1: Seq<char>, n1: int, c2: Seq<char>, n2: int)
    requires
        q.len() > 0,
        match_class(q, c1) >= 1,
        match_class(q, c1) == match_class(q, c2),
        n1 < n2,
    ensures
        score_spec(q, c1, n1) matches Some(a) && score_spec(q, c2, n2) matches Some(b) && a > b,
{
}

/// Keeping a subsequence after dropping the query's first character.
proof fn lemma_subsequence_tail(q: Seq<char>, c: Seq<char>)
    requires
        q.len() > 0,
        is_subsequence(q, c),
    ensures
        is_subsequence(q.drop_first(), c),
    decreases c.len(),
{
    if c.len() > 0 {
        if c[0] == q[0] {
            if q.drop_first().len() > 0 {
                lemma_subsequence_tail(q.drop_first(), c.drop_first());
                lemma_subsequence_skip(q.drop_first(), c);
            }
        } else {
            lemma_subsequence_tail(q, c.drop_first());
            if q.drop_first().len() > 0 {
                lemma_subsequence_skip(q.drop_first(), c);
            }
        }
    }
}

/// A subsequence of a suffix is a subsequence of the whole.
proof fn lemma_subsequence_skip(q: Seq<char>, c: Seq<char>)
    requires
        c.len() > 0,
        is_subsequence(q, c.drop_first()),
    ensures
        is_subsequence(q, c),
    decreases c.len(), 1nat,
{
    if q.len() > 0 && c[0] == q[0] {
        lemma_subsequence_tail(q, c.drop_first());
    }
}

/// A prefix is a subsequence.
proof fn lemma_prefix_subsequence(q: Seq<char>, c: Seq<char>)
    requires
        is_prefix(q, c),
    ensures
        is_subsequence(q, c),
    decreases q.len(),
{
    if q.len() > 0 {
        assert(c[0] == q[0]);
        assert(is_prefix(q.drop_first(), c.drop_first())) by {
            assert(c.drop_first().subrange(0, q.drop_first().len() as int) =~= q.drop_first());
        }
        lemma_prefix_subsequence(q.drop_first(), c.drop_first());
    }
}

/// A contiguous occurrence is a subsequence.
proof fn lemma_contains_subsequence(q: Seq<char>, c: Seq<char>, i: int)
    requires
        occurs_at(c, q, i),
    ensures
        is_subsequence(q, c),
    decreases i,
{
    if i == 0 {
        assert(c.subrange(0, q.len() as int) == q);
        lemma_prefix_subsequence(q, c);
    } else {
        assert(occurs_at(c.drop_first(), q, i - 1)) by {
            assert(c.drop_first().subrange(i - 1, i - 1 + q.len()) =~= c.subrange(i, i + q.len()));
        }
        lemma_contains_subsequence(q, c.drop_first(), i - 1);
        lemma_subsequence_skip(q, c);
    }
}

/// A non-empty query matches exactly when it is a case-insensitive
/// subsequence of the candidate.
pub proof fn law_no_match_iff_not_subsequence(query: Seq<char>, candidate: Seq<char>, bytes: int)
    requires
        query.len() > 0,
    ensures
        score_spec(query, candidate, bytes) is None <==> !is_subsequence(lower_seq(query), lower_seq(candidate)),
{
    let q = lower_seq(query);
    let c = lower_seq(candidate);
    if is_prefix(q, c) {
        lemma_prefix_subsequence(q, c);
    } else if contains_seq(c, q) {
        let i = choose|i: int| occurs_at(c, q, i);
        lemma_contains_subsequence(q, c, i);
    }
}

} // verus!
