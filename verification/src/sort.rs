//! Stable sorting by a strict "sorts before" relation, as `sort_by` does.
use vstd::prelude::*;

verus! {

/// A type with a strict ordering used for stable sorting.
pub trait Ranked: Sized {
    /// `self` sorts strictly before `other`.
    spec fn before(&self, other: &Self) -> bool;

    fn before_exec(&self, other: &Self) -> (b: bool)
        ensures
            b == self.before(other);
}

/// Inserts `x` before the first element that it sorts strictly before.
pub open spec fn insert_stable<T: Ranked>(s: Seq<T>, x: T) -> Seq<T>
    decreases s.len(),
{
    if s.len() == 0 {
        seq![x]
    } else if x.before(&s[0]) {
        seq![x] + s
    } else {
        seq![s[0]] + insert_stable(s.drop_first(), x)
    }
}

/// Stable insertion sort: elements that compare equal keep their order.
pub open spec fn sort_stable_spec<T: Ranked>(s: Seq<T>) -> Seq<T>
    decreases s.len(),
{
    if s.len() == 0 {
        seq![]
    } else {
        insert_stable(sort_stable_spec(s.drop_last()), s.last())
    }
}

pub proof fn lemma_insert_stable_at<T: Ranked>(s: Seq<T>, x: T, p: int)
    requires
        0 <= p <= s.len(),
        forall|k: int| 0 <= k < p ==> !x.before(&#[trigger] s[k]),
        p < s.len() ==> x.before(&s[p]),
    ensures
        insert_stable(s, x) == s.insert(p, x),
    decreases s.len(),
{
    if s.len() == 0 {
        assert(s.insert(p, x) =~= seq![x]);
    } else if p == 0 {
        assert(s.insert(0, x) =~= seq![x] + s);
    } else {
        assert forall|k: int| 0 <= k < p - 1 implies !x.before(&#[trigger] s.drop_first()[k]) by {
            assert(s.drop_first()[k] == s[k + 1]);
        }
        lemma_insert_stable_at(s.drop_first(), x, p - 1);
        assert(s.insert(p, x) =~= seq![s[0]] + s.drop_first().insert(p - 1, x));
    }
}

/// Stable insertion adds exactly the inserted element.
pub proof fn lemma_insert_stable_multiset<T: Ranked>(s: Seq<T>, x: T)
    ensures
        insert_stable(s, x).to_multiset() == s.to_multiset().insert(x),
        insert_stable(s, x).len() == s.len() + 1,
    decreases s.len(),
{
    broadcast use vstd::seq_lib::group_to_multiset_ensures, vstd::multiset::group_multiset_axioms;

    if s.len() == 0 {
        assert(seq![x] =~= Seq::<T>::empty().push(x));
    } else if x.before(&s[0]) {
        vstd::seq_lib::lemma_multiset_commutative(seq![x], s);
        assert(seq![x] =~= Seq::<T>::empty().push(x));
    } else {
        lemma_insert_stable_multiset(s.drop_first(), x);
        vstd::seq_lib::lemma_multiset_commutative(seq![s[0]], insert_stable(s.drop_first(), x));
        vstd::seq_lib::lemma_multiset_commutative(seq![s[0]], s.drop_first());
        assert(seq![s[0]] + s.drop_first() =~= s);
        assert(seq![s[0]] =~= Seq::<T>::empty().push(s[0]));
    }
}

/// A stable sort only reorders: every element stays, as often as before.
pub proof fn lemma_sort_permutes<T: Ranked>(s: Seq<T>)
    ensures
        sort_stable_spec(s).to_multiset() == s.to_multiset(),
        sort_stable_spec(s).len() == s.len(),
    decreases s.len(),
{
    broadcast use vstd::seq_lib::group_to_multiset_ensures;

    if s.len() > 0 {
        lemma_sort_permutes(s.drop_last());
        lemma_insert_stable_multiset(sort_stable_spec(s.drop_last()), s.last());
        assert(s.drop_last().push(s.last()) =~= s);
    } else {
        assert(sort_stable_spec(s) =~= s);
    }
}

/// Every element of the sorted sequence comes from the input.
pub proof fn lemma_sort_members<T: Ranked>(s: Seq<T>, i: int)
    requires
        0 <= i < sort_stable_spec(s).len(),
    ensures
        s.contains(sort_stable_spec(s)[i]),
{
    broadcast use vstd::seq_lib::group_to_multiset_ensures;

    lemma_sort_permutes(s);
    let x = sort_stable_spec(s)[i];
    assert(sort_stable_spec(s).contains(x));
    assert(sort_stable_spec(s).to_multiset().count(x) > 0);
    assert(s.to_multiset().count(x) > 0);
}

/// `before` is a strict weak order on the elements of `s`: irreflexive,
/// transitive, and with transitive incomparability.
pub open spec fn strict_weak_on<T: Ranked>(s: Seq<T>) -> bool {
    &&& forall|i: int| 0 <= i < s.len() ==> !(#[trigger] s[i]).before(&s[i])
    &&& forall|i: int, j: int, k: int|
        #![trigger s[i], s[j], s[k]]
        0 <= i < s.len() && 0 <= j < s.len() && 0 <= k < s.len() && s[i].before(&s[j]) && s[j].before(&s[k])
            ==> s[i].before(&s[k])
    &&& forall|i: int, j: int, k: int|
        #![trigger s[i], s[j], s[k]]
        0 <= i < s.len() && 0 <= j < s.len() && 0 <= k < s.len() && !s[i].before(&s[j]) && !s[j].before(&s[i])
            && !s[j].before(&s[k]) && !s[k].before(&s[j]) ==> !s[i].before(&s[k]) && !s[k].before(&s[i])
}

/// No element sorts strictly before an earlier one.
pub open spec fn is_ordered<T: Ranked>(s: Seq<T>) -> bool {
    forall|i: int, j: int| #![trigger s[i], s[j]] 0 <= i < j < s.len() ==> !s[j].before(&s[i])
}

/// Every element of `s` satisfies `p`-style membership in `t`.
pub open spec fn members_of<T>(s: Seq<T>, t: Seq<T>) -> bool {
    forall|i: int| 0 <= i < s.len() ==> t.contains(#[trigger] s[i])
}

proof fn lemma_insert_ordered<T: Ranked>(s: Seq<T>, x: T, all: Seq<T>)
    requires
        is_ordered(s),
        strict_weak_on(all),
        members_of(s, all),
        all.contains(x),
    ensures
        is_ordered(insert_stable(s, x)),
        members_of(insert_stable(s, x), all),
    decreases s.len(),
{
    if s.len() == 0 {
    } else if x.before(&s[0]) {
        let r = seq![x] + s;
        assert forall|i: int, j: int| #![trigger r[i], r[j]] 0 <= i < j < r.len() implies !r[j].before(&r[i]) by {
            if i == 0 {
                // r[j] == s[j - 1]; x before s[0]; s[0] not after s[j-1]
                let a = choose|a: int| 0 <= a < all.len() && all[a] == x;
                let b = choose|b: int| 0 <= b < all.len() && all[b] == s[0];
                let c = choose|c: int| 0 <= c < all.len() && all[c] == s[j - 1];
                assert(all.contains(s[0]));
                assert(all.contains(s[j - 1]));
                if j - 1 > 0 {
                    assert(!s[j - 1].before(&s[0]));
                }
                if r[j].before(&r[i]) {
                    // s[j-1] before x before s[0]: s[j-1] before s[0]
                    assert(all[c].before(&all[a]) && all[a].before(&all[b]));
                    assert(all[c].before(&all[b]));
                    assert(!all[b].before(&all[b]));
                }
            } else {
                assert(r[i] == s[i - 1] && r[j] == s[j - 1]);
            }
        }
        assert forall|i: int| 0 <= i < r.len() implies all.contains(#[trigger] r[i]) by {
            if i > 0 {
                assert(r[i] == s[i - 1]);
            }
        }
    } else {
        lemma_insert_ordered(s.drop_first(), x, all);
        assert(is_ordered(s.drop_first())) by {
            let d = s.drop_first();
            assert forall|i: int, j: int| #![trigger d[i], d[j]] 0 <= i < j < d.len() implies !d[j].before(&d[i]) by {
                assert(s.drop_first()[i] == s[i + 1] && s.drop_first()[j] == s[j + 1]);
            }
        }
        let rest = insert_stable(s.drop_first(), x);
        let r = seq![s[0]] + rest;
        lemma_insert_stable_multiset(s.drop_first(), x);
        assert forall|i: int, j: int| #![trigger r[i], r[j]] 0 <= i < j < r.len() implies !r[j].before(&r[i]) by {
            if i == 0 {
                assert(r[j] == rest[j - 1]);
                // rest[j-1] is x or some s[k] with k >= 1
                broadcast use vstd::seq_lib::group_to_multiset_ensures;
                assert(rest.contains(rest[j - 1]));
                assert(rest.to_multiset().count(rest[j - 1]) > 0);
                assert(s.drop_first().to_multiset().insert(x).count(rest[j - 1]) > 0);
                if rest[j - 1] != x {
                    assert(s.drop_first().to_multiset().count(rest[j - 1]) > 0);
                    assert(s.drop_first().contains(rest[j - 1]));
                    let k = choose|k: int| 0 <= k < s.drop_first().len() && s.drop_first()[k] == rest[j - 1];
                    assert(s[k + 1] == rest[j - 1]);
                }
            } else {
                assert(r[i] == rest[i - 1] && r[j] == rest[j - 1]);
            }
        }
        assert forall|i: int| 0 <= i < r.len() implies all.contains(#[trigger] r[i]) by {
            if i > 0 {
                assert(r[i] == rest[i - 1]);
            } else {
                assert(all.contains(s[0]));
            }
        }
    }
}

/// Under a strict weak order, the stable sort is ordered.
pub proof fn lemma_sort_ordered<T: Ranked>(s: Seq<T>)
    requires
        strict_weak_on(s),
    ensures
        is_ordered(sort_stable_spec(s)),
    decreases s.len(),
{
    if s.len() > 0 {
        let p = s.drop_last();
        assert(strict_weak_on(p)) by {
            assert forall|i: int| 0 <= i < p.len() implies !(#[trigger] p[i]).before(&p[i]) by {
                assert(p[i] == s[i]);
            }
            assert forall|i: int, j: int, k: int|
                #![trigger p[i], p[j], p[k]]
                0 <= i < p.len() && 0 <= j < p.len() && 0 <= k < p.len() && p[i].before(&p[j]) && p[j].before(&p[k])
                    implies p[i].before(&p[k]) by {
                assert(p[i] == s[i] && p[j] == s[j] && p[k] == s[k]);
            }
            assert forall|i: int, j: int, k: int|
                #![trigger p[i], p[j], p[k]]
                0 <= i < p.len() && 0 <= j < p.len() && 0 <= k < p.len() && !p[i].before(&p[j]) && !p[j].before(
                    &p[i],
                ) && !p[j].before(&p[k]) && !p[k].before(&p[j]) implies !p[i].before(&p[k]) && !p[k].before(&p[i]) by {
                assert(p[i] == s[i] && p[j] == s[j] && p[k] == s[k]);
            }
        }
        lemma_sort_ordered(p);
        lemma_sort_permutes(p);
        let sp = sort_stable_spec(p);
        assert forall|i: int| 0 <= i < sp.len() implies s.contains(#[trigger] sp[i]) by {
            lemma_sort_members(p, i);
            let k = choose|k: int| 0 <= k < p.len() && p[k] == sp[i];
            assert(s[k] == sp[i]);
        }
        assert(s.contains(s.last())) by {
            assert(s[s.len() - 1] == s.last());
        }
        lemma_insert_ordered(sp, s.last(), s);
    }
}

/// Inserting an element that sorts before none of `s` appends it.
pub proof fn lemma_insert_last<T: Ranked>(s: Seq<T>, x: T)
    requires
        forall|k: int| 0 <= k < s.len() ==> !x.before(&#[trigger] s[k]),
    ensures
        insert_stable(s, x) == s.push(x),
    decreases s.len(),
{
    if s.len() > 0 {
        let d = s.drop_first();
        assert forall|k: int| 0 <= k < d.len() implies !x.before(&#[trigger] d[k]) by {
            assert(d[k] == s[k + 1]);
        }
        lemma_insert_last(d, x);
        assert(seq![s[0]] + d.push(x) =~= s.push(x));
    } else {
        assert(seq![x] =~= s.push(x));
    }
}

/// Sorting an ordered sequence leaves it as it is.
pub proof fn lemma_sort_ordered_unchanged<T: Ranked>(s: Seq<T>)
    requires
        is_ordered(s),
    ensures
        sort_stable_spec(s) == s,
    decreases s.len(),
{
    if s.len() > 0 {
        let d = s.drop_last();
        assert forall|i: int, j: int| #![trigger d[i], d[j]] 0 <= i < j < d.len() implies !d[j].before(&d[i]) by {
            assert(d[i] == s[i] && d[j] == s[j]);
        }
        lemma_sort_ordered_unchanged(d);
        assert forall|k: int| 0 <= k < d.len() implies !s.last().before(&#[trigger] d[k]) by {
            assert(d[k] == s[k]);
            assert(s.last() == s[s.len() - 1]);
        }
        lemma_insert_last(d, s.last());
        assert(d.push(s.last()) =~= s);
    }
}

/// The elements of `v`, stably sorted.
pub fn sorted_stable<T: Ranked>(v: Vec<T>) -> (r: Vec<T>)
    ensures
        r@ == sort_stable_spec(v@),
{
    let ghost input = v@;
    let mut out: Vec<T> = Vec::new();
    for x in it: v
        invariant
            input == it.seq(),
            out@ == sort_stable_spec(input.take(it.index() as int)),
    {
        let ghost k = it.index();
        let mut p: usize = 0;
        while p < out.len() && !x.before_exec(&out[p])
            invariant
                p <= out@.len(),
                forall|q: int| 0 <= q < p ==> !x.before(&#[trigger] out@[q]),
            decreases out@.len() - p,
        {
            p = p + 1;
        }
        proof {
            lemma_insert_stable_at(out@, x, p as int);
            assert(input.take(k + 1).drop_last() =~= input.take(k as int));
        }
        out.insert(p, x);
    }
    assert(input.take(input.len() as int) =~= input);
    out
}

/// Where stable insertion puts `x`: before the first element that it sorts
/// strictly before.
pub open spec fn insert_point<T: Ranked>(s: Seq<T>, x: T) -> int
    decreases s.len(),
{
    if s.len() == 0 || x.before(&s[0]) {
        0
    } else {
        1 + insert_point(s.drop_first(), x)
    }
}

proof fn lemma_insert_point<T: Ranked>(s: Seq<T>, x: T)
    ensures
        0 <= insert_point(s, x) <= s.len(),
        insert_stable(s, x) == s.insert(insert_point(s, x), x),
        forall|k: int| 0 <= k < insert_point(s, x) ==> !x.before(&#[trigger] s[k]),
        insert_point(s, x) < s.len() ==> x.before(&s[insert_point(s, x)]),
    decreases s.len(),
{
    if s.len() == 0 {
        assert(s.insert(0, x) =~= seq![x]);
    } else if x.before(&s[0]) {
        assert(s.insert(0, x) =~= seq![x] + s);
    } else {
        lemma_insert_point(s.drop_first(), x);
        let q = insert_point(s.drop_first(), x);
        assert(s.insert(q + 1, x) =~= seq![s[0]] + s.drop_first().insert(q, x));
        assert forall|k: int| 0 <= k < q + 1 implies !x.before(&#[trigger] s[k]) by {
            if k > 0 {
                assert(s[k] == s.drop_first()[k - 1]);
            }
        }
    }
}

/// A strict weak order on a sequence is one on any sequence drawn from it.
pub proof fn lemma_strict_weak_sub<T: Ranked>(s: Seq<T>, t: Seq<T>)
    requires
        strict_weak_on(s),
        forall|i: int| 0 <= i < t.len() ==> s.contains(#[trigger] t[i]),
    ensures
        strict_weak_on(t),
{
    assert forall|i: int| 0 <= i < t.len() implies !(#[trigger] t[i]).before(&t[i]) by {
        assert(s.contains(t[i]));
        let a = choose|a: int| 0 <= a < s.len() && s[a] == t[i];
        assert(!s[a].before(&s[a]));
    }
    assert forall|i: int, j: int, k: int|
        #![trigger t[i], t[j], t[k]]
        0 <= i < t.len() && 0 <= j < t.len() && 0 <= k < t.len() && t[i].before(&t[j]) && t[j].before(&t[k])
            implies t[i].before(&t[k]) by {
        assert(s.contains(t[i]) && s.contains(t[j]) && s.contains(t[k]));
        let a = choose|a: int| 0 <= a < s.len() && s[a] == t[i];
        let b = choose|b: int| 0 <= b < s.len() && s[b] == t[j];
        let c = choose|c: int| 0 <= c < s.len() && s[c] == t[k];
        assert(s[a].before(&s[b]) && s[b].before(&s[c]));
    }
    assert forall|i: int, j: int, k: int|
        #![trigger t[i], t[j], t[k]]
        0 <= i < t.len() && 0 <= j < t.len() && 0 <= k < t.len() && !t[i].before(&t[j]) && !t[j].before(&t[i])
            && !t[j].before(&t[k]) && !t[k].before(&t[j]) implies !t[i].before(&t[k]) && !t[k].before(&t[i]) by {
        assert(s.contains(t[i]) && s.contains(t[j]) && s.contains(t[k]));
        let a = choose|a: int| 0 <= a < s.len() && s[a] == t[i];
        let b = choose|b: int| 0 <= b < s.len() && s[b] == t[j];
        let c = choose|c: int| 0 <= c < s.len() && s[c] == t[k];
        assert(!s[a].before(&s[b]) && !s[b].before(&s[a]) && !s[b].before(&s[c]) && !s[c].before(&s[b]));
    }
}

/// Keeping the elements that satisfy `p` commutes with stable insertion
/// into an ordered sequence.
proof fn lemma_filter_insert<T: Ranked>(s: Seq<T>, x: T, p: spec_fn(T) -> bool)
    requires
        is_ordered(s),
        strict_weak_on(s.push(x)),
    ensures
        insert_stable(s, x).filter(p) == (if p(x) {
            insert_stable(s.filter(p), x)
        } else {
            s.filter(p)
        }),
{
    lemma_insert_point(s, x);
    let k = insert_point(s, x);
    let a = s.take(k);
    let b = s.skip(k);
    let one: Seq<T> = seq![x];
    assert(s.insert(k, x) =~= (a + one) + b);
    assert(s =~= a + b);
    Seq::filter_distributes_over_add(a + one, b, p);
    Seq::filter_distributes_over_add(a, one, p);
    Seq::filter_distributes_over_add(a, b, p);
    reveal_with_fuel(Seq::filter, 2);
    assert(one.drop_last() =~= Seq::<T>::empty());
    if p(x) {
        assert(one.filter(p) =~= one);
        let fa = a.filter(p);
        let fb = b.filter(p);
        let t = s.push(x);
        let n = s.len() as int;
        assert(t[n] == x);
        assert forall|m: int| 0 <= m < fa.len() implies !x.before(&#[trigger] fa[m]) by {
            a.lemma_filter_contains_rev(p, fa[m]);
            assert(fa.contains(fa[m]));
            let i = choose|i: int| 0 <= i < a.len() && a[i] == fa[m];
            assert(a[i] == s[i]);
        }
        if fb.len() > 0 {
            assert(fb.contains(fb[0]));
            b.lemma_filter_contains_rev(p, fb[0]);
            let j = choose|j: int| 0 <= j < b.len() && b[j] == fb[0];
            assert(b[j] == s[k + j]);
            assert(x.before(&s[k + j])) by {
                if j > 0 {
                    assert(!s[k + j].before(&s[k]));
                    assert(t[k] == s[k] && t[k + j] == s[k + j]);
                    assert(x.before(&t[k]));
                }
            }
        }
        lemma_insert_stable_at(fa + fb, x, fa.len() as int);
        assert forall|m: int| 0 <= m < fa.len() implies !x.before(&#[trigger] (fa + fb)[m]) by {
            assert((fa + fb)[m] == fa[m]);
        }
        assert((fa + fb).insert(fa.len() as int, x) =~= (fa + one) + fb);
    } else {
        assert(one.filter(p) =~= Seq::<T>::empty());
        assert(a + Seq::<T>::empty() =~= a);
    }
}

/// Keeping the elements that satisfy `p` commutes with stable sorting by a
/// strict weak order.
pub proof fn lemma_sort_filter<T: Ranked>(s: Seq<T>, p: spec_fn(T) -> bool)
    requires
        strict_weak_on(s),
    ensures
        sort_stable_spec(s.filter(p)) == sort_stable_spec(s).filter(p),
    decreases s.len(),
{
    reveal_with_fuel(Seq::filter, 1);
    if s.len() > 0 {
        let s0 = s.drop_last();
        let x = s.last();
        assert forall|i: int| 0 <= i < s0.len() implies s.contains(#[trigger] s0[i]) by {
            assert(s[i] == s0[i]);
        }
        lemma_strict_weak_sub(s, s0);
        lemma_sort_filter(s0, p);
        let ss = sort_stable_spec(s0);
        lemma_sort_ordered(s0);
        let t = ss.push(x);
        assert forall|i: int| 0 <= i < t.len() implies s.contains(#[trigger] t[i]) by {
            if i < ss.len() {
                lemma_sort_members(s0, i);
                assert(t[i] == ss[i]);
                let j = choose|j: int| 0 <= j < s0.len() && s0[j] == ss[i];
                assert(s[j] == s0[j]);
            } else {
                assert(t[i] == s[s.len() - 1]);
            }
        }
        lemma_strict_weak_sub(s, t);
        lemma_filter_insert(ss, x, p);
        let f0 = s0.filter(p);
        if p(x) {
            assert(f0.push(x).drop_last() =~= f0);
            assert(f0.push(x).last() == x);
        }
    }
}

} // verus!
