//! A map keyed by strings, kept sorted by key: the library's stand-in for
//! `BTreeMap<String, V>`, with its iteration order made explicit.
use vstd::prelude::*;
use crate::order::{compare_str, lemma_lt_irreflexive, lemma_lt_transitive, lemma_lt_trichotomy, seq_lt};

verus! {

/// Entries with strictly increasing keys.
pub struct StrMap<V> {
    pub entries: Vec<(String, V)>,
}

/// The keys of a list of entries.
pub open spec fn keys_of<V>(entries: Seq<(String, V)>) -> Seq<Seq<char>> {
    entries.map_values(|e: (String, V)| e.0@)
}

/// Keys strictly increasing.
pub open spec fn strictly_sorted(keys: Seq<Seq<char>>) -> bool {
    forall|i: int, j: int| 0 <= i < j < keys.len() ==> seq_lt(keys[i], keys[j])
}

/// The members of a finite set of strings in ascending order.
pub open spec fn ascending(s: Set<Seq<char>>) -> Seq<Seq<char>> {
    choose|q: Seq<Seq<char>>| strictly_sorted(q) && q.to_set() == s
}

/// A strictly sorted sequence is determined by its set of elements.
pub proof fn lemma_sorted_unique(a: Seq<Seq<char>>, b: Seq<Seq<char>>)
    requires
        strictly_sorted(a),
        strictly_sorted(b),
        a.to_set() == b.to_set(),
    ensures
        a == b,
    decreases a.len(),
{
    if a.len() == 0 {
        if b.len() > 0 {
            assert(b.to_set().contains(b[0]));
        }
        assert(a =~= b);
    } else {
        assert(a.to_set().contains(a[0]));
        let j = choose|j: int| 0 <= j < b.len() && b[j] == a[0];
        assert(b.to_set().contains(b[0]));
        let i = choose|i: int| 0 <= i < a.len() && a[i] == b[0];
        if j > 0 && i > 0 {
            lemma_lt_transitive(a[0], a[i], a[0]);
            lemma_lt_irreflexive(a[0]);
        } else if j > 0 {
            lemma_lt_irreflexive(b[0]);
        }
        assert(a[0] == b[0]);
        let a1 = a.drop_first();
        let b1 = b.drop_first();
        assert forall|x: Seq<char>| a1.to_set().contains(x) implies b1.to_set().contains(x) by {
            let k = choose|k: int| 0 <= k < a1.len() && a1[k] == x;
            assert(a.to_set().contains(x) && a[k + 1] == x);
            let m = choose|m: int| 0 <= m < b.len() && b[m] == x;
            if m == 0 {
                lemma_lt_irreflexive(a[0]);
            }
            assert(b1[m - 1] == x);
        }
        assert forall|x: Seq<char>| b1.to_set().contains(x) implies a1.to_set().contains(x) by {
            let k = choose|k: int| 0 <= k < b1.len() && b1[k] == x;
            assert(b.to_set().contains(x) && b[k + 1] == x);
            let m = choose|m: int| 0 <= m < a.len() && a[m] == x;
            if m == 0 {
                lemma_lt_irreflexive(b[0]);
            }
            assert(a1[m - 1] == x);
        }
        assert(a1.to_set() =~= b1.to_set());
        lemma_sorted_unique(a1, b1);
        assert forall|k: int| 0 <= k < a.len() implies a[k] == b[k] by {
            if k > 0 {
                assert(a[k] == a1[k - 1] && b[k] == b1[k - 1]);
            }
        }
        assert(a =~= b);
    }
}

/// A strictly sorted sequence is the ascending enumeration of its elements.
pub proof fn lemma_ascending(q: Seq<Seq<char>>)
    requires
        strictly_sorted(q),
    ensures
        ascending(q.to_set()) == q,
{
    let c = ascending(q.to_set());
    assert(strictly_sorted(c) && c.to_set() == q.to_set());
    lemma_sorted_unique(c, q);
}

impl<V> StrMap<V> {
    /// Key of entry `i`.
    pub open spec fn key_at(&self, i: int) -> Seq<char> {
        self.entries@[i].0@
    }

    /// Well-formed: keys strictly increasing.
    pub open spec fn wf(&self) -> bool {
        strictly_sorted(keys_of(self.entries@))
    }

    /// `k` is a key of the map.
    pub open spec fn has(&self, k: Seq<char>) -> bool {
        exists|i: int| 0 <= i < self.entries@.len() && self.key_at(i) == k
    }

    /// Position of key `k` (meaningful when `has(k)`).
    pub open spec fn idx(&self, k: Seq<char>) -> int {
        choose|i: int| 0 <= i < self.entries@.len() && self.key_at(i) == k
    }

    /// The map that the entries stand for.
    pub open spec fn view_map(&self) -> Map<Seq<char>, V> {
        Map::new(|k: Seq<char>| self.has(k), |k: Seq<char>| self.entries@[self.idx(k)].1)
    }

    /// An empty map.
    pub fn new() -> (m: Self)
        ensures
            m.wf(),
            m.entries@.len() == 0,
            m.view_map() == Map::<Seq<char>, V>::empty(),
    {
        let m = StrMap { entries: Vec::new() };
        assert(m.view_map() =~= Map::<Seq<char>, V>::empty());
        m
    }

    /// Number of entries.
    pub fn len(&self) -> (n: usize)
        ensures
            n == self.entries@.len(),
    {
        self.entries.len()
    }

    pub proof fn lemma_wf_idx(&self, i: int)
        requires
            self.wf(),
            0 <= i < self.entries@.len(),
        ensures
            self.has(self.key_at(i)),
            self.idx(self.key_at(i)) == i,
    {
        let k = self.key_at(i);
        assert(self.key_at(i) == keys_of(self.entries@)[i]);
        let j = self.idx(k);
        if j != i {
            assert(keys_of(self.entries@)[j] == k);
            if i < j {
                assert(seq_lt(keys_of(self.entries@)[i], keys_of(self.entries@)[j]));
            } else {
                assert(seq_lt(keys_of(self.entries@)[j], keys_of(self.entries@)[i]));
            }
            lemma_lt_irreflexive(k);
        }
    }

    /// Where key `k` is, or where it would be inserted.
    pub fn find(&self, k: &String) -> (r: Result<usize, usize>)
        requires
            self.wf(),
        ensures
            r matches Ok(i) ==> i < self.entries@.len() && self.key_at(i as int) == k@ && self.idx(k@) == i,
            r matches Ok(i) ==> self.has(k@),
            r matches Err(p) ==> p <= self.entries@.len() && !self.has(k@)
                && (forall|i: int| 0 <= i < p ==> seq_lt(#[trigger] self.key_at(i), k@))
                && (forall|i: int| p <= i < self.entries@.len() ==> seq_lt(k@, #[trigger] self.key_at(i))),
    {
        let mut i: usize = 0;
        while i < self.entries.len()
            invariant
                self.wf(),
                i <= self.entries@.len(),
                forall|j: int| 0 <= j < i ==> seq_lt(#[trigger] self.key_at(j), k@),
            decreases self.entries@.len() - i,
        {
            let c = compare_str(self.entries[i].0.as_str(), k.as_str());
            if c == 0 {
                proof {
                    self.lemma_wf_idx(i as int);
                }
                return Ok(i);
            }
            if c > 0 {
                assert forall|j: int| i <= j < self.entries@.len() implies seq_lt(k@, #[trigger] self.key_at(j)) by {
                    if j > i {
                        assert(keys_of(self.entries@)[i as int] == self.key_at(i as int));
                        assert(keys_of(self.entries@)[j] == self.key_at(j));
                        lemma_lt_transitive(k@, self.key_at(i as int), self.key_at(j));
                    }
                }
                assert(!self.has(k@)) by {
                    if self.has(k@) {
                        let j = choose|j: int| 0 <= j < self.entries@.len() && self.key_at(j) == k@;
                        if j < i {
                            lemma_lt_irreflexive(k@);
                        } else {
                            lemma_lt_irreflexive(k@);
                        }
                    }
                }
                return Err(i);
            }
            i = i + 1;
        }
        assert(!self.has(k@)) by {
            if self.has(k@) {
                let j = choose|j: int| 0 <= j < self.entries@.len() && self.key_at(j) == k@;
                lemma_lt_irreflexive(k@);
            }
        }
        Err(i)
    }

    /// Looks up key `k`.
    pub fn get(&self, k: &String) -> (r: Option<&V>)
        requires
            self.wf(),
        ensures
            r matches Some(v) ==> self.view_map().contains_key(k@) && *v == self.view_map()[k@],
            r is None ==> !self.view_map().contains_key(k@),
    {
        match self.find(k) {
            Ok(i) => Some(&self.entries[i].1),
            Err(_) => None,
        }
    }

    /// Inserts `v` under `k`, replacing a previous value.
    pub fn insert(&mut self, k: String, v: V)
        requires
            old(self).wf(),
        ensures
            final(self).wf(),
            final(self).view_map() == old(self).view_map().insert(k@, v),
    {
        let ghost old_map = self.view_map();
        match self.find(&k) {
            Ok(i) => {
                let _ = self.entries.remove(i);
                self.entries.insert(i, (k, v));
                assert(keys_of(self.entries@) =~= keys_of(old(self).entries@));
                proof {
                    assert forall|key: Seq<char>| #[trigger] self.has(key) == old(self).has(key) by {
                        if self.has(key) {
                            let j = choose|j: int| 0 <= j < self.entries@.len() && self.key_at(j) == key;
                            assert(keys_of(self.entries@)[j] == key);
                            assert(old(self).key_at(j) == keys_of(old(self).entries@)[j]);
                        }
                        if old(self).has(key) {
                            let j = choose|j: int| 0 <= j < old(self).entries@.len() && old(self).key_at(j) == key;
                            assert(keys_of(old(self).entries@)[j] == key);
                            assert(self.key_at(j) == keys_of(self.entries@)[j]);
                        }
                    }
                    assert forall|key: Seq<char>| self.has(key) implies #[trigger] self.view_map()[key] == old_map.insert(k@, v)[key] by {
                        let j = self.idx(key);
                        self.lemma_wf_idx(j);
                        old(self).lemma_wf_idx(j);
                        assert(self.key_at(j) == keys_of(self.entries@)[j]);
                        assert(old(self).key_at(j) == keys_of(old(self).entries@)[j]);
                    }
                    assert(self.view_map() =~= old_map.insert(k@, v));
                }
            }
            Err(p) => {
                self.entries.insert(p, (k, v));
                proof {
                    let ks = keys_of(self.entries@);
                    let oks = keys_of(old(self).entries@);
                    assert forall|a: int| 0 <= a < ks.len() implies #[trigger] ks[a] == (if a < p {
                        oks[a]
                    } else if a == p {
                        k@
                    } else {
                        oks[a - 1]
                    }) by {}
                    assert forall|a: int, b: int| 0 <= a < b < ks.len() implies seq_lt(ks[a], ks[b]) by {
                        if a < p && b > p {
                            assert(old(self).key_at(a) == oks[a]);
                            assert(old(self).key_at(b - 1) == oks[b - 1]);
                            lemma_lt_transitive(oks[a], k@, oks[b - 1]);
                        } else if a == p {
                            assert(old(self).key_at(b - 1) == oks[b - 1]);
                        } else if b == p {
                            assert(old(self).key_at(a) == oks[a]);
                        }
                    }
                    assert forall|key: Seq<char>| #[trigger] self.has(key) == (old(self).has(key) || key == k@) by {
                        if self.has(key) {
                            let j = choose|j: int| 0 <= j < self.entries@.len() && self.key_at(j) == key;
                            assert(ks[j] == key);
                            if j < p {
                                assert(old(self).key_at(j) == oks[j]);
                            } else if j > p {
                                assert(old(self).key_at(j - 1) == oks[j - 1]);
                            }
                        }
                        if old(self).has(key) {
                            let j = choose|j: int| 0 <= j < old(self).entries@.len() && old(self).key_at(j) == key;
                            assert(oks[j] == key);
                            if j < p {
                                assert(self.key_at(j) == ks[j]);
                            } else {
                                assert(self.key_at(j + 1) == ks[j + 1]);
                            }
                        }
                        if key == k@ {
                            assert(self.key_at(p as int) == ks[p as int]);
                        }
                    }
                    assert forall|key: Seq<char>| self.has(key) implies #[trigger] self.view_map()[key] == old_map.insert(k@, v)[key] by {
                        let j = self.idx(key);
                        self.lemma_wf_idx(j);
                        assert(self.key_at(j) == ks[j]);
                        if j < p {
                            old(self).lemma_wf_idx(j);
                            assert(old(self).key_at(j) == oks[j]);
                        } else if j > p {
                            old(self).lemma_wf_idx(j - 1);
                            assert(old(self).key_at(j - 1) == oks[j - 1]);
                            lemma_lt_irreflexive(k@);
                        } else {
                        }
                    }
                    assert(self.view_map() =~= old_map.insert(k@, v));
                }
            }
        }
    }
    /// Removes key `k`, handing back its value.
    pub fn remove_key(&mut self, k: &String) -> (r: Option<V>)
        requires
            old(self).wf(),
        ensures
            final(self).wf(),
            final(self).view_map() == old(self).view_map().remove(k@),
            r matches Some(v) ==> old(self).view_map().contains_key(k@) && v == old(self).view_map()[k@],
            r is None ==> !old(self).view_map().contains_key(k@),
    {
        let ghost old_map = self.view_map();
        match self.find(k) {
            Ok(i) => {
                let (_, v) = self.entries.remove(i);
                proof {
                    let ks = keys_of(self.entries@);
                    let oks = keys_of(old(self).entries@);
                    assert forall|a: int| 0 <= a < ks.len() implies #[trigger] ks[a] == (if a < i {
                        oks[a]
                    } else {
                        oks[a + 1]
                    }) by {}
                    assert forall|a: int, b: int| 0 <= a < b < ks.len() implies seq_lt(ks[a], ks[b]) by {
                        if a < i && b >= i {
                            assert(oks[a] == ks[a]);
                        }
                    }
                    assert forall|key: Seq<char>| #[trigger] self.has(key) == (old(self).has(key) && key != k@) by {
                        if self.has(key) {
                            let j = choose|j: int| 0 <= j < self.entries@.len() && self.key_at(j) == key;
                            assert(ks[j] == key);
                            if j < i {
                                assert(old(self).key_at(j) == oks[j]);
                                old(self).lemma_wf_idx(j);
                            } else {
                                assert(old(self).key_at(j + 1) == oks[j + 1]);
                                old(self).lemma_wf_idx(j + 1);
                            }
                        }
                        if old(self).has(key) && key != k@ {
                            let j = choose|j: int| 0 <= j < old(self).entries@.len() && old(self).key_at(j) == key;
                            assert(oks[j] == key);
                            if j < i {
                                assert(self.key_at(j) == ks[j]);
                            } else if j > i {
                                assert(self.key_at(j - 1) == ks[j - 1]);
                            }
                        }
                    }
                    assert forall|key: Seq<char>| self.has(key) implies #[trigger] self.view_map()[key] == old_map.remove(k@)[key] by {
                        let j = self.idx(key);
                        self.lemma_wf_idx(j);
                        assert(self.key_at(j) == ks[j]);
                        if j < i {
                            old(self).lemma_wf_idx(j);
                            assert(old(self).key_at(j) == oks[j]);
                        } else {
                            old(self).lemma_wf_idx(j + 1);
                            assert(old(self).key_at(j + 1) == oks[j + 1]);
                        }
                    }
                    assert(self.view_map() =~= old_map.remove(k@));
                }
                Some(v)
            }
            Err(_) => {
                assert(self.view_map() =~= old_map.remove(k@));
                None
            }
        }
    }
}

/// A set of strings kept in sorted order: the stand-in for `BTreeSet<String>`.
pub struct StrSet {
    pub map: StrMap<()>,
}

impl StrSet {
    /// Well-formed: sorted, no duplicates.
    pub open spec fn wf(&self) -> bool {
        self.map.wf()
    }

    /// The set of members.
    pub open spec fn view_set(&self) -> Set<Seq<char>> {
        self.map.view_map().dom()
    }

    /// The members in ascending order.
    pub open spec fn members(&self) -> Seq<Seq<char>> {
        keys_of(self.map.entries@)
    }

    /// An empty set.
    pub fn new() -> (r: Self)
        ensures
            r.wf(),
            r.view_set() == Set::<Seq<char>>::empty(),
            r.members().len() == 0,
    {
        let r = StrSet { map: StrMap::new() };
        assert(r.view_set() =~= Set::<Seq<char>>::empty());
        r
    }

    /// A copy with the same members.
    pub fn copy(&self) -> (r: Self)
        ensures
            r.members() == self.members(),
            r.wf() == self.wf(),
            r.view_set() == self.view_set(),
    {
        let mut entries: Vec<(String, ())> = Vec::new();
        let mut i: usize = 0;
        while i < self.map.entries.len()
            invariant
                i <= self.map.entries@.len(),
                keys_of(entries@) == keys_of(self.map.entries@).take(i as int),
            decreases self.map.entries@.len() - i,
        {
            let ghost before = keys_of(entries@);
            entries.push((crate::text::copy_string(&self.map.entries[i].0), ()));
            assert(keys_of(entries@) =~= before.push(self.map.entries@[i as int].0@));
            assert(keys_of(self.map.entries@).take(i + 1) =~= keys_of(self.map.entries@).take(i as int).push(
                self.map.entries@[i as int].0@,
            ));
            i = i + 1;
        }
        assert(keys_of(self.map.entries@).take(self.map.entries@.len() as int) =~= keys_of(self.map.entries@));
        let r = StrSet { map: StrMap { entries } };
        assert forall|k: Seq<char>| r.map.has(k) == self.map.has(k) by {
            if r.map.has(k) {
                let j = choose|j: int| 0 <= j < r.map.entries@.len() && r.map.key_at(j) == k;
                assert(keys_of(r.map.entries@)[j] == k);
                assert(self.map.key_at(j) == keys_of(self.map.entries@)[j]);
            }
            if self.map.has(k) {
                let j = choose|j: int| 0 <= j < self.map.entries@.len() && self.map.key_at(j) == k;
                assert(keys_of(self.map.entries@)[j] == k);
                assert(r.map.key_at(j) == keys_of(r.map.entries@)[j]);
            }
        }
        assert(r.view_set() =~= self.view_set());
        r
    }

    /// Number of members.
    pub fn len(&self) -> (n: usize)
        ensures
            n == self.members().len(),
    {
        self.map.entries.len()
    }

    /// Adds `k`.
    pub fn insert(&mut self, k: String)
        requires
            old(self).wf(),
        ensures
            final(self).wf(),
            final(self).view_set() == old(self).view_set().insert(k@),
    {
        self.map.insert(k, ());
        assert(self.view_set() =~= old(self).view_set().insert(k@));
    }

    /// Whether `k` is a member.
    pub fn contains(&self, k: &str) -> (b: bool)
        requires
            self.wf(),
        ensures
            b == self.view_set().contains(k@),
    {
        let key = crate::text::string_from_chars(&crate::text::chars_of(k));
        self.map.find(&key).is_ok()
    }

    /// The members in ascending order.
    pub fn to_vec(&self) -> (r: Vec<String>)
        ensures
            r@.map_values(|s: String| s@) == self.members(),
    {
        let mut r: Vec<String> = Vec::new();
        let mut i: usize = 0;
        while i < self.map.entries.len()
            invariant
                i <= self.map.entries@.len(),
                r@.map_values(|s: String| s@) == self.members().take(i as int),
            decreases self.map.entries@.len() - i,
        {
            let ghost prev = r@.map_values(|s: String| s@);
            r.push(self.map.entries[i].0.clone());
            assert(r@.map_values(|s: String| s@) =~= prev.push(self.map.entries@[i as int].0@));
            assert(self.members().take(i + 1) =~= self.members().take(i as int).push(self.map.entries@[i as int].0@));
            i = i + 1;
        }
        assert(self.members().take(self.members().len() as int) =~= self.members());
        r
    }

    /// The members, in order, are the ascending enumeration of the set.
    pub proof fn lemma_members_ascending(&self)
        requires
            self.wf(),
        ensures
            self.members() == ascending(self.view_set()),
            strictly_sorted(self.members()),
    {
        self.lemma_members_are_set();
        assert(self.members().to_set() =~= self.view_set());
        lemma_ascending(self.members());
    }

    /// The number of members is the size of the set.
    pub proof fn lemma_len_is_card(&self)
        requires
            self.wf(),
        ensures
            self.members().len() == self.view_set().len(),
    {
        self.lemma_members_ascending();
        assert(self.members().no_duplicates()) by {
            assert forall|i: int, j: int|
                0 <= i < self.members().len() && 0 <= j < self.members().len() && i != j implies self.members()[i]
                != self.members()[j] by {
                if i < j {
                    lemma_lt_irreflexive(self.members()[i]);
                } else {
                    lemma_lt_irreflexive(self.members()[j]);
                }
            }
        }
        self.members().unique_seq_to_set();
        self.lemma_members_are_set();
        assert(self.members().to_set() =~= self.view_set());
    }

    pub proof fn lemma_members_are_set(&self)
        requires
            self.wf(),
        ensures
            forall|k: Seq<char>| self.view_set().contains(k) <==> self.members().contains(k),
    {
        assert forall|k: Seq<char>| self.view_set().contains(k) <==> self.members().contains(k) by {
            if self.view_set().contains(k) {
                let j = self.map.idx(k);
                assert(self.members()[j] == k);
            }
            if self.members().contains(k) {
                let j = choose|j: int| 0 <= j < self.members().len() && self.members()[j] == k;
                assert(self.map.key_at(j) == k);
            }
        }
    }
}

/// Reading a key back after writing it gives the value written, and leaves
/// every other key as it was.
pub proof fn law_read_after_write<V>(m: Map<Seq<char>, V>, k: Seq<char>, v: V, other: Seq<char>)
    requires
        other != k,
    ensures
        m.insert(k, v).contains_key(k),
        m.insert(k, v)[k] == v,
        m.insert(k, v).contains_key(other) == m.contains_key(other),
        m.contains_key(other) ==> m.insert(k, v)[other] == m[other],
        !m.remove(k).contains_key(k),
{
}

} // verus!
