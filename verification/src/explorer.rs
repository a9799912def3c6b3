//! The interactive explorer's state machine: a fuzzy-filtered list of
//! exported components, their lazily scanned context packs, and what a key
//! press does. Drawing, timing and scanning happen outside the library.
use vstd::prelude::*;
use crate::context::ContextPack;
use crate::dupes::DeclSite;
use crate::fuzzy::{score, score_spec};
use crate::sort::{Ranked, sort_stable_spec, sorted_stable};
use crate::strmap::{ascending, StrMap, StrSet};
use crate::text::{chars_of, copy_string, string_from_chars, utf8_len, views};

verus! {

/// One exported name with its declaration sites.
pub struct SymbolEntry {
    pub name: String,
    /// declaration sites, used for the repo tags and as the jump target
    /// before a context pack is loaded
    pub sites: Vec<DeclSite>,
}

/// The repositories of some declaration sites.
pub open spec fn site_repos(sites: Seq<DeclSite>) -> Set<Seq<char>> {
    Set::new(|r: Seq<char>| exists|i: int| 0 <= i < sites.len() && #[trigger] sites[i].repo@ == r)
}

impl SymbolEntry {
    /// The repositories declaring the symbol, ascending, each once.
    pub fn repos(&self) -> (r: Vec<String>)
        ensures
            views(r@) == ascending(site_repos(self.sites@)),
    {
        let mut set = StrSet::new();
        assert(set.view_set() =~= site_repos(self.sites@.take(0)));
        let mut i: usize = 0;
        while i < self.sites.len()
            invariant
                i <= self.sites@.len(),
                set.wf(),
                set.view_set() == site_repos(self.sites@.take(i as int)),
            decreases self.sites@.len() - i,
        {
            set.insert(copy_string(&self.sites[i].repo));
            proof {
                let t = self.sites@.take(i + 1);
                let p = self.sites@.take(i as int);
                assert forall|r: Seq<char>| site_repos(t).contains(r) implies set.view_set().contains(r) by {
                    let q = choose|q: int| 0 <= q < t.len() && #[trigger] t[q].repo@ == r;
                    if q < i {
                        assert(p[q] == t[q]);
                    }
                }
                assert forall|r: Seq<char>| set.view_set().contains(r) implies site_repos(t).contains(r) by {
                    if r != self.sites@[i as int].repo@ {
                        let q = choose|q: int| 0 <= q < p.len() && #[trigger] p[q].repo@ == r;
                        assert(t[q] == p[q]);
                    } else {
                        assert(t[i as int].repo@ == r);
                    }
                }
                assert(set.view_set() =~= site_repos(t));
            }
            i = i + 1;
        }
        assert(self.sites@.take(self.sites@.len() as int) =~= self.sites@);
        proof {
            set.lemma_members_ascending();
        }
        set.to_vec()
    }
}

/// Where a symbol's context pack stands.
pub enum PackState {
    Loading,
    Ready(Box<ContextPack>),
    Failed(String),
}

/// What the event loop must do next.
#[derive(Debug, PartialEq)]
pub enum Action {
    /// open the file at the path on the 1-based line
    OpenEditor(String, usize),
}

/// A key press, as the explorer tells keys apart.
pub enum Key {
    /// a character typed with Control held
    Ctrl(char),
    /// a character typed without Control
    Char(char),
    Esc,
    Up,
    Down,
    Tab,
    BackTab,
    Backspace,
    Enter,
    Other,
}

/// The explorer state.
pub struct App {
    pub symbols: Vec<SymbolEntry>,
    /// repo name -> repo root
    pub repo_roots: StrMap<String>,
    pub filter: String,
    /// indices into `symbols`, best match first
    pub filtered: Vec<usize>,
    /// index into `filtered`
    pub selected: usize,
    pub packs: StrMap<PackState>,
    /// which usage excerpt of the selected symbol is shown
    pub excerpt_idx: usize,
    pub scan_warnings: usize,
    pub status: Option<String>,
    pub should_quit: bool,
}

/// Scores rank highest first.
impl Ranked for (i128, usize) {
    open spec fn before(&self, other: &Self) -> bool {
        self.0 > other.0
    }

    fn before_exec(&self, other: &Self) -> (b: bool) {
        self.0 > other.0
    }
}

/// (score, index) of every symbol among the first `n` that matches.
pub open spec fn scored(symbols: Seq<SymbolEntry>, filter: Seq<char>, n: int) -> Seq<(i128, usize)>
    decreases n,
{
    if n <= 0 {
        seq![]
    } else {
        let prev = scored(symbols, filter, n - 1);
        let name = symbols[n - 1].name@;
        match score_spec(filter, name, utf8_len(name) as int) {
            Some(v) => prev.push((v as i128, (n - 1) as usize)),
            None => prev,
        }
    }
}

/// The matching symbols, best score first, ties in list order.
pub open spec fn filtered_spec(symbols: Seq<SymbolEntry>, filter: Seq<char>) -> Seq<usize> {
    sort_stable_spec(scored(symbols, filter, symbols.len() as int)).map_values(|p: (i128, usize)| p.1)
}

/// The path `b` joined onto `a`, as `Path::join` builds it on Unix: an
/// absolute `b` replaces `a`; otherwise a separator goes between them
/// unless `a` is empty or already ends with one.
pub open spec fn path_join(a: Seq<char>, b: Seq<char>) -> Seq<char> {
    if b.len() > 0 && b[0] == '/' {
        b
    } else if a.len() > 0 && a.last() != '/' {
        a + seq!['/'] + b
    } else {
        a + b
    }
}

/// The path `b` joined onto `a`.
pub fn join_path(a: &str, b: &str) -> (r: String)
    ensures
        r@ == path_join(a@, b@),
{
    let av = chars_of(a);
    let bv = chars_of(b);
    if bv.len() > 0 && bv[0] == '/' {
        return string_from_chars(&bv);
    }
    let mut out = string_from_chars(&av);
    if av.len() > 0 && av[av.len() - 1] != '/' {
        crate::text::push_char(&mut out, '/');
    }
    crate::text::push_str(&mut out, b);
    out
}

proof fn lemma_scored_indices(symbols: Seq<SymbolEntry>, filter: Seq<char>, n: int)
    requires
        0 <= n <= symbols.len(),
        symbols.len() <= usize::MAX,
    ensures
        forall|k: int| 0 <= k < scored(symbols, filter, n).len() ==> (#[trigger] scored(symbols, filter, n)[k]).1 < n,
    decreases n,
{
    if n > 0 {
        lemma_scored_indices(symbols, filter, n - 1);
        assert((n - 1) as usize == n - 1);
        let prev = scored(symbols, filter, n - 1);
        assert forall|k: int| 0 <= k < scored(symbols, filter, n).len() implies (#[trigger] scored(symbols, filter, n)[k]).1 < n by {
            if k < prev.len() {
                assert(scored(symbols, filter, n)[k] == prev[k]);
            }
        }
    }
}

impl App {
    /// The state invariant: the filtered list matches the filter, and every
    /// index in it names a symbol.
    pub open spec fn wf(&self) -> bool {
        &&& self.filtered@ == filtered_spec(self.symbols@, self.filter@)
        &&& forall|k: int| 0 <= k < self.filtered@.len() ==> (#[trigger] self.filtered@[k]) < self.symbols@.len()
        &&& self.packs.wf()
        &&& self.repo_roots.wf()
    }

    /// The filtered list for the current filter.
    fn compute_filtered(symbols: &Vec<SymbolEntry>, filter: &String) -> (r: Vec<usize>)
        ensures
            r@ == filtered_spec(symbols@, filter@),
            forall|k: int| 0 <= k < r@.len() ==> (#[trigger] r@[k]) < symbols@.len(),
    {
        let mut sc: Vec<(i128, usize)> = Vec::new();
        let mut i: usize = 0;
        while i < symbols.len()
            invariant
                i <= symbols@.len(),
                sc@ == scored(symbols@, filter@, i as int),
            decreases symbols@.len() - i,
        {
            match score(filter.as_str(), symbols[i].name.as_str()) {
                Some(v) => {
                    sc.push((v, i));
                },
                None => {},
            }
            i = i + 1;
        }
        let ghost sv = sc@;
        let sorted = sorted_stable(sc);
        proof {
            crate::sort::lemma_sort_permutes(sv);
            lemma_scored_indices(symbols@, filter@, symbols@.len() as int);
        }
        let mut out: Vec<usize> = Vec::new();
        let mut k: usize = 0;
        while k < sorted.len()
            invariant
                k <= sorted@.len(),
                sorted@ == sort_stable_spec(sv),
                sv == scored(symbols@, filter@, symbols@.len() as int),
                forall|q: int| 0 <= q < sv.len() ==> (#[trigger] sv[q]).1 < symbols@.len(),
                out@ == sorted@.take(k as int).map_values(|p: (i128, usize)| p.1),
                forall|q: int| 0 <= q < out@.len() ==> (#[trigger] out@[q]) < symbols@.len(),
            decreases sorted@.len() - k,
        {
            proof {
                crate::sort::lemma_sort_members(sv, k as int);
                let j = choose|j: int| 0 <= j < sv.len() && sv[j] == sorted@[k as int];
                assert(sv[j].1 < symbols@.len());
            }
            out.push(sorted[k].1);
            assert(sorted@.take(k + 1).map_values(|p: (i128, usize)| p.1) =~= sorted@.take(k as int).map_values(
                |p: (i128, usize)| p.1,
            ).push(sorted@[k as int].1));
            k = k + 1;
        }
        assert(sorted@.take(sorted@.len() as int) =~= sorted@);
        out
    }

    /// A fresh explorer over the exported names (ascending) with their
    /// declaration sites.
    pub fn new(exports: Vec<(String, Vec<DeclSite>)>, repo_roots: StrMap<String>, scan_warnings: usize) -> (app: Self)
        requires
            repo_roots.wf(),
        ensures
            app.wf(),
            app.symbols@.len() == exports@.len(),
            forall|i: int|
                0 <= i < exports@.len() ==> (#[trigger] app.symbols@[i]).name@ == exports@[i].0@ && app.symbols@[i].sites
                    == exports@[i].1,
            app.repo_roots == repo_roots,
            app.filter@.len() == 0,
            app.selected == 0,
            app.excerpt_idx == 0,
            app.packs.view_map().dom().len() == 0,
            app.scan_warnings == scan_warnings,
            app.status is None,
            !app.should_quit,
    {
        let ghost ev = exports@;
        let mut symbols: Vec<SymbolEntry> = Vec::new();
        for e in it: exports
            invariant
                ev == it.seq(),
                symbols@.len() == it.index(),
                forall|i: int|
                    0 <= i < symbols@.len() ==> (#[trigger] symbols@[i]).name@ == ev[i].0@ && symbols@[i].sites == ev[i].1,
        {
            symbols.push(SymbolEntry { name: e.0, sites: e.1 });
        }
        let filter = String::new();
        let filtered = Self::compute_filtered(&symbols, &filter);
        let packs: StrMap<PackState> = StrMap::new();
        assert(packs.view_map().dom() =~= Set::<Seq<char>>::empty());
        App {
            symbols,
            repo_roots,
            filter,
            filtered,
            selected: 0,
            packs,
            excerpt_idx: 0,
            scan_warnings,
            status: None,
            should_quit: false,
        }
    }

    /// Recomputes the filtered list and resets the selection.
    fn refilter(&mut self)
        requires
            old(self).packs.wf(),
            old(self).repo_roots.wf(),
        ensures
            final(self).wf(),
            final(self).filtered@ == filtered_spec(old(self).symbols@, old(self).filter@),
            final(self).selected == 0,
            final(self).excerpt_idx == 0,
            final(self).symbols == old(self).symbols,
            final(self).filter == old(self).filter,
            final(self).packs == old(self).packs,
            final(self).repo_roots == old(self).repo_roots,
            final(self).status == old(self).status,
            final(self).should_quit == old(self).should_quit,
            final(self).scan_warnings == old(self).scan_warnings,
    {
        self.filtered = Self::compute_filtered(&self.symbols, &self.filter);
        self.selected = 0;
        self.excerpt_idx = 0;
    }

    /// Appends a character to the filter.
    pub fn push_filter(&mut self, c: char)
        requires
            old(self).wf(),
        ensures
            final(self).wf(),
            final(self).filter@ == old(self).filter@.push(c),
            final(self).selected == 0,
            final(self).excerpt_idx == 0,
            final(self).symbols == old(self).symbols,
            final(self).packs == old(self).packs,
            final(self).repo_roots == old(self).repo_roots,
            final(self).status == old(self).status,
            final(self).should_quit == old(self).should_quit,
    {
        crate::text::push_char(&mut self.filter, c);
        self.refilter();
    }

    /// Drops the filter's last character, if any.
    pub fn pop_filter(&mut self)
        requires
            old(self).wf(),
        ensures
            final(self).wf(),
            final(self).filter@ == (if old(self).filter@.len() > 0 {
                old(self).filter@.drop_last()
            } else {
                old(self).filter@
            }),
            final(self).selected == 0,
            final(self).excerpt_idx == 0,
            final(self).symbols == old(self).symbols,
            final(self).packs == old(self).packs,
            final(self).repo_roots == old(self).repo_roots,
            final(self).status == old(self).status,
            final(self).should_quit == old(self).should_quit,
    {
        let cs = chars_of(self.filter.as_str());
        if cs.len() > 0 {
            let mut keep: Vec<char> = Vec::new();
            let mut i: usize = 0;
            while i < cs.len() - 1
                invariant
                    i < cs@.len(),
                    keep@ == cs@.take(i as int),
                decreases cs@.len() - i,
            {
                keep.push(cs[i]);
                assert(keep@ =~= cs@.take(i + 1));
                i = i + 1;
            }
            assert(keep@ =~= cs@.drop_last());
            self.filter = string_from_chars(&keep);
        }
        self.refilter();
    }

    /// Empties the filter.
    pub fn clear_filter(&mut self)
        requires
            old(self).wf(),
        ensures
            final(self).wf(),
            final(self).filter@.len() == 0,
            final(self).selected == 0,
            final(self).excerpt_idx == 0,
            final(self).symbols == old(self).symbols,
            final(self).packs == old(self).packs,
            final(self).repo_roots == old(self).repo_roots,
            final(self).status == old(self).status,
            final(self).should_quit == old(self).should_quit,
    {
        self.filter = String::new();
        self.refilter();
    }

    /// Selects the next entry, unless the last one is selected.
    pub fn move_down(&mut self)
        ensures
            old(self).selected + 1 < old(self).filtered@.len() ==> final(self).selected == old(self).selected + 1
                && final(self).excerpt_idx == 0,
            old(self).selected + 1 >= old(self).filtered@.len() ==> *final(self) == *old(self),
            final(self).symbols == old(self).symbols,
            final(self).filtered == old(self).filtered,
            final(self).filter == old(self).filter,
            final(self).packs == old(self).packs,
            final(self).repo_roots == old(self).repo_roots,
            final(self).status == old(self).status,
            final(self).should_quit == old(self).should_quit,
            final(self).scan_warnings == old(self).scan_warnings,
            final(self).excerpt_idx == old(self).excerpt_idx || final(self).excerpt_idx == 0,
    {
        if self.selected < self.filtered.len() && self.selected + 1 < self.filtered.len() {
            self.selected = self.selected + 1;
            self.excerpt_idx = 0;
        }
    }

    /// Selects the previous entry, unless the first one is selected.
    pub fn move_up(&mut self)
        ensures
            old(self).selected > 0 ==> final(self).selected == old(self).selected - 1 && final(self).excerpt_idx == 0,
            old(self).selected == 0 ==> *final(self) == *old(self),
            final(self).symbols == old(self).symbols,
            final(self).filtered == old(self).filtered,
            final(self).filter == old(self).filter,
            final(self).packs == old(self).packs,
            final(self).repo_roots == old(self).repo_roots,
            final(self).status == old(self).status,
            final(self).should_quit == old(self).should_quit,
            final(self).scan_warnings == old(self).scan_warnings,
            final(self).excerpt_idx == old(self).excerpt_idx || final(self).excerpt_idx == 0,
    {
        if self.selected > 0 {
            self.selected = self.selected - 1;
            self.excerpt_idx = 0;
        }
    }

    /// The index of the selected symbol, if the selection is in range.
    pub open spec fn selected_index(&self) -> Option<int> {
        if self.selected < self.filtered@.len() {
            Some(self.filtered@[self.selected as int] as int)
        } else {
            None
        }
    }

    /// The selected symbol, if any.
    pub fn selected_symbol(&self) -> (r: Option<&SymbolEntry>)
        requires
            self.wf(),
        ensures
            match self.selected_index() {
                Some(i) => r matches Some(e) && *e == self.symbols@[i],
                None => r is None,
            },
    {
        if self.selected < self.filtered.len() {
            Some(&self.symbols[self.filtered[self.selected]])
        } else {
            None
        }
    }

    /// The pack state of the selected symbol, if any.
    pub fn current_pack(&self) -> (r: Option<&PackState>)
        requires
            self.wf(),
        ensures
            match self.selected_index() {
                Some(i) => if self.packs.view_map().contains_key(self.symbols@[i].name@) {
                    r matches Some(p) && *p == self.packs.view_map()[self.symbols@[i].name@]
                } else {
                    r is None
                },
                None => r is None,
            },
    {
        match self.selected_symbol() {
            Some(sym) => self.packs.get(&sym.name),
            None => None,
        }
    }

    /// Number of excerpts of the selected symbol's loaded pack (0 when not
    /// loaded).
    pub open spec fn excerpt_count_spec(&self) -> nat {
        match self.selected_index() {
            Some(i) => if self.packs.view_map().contains_key(self.symbols@[i].name@) {
                match self.packs.view_map()[self.symbols@[i].name@] {
                    PackState::Ready(p) => p.excerpts@.len(),
                    _ => 0,
                }
            } else {
                0
            },
            None => 0,
        }
    }

    fn excerpt_count(&self) -> (n: usize)
        requires
            self.wf(),
        ensures
            n == self.excerpt_count_spec(),
    {
        match self.current_pack() {
            Some(PackState::Ready(pack)) => pack.excerpts.len(),
            _ => 0,
        }
    }

    /// Shows the next excerpt, wrapping around.
    pub fn next_excerpt(&mut self)
        requires
            old(self).wf(),
        ensures
            final(self).excerpt_idx == (if old(self).excerpt_count_spec() > 0 {
                ((old(self).excerpt_idx + 1) % (old(self).excerpt_count_spec() as int)) as usize
            } else {
                old(self).excerpt_idx
            }),
            final(self).wf(),
            final(self).selected == old(self).selected,
            final(self).filtered == old(self).filtered,
            final(self).symbols == old(self).symbols,
            final(self).packs == old(self).packs,
            final(self).filter == old(self).filter,
            final(self).repo_roots == old(self).repo_roots,
            final(self).status == old(self).status,
            final(self).should_quit == old(self).should_quit,
    {
        let count = self.excerpt_count();
        if count > 0 {
            self.excerpt_idx = ((self.excerpt_idx as u128 + 1) % (count as u128)) as usize;
        }
    }

    /// Shows the previous excerpt, wrapping around.
    pub fn prev_excerpt(&mut self)
        requires
            old(self).wf(),
        ensures
            final(self).excerpt_idx == (if old(self).excerpt_count_spec() > 0 {
                ((old(self).excerpt_idx + old(self).excerpt_count_spec() - 1) % (old(
                    self,
                ).excerpt_count_spec() as int)) as usize
            } else {
                old(self).excerpt_idx
            }),
            final(self).wf(),
            final(self).selected == old(self).selected,
            final(self).filtered == old(self).filtered,
            final(self).symbols == old(self).symbols,
            final(self).packs == old(self).packs,
            final(self).filter == old(self).filter,
            final(self).repo_roots == old(self).repo_roots,
            final(self).status == old(self).status,
            final(self).should_quit == old(self).should_quit,
    {
        let count = self.excerpt_count();
        if count > 0 {
            self.excerpt_idx = ((self.excerpt_idx as u128 + count as u128 - 1) % (count as u128)) as usize;
        }
    }

    /// Symbol whose context pack should be scanned now, if any: the
    /// selected one, when it has no pack state yet.
    pub fn needs_scan(&self) -> (r: Option<String>)
        requires
            self.wf(),
        ensures
            match self.selected_index() {
                Some(i) => if self.packs.view_map().contains_key(self.symbols@[i].name@) {
                    r is None
                } else {
                    r matches Some(n) && n@ == self.symbols@[i].name@
                },
                None => r is None,
            },
    {
        match self.selected_symbol() {
            Some(sym) => if self.packs.get(&sym.name).is_some() {
                None
            } else {
                Some(copy_string(&sym.name))
            },
            None => None,
        }
    }

    /// Records that a symbol's pack is being scanned.
    pub fn mark_loading(&mut self, symbol: String)
        requires
            old(self).wf(),
        ensures
            final(self).wf(),
            final(self).packs.view_map() == old(self).packs.view_map().insert(symbol@, PackState::Loading),
            final(self).selected == old(self).selected,
            final(self).filtered == old(self).filtered,
            final(self).symbols == old(self).symbols,
    {
        self.packs.insert(symbol, PackState::Loading);
    }

    /// Records a finished scan: the pack, or the error it failed with.
    pub fn on_scan_result(&mut self, symbol: String, result: Result<ContextPack, String>)
        requires
            old(self).wf(),
        ensures
            final(self).wf(),
            final(self).packs.view_map() == old(self).packs.view_map().insert(
                symbol@,
                match result {
                    Ok(pack) => PackState::Ready(Box::new(pack)),
                    Err(err) => PackState::Failed(err),
                },
            ),
            final(self).selected == old(self).selected,
            final(self).filtered == old(self).filtered,
            final(self).symbols == old(self).symbols,
    {
        let state = match result {
            Ok(pack) => PackState::Ready(Box::new(pack)),
            Err(err) => PackState::Failed(err),
        };
        self.packs.insert(symbol, state);
    }

    /// Jump target: the shown usage excerpt when the pack is loaded,
    /// otherwise the symbol's first declaration site; none without a
    /// selection, a site, or a known repo root.
    pub open spec fn open_target_spec(&self) -> Option<(Seq<char>, usize)> {
        match self.selected_index() {
            None => None,
            Some(i) => {
                let sym = self.symbols@[i];
                let roots = self.repo_roots.view_map();
                let shown = if self.packs.view_map().contains_key(sym.name@) {
                    match self.packs.view_map()[sym.name@] {
                        PackState::Ready(p) => if self.excerpt_idx < p.excerpts@.len() {
                            Some(p.excerpts@[self.excerpt_idx as int])
                        } else {
                            None
                        },
                        _ => None,
                    }
                } else {
                    None
                };
                match shown {
                    Some(e) => if roots.contains_key(e.repo@) {
                        Some((path_join(roots[e.repo@]@, e.file@), e.line))
                    } else {
                        None
                    },
                    None => if sym.sites@.len() > 0 && roots.contains_key(sym.sites@[0].repo@) {
                        Some((path_join(roots[sym.sites@[0].repo@]@, sym.sites@[0].file@), sym.sites@[0].line))
                    } else {
                        None
                    },
                }
            },
        }
    }

    /// Where Enter jumps to.
    pub fn open_target(&self) -> (r: Option<Action>)
        requires
            self.wf(),
        ensures
            match self.open_target_spec() {
                Some((p, l)) => r matches Some(Action::OpenEditor(path, line)) && path@ == p && line == l,
                None => r is None,
            },
    {
        let symbol = match self.selected_symbol() {
            Some(s) => s,
            None => return None,
        };
        match self.current_pack() {
            Some(PackState::Ready(pack)) => {
                if self.excerpt_idx < pack.excerpts.len() {
                    let e = &pack.excerpts[self.excerpt_idx];
                    return match self.repo_roots.get(&e.repo) {
                        Some(root) => Some(Action::OpenEditor(join_path(root.as_str(), e.file.as_str()), e.line)),
                        None => None,
                    };
                }
            },
            _ => {},
        }
        if symbol.sites.len() == 0 {
            return None;
        }
        let site = &symbol.sites[0];
        match self.repo_roots.get(&site.repo) {
            Some(root) => Some(Action::OpenEditor(join_path(root.as_str(), site.file.as_str()), site.line)),
            None => None,
        }
    }

    /// What a key press does: Ctrl-C quits; Esc clears the filter, or quits
    /// when it is empty; arrows move the selection; Tab and Shift-Tab cycle
    /// excerpts; Backspace shortens the filter; Enter asks to open the
    /// target; any other character extends the filter. Every key clears
    /// the status line.
    pub fn handle_key(&mut self, key: Key) -> (r: Option<Action>)
        requires
            old(self).wf(),
        ensures
            final(self).wf(),
            final(self).status is None,
            (key matches Key::Ctrl(c) && c == 'c') ==> final(self).should_quit,
            match key {
                Key::Enter => match old(self).open_target_spec() {
                    Some((p, l)) => r matches Some(Action::OpenEditor(path, line)) && path@ == p && line == l,
                    None => r is None,
                },
                _ => r is None,
            },
            match key {
                Key::Esc => if old(self).filter@.len() == 0 {
                    final(self).should_quit
                } else {
                    final(self).filter@.len() == 0 && final(self).selected == 0
                },
                Key::Up => final(self).selected == (if old(self).selected > 0 {
                    old(self).selected - 1
                } else {
                    0
                }),
                Key::Down => final(self).selected == (if old(self).selected + 1 < old(self).filtered@.len() {
                    old(self).selected + 1
                } else {
                    old(self).selected as int
                }),
                Key::Backspace => final(self).filter@ == (if old(self).filter@.len() > 0 {
                    old(self).filter@.drop_last()
                } else {
                    old(self).filter@
                }),
                Key::Char(c) => final(self).filter@ == old(self).filter@.push(c),
                _ => true,
            },
    {
        self.status = None;
        match key {
            Key::Ctrl(c) => {
                if c == 'c' {
                    self.should_quit = true;
                }
            },
            Key::Esc => {
                if chars_of(self.filter.as_str()).len() == 0 {
                    self.should_quit = true;
                } else {
                    self.clear_filter();
                }
            },
            Key::Up => self.move_up(),
            Key::Down => self.move_down(),
            Key::Tab => self.next_excerpt(),
            Key::BackTab => self.prev_excerpt(),
            Key::Backspace => self.pop_filter(),
            Key::Enter => {
                return self.open_target();
            },
            Key::Char(c) => self.push_filter(c),
            Key::Other => {},
        }
        None
    }
}

/// Showing the next excerpt and then the previous one comes back to the
/// excerpt shown before.
pub proof fn law_excerpt_cycle_returns(i: int, count: int)
    requires
        0 <= i < count,
    ensures
        ((((i + 1) % count) + count - 1) % count) == i,
{
    if i + 1 < count {
        assert((i + 1) % count == i + 1) by (nonlinear_arith)
            requires
                0 <= i + 1 < count,
        ;
        assert((i + 1 + count - 1) % count == i) by (nonlinear_arith)
            requires
                0 <= i < count,
        ;
    } else {
        assert((i + 1) % count == 0) by (nonlinear_arith)
            requires
                i + 1 == count,
                count > 0,
        ;
        assert((0 + count - 1) % count == count - 1) by (nonlinear_arith)
            requires
                count > 0,
        ;
    }
}

/// With an empty filter every symbol scores 0, in list order.
proof fn lemma_scored_empty(symbols: Seq<SymbolEntry>, n: int)
    requires
        0 <= n <= symbols.len(),
        symbols.len() <= usize::MAX,
    ensures
        scored(symbols, seq![], n) == Seq::new(n as nat, |i: int| (0i128, i as usize)),
    decreases n,
{
    if n > 0 {
        lemma_scored_empty(symbols, n - 1);
        let name = symbols[n - 1].name@;
        crate::fuzzy::law_empty_query_matches_everything(name, utf8_len(name) as int);
        assert(scored(symbols, seq![], n) =~= Seq::new(n as nat, |i: int| (0i128, i as usize)));
    } else {
        assert(scored(symbols, seq![], n) =~= Seq::new(n as nat, |i: int| (0i128, i as usize)));
    }
}

/// An empty filter lists every symbol, in list order.
pub proof fn law_empty_filter_lists_everything(symbols: Seq<SymbolEntry>)
    requires
        symbols.len() <= usize::MAX,
    ensures
        filtered_spec(symbols, seq![]) == Seq::new(symbols.len(), |i: int| i as usize),
{
    let n = symbols.len() as int;
    lemma_scored_empty(symbols, n);
    let sc = scored(symbols, seq![], n);
    assert forall|i: int, j: int| #![trigger sc[i], sc[j]] 0 <= i < j < sc.len() implies !sc[j].before(&sc[i]) by {
    }
    crate::sort::lemma_sort_ordered_unchanged(sc);
    assert(sc.map_values(|p: (i128, usize)| p.1) =~= Seq::new(symbols.len(), |i: int| i as usize));
}

/// Whether the selected symbol's pack is loaded and has an excerpt at
/// index `idx` to show.
pub open spec fn excerpt_shown(packs: Map<Seq<char>, PackState>, name: Seq<char>, idx: usize) -> bool {
    packs.contains_key(name) && (packs[name] matches PackState::Ready(p) && idx < p.excerpts@.len())
}

/// Without a usage excerpt to show (the pack is missing, still loading,
/// failed, or has no excerpt at the current index), Enter opens the
/// selected symbol's first declaration site whenever it has one and its
/// repo root is known; with an excerpt shown, Enter opens that excerpt's
/// line when its repo root is known.
pub proof fn law_open_target_without_excerpt_is_the_declaration(app: App)
    requires
        app.selected_index() is Some,
    ensures
        ({
            let sym = app.symbols@[app.selected_index()->0];
            let roots = app.repo_roots.view_map();
            !excerpt_shown(app.packs.view_map(), sym.name@, app.excerpt_idx) && sym.sites@.len() > 0
                && roots.contains_key(sym.sites@[0].repo@) ==> app.open_target_spec() == Some(
                (path_join(roots[sym.sites@[0].repo@]@, sym.sites@[0].file@), sym.sites@[0].line),
            )
        }),
        ({
            let sym = app.symbols@[app.selected_index()->0];
            let roots = app.repo_roots.view_map();
            let packs = app.packs.view_map();
            excerpt_shown(packs, sym.name@, app.excerpt_idx) ==> (packs[sym.name@] matches PackState::Ready(p) && ({
                let e = p.excerpts@[app.excerpt_idx as int];
                roots.contains_key(e.repo@) ==> app.open_target_spec() == Some((path_join(roots[e.repo@]@, e.file@), e.line))
            }))
        }),
{
}

} // verus!
