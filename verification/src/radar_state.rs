//! What the dependency radar remembers between refreshes: which chains,
//! cycles and files are expanded, whether everything is, and which files
//! are focused; and the counts it shows per file.
use vstd::prelude::*;
use crate::radar::{
    combined_focus, contains_string, focus_edge, focus_file, file_change, same_string, string_views, DependencyFocus,
    Edge, Graph,
};

verus! {

/// A set of names kept as a list without repeats.
pub open spec fn is_set(v: Seq<String>) -> bool {
    string_views(v).no_duplicates()
}

/// The set after toggling `x`: removed when present, added otherwise.
pub open spec fn toggled(s: Set<Seq<char>>, x: Seq<char>) -> Set<Seq<char>> {
    if s.contains(x) {
        s.remove(x)
    } else {
        s.insert(x)
    }
}

/// Toggles `x` in the set kept in `v`.
pub fn toggle(v: &mut Vec<String>, x: String)
    requires
        is_set(old(v)@),
    ensures
        is_set(final(v)@),
        string_views(final(v)@).to_set() == toggled(string_views(old(v)@).to_set(), x@),
{
    let ghost before = string_views(v@);
    let mut i: usize = 0;
    while i < v.len()
        invariant
            i <= v@.len(),
            before == string_views(v@),
            before == string_views(old(v)@),
            before.no_duplicates(),
            forall|k: int| 0 <= k < i ==> before[k] != x@,
        decreases v@.len() - i,
    {
        if same_string(&v[i], &x) {
            v.remove(i);
            proof {
                let after = string_views(v@);
                assert(after =~= before.remove(i as int));
                assert(before.contains(x@)) by {
                    assert(before[i as int] == x@);
                }
                assert(before.to_set().contains(x@));
                assert forall|a: int, b: int| 0 <= a < b < after.len() implies after[a] != after[b] by {
                    let a0 = if a < i { a } else { a + 1 };
                    let b0 = if b < i { b } else { b + 1 };
                    assert(after[a] == before[a0] && after[b] == before[b0]);
                }
                assert(after.to_set() =~= before.to_set().remove(x@)) by {
                    assert forall|y: Seq<char>| after.to_set().contains(y) <==> before.to_set().remove(x@).contains(y) by {
                        assert(after.to_set().contains(y) == after.contains(y));
                        assert(before.to_set().contains(y) == before.contains(y));
                        assert(before[i as int] == x@);
                        if after.contains(y) {
                            let t = choose|t: int| 0 <= t < after.len() && after[t] == y;
                            let t0 = if t < i { t } else { t + 1 };
                            assert(before[t0] == y);
                            assert(t0 != i);
                            assert(y != x@);
                        }
                        if before.contains(y) && y != x@ {
                            let t = choose|t: int| 0 <= t < before.len() && before[t] == y;
                            assert(t != i);
                            if t < i {
                                assert(after[t] == y);
                            } else {
                                assert(after[t - 1] == y);
                            }
                        }
                    }
                }
            }
            return;
        }
        i = i + 1;
    }
    let ghost xv = x@;
    v.push(x);
    proof {
        let after = string_views(v@);
        assert(after =~= before.push(xv));
        assert(!before.contains(xv));
        assert(!before.to_set().contains(xv));
        assert forall|a: int, b: int| 0 <= a < b < after.len() implies after[a] != after[b] by {
            if b == before.len() {
                assert(after[a] == before[a]);
            }
        }
        assert(after.to_set() =~= before.to_set().insert(xv)) by {
            assert forall|y: Seq<char>| after.to_set().contains(y) <==> before.to_set().insert(xv).contains(y) by {
                assert(after.to_set().contains(y) == after.contains(y));
                assert(before.to_set().contains(y) == before.contains(y));
                if after.contains(y) {
                    let t = choose|t: int| 0 <= t < after.len() && after[t] == y;
                    if t < before.len() {
                        assert(before[t] == y);
                    }
                }
                if before.contains(y) {
                    let t = choose|t: int| 0 <= t < before.len() && before[t] == y;
                    assert(after[t] == y);
                }
                if y == xv {
                    assert(after[before.len() as int] == y);
                }
            }
        }
    }
}

/// Toggling the same name twice leaves a set as it was.
pub proof fn toggle_twice(s: Set<Seq<char>>, x: Seq<char>)
    ensures
        toggled(toggled(s, x), x) == s,
{
    if s.contains(x) {
        assert(s.remove(x).insert(x) =~= s);
    } else {
        assert(s.insert(x).remove(x) =~= s);
    }
}

/// The radar's expansion and focus choices.
pub struct RadarSelection {
    pub expanded: Vec<String>,
    pub cycles: Vec<String>,
    pub expanded_files: Vec<String>,
    pub expand_all: bool,
    pub focused_files: Vec<String>,
}

/// Whether the graph has a file at path `p`.
pub open spec fn has_file_at(g: Graph, p: Seq<char>) -> bool {
    exists|i: int| 0 <= i < g.files@.len() && #[trigger] g.files@[i].path@ == p
}

/// Whether the graph has a file at path `p`.
fn graph_has_file(g: &Graph, p: &String) -> (b: bool)
    ensures
        b == has_file_at(*g, p@),
{
    let mut i: usize = 0;
    while i < g.files.len()
        invariant
            i <= g.files@.len(),
            forall|j: int| 0 <= j < i ==> #[trigger] g.files@[j].path@ != p@,
        decreases g.files@.len() - i,
    {
        if g.files[i].path == *p {
            assert(g.files@[i as int].path@ == p@);
            return true;
        }
        i = i + 1;
    }
    false
}

/// The focused paths that the graph still has, in order.
pub open spec fn focus_kept(focused: Seq<String>, g: Graph) -> Seq<Seq<char>> {
    string_views(focused).filter(|p: Seq<char>| has_file_at(g, p))
}

impl RadarSelection {
    /// Every list holds each name once.
    pub open spec fn wf(&self) -> bool {
        &&& is_set(self.expanded@)
        &&& is_set(self.cycles@)
        &&& is_set(self.expanded_files@)
        &&& is_set(self.focused_files@)
    }

    /// Nothing expanded or focused.
    pub fn new() -> (s: RadarSelection)
        ensures
            s.wf(),
            s.expanded@.len() == 0,
            s.cycles@.len() == 0,
            s.expanded_files@.len() == 0,
            s.focused_files@.len() == 0,
            !s.expand_all,
    {
        RadarSelection {
            expanded: Vec::new(),
            cycles: Vec::new(),
            expanded_files: Vec::new(),
            expand_all: false,
            focused_files: Vec::new(),
        }
    }

    /// Takes in the graph of a finished background refresh. A result for an
    /// older request (`result_generation` is not the latest `generation`)
    /// is dropped and nothing changes; otherwise the focus stays only on the
    /// files the new graph still has.
    pub fn accept_graph(&mut self, result_generation: u64, generation: u64, graph: &Graph) -> (accepted: bool)
        requires
            old(self).wf(),
        ensures
            final(self).wf(),
            accepted == (result_generation == generation),
            !accepted ==> *final(self) == *old(self),
            accepted ==> {
                &&& string_views(final(self).focused_files@) == focus_kept(old(self).focused_files@, *graph)
                &&& final(self).expanded@ == old(self).expanded@
                &&& final(self).cycles@ == old(self).cycles@
                &&& final(self).expanded_files@ == old(self).expanded_files@
                &&& final(self).expand_all == old(self).expand_all
            },
    {
        if result_generation != generation {
            return false;
        }
        let ghost old_views = string_views(self.focused_files@);
        let mut kept: Vec<String> = Vec::new();
        let mut i: usize = 0;
        while i < self.focused_files.len()
            invariant
                i <= self.focused_files@.len(),
                old_views == string_views(self.focused_files@),
                old_views.no_duplicates(),
                string_views(kept@) == old_views.take(i as int).filter(|p: Seq<char>| has_file_at(*graph, p)),
                forall|k: int| 0 <= k < kept@.len() ==> exists|t: int| 0 <= t < i && #[trigger] kept@[k]@ == old_views[t],
                string_views(kept@).no_duplicates(),
            decreases self.focused_files@.len() - i,
        {
            assert(old_views.take(i + 1).drop_last() =~= old_views.take(i as int));
            proof {
                reveal(Seq::filter);
            }
            let present = graph_has_file(graph, &self.focused_files[i]);
            if present {
                let ghost k0 = kept@;
                kept.push(self.focused_files[i].clone());
                assert(string_views(kept@) =~= string_views(k0).push(old_views[i as int]));
                assert forall|a: int, b: int| 0 <= a < b < kept@.len() implies string_views(kept@)[a] != string_views(kept@)[b] by {
                    if b == kept@.len() - 1 {
                        let t = choose|t: int| 0 <= t < i && #[trigger] k0[a]@ == old_views[t];
                        assert(kept@[a] == k0[a]);
                    } else {
                        assert(kept@[a] == k0[a] && kept@[b] == k0[b]);
                        assert(string_views(k0)[a] != string_views(k0)[b]);
                    }
                }
                assert forall|k: int| 0 <= k < kept@.len() implies exists|t: int| 0 <= t < i + 1 && #[trigger] kept@[k]@ == old_views[t] by {
                    if k < k0.len() {
                        assert(kept@[k] == k0[k]);
                        let t = choose|t: int| 0 <= t < i && #[trigger] k0[k]@ == old_views[t];
                        assert(kept@[k]@ == old_views[t]);
                    } else {
                        assert(kept@[k]@ == old_views[i as int]);
                    }
                }
            }
            i = i + 1;
        }
        assert(old_views.take(i as int) =~= old_views);
        self.focused_files = kept;
        true
    }

    /// Expands everything unless the diagram already shows everything
    /// expanded, in which case everything collapses; the per-chain
    /// exceptions are dropped either way.
    pub fn toggle_all(&mut self, all_expanded: bool)
        requires
            old(self).wf(),
        ensures
            final(self).wf(),
            final(self).expand_all == !all_expanded,
            final(self).expanded@.len() == 0,
            final(self).cycles@ == old(self).cycles@,
            final(self).expanded_files@ == old(self).expanded_files@,
            final(self).focused_files@ == old(self).focused_files@,
    {
        self.expand_all = !all_expanded;
        self.expanded.clear();
        assert(string_views(self.expanded@) =~= Seq::<Seq<char>>::empty());
    }

    /// Toggles a chain: with everything expanded, the listed chains are the
    /// collapsed exceptions.
    pub fn toggle_chain(&mut self, key: String)
        requires
            old(self).wf(),
        ensures
            final(self).wf(),
            string_views(final(self).expanded@).to_set() == toggled(string_views(old(self).expanded@).to_set(), key@),
            final(self).cycles@ == old(self).cycles@,
            final(self).expanded_files@ == old(self).expanded_files@,
            final(self).focused_files@ == old(self).focused_files@,
            final(self).expand_all == old(self).expand_all,
    {
        toggle(&mut self.expanded, key);
    }

    /// Toggles whether a cycle is expanded.
    pub fn toggle_cycle(&mut self, key: String)
        requires
            old(self).wf(),
        ensures
            final(self).wf(),
            string_views(final(self).cycles@).to_set() == toggled(string_views(old(self).cycles@).to_set(), key@),
            final(self).expanded@ == old(self).expanded@,
            final(self).expanded_files@ == old(self).expanded_files@,
            final(self).focused_files@ == old(self).focused_files@,
            final(self).expand_all == old(self).expand_all,
    {
        toggle(&mut self.cycles, key);
    }

    /// Toggles whether a file card shows all its functions.
    pub fn toggle_file(&mut self, path: String)
        requires
            old(self).wf(),
        ensures
            final(self).wf(),
            string_views(final(self).expanded_files@).to_set() == toggled(
                string_views(old(self).expanded_files@).to_set(),
                path@,
            ),
            final(self).expanded@ == old(self).expanded@,
            final(self).cycles@ == old(self).cycles@,
            final(self).focused_files@ == old(self).focused_files@,
            final(self).expand_all == old(self).expand_all,
    {
        toggle(&mut self.expanded_files, path);
    }

    /// Toggles whether a file is focused.
    pub fn toggle_dependency_focus(&mut self, path: String)
        requires
            old(self).wf(),
        ensures
            final(self).wf(),
            string_views(final(self).focused_files@).to_set() == toggled(
                string_views(old(self).focused_files@).to_set(),
                path@,
            ),
            final(self).expanded@ == old(self).expanded@,
            final(self).cycles@ == old(self).cycles@,
            final(self).expanded_files@ == old(self).expanded_files@,
            final(self).expand_all == old(self).expand_all,
    {
        toggle(&mut self.focused_files, path);
    }

    /// Focuses no file.
    pub fn clear_dependency_focus(&mut self)
        requires
            old(self).wf(),
        ensures
            final(self).wf(),
            final(self).focused_files@.len() == 0,
            final(self).expanded@ == old(self).expanded@,
            final(self).cycles@ == old(self).cycles@,
            final(self).expanded_files@ == old(self).expanded_files@,
            final(self).expand_all == old(self).expand_all,
    {
        self.focused_files.clear();
        assert(string_views(self.focused_files@) =~= Seq::<Seq<char>>::empty());
    }

    /// The focus of the focused files together, when there is a graph and a
    /// focused file: see [`combined_focus`].
    pub fn dependency_focus(&self, graph: Option<&Graph>) -> (r: Option<DependencyFocus>)
        requires
            graph matches Some(g) ==> g.wf(),
        ensures
            r is None <==> (self.focused_files@.len() == 0 || graph is None),
            r matches Some(focus) ==> forall|x: Seq<char>|
                string_views(focus.files@).contains(x) <==> exists|k: int|
                    0 <= k < self.focused_files@.len() && file_change(graph.unwrap().files@, #[trigger] self.focused_files@[k]@) is Some
                        && focus_file(
                        graph.unwrap().edges@,
                        file_change(graph.unwrap().files@, self.focused_files@[k]@).unwrap(),
                        self.focused_files@[k]@,
                        x,
                    ),
            r matches Some(focus) ==> forall|a: Seq<char>, b: Seq<char>|
                crate::radar::pair_views(focus.edges@).contains((a, b)) <==> exists|k: int|
                    0 <= k < self.focused_files@.len() && file_change(graph.unwrap().files@, #[trigger] self.focused_files@[k]@) is Some
                        && focus_edge(
                        graph.unwrap().edges@,
                        file_change(graph.unwrap().files@, self.focused_files@[k]@).unwrap(),
                        self.focused_files@[k]@,
                        a,
                        b,
                    ),
    {
        if self.focused_files.len() == 0 {
            return None;
        }
        match graph {
            Some(g) => combined_focus(g, &self.focused_files),
            None => None,
        }
    }
}

/// The files of a list of counts.
pub open spec fn count_keys(counts: Seq<(String, usize)>) -> Seq<Seq<char>> {
    counts.map_values(|c: (String, usize)| c.0@)
}

/// How many imports lead to `path` among the first `n`.
pub open spec fn importers(edges: Seq<Edge>, path: Seq<char>, n: int) -> int
    decreases n,
{
    if n <= 0 {
        0
    } else {
        importers(edges, path, n - 1) + if edges[n - 1].to@ == path { 1int } else { 0int }
    }
}

proof fn lemma_importers_bound(edges: Seq<Edge>, path: Seq<char>, n: int)
    requires
        0 <= n <= edges.len(),
    ensures
        0 <= importers(edges, path, n) <= n,
    decreases n,
{
    if n > 0 {
        lemma_importers_bound(edges, path, n - 1);
    }
}

/// For each imported file, how many imports lead to it: each imported file
/// once, with its count.
pub fn dependent_counts(graph: &Graph) -> (counts: Vec<(String, usize)>)
    ensures
        count_keys(counts@).no_duplicates(),
        forall|k: int| 0 <= k < counts@.len() ==> (#[trigger] counts@[k]).1 == importers(
            graph.edges@,
            counts@[k].0@,
            graph.edges@.len() as int,
        ),
        forall|x: Seq<char>| #[trigger] count_keys(counts@).contains(x) <==> exists|i: int|
            0 <= i < graph.edges@.len() && #[trigger] graph.edges@[i].to@ == x,
{
    let edges = &graph.edges;
    let mut counts: Vec<(String, usize)> = Vec::new();
    let mut i: usize = 0;
    while i < edges.len()
        invariant
            i <= edges@.len(),
            edges@ == graph.edges@,
            count_keys(counts@).no_duplicates(),
            forall|k: int| 0 <= k < counts@.len() ==> (#[trigger] counts@[k]).1 == importers(edges@, counts@[k].0@, i as int),
            forall|x: Seq<char>| #[trigger] count_keys(counts@).contains(x) <==> exists|t: int|
                0 <= t < i && #[trigger] edges@[t].to@ == x,
        decreases edges@.len() - i,
    {
        let target = &edges[i].to;
        let ghost keys = count_keys(counts@);
        let ghost c0 = counts@;
        let position = position_of_key(&counts, target);
        if let Some(k) = position {
            proof {
                lemma_importers_bound(edges@, target@, i as int);
            }
            let n = counts[k].1 + 1;
            let key = counts[k].0.clone();
            counts.set(k, (key, n));
            proof {
                assert(count_keys(counts@)[k as int] == count_keys(c0)[k as int]);
                assert(count_keys(counts@) =~= keys);
                assert forall|t: int| 0 <= t < counts@.len() implies (#[trigger] counts@[t]).1 == importers(edges@, counts@[t].0@, i + 1) by {
                    if t != k {
                        assert(counts@[t] == c0[t]);
                        assert(keys[t] == c0[t].0@);
                        assert(keys[k as int] == c0[k as int].0@);
                    }
                }
                assert forall|x: Seq<char>| #[trigger] count_keys(counts@).contains(x) <==> exists|t: int|
                    0 <= t < i + 1 && #[trigger] edges@[t].to@ == x by {
                    if exists|t: int| 0 <= t < i + 1 && #[trigger] edges@[t].to@ == x {
                        let t = choose|t: int| 0 <= t < i + 1 && #[trigger] edges@[t].to@ == x;
                        if t == i {
                            assert(keys[k as int] == x);
                        }
                    }
                }
            }
        } else {
            let ghost tv = target@;
            counts.push((target.clone(), 1));
            proof {
                let nk = count_keys(counts@);
                assert(nk =~= keys.push(tv));
                assert(!keys.contains(tv)) by {
                    if keys.contains(tv) {
                        let t = choose|t: int| 0 <= t < keys.len() && keys[t] == tv;
                        assert(c0[t].0@ == tv);
                    }
                }
                assert forall|a: int, b: int| 0 <= a < b < nk.len() implies nk[a] != nk[b] by {
                    if b == keys.len() {
                        assert(nk[a] == keys[a]);
                    }
                }
                assert forall|t: int| 0 <= t < counts@.len() implies (#[trigger] counts@[t]).1 == importers(edges@, counts@[t].0@, i + 1) by {
                    if t < c0.len() {
                        assert(counts@[t] == c0[t]);
                        assert(keys[t] == c0[t].0@);
                        if c0[t].0@ == tv {
                            assert(keys.contains(tv));
                        }
                    } else {
                        assert(importers(edges@, tv, i as int) == 0) by {
                            lemma_importers_zero(edges@, tv, i as int);
                        }
                    }
                }
                assert forall|x: Seq<char>| nk.contains(x) <==> exists|t: int| 0 <= t < i + 1 && #[trigger] edges@[t].to@ == x by {
                    if nk.contains(x) {
                        let t = choose|t: int| 0 <= t < nk.len() && nk[t] == x;
                        if t < keys.len() {
                            assert(keys[t] == x);
                            assert(keys.contains(x));
                        } else {
                            assert(edges@[i as int].to@ == x);
                        }
                    }
                    if exists|t: int| 0 <= t < i + 1 && #[trigger] edges@[t].to@ == x {
                        let t = choose|t: int| 0 <= t < i + 1 && #[trigger] edges@[t].to@ == x;
                        if t == i {
                            assert(nk[keys.len() as int] == x);
                        } else {
                            assert(keys.contains(x));
                            let u = choose|u: int| 0 <= u < keys.len() && keys[u] == x;
                            assert(nk[u] == x);
                        }
                    }
                }
            }
        }
        i = i + 1;
    }
    counts
}

/// The position of `target`'s count.
fn position_of_key(counts: &Vec<(String, usize)>, target: &String) -> (r: Option<usize>)
    ensures
        match r {
            Some(k) => k < counts@.len() && counts@[k as int].0@ == target@,
            None => forall|t: int| 0 <= t < counts@.len() ==> counts@[t].0@ != target@,
        },
{
    let mut k: usize = 0;
    while k < counts.len()
        invariant
            k <= counts@.len(),
            forall|t: int| 0 <= t < k ==> counts@[t].0@ != target@,
        decreases counts@.len() - k,
    {
        if same_string(&counts[k].0, target) {
            return Some(k);
        }
        k = k + 1;
    }
    None
}

proof fn lemma_importers_zero(edges: Seq<Edge>, path: Seq<char>, n: int)
    requires
        0 <= n <= edges.len(),
        forall|t: int| 0 <= t < n ==> edges[t].to@ != path,
    ensures
        importers(edges, path, n) == 0,
    decreases n,
{
    if n > 0 {
        lemma_importers_zero(edges, path, n - 1);
    }
}

} // verus!
