//! Integer graph helpers of the dependency diagram: adjacency lists, strongly
//! connected components, and edges mapped onto groups of nodes.
use vstd::prelude::*;
use vstd::string::StringExecFns;
use crate::radar::Change;
use crate::text::{push_char};

verus! {

/// The key of a group of files: their paths joined by NUL characters.
pub open spec fn join_key(paths: Seq<Seq<char>>, n: int) -> Seq<char>
    decreases n,
{
    if n <= 0 {
        Seq::empty()
    } else if n == 1 {
        paths[0]
    } else {
        join_key(paths, n - 1) + seq!['\0'] + paths[n - 1]
    }
}

pub fn key(paths: &[String]) -> (k: String)
    ensures
        k@ == join_key(paths@.map_values(|p: String| p@), paths@.len() as int),
{
    let ghost views = paths@.map_values(|p: String| p@);
    let mut k = String::new();
    let mut i: usize = 0;
    while i < paths.len()
        invariant
            i <= paths@.len(),
            views == paths@.map_values(|p: String| p@),
            k@ == join_key(views, i as int),
        decreases paths@.len() - i,
    {
        if i > 0 {
            push_char(&mut k, '\0');
        }
        k.append(paths[i].as_str());
        assert(views[i as int] == paths@[i as int]@);
        assert(k@ =~= join_key(views, i + 1));
        i = i + 1;
    }
    k
}

/// The change of two merged edges: theirs when they agree, `Modified`
/// otherwise.
pub open spec fn combined(a: Change, b: Change) -> Change {
    if a == b {
        a
    } else {
        Change::Modified
    }
}

pub fn combine(a: Change, b: Change) -> (c: Change)
    ensures
        c == combined(a, b),
{
    if a == b {
        a
    } else {
        Change::Modified
    }
}

/// Merging two edges' changes does not depend on their order, and merging
/// a change with itself keeps it.
pub proof fn combined_commutes(a: Change, b: Change)
    ensures
        combined(a, b) == combined(b, a),
        combined(a, a) == a,
{
}

/// Strict lexicographic order of node pairs.
pub open spec fn pair_less(a: (usize, usize), b: (usize, usize)) -> bool {
    a.0 < b.0 || (a.0 == b.0 && a.1 < b.1)
}

/// Edges listed once each, in increasing order of their (from, to) pair.
pub open spec fn sorted_edges(edges: Seq<((usize, usize), Change)>) -> bool {
    forall|i: int, j: int| 0 <= i < j < edges.len() ==> pair_less(#[trigger] edges[i].0, #[trigger] edges[j].0)
}

/// Every edge joins two of the first `size` nodes.
pub open spec fn edges_within(edges: Seq<((usize, usize), Change)>, size: int) -> bool {
    forall|i: int| 0 <= i < edges.len() ==> (#[trigger] edges[i]).0.0 < size && edges[i].0.1 < size
}

/// The targets of the edges from `v` among the first `n` edges, in order.
pub open spec fn targets_of(edges: Seq<((usize, usize), Change)>, v: int, n: int) -> Seq<usize>
    decreases n,
{
    if n <= 0 {
        Seq::empty()
    } else if edges[n - 1].0.0 == v {
        targets_of(edges, v, n - 1).push(edges[n - 1].0.1)
    } else {
        targets_of(edges, v, n - 1)
    }
}

/// The sources of the edges into `v` among the first `n` edges, in order.
pub open spec fn sources_of(edges: Seq<((usize, usize), Change)>, v: int, n: int) -> Seq<usize>
    decreases n,
{
    if n <= 0 {
        Seq::empty()
    } else if edges[n - 1].0.1 == v {
        sources_of(edges, v, n - 1).push(edges[n - 1].0.0)
    } else {
        sources_of(edges, v, n - 1)
    }
}

/// The outgoing and incoming neighbours of each of `size` nodes, in edge
/// order.
pub fn adjacency(size: usize, edges: &Vec<((usize, usize), Change)>) -> (r: (Vec<Vec<usize>>, Vec<Vec<usize>>))
    requires
        edges_within(edges@, size as int),
    ensures
        r.0@.len() == size,
        r.1@.len() == size,
        forall|v: int| 0 <= v < size ==> #[trigger] r.0@[v]@ == targets_of(edges@, v, edges@.len() as int),
        forall|v: int| 0 <= v < size ==> #[trigger] r.1@[v]@ == sources_of(edges@, v, edges@.len() as int),
{
    let mut outgoing: Vec<Vec<usize>> = Vec::new();
    let mut incoming: Vec<Vec<usize>> = Vec::new();
    let mut k: usize = 0;
    while k < size
        invariant
            k <= size,
            outgoing@.len() == k,
            incoming@.len() == k,
            forall|v: int| 0 <= v < k ==> (#[trigger] outgoing@[v])@.len() == 0,
            forall|v: int| 0 <= v < k ==> (#[trigger] incoming@[v])@.len() == 0,
        decreases size - k,
    {
        outgoing.push(Vec::new());
        incoming.push(Vec::new());
        k = k + 1;
    }
    let mut i: usize = 0;
    while i < edges.len()
        invariant
            i <= edges@.len(),
            edges_within(edges@, size as int),
            outgoing@.len() == size,
            incoming@.len() == size,
            forall|v: int| 0 <= v < size ==> #[trigger] outgoing@[v]@ == targets_of(edges@, v, i as int),
            forall|v: int| 0 <= v < size ==> #[trigger] incoming@[v]@ == sources_of(edges@, v, i as int),
        decreases edges@.len() - i,
    {
        let (from, to) = edges[i].0;
        assert(edges_within(edges@, size as int));
        assert(from < size && to < size);
        let mut list = outgoing[from].clone();
        assert(list@ =~= outgoing@[from as int]@);
        list.push(to);
        outgoing.set(from, list);
        let mut list = incoming[to].clone();
        assert(list@ =~= incoming@[to as int]@);
        list.push(from);
        incoming.set(to, list);
        i = i + 1;
    }
    (outgoing, incoming)
}


/// The edges between groups, after mapping each node to its group with
/// `mapping`: edges inside one group are dropped, and edges that land on
/// the same pair of groups are merged, their changes combined in order.
pub open spec fn remapped(edges: Seq<((usize, usize), Change)>, mapping: Seq<usize>, n: int) -> Map<(usize, usize), Change>
    decreases n,
{
    if n <= 0 {
        Map::empty()
    } else {
        let m = remapped(edges, mapping, n - 1);
        let e = edges[n - 1];
        let pair = (mapping[e.0.0 as int], mapping[e.0.1 as int]);
        if pair.0 == pair.1 {
            m
        } else if m.contains_key(pair) {
            m.insert(pair, combined(m[pair], e.1))
        } else {
            m.insert(pair, e.1)
        }
    }
}

/// Whether the sorted edge list `v` holds exactly the entries of `m`.
pub open spec fn lists_map(v: Seq<((usize, usize), Change)>, m: Map<(usize, usize), Change>) -> bool {
    &&& forall|k: (usize, usize)| #[trigger] m.contains_key(k) <==> exists|i: int| 0 <= i < v.len() && #[trigger] v[i].0 == k
    &&& forall|i: int| 0 <= i < v.len() ==> m[#[trigger] v[i].0] == v[i].1
}

/// Whether every node of the edges has a group in `mapping`.
pub open spec fn mapped_within(edges: Seq<((usize, usize), Change)>, mapping: Seq<usize>) -> bool {
    forall|i: int| 0 <= i < edges.len() ==> (#[trigger] edges[i]).0.0 < mapping.len() && edges[i].0.1 < mapping.len()
}

pub fn remap(edges: &Vec<((usize, usize), Change)>, mapping: &[usize]) -> (r: Vec<((usize, usize), Change)>)
    requires
        mapped_within(edges@, mapping@),
    ensures
        sorted_edges(r@),
        lists_map(r@, remapped(edges@, mapping@, edges@.len() as int)),
{
    let mut result: Vec<((usize, usize), Change)> = Vec::new();
    let mut i: usize = 0;
    while i < edges.len()
        invariant
            i <= edges@.len(),
            mapped_within(edges@, mapping@),
            sorted_edges(result@),
            lists_map(result@, remapped(edges@, mapping@, i as int)),
        decreases edges@.len() - i,
    {
        let ghost m = remapped(edges@, mapping@, i as int);
        let ((from, to), change) = edges[i];
        assert(mapped_within(edges@, mapping@));
        let pair = (mapping[from], mapping[to]);
        if pair.0 != pair.1 {
            let mut p: usize = 0;
            while p < result.len() && pair_less_exec(result[p].0, pair)
                invariant
                    p <= result@.len(),
                    forall|t: int| 0 <= t < p ==> pair_less(#[trigger] result@[t].0, pair),
                decreases result@.len() - p,
            {
                p = p + 1;
            }
            let ghost before = result@;
            if p < result.len() && result[p].0 .0 == pair.0 && result[p].0 .1 == pair.1 {
                let merged = combine(result[p].1, change);
                result.set(p, (pair, merged));
                proof {
                    assert(m.contains_key(pair));
                    assert forall|k: (usize, usize)| #[trigger] remapped(edges@, mapping@, i + 1).contains_key(k) <==> exists|t: int| 0 <= t < result@.len() && #[trigger] result@[t].0 == k by {
                        if m.contains_key(k) {
                            let t = choose|t: int| 0 <= t < before.len() && #[trigger] before[t].0 == k;
                            assert(result@[t].0 == k);
                        }
                        if exists|t: int| 0 <= t < result@.len() && #[trigger] result@[t].0 == k {
                            let t = choose|t: int| 0 <= t < result@.len() && #[trigger] result@[t].0 == k;
                            assert(before[t].0 == k);
                        }
                    }
                    assert forall|t: int| 0 <= t < result@.len() implies remapped(edges@, mapping@, i + 1)[#[trigger] result@[t].0] == result@[t].1 by {
                        if t != p {
                            assert(before[t].0 != pair) by {
                                if t < p {
                                    assert(pair_less(before[t].0, pair));
                                } else {
                                    assert(pair_less(before[p as int].0, before[t].0));
                                }
                            }
                            assert(before[t] == result@[t]);
                        }
                    }
                }
            } else {
                result.insert(p, (pair, change));
                proof {
                    assert(!m.contains_key(pair)) by {
                        if m.contains_key(pair) {
                            let t = choose|t: int| 0 <= t < before.len() && #[trigger] before[t].0 == pair;
                            if t < p {
                                assert(pair_less(before[t].0, pair));
                            } else if t > p {
                                assert(pair_less(before[p as int].0, before[t].0));
                                assert(!pair_less(before[p as int].0, pair));
                            }
                        }
                    }
                    assert forall|a: int, b: int| 0 <= a < b < result@.len() implies pair_less(#[trigger] result@[a].0, #[trigger] result@[b].0) by {
                        if b < p {
                            assert(result@[a] == before[a] && result@[b] == before[b]);
                        } else if b == p {
                            assert(result@[a] == before[a]);
                        } else if a > p {
                            assert(result@[a] == before[a - 1] && result@[b] == before[b - 1]);
                        } else if a == p {
                            assert(result@[b] == before[b - 1]);
                            assert(!pair_less(before[p as int].0, pair));
                            if b - 1 > p {
                                assert(pair_less(before[p as int].0, before[b - 1].0));
                            }
                        } else {
                            assert(result@[a] == before[a] && result@[b] == before[b - 1]);
                        }
                    }
                    assert forall|k: (usize, usize)| #[trigger] remapped(edges@, mapping@, i + 1).contains_key(k) <==> exists|t: int| 0 <= t < result@.len() && #[trigger] result@[t].0 == k by {
                        if m.contains_key(k) {
                            let t = choose|t: int| 0 <= t < before.len() && #[trigger] before[t].0 == k;
                            if t < p {
                                assert(result@[t].0 == k);
                            } else {
                                assert(result@[t + 1].0 == k);
                            }
                        }
                        if k == pair {
                            assert(result@[p as int].0 == k);
                        }
                        if exists|t: int| 0 <= t < result@.len() && #[trigger] result@[t].0 == k {
                            let t = choose|t: int| 0 <= t < result@.len() && #[trigger] result@[t].0 == k;
                            if t < p {
                                assert(before[t].0 == k);
                            } else if t > p {
                                assert(before[t - 1].0 == k);
                            }
                        }
                    }
                    assert forall|t: int| 0 <= t < result@.len() implies remapped(edges@, mapping@, i + 1)[#[trigger] result@[t].0] == result@[t].1 by {
                        if t < p {
                            assert(result@[t] == before[t]);
                            assert(before[t].0 != pair);
                        } else if t > p {
                            assert(result@[t] == before[t - 1]);
                            assert(before[t - 1].0 != pair);
                        }
                    }
                }
            }
        } else {
            assert(remapped(edges@, mapping@, i + 1) == m);
        }
        i = i + 1;
    }
    result
}

fn pair_less_exec(a: (usize, usize), b: (usize, usize)) -> (r: bool)
    ensures
        r == pair_less(a, b),
{
    a.0 < b.0 || (a.0 == b.0 && a.1 < b.1)
}


/// The neighbour lists as sequences.
pub open spec fn lists(adj: Seq<Vec<usize>>) -> Seq<Seq<usize>> {
    adj.map_values(|l: Vec<usize>| l@)
}

/// Every neighbour is one of the nodes.
pub open spec fn lists_within(adj: Seq<Seq<usize>>) -> bool {
    forall|a: int, t: int| 0 <= a < adj.len() && 0 <= t < adj[a].len() ==> (#[trigger] adj[a][t]) < adj.len()
}

/// Whether the list holds the node `x`.
pub open spec fn has_node(l: Seq<usize>, x: int) -> bool {
    exists|t: int| 0 <= t < l.len() && l[t] as int == x
}

/// `rev` lists the edges of `adj` backwards.
pub open spec fn reversed(adj: Seq<Seq<usize>>, rev: Seq<Seq<usize>>) -> bool {
    &&& adj.len() == rev.len()
    &&& forall|a: int, b: int| 0 <= a < adj.len() && 0 <= b < adj.len() ==> (#[trigger] has_node(adj[a], b) <==> #[trigger] has_node(rev[b], a))
}

pub open spec fn adj_step(adj: Seq<Seq<usize>>, a: int, b: int) -> bool {
    0 <= a < adj.len() && has_node(adj[a], b)
}

/// The nodes reached from `s` in at most `k` steps.
pub open spec fn reached(adj: Seq<Seq<usize>>, s: int, k: nat) -> Set<int>
    decreases k,
{
    if k == 0 {
        set![s]
    } else {
        let r = reached(adj, s, (k - 1) as nat);
        r.union(Set::new(|b: int| exists|a: int| r.contains(a) && adj_step(adj, a, b)))
    }
}

pub open spec fn reaches(adj: Seq<Seq<usize>>, s: int, x: int) -> bool {
    exists|k: nat| #[trigger] reached(adj, s, k).contains(x)
}

/// Two nodes are in one strongly connected component when each reaches
/// the other.
pub open spec fn same_component(adj: Seq<Seq<usize>>, a: int, b: int) -> bool {
    reaches(adj, a, b) && reaches(adj, b, a)
}

proof fn lemma_reaches_self(adj: Seq<Seq<usize>>, s: int)
    ensures
        reaches(adj, s, s),
{
    assert(reached(adj, s, 0).contains(s));
}

proof fn lemma_reached_mono(adj: Seq<Seq<usize>>, s: int, j: nat, k: nat)
    requires
        j <= k,
    ensures
        reached(adj, s, j).subset_of(reached(adj, s, k)),
    decreases k - j,
{
    if j < k {
        lemma_reached_mono(adj, s, j, (k - 1) as nat);
    }
}

proof fn lemma_reaches_step(adj: Seq<Seq<usize>>, s: int, a: int, b: int)
    requires
        reaches(adj, s, a),
        adj_step(adj, a, b),
    ensures
        reaches(adj, s, b),
{
    let k = choose|k: nat| #[trigger] reached(adj, s, k).contains(a);
    assert(reached(adj, s, k + 1).contains(b));
}

proof fn lemma_reaches_trans(adj: Seq<Seq<usize>>, s: int, a: int, b: int)
    requires
        reaches(adj, s, a),
        reaches(adj, a, b),
    ensures
        reaches(adj, s, b),
{
    let k = choose|k: nat| #[trigger] reached(adj, a, k).contains(b);
    lemma_reaches_trans_k(adj, s, a, b, k);
}

proof fn lemma_reaches_trans_k(adj: Seq<Seq<usize>>, s: int, a: int, b: int, k: nat)
    requires
        reaches(adj, s, a),
        reached(adj, a, k).contains(b),
    ensures
        reaches(adj, s, b),
    decreases k,
{
    if k > 0 {
        let r = reached(adj, a, (k - 1) as nat);
        if !r.contains(b) {
            let c = choose|c: int| r.contains(c) && adj_step(adj, c, b);
            lemma_reaches_trans_k(adj, s, a, c, (k - 1) as nat);
            lemma_reaches_step(adj, s, c, b);
        } else {
            lemma_reaches_trans_k(adj, s, a, b, (k - 1) as nat);
        }
    }
}

proof fn lemma_reversed_k(adj: Seq<Seq<usize>>, rev: Seq<Seq<usize>>, a: int, b: int, k: nat)
    requires
        reversed(adj, rev),
        lists_within(adj),
        0 <= a < adj.len(),
        reached(adj, a, k).contains(b),
    ensures
        reaches(rev, b, a),
    decreases k,
{
    if k == 0 {
        lemma_reaches_self(rev, a);
    } else {
        let r = reached(adj, a, (k - 1) as nat);
        if r.contains(b) {
            lemma_reversed_k(adj, rev, a, b, (k - 1) as nat);
        } else {
            let c = choose|c: int| r.contains(c) && adj_step(adj, c, b);
            lemma_reversed_k(adj, rev, a, c, (k - 1) as nat);
            lemma_reached_within(adj, a, (k - 1) as nat, c);
            let t = choose|t: int| 0 <= t < adj[c].len() && adj[c][t] as int == b;
            assert(adj[c][t] < adj.len());
            assert(has_node(adj[c], b));
            assert(has_node(rev[b], c));
            assert(reached(rev, b, 0).contains(b));
            assert(adj_step(rev, b, c));
            assert(reached(rev, b, 1).contains(c));
            lemma_reaches_trans(rev, b, c, a);
        }
    }
}

proof fn lemma_reversed(adj: Seq<Seq<usize>>, rev: Seq<Seq<usize>>, a: int, b: int)
    requires
        reversed(adj, rev),
        lists_within(adj),
        lists_within(rev),
        0 <= a < adj.len(),
        0 <= b < adj.len(),
    ensures
        reaches(adj, a, b) <==> reaches(rev, b, a),
{
    if reaches(adj, a, b) {
        let k = choose|k: nat| #[trigger] reached(adj, a, k).contains(b);
        lemma_reversed_k(adj, rev, a, b, k);
    }
    if reaches(rev, b, a) {
        assert(reversed(rev, adj));
        let k = choose|k: nat| #[trigger] reached(rev, b, k).contains(a);
        lemma_reversed_k(rev, adj, b, a, k);
    }
}

proof fn lemma_reached_within(adj: Seq<Seq<usize>>, s: int, k: nat, x: int)
    requires
        lists_within(adj),
        0 <= s < adj.len(),
        reached(adj, s, k).contains(x),
    ensures
        0 <= x < adj.len(),
    decreases k,
{
    if k > 0 {
        let r = reached(adj, s, (k - 1) as nat);
        if r.contains(x) {
            lemma_reached_within(adj, s, (k - 1) as nat, x);
        } else {
            let c = choose|c: int| r.contains(c) && adj_step(adj, c, x);
            lemma_reached_within(adj, s, (k - 1) as nat, c);
            let t = choose|t: int| 0 <= t < adj[c].len() && adj[c][t] as int == x;
            assert(adj[c][t] < adj.len());
        }
    }
}

proof fn lemma_closed_reached(adj: Seq<Seq<usize>>, s: int, marks: Seq<bool>, k: nat)
    requires
        marks.len() == adj.len(),
        0 <= s < adj.len(),
        marks[s],
        forall|a: int, b: int| 0 <= a < adj.len() && marks[a] && adj_step(adj, a, b) && b < adj.len() ==> marks[b],
        lists_within(adj),
    ensures
        forall|x: int| #[trigger] reached(adj, s, k).contains(x) ==> 0 <= x < adj.len() && marks[x],
    decreases k,
{
    if k > 0 {
        lemma_closed_reached(adj, s, marks, (k - 1) as nat);
        let r = reached(adj, s, (k - 1) as nat);
        assert forall|x: int| #[trigger] reached(adj, s, k).contains(x) implies 0 <= x < adj.len() && marks[x] by {
            if !r.contains(x) {
                let c = choose|c: int| r.contains(c) && adj_step(adj, c, x);
                assert(0 <= c < adj.len() && marks[c]);
                let t = choose|t: int| 0 <= t < adj[c].len() && adj[c][t] as int == x;
                assert(adj[c][t] < adj.len());
                assert(x < adj.len());
            }
        }
    }
}

proof fn lemma_queue_bound(queue: Seq<usize>, n: int)
    requires
        queue.no_duplicates(),
        forall|t: int| 0 <= t < queue.len() ==> #[trigger] queue[t] < n,
        n >= 0,
    ensures
        queue.len() <= n,
{
    let all = Seq::new(n as nat, |i: int| i as usize);
    queue.unique_seq_to_set();
    all.lemma_cardinality_of_set();
    vstd::seq_lib::seq_to_set_is_finite(all);
    assert forall|x: usize| queue.to_set().contains(x) implies all.to_set().contains(x) by {
        let t = choose|t: int| 0 <= t < queue.len() && queue[t] == x;
        assert(all[x as int] == x);
    }
    vstd::set_lib::lemma_len_subset(queue.to_set(), all.to_set());
}

/// Marks every node that `start` reaches along the neighbour lists.
pub fn reach_marks(adj: &[Vec<usize>], start: usize) -> (marks: Vec<bool>)
    requires
        start < adj@.len(),
        lists_within(lists(adj@)),
    ensures
        marks@.len() == adj@.len(),
        forall|x: int| 0 <= x < adj@.len() ==> (#[trigger] marks@[x] <==> reaches(lists(adj@), start as int, x)),
{
    let ghost g = lists(adj@);
    let n = adj.len();
    let mut marks: Vec<bool> = Vec::new();
    let mut k: usize = 0;
    while k < n
        invariant
            k <= n,
            n == adj@.len(),
            marks@.len() == k,
            forall|x: int| 0 <= x < k ==> !(#[trigger] marks@[x]),
        decreases n - k,
    {
        marks.push(false);
        k = k + 1;
    }
    marks.set(start, true);
    let mut queue: Vec<usize> = Vec::new();
    queue.push(start);
    proof {
        lemma_reaches_self(g, start as int);
    }
    proof {
        assert forall|x: int| 0 <= x < n implies (#[trigger] marks@[x] <==> queue@.contains(x as usize)) by {
            if x == start {
                assert(queue@[0] == start);
            }
            if queue@.contains(x as usize) {
                let t = choose|t: int| 0 <= t < queue@.len() && queue@[t] == x as usize;
                assert(t == 0);
            }
        }
    }
    let mut head: usize = 0;
    while head < queue.len()
        invariant
            n == adj@.len(),
            g == lists(adj@),
            lists_within(g),
            start < n,
            marks@.len() == n,
            head <= queue@.len(),
            queue@.no_duplicates(),
            queue@.len() <= n,
            marks@[start as int],
            forall|t: int| 0 <= t < queue@.len() ==> #[trigger] queue@[t] < n,
            forall|x: int| 0 <= x < n ==> (#[trigger] marks@[x] <==> queue@.contains(x as usize)),
            forall|x: int| 0 <= x < n && #[trigger] marks@[x] ==> reaches(g, start as int, x),
            forall|t: int, b: int| 0 <= t < head && #[trigger] adj_step(g, queue@[t] as int, b) && b < n ==> marks@[b],
        decreases n - head,
    {
        let a = queue[head];
        assert(g[a as int] == adj@[a as int]@);
        assert(queue@.contains(a));
        assert(marks@[a as int]);
        let mut j: usize = 0;
        while j < adj[a].len()
            invariant
                n == adj@.len(),
                g == lists(adj@),
                lists_within(g),
                a < n,
                start < n,
                g[a as int] == adj@[a as int]@,
                head < queue@.len(),
                queue@[head as int] == a,
                marks@.len() == n,
                queue@.no_duplicates(),
                queue@.len() <= n,
                marks@[start as int],
                reaches(g, start as int, a as int),
                forall|t: int| 0 <= t < queue@.len() ==> #[trigger] queue@[t] < n,
                forall|x: int| 0 <= x < n ==> (#[trigger] marks@[x] <==> queue@.contains(x as usize)),
                forall|x: int| 0 <= x < n && #[trigger] marks@[x] ==> reaches(g, start as int, x),
                forall|t: int, b: int| 0 <= t < head && #[trigger] adj_step(g, queue@[t] as int, b) && b < n ==> marks@[b],
                forall|u: int| 0 <= u < j ==> marks@[#[trigger] adj@[a as int]@[u] as int],
            decreases adj@[a as int]@.len() - j,
        {
            let b = adj[a][j];
            assert(g[a as int][j as int] == b);
            assert(b < n);
            if !marks[b] {
                proof {
                    assert(g[a as int][j as int] as int == b as int);
                    assert(adj_step(g, a as int, b as int));
                    lemma_reaches_step(g, start as int, a as int, b as int);
                }
                let ghost q0 = queue@;
                marks.set(b, true);
                queue.push(b);
                proof {
                    assert(!q0.contains(b));
                    assert forall|x: int| 0 <= x < n implies (#[trigger] marks@[x] <==> queue@.contains(x as usize)) by {
                        if x != b {
                            if q0.contains(x as usize) {
                                let t = choose|t: int| 0 <= t < q0.len() && q0[t] == x as usize;
                                assert(queue@[t] == x as usize);
                            }
                            if queue@.contains(x as usize) {
                                let t = choose|t: int| 0 <= t < queue@.len() && queue@[t] == x as usize;
                                assert(t < q0.len());
                                assert(q0[t] == x as usize);
                            }
                        } else {
                            assert(queue@[queue@.len() - 1] == b);
                        }
                    }
                    lemma_queue_bound(queue@, n as int);
                    assert forall|t: int, c: int| 0 <= t < head && #[trigger] adj_step(g, queue@[t] as int, c) && c < n implies marks@[c] by {
                        assert(queue@[t] == q0[t]);
                    }
                }
            }
            j = j + 1;
        }
        proof {
            assert forall|t: int, c: int| 0 <= t < head + 1 && #[trigger] adj_step(g, queue@[t] as int, c) && c < n implies marks@[c] by {
                if t == head {
                    let u = choose|u: int| 0 <= u < g[a as int].len() && g[a as int][u] as int == c;
                    assert(marks@[adj@[a as int]@[u] as int]);
                }
            }
        }
        head = head + 1;
    }
    proof {
        assert forall|a: int, b: int| 0 <= a < g.len() && marks@[a] && adj_step(g, a, b) && b < g.len() implies marks@[b] by {
            assert(queue@.contains(a as usize));
            let t = choose|t: int| 0 <= t < queue@.len() && queue@[t] == a as usize;
            assert(adj_step(g, queue@[t] as int, b));
        }
        assert forall|x: int| 0 <= x < adj@.len() implies (#[trigger] marks@[x] <==> reaches(g, start as int, x)) by {
            if reaches(g, start as int, x) {
                let k = choose|k: nat| #[trigger] reached(g, start as int, k).contains(x);
                lemma_closed_reached(g, start as int, marks@, k);
            }
        }
    }
    marks
}


proof fn lemma_same_component_trans(adj: Seq<Seq<usize>>, a: int, b: int, c: int)
    requires
        same_component(adj, a, b),
        same_component(adj, b, c),
    ensures
        same_component(adj, a, c),
{
    lemma_reaches_trans(adj, a, b, c);
    lemma_reaches_trans(adj, c, b, a);
}

/// Whether some part holds `x`.
pub open spec fn in_some_part(parts: Seq<Seq<usize>>, x: int) -> bool {
    exists|i: int| 0 <= i < parts.len() && has_node(parts[i], x)
}

/// Strictly increasing.
pub open spec fn increasing(l: Seq<usize>) -> bool {
    forall|s: int, t: int| 0 <= s < t < l.len() ==> #[trigger] l[s] < #[trigger] l[t]
}

/// The strongly connected components of the graph whose outgoing and
/// incoming neighbour lists are given: every node in exactly one part, two
/// nodes in one part exactly when each reaches the other; each part in
/// increasing order, and the parts in increasing order of their first node.
pub fn components(outgoing: &[Vec<usize>], incoming: &[Vec<usize>]) -> (parts: Vec<Vec<usize>>)
    requires
        lists_within(lists(outgoing@)),
        lists_within(lists(incoming@)),
        reversed(lists(outgoing@), lists(incoming@)),
    ensures
        forall|i: int| 0 <= i < parts@.len() ==> (#[trigger] parts@[i])@.len() > 0 && increasing(parts@[i]@),
        forall|i: int, t: int| 0 <= i < parts@.len() && 0 <= t < parts@[i]@.len() ==> #[trigger] parts@[i]@[t] < outgoing@.len(),
        forall|i: int, j: int| 0 <= i < j < parts@.len() ==> #[trigger] parts@[i]@[0] < #[trigger] parts@[j]@[0],
        forall|x: int| 0 <= x < outgoing@.len() ==> #[trigger] in_some_part(lists(parts@), x),
        forall|i: int, j: int, x: int, y: int|
            0 <= i < parts@.len() && 0 <= j < parts@.len() && #[trigger] has_node(parts@[i]@, x) && #[trigger] has_node(parts@[j]@, y)
                ==> (same_component(lists(outgoing@), x, y) <==> i == j),
{
    let ghost g = lists(outgoing@);
    let ghost h = lists(incoming@);
    let n = outgoing.len();
    let mut assigned: Vec<bool> = Vec::new();
    let mut k: usize = 0;
    while k < n
        invariant
            k <= n,
            assigned@.len() == k,
            forall|x: int| 0 <= x < k ==> !(#[trigger] assigned@[x]),
        decreases n - k,
    {
        assigned.push(false);
        k = k + 1;
    }
    let mut parts: Vec<Vec<usize>> = Vec::new();
    let mut v: usize = 0;
    while v < n
        invariant
            n == outgoing@.len(),
            g == lists(outgoing@),
            h == lists(incoming@),
            lists_within(g),
            lists_within(h),
            reversed(g, h),
            v <= n,
            assigned@.len() == n,
            forall|x: int| 0 <= x < v ==> #[trigger] assigned@[x],
            forall|x: int| 0 <= x < n ==> (#[trigger] assigned@[x] <==> exists|i: int| 0 <= i < parts@.len() && #[trigger] has_node(parts@[i]@, x)),
            forall|i: int| 0 <= i < parts@.len() ==> (#[trigger] parts@[i])@.len() > 0 && increasing(parts@[i]@) && parts@[i]@[0] < v,
            forall|i: int, t: int| 0 <= i < parts@.len() && 0 <= t < parts@[i]@.len() ==> #[trigger] parts@[i]@[t] < n,
            forall|i: int, x: int| 0 <= i < parts@.len() && 0 <= x < n ==> (#[trigger] has_node(parts@[i]@, x) <==> same_component(g, parts@[i]@[0] as int, x)),
            forall|i: int, j: int| 0 <= i < j < parts@.len() ==> #[trigger] parts@[i]@[0] < #[trigger] parts@[j]@[0],
            forall|i: int, j: int| 0 <= i < parts@.len() && 0 <= j < parts@.len() && i != j ==> !same_component(g, #[trigger] parts@[i]@[0] as int, #[trigger] parts@[j]@[0] as int),
        decreases n - v,
    {
        if !assigned[v] {
            let forward = reach_marks(outgoing, v);
            let backward = reach_marks(incoming, v);
            let ghost p0 = parts@;
            let ghost a0 = assigned@;
            let mut part: Vec<usize> = Vec::new();
            let mut w: usize = 0;
            while w < n
                invariant
                    n == outgoing@.len(),
                    g == lists(outgoing@),
                    h == lists(incoming@),
                    lists_within(g),
                    lists_within(h),
                    reversed(g, h),
                    v < n,
                    w <= n,
                    forward@.len() == n,
                    backward@.len() == n,
                    forall|x: int| 0 <= x < n ==> (#[trigger] forward@[x] <==> reaches(g, v as int, x)),
                    forall|x: int| 0 <= x < n ==> (#[trigger] backward@[x] <==> reaches(h, v as int, x)),
                    increasing(part@),
                    forall|t: int| 0 <= t < part@.len() ==> #[trigger] part@[t] < w,
                    forall|x: int| 0 <= x < w ==> (#[trigger] has_node(part@, x) <==> same_component(g, v as int, x)),
                    forall|x: int| w <= x ==> !#[trigger] has_node(part@, x),
                decreases n - w,
            {
                proof {
                    lemma_reversed(g, h, w as int, v as int);
                }
                if forward[w] && backward[w] {
                    let ghost q = part@;
                    part.push(w);
                    proof {
                        assert forall|x: int| 0 <= x < w + 1 implies (#[trigger] has_node(part@, x) <==> same_component(g, v as int, x)) by {
                            if has_node(part@, x) && x != w {
                                let t = choose|t: int| 0 <= t < part@.len() && part@[t] as int == x;
                                assert(t < q.len());
                                assert(has_node(q, x));
                            }
                            if x < w && has_node(q, x) {
                                let t = choose|t: int| 0 <= t < q.len() && q[t] as int == x;
                                assert(part@[t] as int == x);
                            }
                            if x == w {
                                assert(part@[part@.len() - 1] as int == x);
                            }
                        }
                        assert forall|x: int| w + 1 <= x implies !#[trigger] has_node(part@, x) by {
                            if has_node(part@, x) {
                                let t = choose|t: int| 0 <= t < part@.len() && part@[t] as int == x;
                                if t < q.len() {
                                    assert(has_node(q, x));
                                }
                            }
                        }
                    }
                } else {
                    proof {
                        assert(!has_node(part@, w as int));
                    }
                }
                w = w + 1;
            }
            proof {
                lemma_reaches_self(g, v as int);
                assert(same_component(g, v as int, v as int));
                assert(has_node(part@, v as int));
                let t0 = choose|t: int| 0 <= t < part@.len() && part@[t] as int == v as int;
                assert(part@.len() > 0);
                // Nothing before `v` is in its component: it would be assigned with `v`.
                assert(part@[0] == v) by {
                    if part@[0] != v {
                        assert(part@[0] < part@[t0]);
                        let x = part@[0] as int;
                        assert(has_node(part@, x));
                        assert(same_component(g, v as int, x));
                        assert(assigned@[x]);
                        let i = choose|i: int| 0 <= i < parts@.len() && #[trigger] has_node(parts@[i]@, x);
                        assert(same_component(g, parts@[i]@[0] as int, x));
                        lemma_same_component_trans(g, parts@[i]@[0] as int, x, v as int);
                        assert(has_node(parts@[i]@, v as int));
                        assert(assigned@[v as int]);
                    }
                }
            }
            let mut t: usize = 0;
            while t < part.len()
                invariant
                    n == outgoing@.len(),
                    assigned@.len() == n,
                    t <= part@.len(),
                    forall|u: int| 0 <= u < part@.len() ==> #[trigger] part@[u] < n,
                    forall|x: int| 0 <= x < n ==> (#[trigger] assigned@[x] <==> (a0[x] || exists|u: int| 0 <= u < t && part@[u] as int == x)),
                decreases part@.len() - t,
            {
                assigned.set(part[t], true);
                t = t + 1;
            }
            parts.push(part);
            proof {
                let last = parts@.len() - 1;
                assert(parts@[last] == part);
                assert forall|x: int| 0 <= x < n implies (#[trigger] assigned@[x] <==> exists|i: int| 0 <= i < parts@.len() && #[trigger] has_node(parts@[i]@, x)) by {
                    if assigned@[x] {
                        if a0[x] {
                            let i = choose|i: int| 0 <= i < p0.len() && #[trigger] has_node(p0[i]@, x);
                            assert(parts@[i] == p0[i]);
                        } else {
                            let u = choose|u: int| 0 <= u < part@.len() && part@[u] as int == x;
                            assert(has_node(parts@[last]@, x));
                        }
                    }
                    if exists|i: int| 0 <= i < parts@.len() && #[trigger] has_node(parts@[i]@, x) {
                        let i = choose|i: int| 0 <= i < parts@.len() && #[trigger] has_node(parts@[i]@, x);
                        if i < last {
                            assert(parts@[i] == p0[i]);
                            assert(a0[x]);
                        } else {
                            let u = choose|u: int| 0 <= u < part@.len() && part@[u] as int == x;
                        }
                    }
                }
                assert forall|i: int| 0 <= i < parts@.len() implies (#[trigger] parts@[i])@.len() > 0 && increasing(parts@[i]@) && parts@[i]@[0] < v + 1 by {
                    if i < last {
                        assert(parts@[i] == p0[i]);
                    }
                }
                assert forall|i: int, tt: int| 0 <= i < parts@.len() && 0 <= tt < parts@[i]@.len() implies #[trigger] parts@[i]@[tt] < n by {
                    if i < last {
                        assert(parts@[i] == p0[i]);
                    }
                }
                assert forall|i: int, x: int| 0 <= i < parts@.len() && 0 <= x < n implies (#[trigger] has_node(parts@[i]@, x) <==> same_component(g, parts@[i]@[0] as int, x)) by {
                    if i < last {
                        assert(parts@[i] == p0[i]);
                    }
                }
                assert forall|i: int, j: int| 0 <= i < j < parts@.len() implies #[trigger] parts@[i]@[0] < #[trigger] parts@[j]@[0] by {
                    assert(parts@[i] == p0[i]);
                    if j < last {
                        assert(parts@[j] == p0[j]);
                    }
                }
                assert forall|i: int, j: int| 0 <= i < parts@.len() && 0 <= j < parts@.len() && i != j implies !same_component(g, #[trigger] parts@[i]@[0] as int, #[trigger] parts@[j]@[0] as int) by {
                    if i < last && j < last {
                        assert(parts@[i] == p0[i]);
                        assert(parts@[j] == p0[j]);
                    } else {
                        let o = if i < last { i } else { j };
                        assert(parts@[o] == p0[o]);
                        if same_component(g, p0[o]@[0] as int, v as int) {
                            assert(has_node(p0[o]@, v as int));
                            assert(a0[v as int]);
                        }
                        if same_component(g, v as int, p0[o]@[0] as int) {
                            assert(same_component(g, p0[o]@[0] as int, v as int));
                            assert(has_node(p0[o]@, v as int));
                            assert(a0[v as int]);
                        }
                    }
                }
            }
        }
        v = v + 1;
    }
    proof {
        assert forall|x: int| 0 <= x < outgoing@.len() implies #[trigger] in_some_part(lists(parts@), x) by {
            assert(assigned@[x]);
            let i = choose|i: int| 0 <= i < parts@.len() && #[trigger] has_node(parts@[i]@, x);
            assert(lists(parts@)[i] == parts@[i]@);
        }
        assert forall|i: int, j: int, x: int, y: int|
            0 <= i < parts@.len() && 0 <= j < parts@.len() && #[trigger] has_node(parts@[i]@, x) && #[trigger] has_node(parts@[j]@, y)
                implies (same_component(g, x, y) <==> i == j) by {
            let tx = choose|t: int| 0 <= t < parts@[i]@.len() && parts@[i]@[t] as int == x;
            let ty = choose|t: int| 0 <= t < parts@[j]@.len() && parts@[j]@[t] as int == y;
            let ri = parts@[i]@[0] as int;
            let rj = parts@[j]@[0] as int;
            assert(same_component(g, ri, x));
            assert(same_component(g, rj, y));
            if i == j {
                assert(same_component(g, x, ri));
                lemma_same_component_trans(g, x, ri, y);
            }
            if same_component(g, x, y) && i != j {
                lemma_same_component_trans(g, ri, x, y);
                assert(same_component(g, y, rj));
                lemma_same_component_trans(g, ri, y, rj);
            }
        }
    }
    parts
}

} // verus!
