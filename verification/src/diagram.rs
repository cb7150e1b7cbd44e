//! Which files the radar diagram shows: the changed files that take part in
//! the import graph (or are entry points), every file that imports one of
//! them in either snapshot, the files that keep call context, and the
//! importers that bridge from the changed files to that context.
use vstd::prelude::*;
use crate::radar::{in_snapshot, CallEdge, Change, Edge, FileNode, Graph};
use crate::radar_graph::{adjacency, edges_within, lists, lists_within, reach_marks, reaches, sources_of, targets_of};

verus! {

/// Whether the import starts or ends at the file `p`.
pub open spec fn edge_touches(e: Edge, p: Seq<char>) -> bool {
    e.from@ == p || e.to@ == p
}

/// Whether the call starts or ends in the file `p`.
pub open spec fn call_touches(c: CallEdge, p: Seq<char>) -> bool {
    c.from.file@ == p || c.to.file@ == p
}

/// Whether an import or a call starts or ends at the file `p`.
pub open spec fn touched(g: Graph, p: Seq<char>) -> bool {
    ||| exists|e: int| 0 <= e < g.edges@.len() && #[trigger] edge_touches(g.edges@[e], p)
    ||| exists|c: int| 0 <= c < g.calls@.len() && #[trigger] call_touches(g.calls@[c], p)
}

/// A changed file that an import or call touches, or that is an entry
/// point: the files the diagram grows from.
pub open spec fn seed_file(g: Graph, i: int) -> bool {
    g.files@[i].change != Change::Unchanged && (touched(g, g.files@[i].path@) || g.files@[i].entry)
}

/// A file with a function kept as call context.
pub open spec fn keeps_context(f: FileNode) -> bool {
    exists|k: int| 0 <= k < f.functions@.len() && (#[trigger] f.functions@[k]).change == Change::Unchanged
}

/// The index of the file with path `p`.
pub open spec fn path_index(files: Seq<FileNode>, p: Seq<char>) -> int {
    choose|i: int| 0 <= i < files.len() && files[i].path@ == p
}

/// The imports of one snapshot among the first `k`, as pairs of file
/// indices, in order.
pub open spec fn snap_pairs(files: Seq<FileNode>, edges: Seq<Edge>, before: bool, k: int) -> Seq<((usize, usize), Change)>
    decreases k,
{
    if k <= 0 {
        Seq::empty()
    } else {
        let r = snap_pairs(files, edges, before, k - 1);
        let e = edges[k - 1];
        if in_snapshot(e.change, before) {
            r.push(((path_index(files, e.from@) as usize, path_index(files, e.to@) as usize), e.change))
        } else {
            r
        }
    }
}

/// The imports of one snapshot as pairs of file indices.
pub open spec fn pairs_of(g: Graph, before: bool) -> Seq<((usize, usize), Change)> {
    snap_pairs(g.files@, g.edges@, before, g.edges@.len() as int)
}

/// For each file, the files it imports (`reverse`: that import it) along
/// the given pairs.
pub open spec fn pair_lists(pairs: Seq<((usize, usize), Change)>, n: int, reverse: bool) -> Seq<Seq<usize>> {
    Seq::new(
        n as nat,
        |v: int|
            if reverse {
                sources_of(pairs, v, pairs.len() as int)
            } else {
                targets_of(pairs, v, pairs.len() as int)
            },
    )
}

/// The seeds present in the snapshot: where the walks of that snapshot
/// start.
pub open spec fn snap_start(g: Graph, before: bool, s: int) -> bool {
    0 <= s < g.files@.len() && seed_file(g, s) && in_snapshot(g.files@[s].change, before)
}

/// A file that a start imports, directly or through other files, in the
/// snapshot (a start itself included).
pub open spec fn descendant(g: Graph, before: bool, x: int) -> bool {
    exists|s: int| #[trigger] snap_start(g, before, s) && reaches(
        pair_lists(pairs_of(g, before), g.files@.len() as int, false),
        s,
        x,
    )
}

/// A file that imports a start, directly or through other files, in the
/// snapshot (a start itself included).
pub open spec fn ancestor(g: Graph, before: bool, x: int) -> bool {
    exists|s: int| #[trigger] snap_start(g, before, s) && reaches(
        pair_lists(pairs_of(g, before), g.files@.len() as int, true),
        s,
        x,
    )
}

/// Whether an import joins two descendants.
pub open spec fn between_descendants(g: Graph, before: bool) -> spec_fn(((usize, usize), Change)) -> bool {
    |p: ((usize, usize), Change)| descendant(g, before, p.0.0 as int) && descendant(g, before, p.0.1 as int)
}

/// The imports of the snapshot between two descendants.
pub open spec fn inner_pairs(g: Graph, before: bool) -> Seq<((usize, usize), Change)> {
    pairs_of(g, before).filter(between_descendants(g, before))
}

/// A file on an import path among descendants that leads to a file kept
/// for call context: the bridge from the changed files to that context.
pub open spec fn bridge(g: Graph, before: bool, x: int) -> bool {
    exists|c: int|
        0 <= c < g.files@.len() && keeps_context(g.files@[c]) && !seed_file(g, c) && descendant(g, before, c)
            && #[trigger] reaches(pair_lists(inner_pairs(g, before), g.files@.len() as int, true), c, x)
}

/// Whether the diagram shows the file with index `x`: a seed, a file kept
/// for call context, or, in either snapshot, an importer of a seed or a
/// bridge to context (each snapshot traced on its own).
pub open spec fn relevant_file(g: Graph, x: int) -> bool {
    ||| seed_file(g, x)
    ||| keeps_context(g.files@[x])
    ||| ancestor(g, true, x)
    ||| ancestor(g, false, x)
    ||| bridge(g, true, x)
    ||| bridge(g, false, x)
}

/// How many marks are set.
pub open spec fn count_marks(m: Seq<bool>) -> nat
    decreases m.len(),
{
    if m.len() == 0 {
        0
    } else {
        count_marks(m.drop_last()) + if m.last() {
            1nat
        } else {
            0nat
        }
    }
}

/// Every import joins two files of the graph.
pub open spec fn imports_within(g: Graph) -> bool {
    forall|e: int|
        0 <= e < g.edges@.len() ==> (exists|i: int| 0 <= i < g.files@.len() && g.files@[i].path@ == (#[trigger] g.edges@[e]).from@)
            && (exists|i: int| 0 <= i < g.files@.len() && g.files@[i].path@ == g.edges@[e].to@)
}

/// The files the diagram starts from and shows, and its two counters.
pub struct DiagramFiles {
    /// Per file of the graph, whether it is a seed.
    pub seeds: Vec<bool>,
    /// Per file of the graph, whether the diagram shows it.
    pub relevant: Vec<bool>,
    /// The number of seeds.
    pub changed_files: usize,
    /// The changed files that are not seeds.
    pub isolated_files: usize,
}


/// The index of the file with path `p`, if any.
fn file_index(g: &Graph, p: &String) -> (r: Option<usize>)
    requires
        g.wf(),
    ensures
        match r {
            Some(i) => i < g.files@.len() && g.files@[i as int].path@ == p@ && i == path_index(g.files@, p@),
            None => forall|i: int| 0 <= i < g.files@.len() ==> (#[trigger] g.files@[i]).path@ != p@,
        },
{
    let mut i: usize = 0;
    while i < g.files.len()
        invariant
            i <= g.files@.len(),
            g.wf(),
            forall|j: int| 0 <= j < i ==> (#[trigger] g.files@[j]).path@ != p@,
        decreases g.files@.len() - i,
    {
        if g.files[i].path == *p {
            proof {
                let j = path_index(g.files@, p@);
                assert(0 <= j < g.files@.len() && g.files@[j].path@ == p@);
                if j != i {
                    if j < i {
                        assert(g.files@[j].path@ != g.files@[i as int].path@);
                    } else {
                        assert(g.files@[i as int].path@ != g.files@[j].path@);
                    }
                }
            }
            return Some(i);
        }
        i = i + 1;
    }
    None
}

/// Whether an import or a call starts or ends at `p`.
fn is_touched(g: &Graph, p: &String) -> (b: bool)
    ensures
        b == touched(*g, p@),
{
    let mut e: usize = 0;
    while e < g.edges.len()
        invariant
            e <= g.edges@.len(),
            forall|j: int| 0 <= j < e ==> !#[trigger] edge_touches(g.edges@[j], p@),
        decreases g.edges@.len() - e,
    {
        if g.edges[e].from == *p || g.edges[e].to == *p {
            assert(edge_touches(g.edges@[e as int], p@));
            return true;
        }
        e = e + 1;
    }
    let mut c: usize = 0;
    while c < g.calls.len()
        invariant
            c <= g.calls@.len(),
            e == g.edges@.len(),
            forall|j: int| 0 <= j < e ==> !#[trigger] edge_touches(g.edges@[j], p@),
            forall|j: int| 0 <= j < c ==> !#[trigger] call_touches(g.calls@[j], p@),
        decreases g.calls@.len() - c,
    {
        if g.calls[c].from.file == *p || g.calls[c].to.file == *p {
            assert(call_touches(g.calls@[c as int], p@));
            return true;
        }
        c = c + 1;
    }
    false
}

/// The imports of one snapshot as pairs of file indices.
fn snapshot_pairs(g: &Graph, before: bool) -> (r: Vec<((usize, usize), Change)>)
    requires
        g.wf(),
        imports_within(*g),
    ensures
        r@ == pairs_of(*g, before),
        edges_within(r@, g.files@.len() as int),
{
    let mut r: Vec<((usize, usize), Change)> = Vec::new();
    let mut k: usize = 0;
    while k < g.edges.len()
        invariant
            k <= g.edges@.len(),
            g.wf(),
            imports_within(*g),
            r@ == snap_pairs(g.files@, g.edges@, before, k as int),
            edges_within(r@, g.files@.len() as int),
        decreases g.edges@.len() - k,
    {
        let e = &g.edges[k];
        let keep = !((before && e.change == Change::Added) || (!before && e.change == Change::Removed));
        if keep {
            assert(imports_within(*g) ==> (exists|i: int| 0 <= i < g.files@.len() && g.files@[i].path@ == g.edges@[k as int].from@));
            let a = file_index(g, &e.from);
            let b = file_index(g, &e.to);
            match (a, b) {
                (Some(a), Some(b)) => {
                    let ghost r0 = r@;
                    r.push(((a, b), e.change));
                    assert forall|t: int| 0 <= t < r@.len() implies (#[trigger] r@[t]).0.0 < g.files@.len() && r@[t].0.1
                        < g.files@.len() by {
                        if t < r0.len() {
                            assert(r@[t] == r0[t]);
                        }
                    }
                },
                _ => {
                    assert(false);
                },
            }
        }
        k = k + 1;
    }
    r
}

/// Whether some node marked in `starts` reaches each node.
fn reach_any(adj: &Vec<Vec<usize>>, starts: &Vec<bool>) -> (m: Vec<bool>)
    requires
        lists_within(lists(adj@)),
        starts@.len() == adj@.len(),
    ensures
        m@.len() == adj@.len(),
        forall|x: int|
            0 <= x < adj@.len() ==> (#[trigger] m@[x] <==> exists|s: int|
                0 <= s < adj@.len() && starts@[s] && #[trigger] reaches(lists(adj@), s, x)),
{
    let n = adj.len();
    let mut m: Vec<bool> = Vec::new();
    let mut k: usize = 0;
    while k < n
        invariant
            k <= n,
            n == adj@.len(),
            m@.len() == k,
            forall|x: int| 0 <= x < k ==> !(#[trigger] m@[x]),
        decreases n - k,
    {
        m.push(false);
        k = k + 1;
    }
    let mut s: usize = 0;
    while s < n
        invariant
            s <= n,
            n == adj@.len(),
            starts@.len() == n,
            lists_within(lists(adj@)),
            m@.len() == n,
            forall|x: int|
                0 <= x < n ==> (#[trigger] m@[x] <==> exists|t: int|
                    0 <= t < s && starts@[t] && #[trigger] reaches(lists(adj@), t, x)),
        decreases n - s,
    {
        if starts[s] {
            let marks = reach_marks(adj.as_slice(), s);
            let mut x: usize = 0;
            while x < n
                invariant
                    x <= n,
                    s < n,
                    n == adj@.len(),
                    starts@.len() == n,
                    starts@[s as int],
                    marks@.len() == n,
                    m@.len() == n,
                    forall|y: int| 0 <= y < n ==> (#[trigger] marks@[y] <==> reaches(lists(adj@), s as int, y)),
                    forall|y: int|
                        0 <= y < x ==> (#[trigger] m@[y] <==> exists|t: int|
                            0 <= t < s + 1 && starts@[t] && #[trigger] reaches(lists(adj@), t, y)),
                    forall|y: int|
                        x <= y < n ==> (#[trigger] m@[y] <==> exists|t: int|
                            0 <= t < s && starts@[t] && #[trigger] reaches(lists(adj@), t, y)),
                decreases n - x,
            {
                let ghost old_m = m@;
                if marks[x] {
                    m.set(x, true);
                }
                assert(m@[x as int] <==> exists|t: int|
                    0 <= t < s + 1 && starts@[t] && #[trigger] reaches(lists(adj@), t, x as int)) by {
                    if marks@[x as int] {
                        assert(reaches(lists(adj@), s as int, x as int));
                    }
                    if exists|t: int| 0 <= t < s + 1 && starts@[t] && #[trigger] reaches(lists(adj@), t, x as int) {
                        let t = choose|t: int| 0 <= t < s + 1 && starts@[t] && #[trigger] reaches(lists(adj@), t, x as int);
                        if t < s {
                            assert(old_m[x as int]);
                        }
                    }
                }
                x = x + 1;
            }
        } else {
            assert forall|y: int| 0 <= y < n implies (#[trigger] m@[y] <==> exists|t: int|
                0 <= t < s + 1 && starts@[t] && #[trigger] reaches(lists(adj@), t, y)) by {
                if exists|t: int| 0 <= t < s + 1 && starts@[t] && #[trigger] reaches(lists(adj@), t, y) {
                    let t = choose|t: int| 0 <= t < s + 1 && starts@[t] && #[trigger] reaches(lists(adj@), t, y);
                    assert(t < s);
                }
            }
        }
        s = s + 1;
    }
    m
}


proof fn lemma_targets_within(pairs: Seq<((usize, usize), Change)>, n: int, v: int, k: int)
    requires
        edges_within(pairs, n),
        k <= pairs.len(),
    ensures
        forall|t: int| 0 <= t < targets_of(pairs, v, k).len() ==> (#[trigger] targets_of(pairs, v, k)[t]) < n,
        forall|t: int| 0 <= t < sources_of(pairs, v, k).len() ==> (#[trigger] sources_of(pairs, v, k)[t]) < n,
    decreases k,
{
    if k > 0 {
        lemma_targets_within(pairs, n, v, k - 1);
        assert(pairs[k - 1].0.0 < n && pairs[k - 1].0.1 < n);
        let a = targets_of(pairs, v, k - 1);
        let b = sources_of(pairs, v, k - 1);
        assert forall|t: int| 0 <= t < targets_of(pairs, v, k).len() implies (#[trigger] targets_of(pairs, v, k)[t]) < n by {
            if t < a.len() {
                assert(targets_of(pairs, v, k)[t] == a[t]);
            }
        }
        assert forall|t: int| 0 <= t < sources_of(pairs, v, k).len() implies (#[trigger] sources_of(pairs, v, k)[t]) < n by {
            if t < b.len() {
                assert(sources_of(pairs, v, k)[t] == b[t]);
            }
        }
    }
}

/// The neighbour lists of pairs within `n` nodes name only those nodes.
proof fn lemma_pair_lists_within(pairs: Seq<((usize, usize), Change)>, n: int, reverse: bool)
    requires
        edges_within(pairs, n),
        n >= 0,
    ensures
        lists_within(pair_lists(pairs, n, reverse)),
{
    let l = pair_lists(pairs, n, reverse);
    assert forall|a: int, t: int| 0 <= a < l.len() && 0 <= t < l[a].len() implies (#[trigger] l[a][t]) < l.len() by {
        lemma_targets_within(pairs, n, a, pairs.len() as int);
    }
}

/// The adjacency lists built from the pairs are the spec's lists.
proof fn lemma_adjacency_lists(
    pairs: Seq<((usize, usize), Change)>,
    n: int,
    out: Seq<Vec<usize>>,
    inc: Seq<Vec<usize>>,
)
    requires
        n >= 0,
        out.len() == n,
        inc.len() == n,
        forall|v: int| 0 <= v < n ==> #[trigger] out[v]@ == targets_of(pairs, v, pairs.len() as int),
        forall|v: int| 0 <= v < n ==> #[trigger] inc[v]@ == sources_of(pairs, v, pairs.len() as int),
    ensures
        lists(out) == pair_lists(pairs, n, false),
        lists(inc) == pair_lists(pairs, n, true),
{
    assert(lists(out) =~= pair_lists(pairs, n, false));
    assert(lists(inc) =~= pair_lists(pairs, n, true));
}

/// Whether the file keeps a function as call context.
fn keeps_context_of(f: &FileNode) -> (b: bool)
    ensures
        b == keeps_context(*f),
{
    let mut k: usize = 0;
    while k < f.functions.len()
        invariant
            k <= f.functions@.len(),
            forall|j: int| 0 <= j < k ==> (#[trigger] f.functions@[j]).change != Change::Unchanged,
        decreases f.functions@.len() - k,
    {
        if f.functions[k].change == Change::Unchanged {
            assert(f.functions@[k as int].change == Change::Unchanged);
            return true;
        }
        k = k + 1;
    }
    false
}

/// The pairs that join two nodes marked in `marks`.
fn pairs_between(pairs: &Vec<((usize, usize), Change)>, marks: &Vec<bool>, Ghost(pred): Ghost<spec_fn(((usize, usize), Change)) -> bool>) -> (r: Vec<((usize, usize), Change)>)
    requires
        edges_within(pairs@, marks@.len() as int),
        forall|t: int| 0 <= t < pairs@.len() ==> #[trigger] pred(pairs@[t]) == (marks@[pairs@[t].0.0 as int] && marks@[pairs@[t].0.1 as int]),
    ensures
        r@ == pairs@.filter(pred),
        edges_within(r@, marks@.len() as int),
{
    let mut r: Vec<((usize, usize), Change)> = Vec::new();
    let mut i: usize = 0;
    while i < pairs.len()
        invariant
            i <= pairs@.len(),
            edges_within(pairs@, marks@.len() as int),
            forall|t: int| 0 <= t < pairs@.len() ==> #[trigger] pred(pairs@[t]) == (marks@[pairs@[t].0.0 as int] && marks@[pairs@[t].0.1 as int]),
            r@ == pairs@.take(i as int).filter(pred),
            edges_within(r@, marks@.len() as int),
        decreases pairs@.len() - i,
    {
        let p = pairs[i];
        assert(pairs@.take(i + 1).drop_last() =~= pairs@.take(i as int));
        assert(pred(pairs@[i as int]) == (marks@[p.0.0 as int] && marks@[p.0.1 as int]));
        proof {
            reveal(Seq::filter);
        }
        if marks[p.0.0] && marks[p.0.1] {
            let ghost r0 = r@;
            r.push(p);
            assert forall|t: int| 0 <= t < r@.len() implies (#[trigger] r@[t]).0.0 < marks@.len() && r@[t].0.1 < marks@.len() by {
                if t < r0.len() {
                    assert(r@[t] == r0[t]);
                }
            }
        }
        i = i + 1;
    }
    assert(pairs@.take(i as int) =~= pairs@);
    r
}

/// The files that, in one snapshot, import a seed or bridge from a seed to
/// call context.
fn snapshot_relevance(g: &Graph, seeds: &Vec<bool>, before: bool) -> (r: Vec<bool>)
    requires
        g.wf(),
        imports_within(*g),
        seeds@.len() == g.files@.len(),
        forall|i: int| 0 <= i < g.files@.len() ==> #[trigger] seeds@[i] == seed_file(*g, i),
    ensures
        r@.len() == g.files@.len(),
        forall|x: int| 0 <= x < g.files@.len() ==> #[trigger] r@[x] == (ancestor(*g, before, x) || bridge(*g, before, x)),
{
    let n = g.files.len();
    let pairs = snapshot_pairs(g, before);
    let (fwd, rev) = adjacency(n, &pairs);
    proof {
        lemma_adjacency_lists(pairs@, n as int, fwd@, rev@);
        lemma_pair_lists_within(pairs@, n as int, false);
        lemma_pair_lists_within(pairs@, n as int, true);
    }
    let mut starts: Vec<bool> = Vec::new();
    let mut s: usize = 0;
    while s < n
        invariant
            s <= n,
            n == g.files@.len(),
            seeds@.len() == n,
            forall|i: int| 0 <= i < n ==> #[trigger] seeds@[i] == seed_file(*g, i),
            starts@.len() == s,
            forall|i: int| 0 <= i < s ==> #[trigger] starts@[i] == snap_start(*g, before, i),
        decreases n - s,
    {
        let c = g.files[s].change;
        let present = !((before && c == Change::Added) || (!before && c == Change::Removed));
        starts.push(seeds[s] && present);
        s = s + 1;
    }
    let anc = reach_any(&rev, &starts);
    let desc = reach_any(&fwd, &starts);
    proof {
        assert forall|x: int| 0 <= x < n implies #[trigger] desc@[x] == descendant(*g, before, x) by {
            if desc@[x] {
                let t = choose|t: int| 0 <= t < n && starts@[t] && #[trigger] reaches(lists(fwd@), t, x);
                assert(snap_start(*g, before, t));
            }
            if descendant(*g, before, x) {
                let t = choose|t: int| #[trigger] snap_start(*g, before, t) && reaches(pair_lists(pairs_of(*g, before), n as int, false), t, x);
                assert(starts@[t]);
            }
        }
        assert forall|x: int| 0 <= x < n implies #[trigger] anc@[x] == ancestor(*g, before, x) by {
            if anc@[x] {
                let t = choose|t: int| 0 <= t < n && starts@[t] && #[trigger] reaches(lists(rev@), t, x);
                assert(snap_start(*g, before, t));
            }
            if ancestor(*g, before, x) {
                let t = choose|t: int| #[trigger] snap_start(*g, before, t) && reaches(pair_lists(pairs_of(*g, before), n as int, true), t, x);
                assert(starts@[t]);
            }
        }
        assert forall|t: int| 0 <= t < pairs@.len() implies #[trigger] between_descendants(*g, before)(pairs@[t]) == (desc@[pairs@[t].0.0 as int] && desc@[pairs@[t].0.1 as int]) by {
            assert(pairs@[t].0.0 < n && pairs@[t].0.1 < n);
        }
    }
    let inner = pairs_between(&pairs, &desc, Ghost(between_descendants(*g, before)));
    let (inner_fwd, inner_rev) = adjacency(n, &inner);
    proof {
        lemma_adjacency_lists(inner@, n as int, inner_fwd@, inner_rev@);
        lemma_pair_lists_within(inner@, n as int, true);
    }
    let mut context: Vec<bool> = Vec::new();
    let mut c: usize = 0;
    while c < n
        invariant
            c <= n,
            n == g.files@.len(),
            seeds@.len() == n,
            desc@.len() == n,
            forall|i: int| 0 <= i < n ==> #[trigger] seeds@[i] == seed_file(*g, i),
            forall|x: int| 0 <= x < n ==> #[trigger] desc@[x] == descendant(*g, before, x),
            context@.len() == c,
            forall|i: int|
                0 <= i < c ==> #[trigger] context@[i] == (keeps_context(g.files@[i]) && !seed_file(*g, i) && descendant(
                    *g,
                    before,
                    i,
                )),
        decreases n - c,
    {
        let keep = keeps_context_of(&g.files[c]) && !seeds[c] && desc[c];
        context.push(keep);
        c = c + 1;
    }
    let bridged = reach_any(&inner_rev, &context);
    let mut r: Vec<bool> = Vec::new();
    let mut x: usize = 0;
    while x < n
        invariant
            x <= n,
            n == g.files@.len(),
            anc@.len() == n,
            bridged@.len() == n,
            context@.len() == n,
            inner@ == inner_pairs(*g, before),
            lists(inner_rev@) == pair_lists(inner@, n as int, true),
            forall|i: int| 0 <= i < n ==> #[trigger] anc@[i] == ancestor(*g, before, i),
            forall|i: int|
                0 <= i < n ==> #[trigger] context@[i] == (keeps_context(g.files@[i]) && !seed_file(*g, i) && descendant(
                    *g,
                    before,
                    i,
                )),
            forall|y: int|
                0 <= y < n ==> (#[trigger] bridged@[y] <==> exists|t: int|
                    0 <= t < n && context@[t] && #[trigger] reaches(lists(inner_rev@), t, y)),
            r@.len() == x,
            forall|i: int| 0 <= i < x ==> #[trigger] r@[i] == (ancestor(*g, before, i) || bridge(*g, before, i)),
        decreases n - x,
    {
        proof {
            let xi = x as int;
            if bridged@[xi] {
                let t = choose|t: int| 0 <= t < n && context@[t] && #[trigger] reaches(lists(inner_rev@), t, xi);
                assert(context@[t]);
                assert(bridge(*g, before, xi));
            }
            if bridge(*g, before, xi) {
                let t = choose|t: int|
                    0 <= t < g.files@.len() && keeps_context(g.files@[t]) && !seed_file(*g, t) && descendant(*g, before, t)
                        && #[trigger] reaches(pair_lists(inner_pairs(*g, before), g.files@.len() as int, true), t, xi);
                assert(context@[t]);
                assert(bridged@[xi]);
            }
        }
        r.push(anc[x] || bridged[x]);
        x = x + 1;
    }
    r
}


/// Per file, whether it changed without being a seed.
pub open spec fn isolated_marks(g: Graph) -> Seq<bool> {
    Seq::new(g.files@.len(), |i: int| g.files@[i].change != Change::Unchanged && !seed_file(g, i))
}

proof fn lemma_count_bound(m: Seq<bool>)
    ensures
        count_marks(m) <= m.len(),
    decreases m.len(),
{
    if m.len() > 0 {
        lemma_count_bound(m.drop_last());
    }
}

/// How many marks are set.
fn count_set(m: &Vec<bool>) -> (c: usize)
    ensures
        c == count_marks(m@),
{
    let mut c: usize = 0;
    let mut i: usize = 0;
    while i < m.len()
        invariant
            i <= m@.len(),
            c == count_marks(m@.take(i as int)),
        decreases m@.len() - i,
    {
        assert(m@.take(i + 1).drop_last() =~= m@.take(i as int));
        proof {
            lemma_count_bound(m@.take(i as int));
        }
        if m[i] {
            c = c + 1;
        }
        i = i + 1;
    }
    assert(m@.take(i as int) =~= m@);
    c
}

/// The files the radar diagram starts from and shows. Seeds are the changed
/// files that an import or a call touches, or that are entry points; the
/// diagram shows them, the files kept for call context, and, tracing each
/// snapshot on its own, every importer of a seed and every importer among
/// the seeds' dependencies that leads to a context file. `changed_files`
/// counts the seeds, `isolated_files` the other changed files.
pub fn diagram_files(g: &Graph) -> (d: DiagramFiles)
    requires
        g.wf(),
        imports_within(*g),
    ensures
        d.seeds@.len() == g.files@.len(),
        d.relevant@.len() == g.files@.len(),
        forall|i: int| 0 <= i < g.files@.len() ==> #[trigger] d.seeds@[i] == seed_file(*g, i),
        forall|x: int| 0 <= x < g.files@.len() ==> #[trigger] d.relevant@[x] == relevant_file(*g, x),
        d.changed_files == count_marks(d.seeds@),
        d.isolated_files == count_marks(isolated_marks(*g)),
{
    let n = g.files.len();
    let mut seeds: Vec<bool> = Vec::new();
    let mut isolated: Vec<bool> = Vec::new();
    let mut i: usize = 0;
    while i < n
        invariant
            i <= n,
            n == g.files@.len(),
            seeds@.len() == i,
            isolated@.len() == i,
            forall|j: int| 0 <= j < i ==> #[trigger] seeds@[j] == seed_file(*g, j),
            forall|j: int| 0 <= j < i ==> #[trigger] isolated@[j] == isolated_marks(*g)[j],
        decreases n - i,
    {
        let f = &g.files[i];
        let changed = f.change != Change::Unchanged;
        let seed = changed && (f.entry || is_touched(g, &f.path));
        seeds.push(seed);
        isolated.push(changed && !seed);
        i = i + 1;
    }
    assert(isolated@ =~= isolated_marks(*g));
    let before = snapshot_relevance(g, &seeds, true);
    let after = snapshot_relevance(g, &seeds, false);
    let mut relevant: Vec<bool> = Vec::new();
    let mut x: usize = 0;
    while x < n
        invariant
            x <= n,
            n == g.files@.len(),
            seeds@.len() == n,
            before@.len() == n,
            after@.len() == n,
            forall|j: int| 0 <= j < n ==> #[trigger] seeds@[j] == seed_file(*g, j),
            forall|j: int| 0 <= j < n ==> #[trigger] before@[j] == (ancestor(*g, true, j) || bridge(*g, true, j)),
            forall|j: int| 0 <= j < n ==> #[trigger] after@[j] == (ancestor(*g, false, j) || bridge(*g, false, j)),
            relevant@.len() == x,
            forall|j: int| 0 <= j < x ==> #[trigger] relevant@[j] == relevant_file(*g, j),
        decreases n - x,
    {
        let shown = seeds[x] || keeps_context_of(&g.files[x]) || before[x] || after[x];
        relevant.push(shown);
        x = x + 1;
    }
    let changed_files = count_set(&seeds);
    let isolated_files = count_set(&isolated);
    DiagramFiles { seeds, relevant, changed_files, isolated_files }
}

} // verus!
