//! The review focus of a file: one shortest real import route between the
//! selected file and each changed file, searched in the old and the new
//! snapshot separately so that a route never joins imports that did not
//! exist together.
use vstd::prelude::*;
use crate::file_tree::{insert_name, lemma_sorted_unique, name_views, strictly_sorted};
use crate::radar::{
    add_pair, add_string, contains_string, far_end, file_change, find_file, in_snapshot, in_snapshot_of,
    is_far_end, lemma_visited_bound, pair_views, same_string, string_views, Change, DependencyFocus, Edge, Graph,
};
use crate::text::{chars_of, string_of};

verus! {

/// Whether an import can be followed in a search: it exists in the snapshot,
/// and, when only changed files count, joins two changed files.
pub open spec fn usable(e: Edge, before: bool, changed_only: bool, changed: Seq<Seq<char>>) -> bool {
    in_snapshot(e.change, before) && (!changed_only || (changed.contains(e.from@) && changed.contains(e.to@)))
}

/// The end an import is followed from: the importer when searching
/// outward along imports, the imported file when searching back.
pub open spec fn near_end(e: Edge, outgoing: bool) -> Seq<char> {
    if outgoing {
        e.from@
    } else {
        e.to@
    }
}

/// Whether `b` is one step from `a` in a search.
pub open spec fn neighbour(
    edges: Seq<Edge>,
    before: bool,
    outgoing: bool,
    changed_only: bool,
    changed: Seq<Seq<char>>,
    a: Seq<char>,
    b: Seq<char>,
) -> bool {
    exists|i: int|
        0 <= i < edges.len() && usable(#[trigger] edges[i], before, changed_only, changed) && near_end(edges[i], outgoing)
            == a && far_end(edges[i], outgoing) == b
}

/// Whether `s` lists the neighbours of `a`, in name order.
pub open spec fn lists_neighbours(
    edges: Seq<Edge>,
    before: bool,
    outgoing: bool,
    changed_only: bool,
    changed: Seq<Seq<char>>,
    a: Seq<char>,
    s: Seq<Seq<char>>,
) -> bool {
    strictly_sorted(s) && forall|x: Seq<char>| s.contains(x) <==> neighbour(edges, before, outgoing, changed_only, changed, a, x)
}

/// The neighbours of `a`, in name order.
pub open spec fn neighbours(
    edges: Seq<Edge>,
    before: bool,
    outgoing: bool,
    changed_only: bool,
    changed: Seq<Seq<char>>,
    a: Seq<char>,
) -> Seq<Seq<char>> {
    choose|s: Seq<Seq<char>>| lists_neighbours(edges, before, outgoing, changed_only, changed, a, s)
}

/// The queue and parents after discovering, from `from`, the neighbours
/// `nbrs[k..]` not queued yet, in order.
pub open spec fn discover(
    nbrs: Seq<Seq<char>>,
    from: Seq<char>,
    queue: Seq<Seq<char>>,
    parents: Seq<Seq<char>>,
    k: int,
) -> (Seq<Seq<char>>, Seq<Seq<char>>)
    decreases nbrs.len() - k,
{
    if k < 0 || k >= nbrs.len() {
        (queue, parents)
    } else if queue.contains(nbrs[k]) {
        discover(nbrs, from, queue, parents, k + 1)
    } else {
        discover(nbrs, from, queue.push(nbrs[k]), parents.push(from), k + 1)
    }
}

/// The breadth-first search from `start` after `steps` files were taken
/// from the queue: the files in the order they were reached, and the file
/// each was reached from (`start` from itself).
pub open spec fn bfs(
    edges: Seq<Edge>,
    before: bool,
    outgoing: bool,
    changed_only: bool,
    changed: Seq<Seq<char>>,
    start: Seq<char>,
    steps: nat,
) -> (Seq<Seq<char>>, Seq<Seq<char>>)
    decreases steps,
{
    if steps == 0 {
        (seq![start], seq![start])
    } else {
        let (q, ps) = bfs(edges, before, outgoing, changed_only, changed, start, (steps - 1) as nat);
        let h = steps - 1;
        if h < q.len() {
            discover(neighbours(edges, before, outgoing, changed_only, changed, q[h]), q[h], q, ps, 0)
        } else {
            (q, ps)
        }
    }
}

/// The completed search: every reachable file is queued by then.
pub open spec fn search(
    edges: Seq<Edge>,
    before: bool,
    outgoing: bool,
    changed_only: bool,
    changed: Seq<Seq<char>>,
    start: Seq<char>,
) -> (Seq<Seq<char>>, Seq<Seq<char>>) {
    bfs(edges, before, outgoing, changed_only, changed, start, (edges.len() + 1) as nat)
}

proof fn lemma_neighbours(
    edges: Seq<Edge>,
    before: bool,
    outgoing: bool,
    changed_only: bool,
    changed: Seq<Seq<char>>,
    a: Seq<char>,
    s: Seq<Seq<char>>,
)
    requires
        lists_neighbours(edges, before, outgoing, changed_only, changed, a, s),
    ensures
        neighbours(edges, before, outgoing, changed_only, changed, a) == s,
{
    let t = neighbours(edges, before, outgoing, changed_only, changed, a);
    assert(lists_neighbours(edges, before, outgoing, changed_only, changed, a, t));
    lemma_sorted_unique(t, s);
}

proof fn lemma_bfs_stable(
    edges: Seq<Edge>,
    before: bool,
    outgoing: bool,
    changed_only: bool,
    changed: Seq<Seq<char>>,
    start: Seq<char>,
    h: nat,
    n: nat,
)
    requires
        h <= n,
        bfs(edges, before, outgoing, changed_only, changed, start, h).0.len() == h,
    ensures
        bfs(edges, before, outgoing, changed_only, changed, start, n) == bfs(
            edges,
            before,
            outgoing,
            changed_only,
            changed,
            start,
            h,
        ),
    decreases n - h,
{
    if h < n {
        lemma_bfs_stable(edges, before, outgoing, changed_only, changed, start, h, (n - 1) as nat);
    }
}

/// Whether an import can be followed in a search.
fn usable_edge(e: &Edge, before: bool, changed_only: bool, changed: &Vec<String>) -> (b: bool)
    ensures
        b == usable(*e, before, changed_only, string_views(changed@)),
{
    in_snapshot_of(e.change, before) && (!changed_only || (contains_string(changed, &e.from) && contains_string(
        changed,
        &e.to,
    )))
}

/// The neighbours of `a` in a search, in name order.
fn neighbour_list(
    edges: &Vec<Edge>,
    before: bool,
    outgoing: bool,
    changed_only: bool,
    changed: &Vec<String>,
    a: &String,
) -> (v: Vec<Vec<char>>)
    ensures
        lists_neighbours(edges@, before, outgoing, changed_only, string_views(changed@), a@, name_views(v@)),
{
    let ghost cv = string_views(changed@);
    let mut v: Vec<Vec<char>> = Vec::new();
    let mut i: usize = 0;
    assert(name_views(v@) =~= Seq::<Seq<char>>::empty());
    while i < edges.len()
        invariant
            i <= edges@.len(),
            cv == string_views(changed@),
            strictly_sorted(name_views(v@)),
            forall|x: Seq<char>| name_views(v@).contains(x) <==> exists|t: int|
                0 <= t < i && usable(#[trigger] edges@[t], before, changed_only, cv) && near_end(edges@[t], outgoing) == a@
                    && far_end(edges@[t], outgoing) == x,
        decreases edges@.len() - i,
    {
        let e = &edges[i];
        let (near, far) = if outgoing {
            (&e.from, &e.to)
        } else {
            (&e.to, &e.from)
        };
        if usable_edge(e, before, changed_only, changed) && same_string(near, a) {
            let c = chars_of(far.as_str());
            let ghost xv = c@;
            insert_name(&mut v, c);
            assert forall|x: Seq<char>| name_views(v@).contains(x) <==> exists|t: int|
                0 <= t < i + 1 && usable(#[trigger] edges@[t], before, changed_only, cv) && near_end(edges@[t], outgoing)
                    == a@ && far_end(edges@[t], outgoing) == x by {
                if x == xv {
                    assert(usable(edges@[i as int], before, changed_only, cv));
                }
                if exists|t: int|
                    0 <= t < i + 1 && usable(#[trigger] edges@[t], before, changed_only, cv) && near_end(edges@[t], outgoing)
                        == a@ && far_end(edges@[t], outgoing) == x {
                    let t = choose|t: int|
                        0 <= t < i + 1 && usable(#[trigger] edges@[t], before, changed_only, cv) && near_end(
                            edges@[t],
                            outgoing,
                        ) == a@ && far_end(edges@[t], outgoing) == x;
                    if t == i {
                        assert(x == xv);
                    }
                }
            }
        } else {
            assert forall|x: Seq<char>| name_views(v@).contains(x) <==> exists|t: int|
                0 <= t < i + 1 && usable(#[trigger] edges@[t], before, changed_only, cv) && near_end(edges@[t], outgoing)
                    == a@ && far_end(edges@[t], outgoing) == x by {
                if exists|t: int|
                    0 <= t < i + 1 && usable(#[trigger] edges@[t], before, changed_only, cv) && near_end(edges@[t], outgoing)
                        == a@ && far_end(edges@[t], outgoing) == x {
                    let t = choose|t: int|
                        0 <= t < i + 1 && usable(#[trigger] edges@[t], before, changed_only, cv) && near_end(
                            edges@[t],
                            outgoing,
                        ) == a@ && far_end(edges@[t], outgoing) == x;
                    assert(t != i);
                }
            }
        }
        i = i + 1;
    }
    v
}

/// Runs the breadth-first search of one snapshot and direction from
/// `start`: the files in the order reached, and the file each was reached
/// from.
fn run_search(
    edges: &Vec<Edge>,
    before: bool,
    outgoing: bool,
    changed_only: bool,
    changed: &Vec<String>,
    start: &String,
) -> (r: (Vec<String>, Vec<String>))
    ensures
        (string_views(r.0@), string_views(r.1@)) == search(edges@, before, outgoing, changed_only, string_views(changed@), start@),
        r.0@.len() == r.1@.len(),
        r.0@.len() >= 1,
        string_views(r.0@)[0] == start@,
        forall|k: int| 0 <= k < r.1@.len() ==> string_views(r.0@).contains(#[trigger] string_views(r.1@)[k]),
{
    let ghost cv = string_views(changed@);
    let mut queue: Vec<String> = Vec::new();
    let mut parents: Vec<String> = Vec::new();
    queue.push(start.clone());
    parents.push(start.clone());
    assert(string_views(queue@) =~= seq![start@]);
    assert(string_views(parents@) =~= seq![start@]);
    let mut head: usize = 0;
    while head < queue.len()
        invariant
            cv == string_views(changed@),
            head <= queue@.len(),
            queue@.len() == parents@.len(),
            queue@.len() >= 1,
            string_views(queue@)[0] == start@,
            string_views(queue@).no_duplicates(),
            queue@.len() <= edges@.len() + 1,
            forall|k: int| 1 <= k < queue@.len() ==> is_far_end(edges@, outgoing, #[trigger] string_views(queue@)[k]),
            forall|k: int| 0 <= k < parents@.len() ==> string_views(queue@).contains(#[trigger] string_views(parents@)[k]),
            (string_views(queue@), string_views(parents@)) == bfs(edges@, before, outgoing, changed_only, cv, start@, head as nat),
        decreases edges@.len() + 1 - head,
    {
        let current = queue[head].clone();
        let nbrs = neighbour_list(edges, before, outgoing, changed_only, changed, &current);
        let ghost nv = name_views(nbrs@);
        let ghost q0 = string_views(queue@);
        let ghost p0 = string_views(parents@);
        proof {
            lemma_neighbours(edges@, before, outgoing, changed_only, cv, current@, nv);
            assert(q0[head as int] == current@);
        }
        let mut k: usize = 0;
        while k < nbrs.len()
            invariant
                cv == string_views(changed@),
                head < queue@.len(),
                k <= nbrs@.len(),
                nv == name_views(nbrs@),
                lists_neighbours(edges@, before, outgoing, changed_only, cv, current@, nv),
                queue@.len() == parents@.len(),
                queue@.len() >= 1,
                string_views(queue@)[0] == start@,
                string_views(queue@).no_duplicates(),
                queue@.len() <= edges@.len() + 1,
                forall|t: int| 1 <= t < queue@.len() ==> is_far_end(edges@, outgoing, #[trigger] string_views(queue@)[t]),
                forall|t: int| 0 <= t < parents@.len() ==> string_views(queue@).contains(#[trigger] string_views(parents@)[t]),
                string_views(queue@)[head as int] == current@,
                discover(nv, current@, q0, p0, 0) == discover(nv, current@, string_views(queue@), string_views(parents@), k as int),
            decreases nbrs@.len() - k,
        {
            let n = string_of(&nbrs[k], 0, nbrs[k].len());
            assert(nbrs@[k as int]@.subrange(0, nbrs@[k as int]@.len() as int) =~= nbrs@[k as int]@);
            assert(nv[k as int] == n@);
            if !contains_string(&queue, &n) {
                let ghost qv = string_views(queue@);
                let ghost pv = string_views(parents@);
                proof {
                    assert(nv.contains(n@));
                    let t = choose|t: int|
                        0 <= t < edges@.len() && usable(#[trigger] edges@[t], before, changed_only, cv) && near_end(
                            edges@[t],
                            outgoing,
                        ) == current@ && far_end(edges@[t], outgoing) == n@;
                    assert(is_far_end(edges@, outgoing, n@));
                }
                queue.push(n);
                parents.push(current.clone());
                assert(string_views(queue@) =~= qv.push(nv[k as int]));
                assert(string_views(parents@) =~= pv.push(current@));
                proof {
                    assert forall|t: int| 1 <= t < queue@.len() implies is_far_end(edges@, outgoing, #[trigger] string_views(queue@)[t]) by {
                        if t < qv.len() {
                            assert(string_views(queue@)[t] == qv[t]);
                        }
                    }
                    lemma_visited_bound(string_views(queue@), edges@, outgoing);
                    assert forall|t: int| 0 <= t < parents@.len() implies string_views(queue@).contains(#[trigger] string_views(parents@)[t]) by {
                        if t < pv.len() {
                            assert(string_views(parents@)[t] == pv[t]);
                            assert(qv.contains(pv[t]));
                            let u = choose|u: int| 0 <= u < qv.len() && qv[u] == pv[t];
                            assert(string_views(queue@)[u] == qv[u]);
                        } else {
                            assert(string_views(parents@)[t] == current@);
                            assert(string_views(queue@)[head as int] == qv[head as int]);
                        }
                    }
                }
            }
            k = k + 1;
        }
        proof {
            assert(bfs(edges@, before, outgoing, changed_only, cv, start@, (head + 1) as nat) == discover(
                neighbours(edges@, before, outgoing, changed_only, cv, q0[head as int]),
                q0[head as int],
                q0,
                p0,
                0,
            ));
        }
        head = head + 1;
    }
    proof {
        lemma_bfs_stable(edges@, before, outgoing, changed_only, cv, start@, head as nat, (edges@.len() + 1) as nat);
    }
    (queue, parents)
}


/// The first position of `x` in the queue from `k` on, the queue's length
/// when it is not there.
pub open spec fn position_from(queue: Seq<Seq<char>>, x: Seq<char>, k: int) -> int
    decreases queue.len() - k,
{
    if k < 0 || k >= queue.len() {
        queue.len() as int
    } else if queue[k] == x {
        k
    } else {
        position_from(queue, x, k + 1)
    }
}

/// The file `x` was reached from.
pub open spec fn parent_of(queue: Seq<Seq<char>>, parents: Seq<Seq<char>>, x: Seq<char>) -> Seq<char> {
    parents[position_from(queue, x, 0)]
}

/// The route back from `cur` to `start` through the files each was reached
/// from, at most `fuel` imports, each import written importer first.
pub open spec fn route(
    queue: Seq<Seq<char>>,
    parents: Seq<Seq<char>>,
    start: Seq<char>,
    outgoing: bool,
    cur: Seq<char>,
    fuel: nat,
) -> Seq<(Seq<char>, Seq<char>)>
    decreases fuel,
{
    if fuel == 0 || cur == start {
        Seq::empty()
    } else {
        let prev = parent_of(queue, parents, cur);
        seq![if outgoing { (prev, cur) } else { (cur, prev) }] + route(
            queue,
            parents,
            start,
            outgoing,
            prev,
            (fuel - 1) as nat,
        )
    }
}

/// Search `s` of the four: the new snapshot first, outward along imports
/// before back along them.
pub open spec fn search_before(s: int) -> bool {
    s >= 2
}

pub open spec fn search_outgoing(s: int) -> bool {
    s % 2 == 0
}

/// The completed search `s` from `start`.
pub open spec fn search_of(
    edges: Seq<Edge>,
    changed_only: bool,
    changed: Seq<Seq<char>>,
    start: Seq<char>,
    s: int,
) -> (Seq<Seq<char>>, Seq<Seq<char>>) {
    search(edges, search_before(s), search_outgoing(s), changed_only, changed, start)
}

/// The route of `target` in search `s`, when the search runs for the
/// selected file's change and reaches the target.
pub open spec fn route_in(
    edges: Seq<Edge>,
    changed_only: bool,
    changed: Seq<Seq<char>>,
    start: Seq<char>,
    selected: Change,
    target: Seq<char>,
    s: int,
) -> Option<Seq<(Seq<char>, Seq<char>)>> {
    let (q, ps) = search_of(edges, changed_only, changed, start, s);
    if in_snapshot(selected, search_before(s)) && target != start && q.contains(target) {
        Some(route(q, ps, start, search_outgoing(s), target, q.len()))
    } else {
        None
    }
}

/// The route kept for `target` after the first `n` searches: the first of
/// the shortest found.
pub open spec fn best_route(
    edges: Seq<Edge>,
    changed_only: bool,
    changed: Seq<Seq<char>>,
    start: Seq<char>,
    selected: Change,
    target: Seq<char>,
    n: int,
) -> Option<Seq<(Seq<char>, Seq<char>)>>
    decreases n,
{
    if n <= 0 {
        None
    } else {
        let prev = best_route(edges, changed_only, changed, start, selected, target, n - 1);
        match route_in(edges, changed_only, changed, start, selected, target, n - 1) {
            Some(r) => match prev {
                Some(p) => if r.len() < p.len() {
                    Some(r)
                } else {
                    Some(p)
                },
                None => Some(r),
            },
            None => prev,
        }
    }
}

/// Whether `x` is an end of one of the first `n` imports of `r`.
pub open spec fn on_prefix(r: Seq<(Seq<char>, Seq<char>)>, x: Seq<char>, n: int) -> bool {
    exists|k: int| 0 <= k < n && k < r.len() && is_end(#[trigger] r[k], x)
}

/// Whether `x` is an end of the import `e`.
pub open spec fn is_end(e: (Seq<char>, Seq<char>), x: Seq<char>) -> bool {
    e.0 == x || e.1 == x
}

/// Whether `x` is an end of one of the imports of `r`.
pub open spec fn on_route(r: Seq<(Seq<char>, Seq<char>)>, x: Seq<char>) -> bool {
    on_prefix(r, x, r.len() as int)
}

proof fn lemma_on_prefix_step(r: Seq<(Seq<char>, Seq<char>)>, x: Seq<char>, n: int)
    requires
        0 <= n < r.len(),
    ensures
        on_prefix(r, x, n + 1) <==> (on_prefix(r, x, n) || is_end(r[n], x)),
{
    if on_prefix(r, x, n + 1) {
        let k = choose|k: int| 0 <= k < n + 1 && k < r.len() && is_end(#[trigger] r[k], x);
        if k < n {
            assert(on_prefix(r, x, n));
        }
    }
}

proof fn lemma_pair_prefix_step(r: Seq<(Seq<char>, Seq<char>)>, a: Seq<char>, b: Seq<char>, n: int)
    requires
        0 <= n < r.len(),
    ensures
        r.take(n + 1).contains((a, b)) <==> (r.take(n).contains((a, b)) || r[n] == (a, b)),
{
    let t1 = r.take(n + 1);
    let t0 = r.take(n);
    if t1.contains((a, b)) {
        let k = choose|k: int| 0 <= k < t1.len() && t1[k] == (a, b);
        if k < n {
            assert(t0[k] == (a, b));
        }
    }
    if t0.contains((a, b)) {
        let k = choose|k: int| 0 <= k < t0.len() && t0[k] == (a, b);
        assert(t1[k] == (a, b));
    }
    if r[n] == (a, b) {
        assert(t1[n] == (a, b));
    }
}

/// Whether `x` is on the route kept for the `t`th changed file.
pub open spec fn kept_on(
    edges: Seq<Edge>,
    changed_only: bool,
    changed: Seq<Seq<char>>,
    start: Seq<char>,
    selected: Change,
    t: int,
    x: Seq<char>,
) -> bool {
    match best_route(edges, changed_only, changed, start, selected, changed[t], 4) {
        Some(r) => on_route(r, x),
        None => false,
    }
}

/// Whether the import `(a, b)` is on the route kept for the `t`th changed
/// file.
pub open spec fn kept_edge(
    edges: Seq<Edge>,
    changed_only: bool,
    changed: Seq<Seq<char>>,
    start: Seq<char>,
    selected: Change,
    t: int,
    a: Seq<char>,
    b: Seq<char>,
) -> bool {
    match best_route(edges, changed_only, changed, start, selected, changed[t], 4) {
        Some(r) => r.contains((a, b)),
        None => false,
    }
}

/// The file `x` was reached from, looked up in the search's queue.
fn parent_in(queue: &Vec<String>, parents: &Vec<String>, x: &String) -> (p: String)
    requires
        queue@.len() == parents@.len(),
        string_views(queue@).contains(x@),
    ensures
        p@ == parent_of(string_views(queue@), string_views(parents@), x@),
{
    let ghost qv = string_views(queue@);
    let mut k: usize = 0;
    assert(position_from(qv, x@, 0) < qv.len()) by {
        lemma_position_found(qv, x@, 0);
    }
    while k < queue.len()
        invariant
            qv == string_views(queue@),
            queue@.len() == parents@.len(),
            k <= queue@.len(),
            position_from(qv, x@, 0) == position_from(qv, x@, k as int),
            position_from(qv, x@, k as int) < qv.len(),
        decreases queue@.len() - k,
    {
        if same_string(&queue[k], x) {
            assert(string_views(parents@)[k as int] == parents@[k as int]@);
            return parents[k].clone();
        }
        k = k + 1;
    }
    parents[0].clone()
}

proof fn lemma_position_found(q: Seq<Seq<char>>, x: Seq<char>, k: int)
    requires
        0 <= k,
        exists|t: int| k <= t < q.len() && q[t] == x,
    ensures
        k <= position_from(q, x, k) < q.len(),
    decreases q.len() - k,
{
    if k < q.len() && q[k] != x {
        let t = choose|t: int| k <= t < q.len() && q[t] == x;
        assert(k + 1 <= t);
        lemma_position_found(q, x, k + 1);
    }
}

/// Walks back from `target` to `start` through the files each was reached
/// from, for at most as many imports as the search reached files.
fn walk_route(queue: &Vec<String>, parents: &Vec<String>, start: &String, outgoing: bool, target: &String) -> (r: Vec<(String, String)>)
    requires
        queue@.len() == parents@.len(),
        queue@.len() >= 1,
        string_views(queue@)[0] == start@,
        forall|k: int| 0 <= k < parents@.len() ==> string_views(queue@).contains(#[trigger] string_views(parents@)[k]),
        string_views(queue@).contains(target@),
    ensures
        pair_views(r@) == route(string_views(queue@), string_views(parents@), start@, outgoing, target@, queue@.len() as nat),
{
    let ghost qv = string_views(queue@);
    let ghost pv = string_views(parents@);
    let mut r: Vec<(String, String)> = Vec::new();
    let mut current = target.clone();
    let mut fuel: usize = queue.len();
    assert(pair_views(r@) =~= Seq::<(Seq<char>, Seq<char>)>::empty());
    while fuel > 0 && !same_string(&current, start)
        invariant
            qv == string_views(queue@),
            pv == string_views(parents@),
            queue@.len() == parents@.len(),
            forall|k: int| 0 <= k < parents@.len() ==> qv.contains(#[trigger] pv[k]),
            qv.contains(current@),
            pair_views(r@) + route(qv, pv, start@, outgoing, current@, fuel as nat) == route(
                qv,
                pv,
                start@,
                outgoing,
                target@,
                queue@.len() as nat,
            ),
        decreases fuel,
    {
        let previous = parent_in(queue, parents, &current);
        proof {
            let t = position_from(qv, current@, 0);
            lemma_position_found(qv, current@, 0);
            assert(pv.len() == qv.len());
            assert(0 <= t < pv.len());
            assert(qv.contains(pv[t]));
            assert(previous@ == pv[t]);
        }
        let ghost r0 = pair_views(r@);
        let ghost step = if outgoing { (previous@, current@) } else { (current@, previous@) };
        if outgoing {
            r.push((previous.clone(), current));
        } else {
            r.push((current, previous.clone()));
        }
        assert(pair_views(r@) =~= r0.push(step));
        let ghost cur_before = current@;
        current = previous;
        assert(route(qv, pv, start@, outgoing, cur_before, fuel as nat) == seq![step] + route(
            qv,
            pv,
            start@,
            outgoing,
            current@,
            (fuel - 1) as nat,
        ));
        assert(r0 + (seq![step] + route(qv, pv, start@, outgoing, current@, (fuel - 1) as nat)) =~= pair_views(r@) + route(
            qv,
            pv,
            start@,
            outgoing,
            current@,
            (fuel - 1) as nat,
        ));
        fuel = fuel - 1;
    }
    assert(pair_views(r@) + route(qv, pv, start@, outgoing, current@, fuel as nat) =~= pair_views(r@));
    r
}

pub open spec fn route_view(o: Option<Vec<(String, String)>>) -> Option<Seq<(Seq<char>, Seq<char>)>> {
    match o {
        Some(v) => Some(pair_views(v@)),
        None => None,
    }
}

/// The review focus of `path`: the file itself, and for each file of
/// `changed` (other than `path`) that a search reaches, the imports of the
/// route kept for it and their files. Four breadth-first searches run from
/// `path`, neighbours taken in name order: in the new snapshot outward
/// along imports, then back along them, then the same in the old snapshot;
/// a snapshot without the selected file is skipped, and with
/// `changed_only` only imports between two changed files are followed.
/// Each route leads back to `path` through the file each file was first
/// reached from; the route kept for a file is the first of the shortest.
/// `None` when the graph has no file at `path`.
pub fn review_dependency_focus(
    graph: &Graph,
    path: &str,
    changed: &Vec<String>,
    changed_only: bool,
) -> (r: Option<DependencyFocus>)
    requires
        graph.wf(),
    ensures
        r is None <==> file_change(graph.files@, path@) is None,
        r matches Some(focus) ==> {
            &&& string_views(focus.files@).no_duplicates()
            &&& pair_views(focus.edges@).no_duplicates()
            &&& forall|x: Seq<char>|
                string_views(focus.files@).contains(x) <==> (x == path@ || exists|t: int|
                    0 <= t < changed@.len() && #[trigger] kept_on(
                        graph.edges@,
                        changed_only,
                        string_views(changed@),
                        path@,
                        file_change(graph.files@, path@).unwrap(),
                        t,
                        x,
                    ))
            &&& forall|a: Seq<char>, b: Seq<char>|
                pair_views(focus.edges@).contains((a, b)) <==> exists|t: int|
                    0 <= t < changed@.len() && #[trigger] kept_edge(
                        graph.edges@,
                        changed_only,
                        string_views(changed@),
                        path@,
                        file_change(graph.files@, path@).unwrap(),
                        t,
                        a,
                        b,
                    )
        },
{
    let start = path.to_owned();
    let index = match find_file(&graph.files, &start) {
        Some(i) => i,
        None => return None,
    };
    let selected = graph.files[index].change;
    assert(file_change(graph.files@, path@) == Some(selected));
    let ghost cv = string_views(changed@);
    let ghost e = graph.edges@;
    let mut best: Vec<Option<Vec<(String, String)>>> = Vec::new();
    let mut j: usize = 0;
    while j < changed.len()
        invariant
            j <= changed@.len(),
            best@.len() == j,
            forall|t: int| 0 <= t < j ==> #[trigger] best@[t] is None,
        decreases changed@.len() - j,
    {
        best.push(None);
        j = j + 1;
    }
    let mut s: usize = 0;
    while s < 4
        invariant
            s <= 4,
            cv == string_views(changed@),
            e == graph.edges@,
            start@ == path@,
            best@.len() == changed@.len(),
            forall|t: int| 0 <= t < changed@.len() ==> route_view(#[trigger] best@[t]) == best_route(
                e,
                changed_only,
                cv,
                path@,
                selected,
                cv[t],
                s as int,
            ),
        decreases 4 - s,
    {
        let before = s >= 2;
        let outgoing = s % 2 == 0;
        assert(before == search_before(s as int) && outgoing == search_outgoing(s as int));
        if in_snapshot_of(selected, before) {
            let (queue, parents) = run_search(&graph.edges, before, outgoing, changed_only, changed, &start);
            let ghost qv = string_views(queue@);
            let ghost pv = string_views(parents@);
            let mut j: usize = 0;
            while j < changed.len()
                invariant
                    s < 4,
                    before == search_before(s as int),
                    outgoing == search_outgoing(s as int),
                    in_snapshot(selected, before),
                    cv == string_views(changed@),
                    e == graph.edges@,
                    start@ == path@,
                    qv == string_views(queue@),
                    pv == string_views(parents@),
                    (qv, pv) == search_of(e, changed_only, cv, path@, s as int),
                    queue@.len() == parents@.len(),
                    queue@.len() >= 1,
                    qv[0] == start@,
                    forall|k: int| 0 <= k < parents@.len() ==> qv.contains(#[trigger] pv[k]),
                    j <= changed@.len(),
                    best@.len() == changed@.len(),
                    forall|t: int| 0 <= t < j ==> route_view(#[trigger] best@[t]) == best_route(
                        e,
                        changed_only,
                        cv,
                        path@,
                        selected,
                        cv[t],
                        s + 1,
                    ),
                    forall|t: int| j <= t < changed@.len() ==> route_view(#[trigger] best@[t]) == best_route(
                        e,
                        changed_only,
                        cv,
                        path@,
                        selected,
                        cv[t],
                        s as int,
                    ),
                decreases changed@.len() - j,
            {
                let target = &changed[j];
                assert(cv[j as int] == target@);
                let ghost prev = best_route(e, changed_only, cv, path@, selected, cv[j as int], s as int);
                if !same_string(target, &start) && contains_string(&queue, target) {
                    let route = walk_route(&queue, &parents, &start, outgoing, target);
                    let replace = match &best[j] {
                        None => true,
                        Some(p) => route.len() < p.len(),
                    };
                    if replace {
                        best.set(j, Some(route));
                    }
                }
                assert forall|t: int| 0 <= t < j + 1 implies route_view(#[trigger] best@[t]) == best_route(
                    e,
                    changed_only,
                    cv,
                    path@,
                    selected,
                    cv[t],
                    s + 1,
                ) by {
                }
                j = j + 1;
            }
        } else {
            assert forall|t: int| 0 <= t < changed@.len() implies route_view(#[trigger] best@[t]) == best_route(
                e,
                changed_only,
                cv,
                path@,
                selected,
                cv[t],
                s + 1,
            ) by {
            }
        }
        s = s + 1;
    }
    let mut files: Vec<String> = Vec::new();
    files.push(start.clone());
    let mut pairs: Vec<(String, String)> = Vec::new();
    assert(string_views(files@) =~= seq![path@]);
    assert(pair_views(pairs@) =~= Seq::<(Seq<char>, Seq<char>)>::empty());
    assert forall|x: Seq<char>| string_views(files@).contains(x) <==> (x == path@ || exists|t: int|
        0 <= t < 0 && #[trigger] kept_on(e, changed_only, cv, path@, selected, t, x)) by {
        if x == path@ {
            assert(string_views(files@)[0] == x);
        }
    }
    let mut j: usize = 0;
    while j < best.len()
        invariant
            j <= best@.len(),
            best@.len() == changed@.len(),
            cv == string_views(changed@),
            e == graph.edges@,
            file_change(graph.files@, path@) == Some(selected),
            forall|t: int| 0 <= t < changed@.len() ==> route_view(#[trigger] best@[t]) == best_route(
                e,
                changed_only,
                cv,
                path@,
                selected,
                cv[t],
                4,
            ),
            string_views(files@).no_duplicates(),
            pair_views(pairs@).no_duplicates(),
            forall|x: Seq<char>| string_views(files@).contains(x) <==> (x == path@ || exists|t: int|
                0 <= t < j && #[trigger] kept_on(e, changed_only, cv, path@, selected, t, x)),
            forall|a: Seq<char>, b: Seq<char>| pair_views(pairs@).contains((a, b)) <==> exists|t: int|
                0 <= t < j && #[trigger] kept_edge(e, changed_only, cv, path@, selected, t, a, b),
        decreases best@.len() - j,
    {
        let ghost fj = string_views(files@);
        let ghost pj = pair_views(pairs@);
        match &best[j] {
            Some(route) => {
                let ghost rv = pair_views(route@);
                assert(route_view(best@[j as int]) == Some(rv));
                let mut k: usize = 0;
                assert(rv.take(0) =~= Seq::<(Seq<char>, Seq<char>)>::empty());
                while k < route.len()
                    invariant
                        k <= route@.len(),
                        rv == pair_views(route@),
                        string_views(files@).no_duplicates(),
                        pair_views(pairs@).no_duplicates(),
                        forall|x: Seq<char>| #[trigger] string_views(files@).contains(x) <==> (fj.contains(x) || on_prefix(rv, x, k as int)),
                        forall|a: Seq<char>, b: Seq<char>| #[trigger] pair_views(pairs@).contains((a, b)) <==> (pj.contains((a, b))
                            || rv.take(k as int).contains((a, b))),
                    decreases route@.len() - k,
                {
                    let ghost fa = string_views(files@);
                    let ghost pa = pair_views(pairs@);
                    add_string(&mut files, &route[k].0);
                    add_string(&mut files, &route[k].1);
                    add_pair(&mut pairs, &route[k].0, &route[k].1);
                    assert(rv[k as int] == (route@[k as int].0@, route@[k as int].1@));
                    assert forall|x: Seq<char>| #[trigger] string_views(files@).contains(x) <==> (fj.contains(x) || on_prefix(rv, x, k + 1)) by {
                        assert(string_views(files@).to_set().contains(x) == string_views(files@).contains(x));
                        assert(fa.to_set().contains(x) == fa.contains(x));
                        lemma_on_prefix_step(rv, x, k as int);
                    }
                    assert forall|a: Seq<char>, b: Seq<char>| #[trigger] pair_views(pairs@).contains((a, b)) <==> (pj.contains((a, b))
                        || rv.take(k + 1).contains((a, b))) by {
                        assert(pair_views(pairs@).to_set().contains((a, b)) == pair_views(pairs@).contains((a, b)));
                        assert(pa.to_set().contains((a, b)) == pa.contains((a, b)));
                        lemma_pair_prefix_step(rv, a, b, k as int);
                    }
                    k = k + 1;
                }
                assert(rv.take(rv.len() as int) =~= rv);
                assert forall|x: Seq<char>| string_views(files@).contains(x) <==> (x == path@ || exists|t: int|
                    0 <= t < j + 1 && #[trigger] kept_on(e, changed_only, cv, path@, selected, t, x)) by {
                    assert(kept_on(e, changed_only, cv, path@, selected, j as int, x) == on_route(rv, x));
                    if exists|t: int| 0 <= t < j + 1 && #[trigger] kept_on(e, changed_only, cv, path@, selected, t, x) {
                        let t = choose|t: int| 0 <= t < j + 1 && #[trigger] kept_on(e, changed_only, cv, path@, selected, t, x);
                        if t < j {
                            assert(fj.contains(x));
                        }
                    }
                }
                assert forall|a: Seq<char>, b: Seq<char>| pair_views(pairs@).contains((a, b)) <==> exists|t: int|
                    0 <= t < j + 1 && #[trigger] kept_edge(e, changed_only, cv, path@, selected, t, a, b) by {
                    assert(kept_edge(e, changed_only, cv, path@, selected, j as int, a, b) == rv.contains((a, b)));
                    if exists|t: int| 0 <= t < j + 1 && #[trigger] kept_edge(e, changed_only, cv, path@, selected, t, a, b) {
                        let t = choose|t: int| 0 <= t < j + 1 && #[trigger] kept_edge(e, changed_only, cv, path@, selected, t, a, b);
                        if t < j {
                            assert(pj.contains((a, b)));
                        }
                    }
                }
            },
            None => {
                assert(route_view(best@[j as int]) is None);
                assert forall|x: Seq<char>| string_views(files@).contains(x) <==> (x == path@ || exists|t: int|
                    0 <= t < j + 1 && #[trigger] kept_on(e, changed_only, cv, path@, selected, t, x)) by {
                    assert(!kept_on(e, changed_only, cv, path@, selected, j as int, x));
                    if exists|t: int| 0 <= t < j + 1 && #[trigger] kept_on(e, changed_only, cv, path@, selected, t, x) {
                        let t = choose|t: int| 0 <= t < j + 1 && #[trigger] kept_on(e, changed_only, cv, path@, selected, t, x);
                        assert(t < j);
                    }
                }
                assert forall|a: Seq<char>, b: Seq<char>| pair_views(pairs@).contains((a, b)) <==> exists|t: int|
                    0 <= t < j + 1 && #[trigger] kept_edge(e, changed_only, cv, path@, selected, t, a, b) by {
                    assert(!kept_edge(e, changed_only, cv, path@, selected, j as int, a, b));
                    if exists|t: int| 0 <= t < j + 1 && #[trigger] kept_edge(e, changed_only, cv, path@, selected, t, a, b) {
                        let t = choose|t: int| 0 <= t < j + 1 && #[trigger] kept_edge(e, changed_only, cv, path@, selected, t, a, b);
                        assert(t < j);
                    }
                }
            },
        }
        j = j + 1;
    }
    proof {
        let fc = file_change(graph.files@, path@).unwrap();
        assert(fc == selected);
        assert forall|x: Seq<char>| string_views(files@).contains(x) <==> (x == path@ || exists|t: int|
            0 <= t < changed@.len() && #[trigger] kept_on(graph.edges@, changed_only, string_views(changed@), path@, fc, t, x)) by {
            if exists|t: int| 0 <= t < changed@.len() && #[trigger] kept_on(graph.edges@, changed_only, string_views(changed@), path@, fc, t, x) {
                let t = choose|t: int| 0 <= t < changed@.len() && #[trigger] kept_on(graph.edges@, changed_only, string_views(changed@), path@, fc, t, x);
                assert(kept_on(e, changed_only, cv, path@, selected, t, x));
            }
            if string_views(files@).contains(x) && x != path@ {
                let t = choose|t: int| 0 <= t < j && #[trigger] kept_on(e, changed_only, cv, path@, selected, t, x);
                assert(kept_on(graph.edges@, changed_only, string_views(changed@), path@, fc, t, x));
            }
        }
        assert forall|a: Seq<char>, b: Seq<char>| pair_views(pairs@).contains((a, b)) <==> exists|t: int|
            0 <= t < changed@.len() && #[trigger] kept_edge(graph.edges@, changed_only, string_views(changed@), path@, fc, t, a, b) by {
            if exists|t: int| 0 <= t < changed@.len() && #[trigger] kept_edge(graph.edges@, changed_only, string_views(changed@), path@, fc, t, a, b) {
                let t = choose|t: int| 0 <= t < changed@.len() && #[trigger] kept_edge(graph.edges@, changed_only, string_views(changed@), path@, fc, t, a, b);
                assert(kept_edge(e, changed_only, cv, path@, selected, t, a, b));
            }
            if pair_views(pairs@).contains((a, b)) {
                let t = choose|t: int| 0 <= t < j && #[trigger] kept_edge(e, changed_only, cv, path@, selected, t, a, b);
                assert(kept_edge(graph.edges@, changed_only, string_views(changed@), path@, fc, t, a, b));
            }
        }
    }
    Some(DependencyFocus { files, edges: pairs })
}
} // verus!
