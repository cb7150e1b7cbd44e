//! The focus the bubble view shows for a selected file: the dependency
//! focus cut to the files on screen, and in the changed-only view to what
//! still connects to the selected file.
use vstd::prelude::*;
use crate::radar::{add_pair, add_string, contains_string, pair_views, same_string, string_views, DependencyFocus};

verus! {

/// Whether the import `(a, b)` of the focus joins two visible files.
pub open spec fn shown_edge(edges: Seq<(Seq<char>, Seq<char>)>, visible: Seq<Seq<char>>, a: Seq<char>, b: Seq<char>) -> bool {
    edges.contains((a, b)) && visible.contains(a) && visible.contains(b)
}

/// Whether a shown import joins `a` and `b`, either way.
pub open spec fn adjacent(edges: Seq<(Seq<char>, Seq<char>)>, visible: Seq<Seq<char>>, a: Seq<char>, b: Seq<char>) -> bool {
    shown_edge(edges, visible, a, b) || shown_edge(edges, visible, b, a)
}

/// The files at most `k` shown imports away from `start`.
pub open spec fn near(
    edges: Seq<(Seq<char>, Seq<char>)>,
    visible: Seq<Seq<char>>,
    start: Seq<char>,
    k: nat,
) -> Set<Seq<char>>
    decreases k,
{
    if k == 0 {
        set![start]
    } else {
        let r = near(edges, visible, start, (k - 1) as nat);
        r.union(Set::new(|b: Seq<char>| exists|a: Seq<char>| r.contains(a) && adjacent(edges, visible, a, b)))
    }
}

/// Whether `x` connects to `start` through shown imports.
pub open spec fn connected(edges: Seq<(Seq<char>, Seq<char>)>, visible: Seq<Seq<char>>, start: Seq<char>, x: Seq<char>) -> bool {
    exists|k: nat| #[trigger] near(edges, visible, start, k).contains(x)
}

proof fn lemma_connected_step(
    edges: Seq<(Seq<char>, Seq<char>)>,
    visible: Seq<Seq<char>>,
    start: Seq<char>,
    a: Seq<char>,
    b: Seq<char>,
)
    requires
        connected(edges, visible, start, a),
        adjacent(edges, visible, a, b),
    ensures
        connected(edges, visible, start, b),
{
    let k = choose|k: nat| #[trigger] near(edges, visible, start, k).contains(a);
    assert(near(edges, visible, start, k + 1).contains(b));
}

proof fn lemma_closed_contains_near(
    edges: Seq<(Seq<char>, Seq<char>)>,
    visible: Seq<Seq<char>>,
    start: Seq<char>,
    s: Set<Seq<char>>,
    k: nat,
)
    requires
        s.contains(start),
        forall|a: Seq<char>, b: Seq<char>| s.contains(a) && adjacent(edges, visible, a, b) ==> s.contains(b),
    ensures
        near(edges, visible, start, k).subset_of(s),
    decreases k,
{
    if k > 0 {
        lemma_closed_contains_near(edges, visible, start, s, (k - 1) as nat);
    }
}

/// Whether `x` is shown in the focus of `start`.
pub open spec fn shown_file(
    focus_files: Seq<Seq<char>>,
    edges: Seq<(Seq<char>, Seq<char>)>,
    visible: Seq<Seq<char>>,
    start: Seq<char>,
    changed_only: bool,
    x: Seq<char>,
) -> bool {
    &&& ((focus_files.contains(x) && visible.contains(x)) || x == start)
    &&& changed_only ==> connected(edges, visible, start, x)
}

/// Whether the import `(a, b)` is shown in the focus of `start`.
pub open spec fn shown_import(
    edges: Seq<(Seq<char>, Seq<char>)>,
    visible: Seq<Seq<char>>,
    start: Seq<char>,
    changed_only: bool,
    a: Seq<char>,
    b: Seq<char>,
) -> bool {
    &&& shown_edge(edges, visible, a, b)
    &&& changed_only ==> connected(edges, visible, start, a) && connected(edges, visible, start, b)
}

/// Every end of the listed imports, each import's two ends in order.
pub open spec fn ends(pairs: Seq<(Seq<char>, Seq<char>)>) -> Seq<Seq<char>>
    decreases pairs.len(),
{
    if pairs.len() == 0 {
        Seq::empty()
    } else {
        ends(pairs.drop_last()) + seq![pairs.last().0, pairs.last().1]
    }
}

proof fn lemma_ends(pairs: Seq<(Seq<char>, Seq<char>)>)
    ensures
        ends(pairs).len() == 2 * pairs.len(),
        forall|k: int| 0 <= k < pairs.len() ==> ends(pairs).contains(#[trigger] pairs[k].0),
        forall|k: int| 0 <= k < pairs.len() ==> ends(pairs).contains(#[trigger] pairs[k].1),
    decreases pairs.len(),
{
    if pairs.len() > 0 {
        let init = pairs.drop_last();
        lemma_ends(init);
        let e = ends(pairs);
        let ei = ends(init);
        assert(e == ei + seq![pairs.last().0, pairs.last().1]);
        assert forall|k: int| 0 <= k < pairs.len() implies e.contains(#[trigger] pairs[k].0) by {
            if k < init.len() {
                assert(init[k] == pairs[k]);
                assert(ei.contains(init[k].0));
                let i0 = choose|i: int| 0 <= i < ei.len() && ei[i] == pairs[k].0;
                assert(e[i0] == pairs[k].0);
            } else {
                assert(e[2 * init.len() as int] == pairs[k].0);
            }
        }
        assert forall|k: int| 0 <= k < pairs.len() implies e.contains(#[trigger] pairs[k].1) by {
            if k < init.len() {
                assert(init[k] == pairs[k]);
                assert(ei.contains(init[k].1));
                let i1 = choose|i: int| 0 <= i < ei.len() && ei[i] == pairs[k].1;
                assert(e[i1] == pairs[k].1);
            } else {
                assert(e[2 * init.len() as int + 1] == pairs[k].1);
            }
        }
    }
}

proof fn lemma_component_bound(vs: Seq<Seq<char>>, pairs: Seq<(Seq<char>, Seq<char>)>)
    requires
        vs.len() >= 1,
        vs.no_duplicates(),
        forall|k: int| 1 <= k < vs.len() ==> ends(pairs).contains(#[trigger] vs[k]),
    ensures
        vs.len() <= 2 * pairs.len() + 1,
{
    lemma_ends(pairs);
    let tail = vs.drop_first();
    let e = ends(pairs);
    assert(tail.no_duplicates());
    tail.unique_seq_to_set();
    e.lemma_cardinality_of_set();
    vstd::seq_lib::seq_to_set_is_finite(e);
    assert forall|x: Seq<char>| tail.to_set().contains(x) implies e.to_set().contains(x) by {
        let k = choose|k: int| 0 <= k < tail.len() && tail[k] == x;
        assert(vs[k + 1] == x);
    }
    vstd::set_lib::lemma_len_subset(tail.to_set(), e.to_set());
}

/// The files connected to `start` through the imports `pairs`.
fn component(pairs: &Vec<(String, String)>, start: &String, Ghost(edges): Ghost<Seq<(Seq<char>, Seq<char>)>>, Ghost(visible): Ghost<Seq<Seq<char>>>) -> (visited: Vec<String>)
    requires
        forall|a: Seq<char>, b: Seq<char>| pair_views(pairs@).contains((a, b)) <==> shown_edge(edges, visible, a, b),
    ensures
        string_views(visited@).no_duplicates(),
        forall|x: Seq<char>| string_views(visited@).contains(x) <==> connected(edges, visible, start@, x),
{
    let ghost pv = pair_views(pairs@);
    let mut visited: Vec<String> = Vec::new();
    visited.push(start.clone());
    proof {
        assert(near(edges, visible, start@, 0).contains(start@));
        assert(string_views(visited@) =~= seq![start@]);
    }
    let mut i: usize = 0;
    while i < visited.len()
        invariant
            pv == pair_views(pairs@),
            forall|a: Seq<char>, b: Seq<char>| pv.contains((a, b)) <==> shown_edge(edges, visible, a, b),
            i <= visited@.len(),
            visited@.len() >= 1,
            string_views(visited@)[0] == start@,
            string_views(visited@).no_duplicates(),
            visited@.len() <= 2 * pairs@.len() + 1,
            forall|k: int| 0 <= k < visited@.len() ==> connected(edges, visible, start@, #[trigger] string_views(visited@)[k]),
            forall|k: int| 1 <= k < visited@.len() ==> ends(pv).contains(#[trigger] string_views(visited@)[k]),
            forall|k: int, b: Seq<char>| 0 <= k < i && #[trigger] adjacent(edges, visible, string_views(visited@)[k], b) ==> string_views(visited@).contains(b),
        decreases 2 * pairs@.len() + 1 - i,
    {
        let current = visited[i].clone();
        let ghost cur = string_views(visited@)[i as int];
        let mut j: usize = 0;
        while j < pairs.len()
            invariant
                pv == pair_views(pairs@),
                forall|a: Seq<char>, b: Seq<char>| pv.contains((a, b)) <==> shown_edge(edges, visible, a, b),
                i < visited@.len(),
                j <= pairs@.len(),
                current@ == cur,
                cur == string_views(visited@)[i as int],
                visited@.len() >= 1,
                string_views(visited@)[0] == start@,
                string_views(visited@).no_duplicates(),
                visited@.len() <= 2 * pairs@.len() + 1,
                connected(edges, visible, start@, cur),
                forall|k: int| 0 <= k < visited@.len() ==> connected(edges, visible, start@, #[trigger] string_views(visited@)[k]),
                forall|k: int| 1 <= k < visited@.len() ==> ends(pv).contains(#[trigger] string_views(visited@)[k]),
                forall|k: int, b: Seq<char>| 0 <= k < i && #[trigger] adjacent(edges, visible, string_views(visited@)[k], b) ==> string_views(visited@).contains(b),
                forall|m: int| 0 <= m < j && #[trigger] pv[m].0 == cur ==> string_views(visited@).contains(pv[m].1),
                forall|m: int| 0 <= m < j && #[trigger] pv[m].1 == cur ==> string_views(visited@).contains(pv[m].0),
            decreases pairs@.len() - j,
        {
            let (a, b) = (&pairs[j].0, &pairs[j].1);
            assert(pv[j as int] == (a@, b@));
            proof {
                lemma_ends(pv);
                assert(pv.contains((a@, b@)));
                assert(ends(pv).contains(pv[j as int].0));
                assert(ends(pv).contains(pv[j as int].1));
            }
            let ghost before = string_views(visited@);
            let a_here = same_string(a, &current);
            let b_seen = contains_string(&visited, b);
            if a_here && !b_seen {
                proof {
                    assert(adjacent(edges, visible, cur, b@));
                    lemma_connected_step(edges, visible, start@, cur, b@);
                }
                visited.push(b.clone());
                assert(string_views(visited@) =~= before.push(b@));
                proof {
                    assert forall|k: int| 1 <= k < visited@.len() implies ends(pv).contains(#[trigger] string_views(visited@)[k]) by {
                        if k < before.len() {
                            assert(string_views(visited@)[k] == before[k]);
                        }
                    }
                    lemma_component_bound(string_views(visited@), pv);
                }
            }
            let ghost mid = string_views(visited@);
            proof {
                if a_here {
                    assert(mid.contains(b@)) by {
                        if b_seen {
                            let t = choose|t: int| 0 <= t < before.len() && before[t] == b@;
                            assert(mid[t] == b@);
                        } else {
                            assert(mid[before.len() as int] == b@);
                        }
                    }
                }
            }
            let b_here = same_string(b, &current);
            let a_seen = contains_string(&visited, a);
            if b_here && !a_seen {
                proof {
                    assert(adjacent(edges, visible, cur, a@));
                    lemma_connected_step(edges, visible, start@, cur, a@);
                }
                visited.push(a.clone());
                assert(string_views(visited@) =~= mid.push(a@));
                proof {
                    assert forall|k: int| 1 <= k < visited@.len() implies ends(pv).contains(#[trigger] string_views(visited@)[k]) by {
                        if k < mid.len() {
                            assert(string_views(visited@)[k] == mid[k]);
                        }
                    }
                    lemma_component_bound(string_views(visited@), pv);
                }
            }
            proof {
                let now = string_views(visited@);
                assert(forall|t: int| 0 <= t < before.len() ==> now[t] == before[t]);
                assert forall|x: Seq<char>| before.contains(x) implies now.contains(x) by {
                    let t = choose|t: int| 0 <= t < before.len() && before[t] == x;
                    assert(now[t] == x);
                }
                assert forall|k: int| 1 <= k < now.len() implies ends(pv).contains(#[trigger] now[k]) by {
                    if k < before.len() {
                        assert(now[k] == before[k]);
                    }
                }
                assert forall|k: int| 0 <= k < now.len() implies connected(edges, visible, start@, #[trigger] now[k]) by {
                    if k < before.len() {
                        assert(now[k] == before[k]);
                    }
                }
                assert forall|k: int, y: Seq<char>| 0 <= k < i && #[trigger] adjacent(edges, visible, now[k], y) implies now.contains(y) by {
                    assert(now[k] == before[k]);
                    assert(before.contains(y));
                }
                assert(forall|t: int| 0 <= t < mid.len() ==> now[t] == mid[t]);
                if a@ == cur {
                    let t = choose|t: int| 0 <= t < mid.len() && mid[t] == b@;
                    assert(now[t] == b@);
                }
                if b@ == cur {
                    if a_seen {
                        let t = choose|t: int| 0 <= t < mid.len() && mid[t] == a@;
                        assert(now[t] == a@);
                    } else {
                        assert(now[mid.len() as int] == a@);
                    }
                }
            }
            j = j + 1;
        }
        proof {
            let now = string_views(visited@);
            assert forall|k: int, y: Seq<char>| 0 <= k < i + 1 && #[trigger] adjacent(edges, visible, now[k], y) implies now.contains(y) by {
                if k == i {
                    if shown_edge(edges, visible, cur, y) {
                        let m = choose|m: int| 0 <= m < pv.len() && pv[m] == (cur, y);
                        assert(pv[m].0 == cur);
                    } else {
                        let m = choose|m: int| 0 <= m < pv.len() && pv[m] == (y, cur);
                        assert(pv[m].1 == cur);
                    }
                }
            }
        }
        i = i + 1;
    }
    proof {
        let vs = string_views(visited@);
        assert forall|x: Seq<char>| vs.contains(x) <==> connected(edges, visible, start@, x) by {
            if connected(edges, visible, start@, x) {
                let k = choose|k: nat| #[trigger] near(edges, visible, start@, k).contains(x);
                assert forall|a: Seq<char>, b: Seq<char>| vs.to_set().contains(a) && adjacent(edges, visible, a, b) implies vs.to_set().contains(b) by {
                    let t = choose|t: int| 0 <= t < vs.len() && vs[t] == a;
                }
                assert(vs.to_set().contains(start@)) by {
                    assert(vs[0] == start@);
                }
                lemma_closed_contains_near(edges, visible, start@, vs.to_set(), k);
            }
            if vs.contains(x) {
                let t = choose|t: int| 0 <= t < vs.len() && vs[t] == x;
            }
        }
    }
    visited
}


/// The dependencies the bubble view shows when `path` is selected: the
/// files and imports of `focus` that are on screen (`visible`), `path`
/// itself, and with `changed_only` only what still connects to `path`
/// through the shown imports, since hiding unchanged files can split a
/// route.
pub fn bubble_dependencies(
    focus: &DependencyFocus,
    path: &String,
    visible: &Vec<String>,
    changed_only: bool,
) -> (r: DependencyFocus)
    ensures
        string_views(r.files@).no_duplicates(),
        pair_views(r.edges@).no_duplicates(),
        forall|x: Seq<char>| string_views(r.files@).contains(x) <==> shown_file(
            string_views(focus.files@),
            pair_views(focus.edges@),
            string_views(visible@),
            path@,
            changed_only,
            x,
        ),
        forall|a: Seq<char>, b: Seq<char>| pair_views(r.edges@).contains((a, b)) <==> shown_import(
            pair_views(focus.edges@),
            string_views(visible@),
            path@,
            changed_only,
            a,
            b,
        ),
{
    let ghost fv = string_views(focus.files@);
    let ghost ev = pair_views(focus.edges@);
    let ghost vv = string_views(visible@);
    let mut files: Vec<String> = Vec::new();
    assert(string_views(files@) =~= Seq::<Seq<char>>::empty());
    let mut i: usize = 0;
    while i < focus.files.len()
        invariant
            i <= focus.files@.len(),
            fv == string_views(focus.files@),
            vv == string_views(visible@),
            string_views(files@).no_duplicates(),
            forall|x: Seq<char>| #[trigger] string_views(files@).contains(x) <==> (fv.take(i as int).contains(x) && vv.contains(x)),
        decreases focus.files@.len() - i,
    {
        let f = &focus.files[i];
        let ghost before = string_views(files@);
        if contains_string(visible, f) {
            add_string(&mut files, f);
        }
        proof {
            assert(fv.take(i + 1) =~= fv.take(i as int).push(f@));
            assert forall|x: Seq<char>| #[trigger] string_views(files@).contains(x) <==> (fv.take(i + 1).contains(x) && vv.contains(x)) by {
                assert(string_views(files@).to_set().contains(x) == string_views(files@).contains(x));
                assert(before.to_set().contains(x) == before.contains(x));
                if fv.take(i + 1).contains(x) {
                    let t = choose|t: int| 0 <= t < i + 1 && #[trigger] fv.take(i + 1)[t] == x;
                    if t < i {
                        assert(fv.take(i as int)[t] == x);
                    }
                }
                if fv.take(i as int).contains(x) {
                    let t = choose|t: int| 0 <= t < i && #[trigger] fv.take(i as int)[t] == x;
                    assert(fv.take(i + 1)[t] == x);
                }
                if x == f@ {
                    assert(fv.take(i + 1)[i as int] == x);
                }
            }
        }
        i = i + 1;
    }
    assert(fv.take(fv.len() as int) =~= fv);
    let ghost f1 = string_views(files@);
    add_string(&mut files, path);
    let mut edges: Vec<(String, String)> = Vec::new();
    assert(pair_views(edges@) =~= Seq::<(Seq<char>, Seq<char>)>::empty());
    let mut j: usize = 0;
    while j < focus.edges.len()
        invariant
            j <= focus.edges@.len(),
            ev == pair_views(focus.edges@),
            vv == string_views(visible@),
            pair_views(edges@).no_duplicates(),
            forall|a: Seq<char>, b: Seq<char>| #[trigger] pair_views(edges@).contains((a, b)) <==> (ev.take(j as int).contains((a, b))
                && vv.contains(a) && vv.contains(b)),
        decreases focus.edges@.len() - j,
    {
        let (a, b) = (&focus.edges[j].0, &focus.edges[j].1);
        assert(ev[j as int] == (a@, b@));
        let ghost before = pair_views(edges@);
        if contains_string(visible, a) && contains_string(visible, b) {
            add_pair(&mut edges, a, b);
        }
        proof {
            assert(ev.take(j + 1) =~= ev.take(j as int).push((a@, b@)));
            assert forall|x: Seq<char>, y: Seq<char>| #[trigger] pair_views(edges@).contains((x, y)) <==> (ev.take(j + 1).contains((x, y))
                && vv.contains(x) && vv.contains(y)) by {
                assert(pair_views(edges@).to_set().contains((x, y)) == pair_views(edges@).contains((x, y)));
                assert(before.to_set().contains((x, y)) == before.contains((x, y)));
                if ev.take(j + 1).contains((x, y)) {
                    let t = choose|t: int| 0 <= t < j + 1 && #[trigger] ev.take(j + 1)[t] == (x, y);
                    if t < j {
                        assert(ev.take(j as int)[t] == (x, y));
                    }
                }
                if ev.take(j as int).contains((x, y)) {
                    let t = choose|t: int| 0 <= t < j && #[trigger] ev.take(j as int)[t] == (x, y);
                    assert(ev.take(j + 1)[t] == (x, y));
                }
                if (x, y) == (a@, b@) {
                    assert(ev.take(j + 1)[j as int] == (x, y));
                }
            }
        }
        j = j + 1;
    }
    assert(ev.take(ev.len() as int) =~= ev);
    proof {
        assert forall|x: Seq<char>, y: Seq<char>| pair_views(edges@).contains((x, y)) <==> shown_edge(ev, vv, x, y) by {}
        assert forall|x: Seq<char>| string_views(files@).contains(x) <==> ((fv.contains(x) && vv.contains(x)) || x == path@) by {
            assert(string_views(files@).to_set().contains(x) == string_views(files@).contains(x));
            assert(f1.to_set().contains(x) == f1.contains(x));
        }
    }
    if !changed_only {
        return DependencyFocus { files, edges };
    }
    let reached = component(&edges, path, Ghost(ev), Ghost(vv));
    let mut kept_files: Vec<String> = Vec::new();
    assert(string_views(kept_files@) =~= Seq::<Seq<char>>::empty());
    let ghost all_files = string_views(files@);
    let mut k: usize = 0;
    while k < files.len()
        invariant
            k <= files@.len(),
            all_files == string_views(files@),
            all_files.no_duplicates(),
            forall|x: Seq<char>| string_views(reached@).contains(x) <==> connected(ev, vv, path@, x),
            string_views(kept_files@) == all_files.take(k as int).filter(|x: Seq<char>| connected(ev, vv, path@, x)),
        decreases files@.len() - k,
    {
        proof {
            reveal(Seq::filter);
        }
        let f = &files[k];
        assert(all_files[k as int] == f@);
        assert(all_files.take(k + 1).drop_last() =~= all_files.take(k as int));
        assert(all_files.take(k + 1).last() == f@);
        let ghost before = string_views(kept_files@);
        if contains_string(&reached, f) {
            kept_files.push(f.clone());
            assert(string_views(kept_files@) =~= before.push(f@));
        }
        k = k + 1;
    }
    assert(all_files.take(all_files.len() as int) =~= all_files);
    let mut kept_edges: Vec<(String, String)> = Vec::new();
    assert(pair_views(kept_edges@) =~= Seq::<(Seq<char>, Seq<char>)>::empty());
    let ghost all_edges = pair_views(edges@);
    let mut m: usize = 0;
    while m < edges.len()
        invariant
            m <= edges@.len(),
            all_edges == pair_views(edges@),
            all_edges.no_duplicates(),
            forall|x: Seq<char>| string_views(reached@).contains(x) <==> connected(ev, vv, path@, x),
            pair_views(kept_edges@) == all_edges.take(m as int).filter(|e: (Seq<char>, Seq<char>)| connected(ev, vv, path@, e.0) && connected(ev, vv, path@, e.1)),
        decreases edges@.len() - m,
    {
        proof {
            reveal(Seq::filter);
        }
        let (a, b) = (&edges[m].0, &edges[m].1);
        assert(all_edges[m as int] == (a@, b@));
        assert(all_edges.take(m + 1).drop_last() =~= all_edges.take(m as int));
        assert(all_edges.take(m + 1).last() == (a@, b@));
        let ghost before = pair_views(kept_edges@);
        if contains_string(&reached, a) && contains_string(&reached, b) {
            kept_edges.push((a.clone(), b.clone()));
            assert(pair_views(kept_edges@) =~= before.push((a@, b@)));
        }
        m = m + 1;
    }
    assert(all_edges.take(all_edges.len() as int) =~= all_edges);
    proof {
        let pf = |x: Seq<char>| connected(ev, vv, path@, x);
        let pe = |e: (Seq<char>, Seq<char>)| connected(ev, vv, path@, e.0) && connected(ev, vv, path@, e.1);
        lemma_filter_keeps(all_files, pf);
        lemma_filter_keeps(all_edges, pe);
        assert forall|x: Seq<char>| string_views(kept_files@).contains(x) <==> shown_file(fv, ev, vv, path@, changed_only, x) by {
            assert(all_files.contains(x) <==> ((fv.contains(x) && vv.contains(x)) || x == path@));
        }
        assert forall|x: Seq<char>, y: Seq<char>| pair_views(kept_edges@).contains((x, y)) <==> shown_import(ev, vv, path@, changed_only, x, y) by {
            assert(all_edges.contains((x, y)) <==> shown_edge(ev, vv, x, y));
        }
    }
    DependencyFocus { files: kept_files, edges: kept_edges }
}

proof fn lemma_filter_keeps<T>(s: Seq<T>, p: spec_fn(T) -> bool)
    ensures
        forall|x: T| s.filter(p).contains(x) <==> (s.contains(x) && p(x)),
        s.no_duplicates() ==> s.filter(p).no_duplicates(),
    decreases s.len(),
{
    reveal(Seq::filter);
    if s.len() > 0 {
        let init = s.drop_last();
        lemma_filter_keeps(init, p);
        let f = init.filter(p);
        assert forall|x: T| s.filter(p).contains(x) <==> (s.contains(x) && p(x)) by {
            if s.contains(x) {
                let t = choose|t: int| 0 <= t < s.len() && s[t] == x;
                if t < init.len() {
                    assert(init[t] == x);
                }
            }
            if init.contains(x) {
                let t = choose|t: int| 0 <= t < init.len() && init[t] == x;
                assert(s[t] == x);
            }
            if p(s.last()) {
                assert(s.filter(p) == f.push(s.last()));
                if s.filter(p).contains(x) {
                    let t = choose|t: int| 0 <= t < s.filter(p).len() && #[trigger] s.filter(p)[t] == x;
                    if t < f.len() {
                        assert(f[t] == x);
                    }
                }
                if f.contains(x) {
                    let t = choose|t: int| 0 <= t < f.len() && f[t] == x;
                    assert(s.filter(p)[t] == x);
                }
                assert(s.filter(p)[f.len() as int] == s.last());
            }
        }
        if s.no_duplicates() {
            assert(init.no_duplicates()) by {
                assert forall|a: int, b: int| 0 <= a < b < init.len() implies init[a] != init[b] by {
                    assert(init[a] == s[a] && init[b] == s[b]);
                }
            }
            if p(s.last()) {
                let g = f.push(s.last());
                assert(!init.contains(s.last())) by {
                    if init.contains(s.last()) {
                        let t = choose|t: int| 0 <= t < init.len() && init[t] == s.last();
                        assert(s[t] == s[s.len() - 1]);
                    }
                }
                assert forall|a: int, b: int| 0 <= a < b < g.len() implies g[a] != g[b] by {
                    if b == f.len() {
                        assert(f.contains(g[a]));
                    }
                }
            }
        }
    }
}
} // verus!
