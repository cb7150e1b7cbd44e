//! The call context kept in the dependency graph: functions that changed,
//! callers whose calls changed, and everything that calls them or that they
//! call, traced in each snapshot separately.
use vstd::prelude::*;
use crate::radar::{CallEdge, Change, FileNode, FunctionId, FunctionNode, Graph, in_snapshot};

verus! {

pub type FidView = (Seq<char>, Seq<char>);

pub open spec fn fid_view(f: FunctionId) -> FidView {
    (f.file@, f.name@)
}

pub open spec fn fid_views(v: Seq<FunctionId>) -> Seq<FidView> {
    v.map_values(|f: FunctionId| fid_view(f))
}

/// One step along the calls of a snapshot: from caller to callee, or back
/// when `reverse`.
pub open spec fn call_step(calls: Seq<CallEdge>, before: bool, reverse: bool, a: FidView, b: FidView) -> bool {
    exists|i: int|
        0 <= i < calls.len() && in_snapshot(#[trigger] calls[i].change, before) && (if reverse {
            fid_view(calls[i].to) == a && fid_view(calls[i].from) == b
        } else {
            fid_view(calls[i].from) == a && fid_view(calls[i].to) == b
        })
}

/// The functions reached from `starts` in at most `k` steps.
pub open spec fn call_reached(calls: Seq<CallEdge>, before: bool, reverse: bool, starts: Set<FidView>, k: nat) -> Set<FidView>
    decreases k,
{
    if k == 0 {
        starts
    } else {
        let r = call_reached(calls, before, reverse, starts, (k - 1) as nat);
        r.union(Set::new(|b: FidView| exists|a: FidView| r.contains(a) && call_step(calls, before, reverse, a, b)))
    }
}

pub open spec fn call_reachable(calls: Seq<CallEdge>, before: bool, reverse: bool, starts: Set<FidView>, x: FidView) -> bool {
    exists|k: nat| #[trigger] call_reached(calls, before, reverse, starts, k).contains(x)
}

/// The function at the far end of a call when walking in a direction.
pub open spec fn call_far_end(e: CallEdge, reverse: bool) -> FidView {
    if reverse {
        fid_view(e.from)
    } else {
        fid_view(e.to)
    }
}

pub open spec fn is_call_end(calls: Seq<CallEdge>, reverse: bool, x: FidView) -> bool {
    exists|j: int| 0 <= j < calls.len() && call_far_end(#[trigger] calls[j], reverse) == x
}

proof fn lemma_call_reachable_step(calls: Seq<CallEdge>, before: bool, reverse: bool, starts: Set<FidView>, a: FidView, b: FidView)
    requires
        call_reachable(calls, before, reverse, starts, a),
        call_step(calls, before, reverse, a, b),
    ensures
        call_reachable(calls, before, reverse, starts, b),
{
    let k = choose|k: nat| #[trigger] call_reached(calls, before, reverse, starts, k).contains(a);
    assert(call_reached(calls, before, reverse, starts, k + 1).contains(b));
}

proof fn lemma_call_closed(calls: Seq<CallEdge>, before: bool, reverse: bool, starts: Set<FidView>, s: Set<FidView>, k: nat)
    requires
        starts.subset_of(s),
        forall|a: FidView, b: FidView| s.contains(a) && call_step(calls, before, reverse, a, b) ==> s.contains(b),
    ensures
        call_reached(calls, before, reverse, starts, k).subset_of(s),
    decreases k,
{
    if k > 0 {
        lemma_call_closed(calls, before, reverse, starts, s, (k - 1) as nat);
    }
}

proof fn lemma_call_visited_bound(vs: Seq<FidView>, starts: Seq<FidView>, calls: Seq<CallEdge>, reverse: bool)
    requires
        vs.no_duplicates(),
        forall|k: int| 0 <= k < vs.len() ==> starts.contains(#[trigger] vs[k]) || is_call_end(calls, reverse, vs[k]),
    ensures
        vs.len() <= starts.len() + calls.len(),
{
    let ends = calls.map_values(|e: CallEdge| call_far_end(e, reverse));
    let all = starts + ends;
    vs.unique_seq_to_set();
    all.lemma_cardinality_of_set();
    vstd::seq_lib::seq_to_set_is_finite(all);
    assert forall|x: FidView| vs.to_set().contains(x) implies all.to_set().contains(x) by {
        let k = choose|k: int| 0 <= k < vs.len() && vs[k] == x;
        if starts.contains(x) {
            let t = choose|t: int| 0 <= t < starts.len() && starts[t] == x;
            assert(all[t] == x);
        } else {
            assert(is_call_end(calls, reverse, vs[k]));
            let j = choose|j: int| 0 <= j < calls.len() && call_far_end(#[trigger] calls[j], reverse) == vs[k];
            assert(all[starts.len() + j] == x);
        }
    }
    vstd::set_lib::lemma_len_subset(vs.to_set(), all.to_set());
}

fn same_fid(a: &FunctionId, b: &FunctionId) -> (r: bool)
    ensures
        r == (fid_view(*a) == fid_view(*b)),
{
    a.file == b.file && a.name == b.name
}

fn copy_fid(a: &FunctionId) -> (r: FunctionId)
    ensures
        fid_view(r) == fid_view(*a),
{
    FunctionId { file: a.file.clone(), name: a.name.clone() }
}

fn contains_fid(v: &Vec<FunctionId>, x: &FunctionId) -> (r: bool)
    ensures
        r == fid_views(v@).contains(fid_view(*x)),
{
    let mut i: usize = 0;
    while i < v.len()
        invariant
            i <= v@.len(),
            forall|k: int| 0 <= k < i ==> fid_view(v@[k]) != fid_view(*x),
        decreases v@.len() - i,
    {
        if same_fid(&v[i], x) {
            assert(fid_views(v@)[i as int] == fid_view(*x));
            return true;
        }
        i = i + 1;
    }
    assert forall|k: int| 0 <= k < fid_views(v@).len() implies fid_views(v@)[k] != fid_view(*x) by {
        assert(fid_views(v@)[k] == fid_view(v@[k]));
    }
    false
}

fn in_snapshot_of(change: Change, before: bool) -> (b: bool)
    ensures
        b == in_snapshot(change, before),
{
    !((before && change == Change::Added) || (!before && change == Change::Removed))
}

/// Every function that one of `starts` reaches along the calls of one
/// snapshot, forward (what it calls) or backward (what calls it), the
/// starts included, each once.
pub fn call_reach(calls: &Vec<CallEdge>, starts: &Vec<FunctionId>, before: bool, reverse: bool) -> (visited: Vec<FunctionId>)
    ensures
        fid_views(visited@).no_duplicates(),
        forall|x: FidView| fid_views(visited@).contains(x) <==> call_reachable(calls@, before, reverse, fid_views(starts@).to_set(), x),
{
    let ghost sv = fid_views(starts@);
    let ghost ss = sv.to_set();
    let mut visited: Vec<FunctionId> = Vec::new();
    let mut s: usize = 0;
    assert(fid_views(visited@) =~= Seq::<FidView>::empty());
    while s < starts.len()
        invariant
            s <= starts@.len(),
            sv == fid_views(starts@),
            ss == sv.to_set(),
            fid_views(visited@).no_duplicates(),
            visited@.len() <= s,
            forall|x: FidView| fid_views(visited@).contains(x) <==> exists|t: int| 0 <= t < s && #[trigger] sv[t] == x,
        decreases starts@.len() - s,
    {
        assert(sv[s as int] == fid_view(starts@[s as int]));
        let ghost v0 = fid_views(visited@);
        if !contains_fid(&visited, &starts[s]) {
            visited.push(copy_fid(&starts[s]));
            assert(fid_views(visited@) =~= v0.push(sv[s as int]));
        }
        proof {
            assert forall|x: FidView| fid_views(visited@).contains(x) <==> exists|t: int| 0 <= t < s + 1 && #[trigger] sv[t] == x by {
                if x == sv[s as int] {
                    if v0.contains(x) {
                        let t = choose|t: int| 0 <= t < v0.len() && v0[t] == x;
                        assert(fid_views(visited@)[t] == x);
                    } else {
                        assert(fid_views(visited@)[fid_views(visited@).len() - 1] == x);
                    }
                } else {
                    if fid_views(visited@).contains(x) {
                        let t = choose|t: int| 0 <= t < fid_views(visited@).len() && fid_views(visited@)[t] == x;
                        if t < v0.len() {
                            assert(v0[t] == x);
                            assert(v0.contains(x));
                        }
                    }
                    if exists|t: int| 0 <= t < s && #[trigger] sv[t] == x {
                        assert(v0.contains(x));
                        let t = choose|k: int| 0 <= k < v0.len() && v0[k] == x;
                        assert(fid_views(visited@)[t] == x);
                    }
                }
            }
        }
        s = s + 1;
    }
    proof {
        assert forall|k: int| 0 <= k < visited@.len() implies sv.contains(#[trigger] fid_views(visited@)[k]) || is_call_end(calls@, reverse, fid_views(visited@)[k]) by {
            assert(fid_views(visited@).contains(fid_views(visited@)[k]));
            let t = choose|t: int| 0 <= t < starts@.len() && #[trigger] sv[t] == fid_views(visited@)[k];
        }
        assert forall|t: int| 0 <= t < starts@.len() implies fid_views(visited@).contains(#[trigger] sv[t]) by {
        }
        assert forall|k: int| 0 <= k < visited@.len() implies call_reachable(calls@, before, reverse, ss, #[trigger] fid_views(visited@)[k]) by {
            assert(fid_views(visited@).contains(fid_views(visited@)[k]));
            let t = choose|t: int| 0 <= t < starts@.len() && #[trigger] sv[t] == fid_views(visited@)[k];
            assert(ss.contains(sv[t]));
            assert(call_reached(calls@, before, reverse, ss, 0).contains(fid_views(visited@)[k]));
        }
    }
    let mut i: usize = 0;
    while i < visited.len()
        invariant
            sv == fid_views(starts@),
            ss == sv.to_set(),
            i <= visited@.len(),
            fid_views(visited@).no_duplicates(),
            visited@.len() <= starts@.len() + calls@.len(),
            forall|t: int| 0 <= t < starts@.len() ==> fid_views(visited@).contains(#[trigger] sv[t]),
            forall|k: int| 0 <= k < visited@.len() ==> sv.contains(#[trigger] fid_views(visited@)[k]) || is_call_end(calls@, reverse, fid_views(visited@)[k]),
            forall|k: int| 0 <= k < visited@.len() ==> call_reachable(calls@, before, reverse, ss, #[trigger] fid_views(visited@)[k]),
            forall|k: int, b: FidView| 0 <= k < i && #[trigger] call_step(calls@, before, reverse, fid_views(visited@)[k], b) ==> fid_views(visited@).contains(b),
        decreases starts@.len() + calls@.len() - i,
    {
        let current = copy_fid(&visited[i]);
        let ghost cur = fid_views(visited@)[i as int];
        assert(fid_view(current) == cur);
        let mut j: usize = 0;
        while j < calls.len()
            invariant
                sv == fid_views(starts@),
                ss == sv.to_set(),
                i < visited@.len(),
                j <= calls@.len(),
                fid_view(current) == cur,
                cur == fid_views(visited@)[i as int],
                fid_views(visited@).no_duplicates(),
                visited@.len() <= starts@.len() + calls@.len(),
                call_reachable(calls@, before, reverse, ss, cur),
                forall|t: int| 0 <= t < starts@.len() ==> fid_views(visited@).contains(#[trigger] sv[t]),
                forall|k: int| 0 <= k < visited@.len() ==> sv.contains(#[trigger] fid_views(visited@)[k]) || is_call_end(calls@, reverse, fid_views(visited@)[k]),
                forall|k: int| 0 <= k < visited@.len() ==> call_reachable(calls@, before, reverse, ss, #[trigger] fid_views(visited@)[k]),
                forall|k: int, b: FidView| 0 <= k < i && #[trigger] call_step(calls@, before, reverse, fid_views(visited@)[k], b) ==> fid_views(visited@).contains(b),
                forall|m: int| 0 <= m < j && in_snapshot(#[trigger] calls@[m].change, before) && (if reverse {
                    fid_view(calls@[m].to) == cur
                } else {
                    fid_view(calls@[m].from) == cur
                }) ==> fid_views(visited@).contains(call_far_end(calls@[m], reverse)),
            decreases calls@.len() - j,
        {
            let call = &calls[j];
            let (near, far) = if reverse {
                (&call.to, &call.from)
            } else {
                (&call.from, &call.to)
            };
            if in_snapshot_of(call.change, before) && same_fid(near, &current) {
                assert(call_step(calls@, before, reverse, cur, call_far_end(calls@[j as int], reverse)));
                if !contains_fid(&visited, far) {
                    let ghost old_views = fid_views(visited@);
                    proof {
                        lemma_call_reachable_step(calls@, before, reverse, ss, cur, fid_view(*far));
                    }
                    visited.push(copy_fid(far));
                    assert(fid_views(visited@) =~= old_views.push(fid_view(*far)));
                    proof {
                        assert forall|k: int| 0 <= k < visited@.len() implies sv.contains(#[trigger] fid_views(visited@)[k]) || is_call_end(calls@, reverse, fid_views(visited@)[k]) by {
                            if k < visited@.len() - 1 {
                                assert(fid_views(visited@)[k] == old_views[k]);
                            } else {
                                assert(call_far_end(calls@[j as int], reverse) == fid_views(visited@)[k]);
                            }
                        }
                        lemma_call_visited_bound(fid_views(visited@), sv, calls@, reverse);
                        assert forall|t: int| 0 <= t < starts@.len() implies fid_views(visited@).contains(#[trigger] sv[t]) by {
                            let k = choose|k: int| 0 <= k < old_views.len() && old_views[k] == sv[t];
                            assert(fid_views(visited@)[k] == sv[t]);
                        }
                        assert forall|k: int, b: FidView| 0 <= k < i && #[trigger] call_step(calls@, before, reverse, fid_views(visited@)[k], b) implies fid_views(visited@).contains(b) by {
                            assert(fid_views(visited@)[k] == old_views[k]);
                            let t = choose|t: int| 0 <= t < old_views.len() && old_views[t] == b;
                            assert(fid_views(visited@)[t] == b);
                        }
                        assert forall|m: int| 0 <= m < j + 1 && in_snapshot(#[trigger] calls@[m].change, before) && (if reverse {
                            fid_view(calls@[m].to) == cur
                        } else {
                            fid_view(calls@[m].from) == cur
                        }) implies fid_views(visited@).contains(call_far_end(calls@[m], reverse)) by {
                            if m < j {
                                let t = choose|t: int| 0 <= t < old_views.len() && old_views[t] == call_far_end(calls@[m], reverse);
                                assert(fid_views(visited@)[t] == call_far_end(calls@[m], reverse));
                            } else {
                                assert(fid_views(visited@)[visited@.len() - 1] == fid_view(*far));
                            }
                        }
                    }
                }
            }
            j = j + 1;
        }
        proof {
            assert forall|k: int, b: FidView| 0 <= k < i + 1 && #[trigger] call_step(calls@, before, reverse, fid_views(visited@)[k], b) implies fid_views(visited@).contains(b) by {
                if k == i {
                    let m = choose|m: int| 0 <= m < calls@.len() && in_snapshot(#[trigger] calls@[m].change, before) && (if reverse {
                        fid_view(calls@[m].to) == cur && fid_view(calls@[m].from) == b
                    } else {
                        fid_view(calls@[m].from) == cur && fid_view(calls@[m].to) == b
                    });
                    assert(call_far_end(calls@[m], reverse) == b);
                }
            }
        }
        i = i + 1;
    }
    proof {
        let s = fid_views(visited@).to_set();
        assert(ss.subset_of(s)) by {
            assert forall|x: FidView| ss.contains(x) implies s.contains(x) by {
                let t = choose|t: int| 0 <= t < sv.len() && sv[t] == x;
                assert(fid_views(visited@).contains(sv[t]));
            }
        }
        assert forall|a: FidView, b: FidView| s.contains(a) && call_step(calls@, before, reverse, a, b) implies s.contains(b) by {
            let k = choose|k: int| 0 <= k < fid_views(visited@).len() && fid_views(visited@)[k] == a;
            assert(fid_views(visited@).contains(b));
        }
        assert forall|x: FidView| fid_views(visited@).contains(x) <==> call_reachable(calls@, before, reverse, ss, x) by {
            if fid_views(visited@).contains(x) {
                let k = choose|k: int| 0 <= k < fid_views(visited@).len() && fid_views(visited@)[k] == x;
            }
            if call_reachable(calls@, before, reverse, ss, x) {
                let k = choose|k: nat| #[trigger] call_reached(calls@, before, reverse, ss, k).contains(x);
                lemma_call_closed(calls@, before, reverse, ss, s, k);
                assert(s.contains(x));
            }
        }
    }
    visited
}


/// The sequence of the items of `s` whose mark is set, in order.
pub open spec fn masked<T>(s: Seq<T>, mask: Seq<bool>, n: int) -> Seq<T>
    decreases n,
{
    if n <= 0 {
        Seq::empty()
    } else if mask[n - 1] {
        masked(s, mask, n - 1).push(s[n - 1])
    } else {
        masked(s, mask, n - 1)
    }
}

proof fn lemma_masked_filter<T>(s: Seq<T>, mask: Seq<bool>, pred: spec_fn(T) -> bool, n: int)
    requires
        0 <= n <= s.len(),
        mask.len() == s.len(),
        forall|i: int| 0 <= i < s.len() ==> mask[i] == pred(#[trigger] s[i]),
    ensures
        masked(s, mask, n) == s.take(n).filter(pred),
    decreases n,
{
    reveal(Seq::filter);
    if n > 0 {
        lemma_masked_filter(s, mask, pred, n - 1);
        assert(s.take(n).drop_last() =~= s.take(n - 1));
        assert(s.take(n).last() == s[n - 1]);
    } else {
        assert(s.take(0) =~= Seq::<T>::empty());
    }
}

/// The items of `v` whose mark is set, in order.
fn keep_marked<T>(v: Vec<T>, keep: &Vec<bool>) -> (r: Vec<T>)
    requires
        keep@.len() == v@.len(),
    ensures
        r@ == masked(v@, keep@, v@.len() as int),
{
    let ghost all = v@;
    let mut rest = v;
    let mut out: Vec<T> = Vec::new();
    let mut i: usize = 0;
    let n = rest.len();
    while i < n
        invariant
            n == all.len(),
            keep@.len() == all.len(),
            i <= n,
            rest@ == all.subrange(i as int, n as int),
            out@ == masked(all, keep@, i as int),
        decreases n - i,
    {
        let ghost r0 = rest@;
        let item = rest.remove(0);
        assert(item == all[i as int]);
        assert(rest@ =~= all.subrange(i + 1, n as int));
        if keep[i] {
            out.push(item);
        }
        i = i + 1;
    }
    out
}

/// Whether `id` names a function listed in the graph.
pub open spec fn function_listed(files: Seq<FileNode>, id: FidView) -> bool {
    exists|i: int, j: int|
        0 <= i < files.len() && 0 <= j < files[i].functions@.len() && #[trigger] files[i].functions@[j].name@ == id.1
            && files[i].path@ == id.0
}

/// The change of the listed function `id`.
pub open spec fn function_change(files: Seq<FileNode>, id: FidView) -> Change {
    let (i, j) = choose|i: int, j: int|
        0 <= i < files.len() && 0 <= j < files[i].functions@.len() && #[trigger] files[i].functions@[j].name@ == id.1
            && files[i].path@ == id.0;
    files[i].functions@[j].change
}

/// Functions that start the context: changed functions, and callers with a
/// changed call.
pub open spec fn is_seed(files: Seq<FileNode>, calls: Seq<CallEdge>, id: FidView) -> bool {
    ||| function_listed(files, id) && function_change(files, id) != Change::Unchanged
    ||| exists|i: int| 0 <= i < calls.len() && calls[i].change != Change::Unchanged && #[trigger] fid_view(calls[i].from) == id
}

/// The seeds that exist in a snapshot.
pub open spec fn seeds_in(files: Seq<FileNode>, calls: Seq<CallEdge>, before: bool) -> Set<FidView> {
    Set::new(|id: FidView| is_seed(files, calls, id) && in_snapshot(function_change(files, id), before))
}

/// A function is kept in context when it is a seed, or when, in one
/// snapshot, it calls or is called by a seed of that snapshot, transitively.
pub open spec fn relevant(files: Seq<FileNode>, calls: Seq<CallEdge>, id: FidView) -> bool {
    ||| is_seed(files, calls, id)
    ||| exists|before: bool, reverse: bool|
        #[trigger] call_reachable(calls, before, reverse, seeds_in(files, calls, before), id)
}

/// Function names are unique within each file.
pub open spec fn functions_unique(files: Seq<FileNode>) -> bool {
    forall|i: int, j: int, k: int|
        0 <= i < files.len() && 0 <= j < k < files[i].functions@.len() ==> #[trigger] files[i].functions@[j].name@
            != #[trigger] files[i].functions@[k].name@
}

/// Every caller of a call is a listed function.
pub open spec fn callers_listed(files: Seq<FileNode>, calls: Seq<CallEdge>) -> bool {
    forall|i: int| 0 <= i < calls.len() ==> function_listed(files, fid_view(#[trigger] calls[i].from))
}


/// Whether one of the first `k` calls is changed and made by `id`.
pub open spec fn changed_caller(calls: Seq<CallEdge>, k: int, id: FidView) -> bool {
    exists|t: int| 0 <= t < k && calls[t].change != Change::Unchanged && #[trigger] fid_view(calls[t].from) == id
}

/// File paths are unique.
pub open spec fn paths_unique(files: Seq<FileNode>) -> bool {
    forall|i: int, j: int| 0 <= i < j < files.len() ==> #[trigger] files[i].path@ != #[trigger] files[j].path@
}

proof fn lemma_function_change(files: Seq<FileNode>, a: int, b: int)
    requires
        paths_unique(files),
        functions_unique(files),
        0 <= a < files.len(),
        0 <= b < files[a].functions@.len(),
    ensures
        function_listed(files, (files[a].path@, files[a].functions@[b].name@)),
        function_change(files, (files[a].path@, files[a].functions@[b].name@)) == files[a].functions@[b].change,
{
    let id = (files[a].path@, files[a].functions@[b].name@);
    assert(files[a].functions@[b].name@ == id.1);
    let (i, j) = choose|i: int, j: int|
        0 <= i < files.len() && 0 <= j < files[i].functions@.len() && #[trigger] files[i].functions@[j].name@ == id.1
            && files[i].path@ == id.0;
    if i != a {
        if i < a {
            assert(files[i].path@ != files[a].path@);
        } else {
            assert(files[a].path@ != files[i].path@);
        }
    }
    if j != b {
        if j < b {
            assert(files[a].functions@[j].name@ != files[a].functions@[b].name@);
        } else {
            assert(files[a].functions@[b].name@ != files[a].functions@[j].name@);
        }
    }
}

/// The seeds of the context, possibly repeated.
#[verifier::spinoff_prover]
fn collect_seeds(files: &Vec<FileNode>, calls: &Vec<CallEdge>) -> (seeds: Vec<FunctionId>)
    requires
        paths_unique(files@),
        functions_unique(files@),
    ensures
        forall|id: FidView| fid_views(seeds@).contains(id) <==> is_seed(files@, calls@, id),
{
    let mut seeds: Vec<FunctionId> = Vec::new();
    let mut i: usize = 0;
    while i < files.len()
        invariant
            i <= files@.len(),
            forall|id: FidView| fid_views(seeds@).contains(id) <==> exists|a: int, b: int|
                0 <= a < i && 0 <= b < files@[a].functions@.len() && #[trigger] files@[a].functions@[b].name@ == id.1
                    && files@[a].path@ == id.0 && files@[a].functions@[b].change != Change::Unchanged,
        decreases files@.len() - i,
    {
        let file = &files[i];
        let mut j: usize = 0;
        while j < file.functions.len()
            invariant
                i < files@.len(),
                *file == files@[i as int],
                j <= file.functions@.len(),
                forall|id: FidView| fid_views(seeds@).contains(id) <==> (exists|a: int, b: int|
                    0 <= a < i && 0 <= b < files@[a].functions@.len() && #[trigger] files@[a].functions@[b].name@ == id.1
                        && files@[a].path@ == id.0 && files@[a].functions@[b].change != Change::Unchanged) || (exists|b: int|
                    0 <= b < j && #[trigger] file.functions@[b].name@ == id.1 && file.path@ == id.0
                        && file.functions@[b].change != Change::Unchanged),
            decreases file.functions@.len() - j,
        {
            let f = &file.functions[j];
            if f.change != Change::Unchanged {
                let ghost s0 = fid_views(seeds@);
                seeds.push(FunctionId { file: file.path.clone(), name: f.name.clone() });
                assert(fid_views(seeds@) =~= s0.push((file.path@, f.name@)));
                proof {
                    assert forall|id: FidView| fid_views(seeds@).contains(id) <==> (exists|a: int, b: int|
                        0 <= a < i && 0 <= b < files@[a].functions@.len() && #[trigger] files@[a].functions@[b].name@ == id.1
                            && files@[a].path@ == id.0 && files@[a].functions@[b].change != Change::Unchanged) || (exists|b: int|
                        0 <= b < j + 1 && #[trigger] file.functions@[b].name@ == id.1 && file.path@ == id.0
                            && file.functions@[b].change != Change::Unchanged) by {
                        if fid_views(seeds@).contains(id) && id != (file.path@, f.name@) {
                            let t = choose|t: int| 0 <= t < fid_views(seeds@).len() && fid_views(seeds@)[t] == id;
                            assert(s0[t] == id);
                            assert(s0.contains(id));
                        }
                        if id == (file.path@, f.name@) {
                            assert(fid_views(seeds@)[fid_views(seeds@).len() - 1] == id);
                        } else if (exists|a: int, b: int|
                            0 <= a < i && 0 <= b < files@[a].functions@.len() && #[trigger] files@[a].functions@[b].name@ == id.1
                                && files@[a].path@ == id.0 && files@[a].functions@[b].change != Change::Unchanged) || (exists|b: int|
                            0 <= b < j && #[trigger] file.functions@[b].name@ == id.1 && file.path@ == id.0
                                && file.functions@[b].change != Change::Unchanged) {
                            assert(s0.contains(id));
                            let t = choose|t: int| 0 <= t < s0.len() && s0[t] == id;
                            assert(fid_views(seeds@)[t] == id);
                        }
                    }
                }
            }
            j = j + 1;
        }
        i = i + 1;
    }
    let ghost from_files = fid_views(seeds@);
    let mut k: usize = 0;
    while k < calls.len()
        invariant
            k <= calls@.len(),
            forall|id: FidView| fid_views(seeds@).contains(id) <==> from_files.contains(id) || changed_caller(calls@, k as int, id),
        decreases calls@.len() - k,
    {
        let call = &calls[k];
        let ghost s0 = fid_views(seeds@);
        let ghost k1: int = k + 1;
        let changed = call.change != Change::Unchanged;
        if changed {
            seeds.push(copy_fid(&call.from));
        }
        proof {
            assert forall|id: FidView| fid_views(seeds@).contains(id) <==> from_files.contains(id) || changed_caller(calls@, k1, id) by {
                assert(s0.contains(id) <==> from_files.contains(id) || changed_caller(calls@, k as int, id));
                let added = changed && id == fid_view(call.from);
                if changed {
                    assert(fid_views(seeds@) =~= s0.push(fid_view(call.from)));
                } else {
                    assert(fid_views(seeds@) =~= s0);
                }
                assert(fid_views(seeds@).contains(id) <==> (s0.contains(id) || added)) by {
                    if s0.contains(id) {
                        let t = choose|t: int| 0 <= t < s0.len() && s0[t] == id;
                        assert(fid_views(seeds@)[t] == id);
                    }
                    if added {
                        assert(fid_views(seeds@)[fid_views(seeds@).len() - 1] == id);
                    }
                    if fid_views(seeds@).contains(id) {
                        let t = choose|t: int| 0 <= t < fid_views(seeds@).len() && fid_views(seeds@)[t] == id;
                        if t < s0.len() {
                            assert(s0[t] == id);
                        }
                    }
                }
                assert(changed_caller(calls@, k1, id) <==> (changed_caller(calls@, k as int, id) || added)) by {
                    if changed_caller(calls@, k1, id) {
                        let t = choose|t: int| 0 <= t < k1 && calls@[t].change != Change::Unchanged && #[trigger] fid_view(calls@[t].from) == id;
                        if t < k {
                            assert(changed_caller(calls@, k as int, id));
                        }
                    }
                    if changed_caller(calls@, k as int, id) {
                        let t = choose|t: int| 0 <= t < k && calls@[t].change != Change::Unchanged && #[trigger] fid_view(calls@[t].from) == id;
                        assert(changed_caller(calls@, k1, id));
                    }
                    if added {
                        assert(calls@[k as int].change != Change::Unchanged && fid_view(calls@[k as int].from) == id);
                        assert(changed_caller(calls@, k1, id));
                    }
                }
            }
        }
        k = k + 1;
        assert forall|id: FidView| fid_views(seeds@).contains(id) <==> from_files.contains(id) || changed_caller(calls@, k as int, id) by {
            assert(fid_views(seeds@).contains(id) <==> from_files.contains(id) || changed_caller(calls@, k1, id));
        }
    }
    proof {
        assert forall|id: FidView| fid_views(seeds@).contains(id) <==> is_seed(files@, calls@, id) by {
            if from_files.contains(id) {
                let (a, b) = choose|a: int, b: int|
                    0 <= a < files@.len() && 0 <= b < files@[a].functions@.len() && #[trigger] files@[a].functions@[b].name@ == id.1
                        && files@[a].path@ == id.0 && files@[a].functions@[b].change != Change::Unchanged;
                lemma_function_change(files@, a, b);
            }
            if function_listed(files@, id) && function_change(files@, id) != Change::Unchanged {
                let (a, b) = choose|a: int, b: int|
                    0 <= a < files@.len() && 0 <= b < files@[a].functions@.len() && #[trigger] files@[a].functions@[b].name@ == id.1
                        && files@[a].path@ == id.0;
                lemma_function_change(files@, a, b);
                assert(from_files.contains(id));
            }
        }
    }
    seeds
}


/// The change of the function `id`, when the graph lists it.
fn change_of(files: &Vec<FileNode>, id: &FunctionId) -> (r: Option<Change>)
    requires
        paths_unique(files@),
        functions_unique(files@),
    ensures
        r is Some <==> function_listed(files@, fid_view(*id)),
        r matches Some(c) ==> c == function_change(files@, fid_view(*id)),
{
    let mut i: usize = 0;
    while i < files.len()
        invariant
            i <= files@.len(),
            paths_unique(files@),
            functions_unique(files@),
            forall|a: int, b: int|
                0 <= a < i && 0 <= b < files@[a].functions@.len() ==> !(#[trigger] files@[a].functions@[b].name@ == id.name@
                    && files@[a].path@ == id.file@),
        decreases files@.len() - i,
    {
        if files[i].path == id.file {
            let mut j: usize = 0;
            while j < files[i].functions.len()
                invariant
                    i < files@.len(),
                    paths_unique(files@),
                    functions_unique(files@),
                    files@[i as int].path@ == id.file@,
                    j <= files@[i as int].functions@.len(),
                    forall|b: int| 0 <= b < j ==> !(#[trigger] files@[i as int].functions@[b].name@ == id.name@),
                decreases files@[i as int].functions@.len() - j,
            {
                if files[i].functions[j].name == id.name {
                    proof {
                        lemma_function_change(files@, i as int, j as int);
                    }
                    return Some(files[i].functions[j].change);
                }
                j = j + 1;
            }
            proof {
                assert forall|a: int, b: int|
                    0 <= a < files@.len() && 0 <= b < files@[a].functions@.len() implies !(#[trigger] files@[a].functions@[b].name@
                        == id.name@ && files@[a].path@ == id.file@) by {
                    if a > i && files@[a].path@ == id.file@ {
                        assert(files@[i as int].path@ != files@[a].path@);
                    }
                    if a < i {
                    }
                }
            }
            return None;
        }
        i = i + 1;
    }
    None
}

/// The seeds present in a snapshot.
fn seeds_for(files: &Vec<FileNode>, calls: &Vec<CallEdge>, seeds: &Vec<FunctionId>, before: bool) -> (starts: Vec<FunctionId>)
    requires
        paths_unique(files@),
        functions_unique(files@),
        callers_listed(files@, calls@),
        forall|id: FidView| fid_views(seeds@).contains(id) <==> is_seed(files@, calls@, id),
    ensures
        fid_views(starts@).to_set() == seeds_in(files@, calls@, before),
{
    let mut starts: Vec<FunctionId> = Vec::new();
    let mut k: usize = 0;
    while k < seeds.len()
        invariant
            k <= seeds@.len(),
            paths_unique(files@),
            functions_unique(files@),
            callers_listed(files@, calls@),
            forall|id: FidView| fid_views(seeds@).contains(id) <==> is_seed(files@, calls@, id),
            forall|id: FidView| fid_views(starts@).contains(id) <==> exists|t: int|
                0 <= t < k && #[trigger] fid_views(seeds@)[t] == id && in_snapshot(function_change(files@, id), before),
        decreases seeds@.len() - k,
    {
        let id = &seeds[k];
        assert(fid_views(seeds@)[k as int] == fid_view(*id));
        assert(fid_views(seeds@).contains(fid_view(*id)));
        proof {
            if !(function_listed(files@, fid_view(*id)) && function_change(files@, fid_view(*id)) != Change::Unchanged) {
                let i = choose|i: int| 0 <= i < calls@.len() && calls@[i].change != Change::Unchanged && #[trigger] fid_view(calls@[i].from) == fid_view(*id);
                assert(function_listed(files@, fid_view(calls@[i].from)));
            }
        }
        let change = change_of(files, id);
        let ghost s0 = fid_views(starts@);
        match change {
            Some(c) => {
                if in_snapshot_of(c, before) {
                    starts.push(copy_fid(id));
                    assert(fid_views(starts@) =~= s0.push(fid_view(*id)));
                }
            },
            None => {},
        }
        proof {
            assert forall|x: FidView| fid_views(starts@).contains(x) <==> exists|t: int|
                0 <= t < k + 1 && #[trigger] fid_views(seeds@)[t] == x && in_snapshot(function_change(files@, x), before) by {
                assert(s0.contains(x) <==> exists|t: int|
                    0 <= t < k && #[trigger] fid_views(seeds@)[t] == x && in_snapshot(function_change(files@, x), before));
                if fid_views(starts@).contains(x) && !s0.contains(x) {
                    assert(fid_views(starts@)[fid_views(starts@).len() - 1] == fid_view(*id));
                    let t = choose|t: int| 0 <= t < fid_views(starts@).len() && fid_views(starts@)[t] == x;
                    if t < s0.len() {
                        assert(s0[t] == x);
                    }
                }
                if s0.contains(x) {
                    let t = choose|t: int| 0 <= t < s0.len() && s0[t] == x;
                    assert(fid_views(starts@)[t] == x);
                }
                if exists|t: int| 0 <= t < k + 1 && #[trigger] fid_views(seeds@)[t] == x && in_snapshot(function_change(files@, x), before) {
                    let t = choose|t: int| 0 <= t < k + 1 && #[trigger] fid_views(seeds@)[t] == x && in_snapshot(function_change(files@, x), before);
                    if t == k {
                        if !s0.contains(x) {
                            assert(fid_views(starts@)[fid_views(starts@).len() - 1] == x);
                        }
                    }
                }
            }
        }
        k = k + 1;
    }
    proof {
        assert forall|x: FidView| fid_views(starts@).to_set().contains(x) <==> seeds_in(files@, calls@, before).contains(x) by {
            if fid_views(starts@).contains(x) {
                let t = choose|t: int| 0 <= t < seeds@.len() && #[trigger] fid_views(seeds@)[t] == x && in_snapshot(function_change(files@, x), before);
                assert(fid_views(seeds@).contains(x));
            }
            if seeds_in(files@, calls@, before).contains(x) {
                assert(fid_views(seeds@).contains(x));
                let t = choose|t: int| 0 <= t < fid_views(seeds@).len() && fid_views(seeds@)[t] == x;
            }
        }
        assert(fid_views(starts@).to_set() =~= seeds_in(files@, calls@, before));
    }
    starts
}


fn append_fids(dst: &mut Vec<FunctionId>, src: &Vec<FunctionId>)
    ensures
        fid_views(final(dst)@) == fid_views(old(dst)@) + fid_views(src@),
{
    let mut i: usize = 0;
    assert(fid_views(dst@) =~= fid_views(old(dst)@) + fid_views(src@).take(0));
    while i < src.len()
        invariant
            i <= src@.len(),
            fid_views(dst@) == fid_views(old(dst)@) + fid_views(src@).take(i as int),
        decreases src@.len() - i,
    {
        let ghost d0 = fid_views(dst@);
        dst.push(copy_fid(&src[i]));
        assert(fid_views(dst@) =~= d0.push(fid_view(src@[i as int])));
        assert(fid_views(src@).take(i + 1) =~= fid_views(src@).take(i as int).push(fid_view(src@[i as int])));
        assert(fid_views(dst@) =~= fid_views(old(dst)@) + fid_views(src@).take(i + 1));
        i = i + 1;
    }
    assert(fid_views(src@).take(src@.len() as int) =~= fid_views(src@));
}

/// Whether a function of the file at `path` stays in context.
pub open spec fn keeps_function(files: Seq<FileNode>, calls: Seq<CallEdge>, path: Seq<char>) -> spec_fn(FunctionNode) -> bool {
    |f: FunctionNode| relevant(files, calls, (path, f.name@))
}

/// Whether a call stays in context: both its ends do.
pub open spec fn keeps_call(files: Seq<FileNode>, calls: Seq<CallEdge>) -> spec_fn(CallEdge) -> bool {
    |e: CallEdge| relevant(files, calls, fid_view(e.from)) && relevant(files, calls, fid_view(e.to))
}

/// Every function in context, each possibly repeated.
fn relevant_functions(files: &Vec<FileNode>, calls: &Vec<CallEdge>) -> (ids: Vec<FunctionId>)
    requires
        paths_unique(files@),
        functions_unique(files@),
        callers_listed(files@, calls@),
    ensures
        forall|id: FidView| fid_views(ids@).contains(id) <==> relevant(files@, calls@, id),
{
    let seeds = collect_seeds(files, calls);
    let mut ids: Vec<FunctionId> = Vec::new();
    append_fids(&mut ids, &seeds);
    assert(fid_views(ids@) =~= fid_views(seeds@));
    let before_starts = seeds_for(files, calls, &seeds, true);
    let after_starts = seeds_for(files, calls, &seeds, false);
    let r1 = call_reach(calls, &before_starts, true, true);
    let r2 = call_reach(calls, &before_starts, true, false);
    let r3 = call_reach(calls, &after_starts, false, true);
    let r4 = call_reach(calls, &after_starts, false, false);
    append_fids(&mut ids, &r1);
    append_fids(&mut ids, &r2);
    append_fids(&mut ids, &r3);
    append_fids(&mut ids, &r4);
    proof {
        let sb = seeds_in(files@, calls@, true);
        let sa = seeds_in(files@, calls@, false);
        assert forall|id: FidView| fid_views(ids@).contains(id) <==> relevant(files@, calls@, id) by {
            let v = fid_views(ids@);
            let parts = seq![fid_views(seeds@), fid_views(r1@), fid_views(r2@), fid_views(r3@), fid_views(r4@)];
            assert(v =~= fid_views(seeds@) + fid_views(r1@) + fid_views(r2@) + fid_views(r3@) + fid_views(r4@));
            if v.contains(id) {
                let t = choose|t: int| 0 <= t < v.len() && v[t] == id;
                let n0 = fid_views(seeds@).len();
                let n1 = n0 + fid_views(r1@).len();
                let n2 = n1 + fid_views(r2@).len();
                let n3 = n2 + fid_views(r3@).len();
                if t < n0 {
                    assert(fid_views(seeds@)[t] == id);
                    assert(fid_views(seeds@).contains(id));
                    assert(is_seed(files@, calls@, id));
                } else if t < n1 {
                    assert(fid_views(r1@)[t - n0] == id);
                    assert(fid_views(r1@).contains(id));
                    assert(call_reachable(calls@, true, true, seeds_in(files@, calls@, true), id));
                    assert(relevant(files@, calls@, id));
                } else if t < n2 {
                    assert(fid_views(r2@)[t - n1] == id);
                    assert(fid_views(r2@).contains(id));
                    assert(call_reachable(calls@, true, false, seeds_in(files@, calls@, true), id));
                    assert(relevant(files@, calls@, id));
                } else if t < n3 {
                    assert(fid_views(r3@)[t - n2] == id);
                    assert(fid_views(r3@).contains(id));
                    assert(call_reachable(calls@, false, true, seeds_in(files@, calls@, false), id));
                    assert(relevant(files@, calls@, id));
                } else {
                    assert(fid_views(r4@)[t - n3] == id);
                    assert(fid_views(r4@).contains(id));
                    assert(call_reachable(calls@, false, false, seeds_in(files@, calls@, false), id));
                    assert(relevant(files@, calls@, id));
                }
            }
            if relevant(files@, calls@, id) {
                let n0 = fid_views(seeds@).len();
                let n1 = n0 + fid_views(r1@).len();
                let n2 = n1 + fid_views(r2@).len();
                let n3 = n2 + fid_views(r3@).len();
                if is_seed(files@, calls@, id) {
                    assert(fid_views(seeds@).contains(id));
                    let t = choose|t: int| 0 <= t < fid_views(seeds@).len() && fid_views(seeds@)[t] == id;
                    assert(v[t] == id);
                } else {
                    let (before, reverse) = choose|before: bool, reverse: bool|
                        #[trigger] call_reachable(calls@, before, reverse, seeds_in(files@, calls@, before), id);
                    if before && reverse {
                        assert(fid_views(r1@).contains(id));
                        let t = choose|t: int| 0 <= t < fid_views(r1@).len() && fid_views(r1@)[t] == id;
                        assert(v[n0 + t] == id);
                    } else if before {
                        assert(fid_views(r2@).contains(id));
                        let t = choose|t: int| 0 <= t < fid_views(r2@).len() && fid_views(r2@)[t] == id;
                        assert(v[n1 + t] == id);
                    } else if reverse {
                        assert(fid_views(r3@).contains(id));
                        let t = choose|t: int| 0 <= t < fid_views(r3@).len() && fid_views(r3@)[t] == id;
                        assert(v[n2 + t] == id);
                    } else {
                        assert(fid_views(r4@).contains(id));
                        let t = choose|t: int| 0 <= t < fid_views(r4@).len() && fid_views(r4@)[t] == id;
                        assert(v[n3 + t] == id);
                    }
                }
            }
        }
    }
    ids
}

/// Keeps, in each file and among the calls, only the functions in context:
/// changed functions, callers whose calls changed, and everything that, in
/// one snapshot, calls them or is called by them, transitively. Ancestors and
/// descendants are traced separately, so unrelated siblings of a caller are
/// not pulled in.
pub fn retain_context(graph: &mut Graph)
    requires
        paths_unique(old(graph).files@),
        functions_unique(old(graph).files@),
        callers_listed(old(graph).files@, old(graph).calls@),
    ensures
        final(graph).edges == old(graph).edges,
        final(graph).skipped_files == old(graph).skipped_files,
        final(graph).unresolved == old(graph).unresolved,
        final(graph).files@.len() == old(graph).files@.len(),
        forall|i: int|
            0 <= i < final(graph).files@.len() ==> {
                &&& (#[trigger] final(graph).files@[i]).path == old(graph).files@[i].path
                &&& final(graph).files@[i].package == old(graph).files@[i].package
                &&& final(graph).files@[i].change == old(graph).files@[i].change
                &&& final(graph).files@[i].entry == old(graph).files@[i].entry
                &&& final(graph).files@[i].functions@ == old(graph).files@[i].functions@.filter(
                    keeps_function(old(graph).files@, old(graph).calls@, old(graph).files@[i].path@),
                )
            },
        final(graph).calls@ == old(graph).calls@.filter(keeps_call(old(graph).files@, old(graph).calls@)),
{
    let ghost files0 = graph.files@;
    let ghost calls0 = graph.calls@;
    let ids = relevant_functions(&graph.files, &graph.calls);
    let mut call_mask: Vec<bool> = Vec::new();
    let mut k: usize = 0;
    while k < graph.calls.len()
        invariant
            k <= graph.calls@.len(),
            graph.calls@ == calls0,
            graph.files@ == files0,
            forall|id: FidView| fid_views(ids@).contains(id) <==> relevant(files0, calls0, id),
            call_mask@.len() == k,
            forall|t: int| 0 <= t < k ==> call_mask@[t] == keeps_call(files0, calls0)(#[trigger] calls0[t]),
        decreases graph.calls@.len() - k,
    {
        let keep = contains_fid(&ids, &graph.calls[k].from) && contains_fid(&ids, &graph.calls[k].to);
        call_mask.push(keep);
        k = k + 1;
    }
    let mut calls: Vec<CallEdge> = Vec::new();
    std::mem::swap(&mut calls, &mut graph.calls);
    let kept_calls = keep_marked(calls, &call_mask);
    proof {
        lemma_masked_filter(calls0, call_mask@, keeps_call(files0, calls0), calls0.len() as int);
        assert(calls0.take(calls0.len() as int) =~= calls0);
    }
    graph.calls = kept_calls;
    let mut files: Vec<FileNode> = Vec::new();
    std::mem::swap(&mut files, &mut graph.files);
    let mut kept_files: Vec<FileNode> = Vec::new();
    let n = files.len();
    let mut i: usize = 0;
    while i < n
        invariant
            n == files0.len(),
            i <= n,
            files@ == files0.subrange(i as int, n as int),
            forall|id: FidView| fid_views(ids@).contains(id) <==> relevant(files0, calls0, id),
            kept_files@.len() == i,
            forall|t: int|
                0 <= t < i ==> {
                    &&& (#[trigger] kept_files@[t]).path == files0[t].path
                    &&& kept_files@[t].package == files0[t].package
                    &&& kept_files@[t].change == files0[t].change
                    &&& kept_files@[t].entry == files0[t].entry
                    &&& kept_files@[t].functions@ == files0[t].functions@.filter(keeps_function(files0, calls0, files0[t].path@))
                },
        decreases n - i,
    {
        let file = files.remove(0);
        assert(file == files0[i as int]);
        assert(files@ =~= files0.subrange(i + 1, n as int));
        let mut mask: Vec<bool> = Vec::new();
        let mut j: usize = 0;
        while j < file.functions.len()
            invariant
                j <= file.functions@.len(),
                forall|id: FidView| fid_views(ids@).contains(id) <==> relevant(files0, calls0, id),
                mask@.len() == j,
                forall|t: int| 0 <= t < j ==> mask@[t] == keeps_function(files0, calls0, file.path@)(#[trigger] file.functions@[t]),
            decreases file.functions@.len() - j,
        {
            let id = FunctionId { file: file.path.clone(), name: file.functions[j].name.clone() };
            let keep = contains_fid(&ids, &id);
            mask.push(keep);
            j = j + 1;
        }
        let ghost fns = file.functions@;
        let FileNode { path, package, change, functions, entry } = file;
        let kept = keep_marked(functions, &mask);
        proof {
            lemma_masked_filter(fns, mask@, keeps_function(files0, calls0, path@), fns.len() as int);
            assert(fns.take(fns.len() as int) =~= fns);
        }
        kept_files.push(FileNode { path, package, change, functions: kept, entry });
        i = i + 1;
    }
    graph.files = kept_files;
}


proof fn lemma_masked_from<T>(s: Seq<T>, m: Seq<bool>, n: int)
    requires
        0 <= n <= s.len(),
        m.len() == s.len(),
    ensures
        forall|k: int| 0 <= k < masked(s, m, n).len() ==> from_marked(s, m, n, #[trigger] masked(s, m, n)[k]),
    decreases n,
{
    if n > 0 {
        lemma_masked_from(s, m, n - 1);
        assert forall|k: int| 0 <= k < masked(s, m, n).len() implies from_marked(s, m, n, #[trigger] masked(s, m, n)[k]) by {
            if m[n - 1] && k == masked(s, m, n - 1).len() {
                assert(masked(s, m, n)[k] == s[n - 1]);
            } else {
                assert(masked(s, m, n)[k] == masked(s, m, n - 1)[k]);
                assert(from_marked(s, m, n - 1, masked(s, m, n - 1)[k]));
                let i = choose|i: int| 0 <= i < n - 1 && m[i] && masked(s, m, n - 1)[k] == #[trigger] s[i];
            }
        }
    }
}

/// Whether `x` is one of the first `n` items of `s` whose mark is set.
pub open spec fn from_marked<T>(s: Seq<T>, m: Seq<bool>, n: int, x: T) -> bool {
    exists|i: int| 0 <= i < n && m[i] && x == #[trigger] s[i]
}

proof fn lemma_masked_has<T>(s: Seq<T>, m: Seq<bool>, n: int, i: int)
    requires
        0 <= i < n <= s.len(),
        m.len() == s.len(),
        m[i],
    ensures
        masked(s, m, n).contains(s[i]),
    decreases n,
{
    if i < n - 1 {
        lemma_masked_has(s, m, n - 1, i);
        let k = choose|k: int| 0 <= k < masked(s, m, n - 1).len() && #[trigger] masked(s, m, n - 1)[k] == s[i];
        assert(masked(s, m, n)[k] == s[i]);
    } else {
        assert(masked(s, m, n)[masked(s, m, n).len() - 1] == s[i]);
    }
}

proof fn lemma_masked_paths_unique(files: Seq<FileNode>, m: Seq<bool>, n: int)
    requires
        0 <= n <= files.len(),
        m.len() == files.len(),
        paths_unique(files),
    ensures
        paths_unique(masked(files, m, n)),
    decreases n,
{
    if n > 0 {
        lemma_masked_paths_unique(files, m, n - 1);
        lemma_masked_from(files, m, n - 1);
        let prev = masked(files, m, n - 1);
        let cur = masked(files, m, n);
        if m[n - 1] {
            assert forall|a: int, b: int| 0 <= a < b < cur.len() implies #[trigger] cur[a].path@ != #[trigger] cur[b].path@ by {
                if b == prev.len() {
                    assert(cur[a] == prev[a]);
                    assert(from_marked(files, m, n - 1, prev[a]));
                    let i = choose|i: int| 0 <= i < n - 1 && m[i] && prev[a] == #[trigger] files[i];
                    assert(files[i].path@ != files[n - 1].path@);
                } else {
                    assert(cur[a] == prev[a] && cur[b] == prev[b]);
                }
            }
        }
    }
}

proof fn lemma_masked_functions_unique(files: Seq<FileNode>, m: Seq<bool>)
    requires
        m.len() == files.len(),
        functions_unique(files),
    ensures
        functions_unique(masked(files, m, files.len() as int)),
{
    lemma_masked_from(files, m, files.len() as int);
    let f = masked(files, m, files.len() as int);
    assert forall|i: int, j: int, k: int|
        0 <= i < f.len() && 0 <= j < k < f[i].functions@.len() implies #[trigger] f[i].functions@[j].name@
            != #[trigger] f[i].functions@[k].name@ by {
        assert(from_marked(files, m, files.len() as int, f[i]));
        let t = choose|t: int| 0 <= t < files.len() && m[t] && f[i] == #[trigger] files[t];
        assert(files[t].functions@[j].name@ != files[t].functions@[k].name@);
    }
}

/// The glob matching of `globset`: whether `pattern` compiles, and then
/// whether it matches `path`.
pub uninterp spec fn glob_match(pattern: Seq<char>, path: Seq<char>) -> Option<bool>;

/// The longest pattern, in characters, that the filters are given; longer
/// ones could overflow the state numbering of the literal matcher that
/// `globset` builds for prefix and suffix patterns.
pub open spec fn pattern_limit() -> nat {
    0x1000_0000
}

/// Every pattern is within [`pattern_limit`].
pub open spec fn patterns_in_limit(patterns: Seq<String>) -> bool {
    forall|k: int| 0 <= k < patterns.len() ==> #[trigger] patterns[k]@.len() <= pattern_limit()
}

/// `globset::Glob::new(pattern)` added alone to a `globset::GlobSetBuilder`,
/// built, and asked `is_match(path)`; `None` when the pattern does not parse
/// or its matcher cannot be built (a regular expression nested too deeply or
/// too large is reported by `build` as an error, where `compile_matcher`
/// would panic). The result is named by `glob_match` and nothing more is
/// claimed of it.
#[verifier::external_body]
fn glob_is_match(pattern: &str, path: &str) -> (r: Option<bool>)
    requires
        pattern@.len() <= pattern_limit(),
    ensures
        r == glob_match(pattern@, path@),
{
    let mut builder = globset::GlobSetBuilder::new();
    builder.add(globset::Glob::new(pattern).ok()?);
    Some(builder.build().ok()?.is_match(path))
}

/// A path stays visible unless a filter pattern that compiles matches it.
pub open spec fn visible(patterns: Seq<String>, path: Seq<char>) -> bool {
    !exists|k: int| 0 <= k < patterns.len() && glob_match(#[trigger] patterns[k]@, path) == Some(true)
}

pub(crate) fn is_visible(patterns: &[String], path: &String) -> (b: bool)
    requires
        patterns_in_limit(patterns@),
    ensures
        b == visible(patterns@, path@),
{
    let mut k: usize = 0;
    while k < patterns.len()
        invariant
            k <= patterns@.len(),
            patterns_in_limit(patterns@),
            forall|t: int| 0 <= t < k ==> glob_match(#[trigger] patterns@[t]@, path@) != Some(true),
        decreases patterns@.len() - k,
    {
        match glob_is_match(patterns[k].as_str(), path.as_str()) {
            Some(true) => {
                return false;
            },
            _ => {},
        }
        k = k + 1;
    }
    true
}

pub open spec fn shows_file(patterns: Seq<String>) -> spec_fn(FileNode) -> bool {
    |f: FileNode| visible(patterns, f.path@)
}

pub open spec fn shows_edge(patterns: Seq<String>) -> spec_fn(crate::radar::Edge) -> bool {
    |e: crate::radar::Edge| visible(patterns, e.from@) && visible(patterns, e.to@)
}

pub open spec fn shows_call(patterns: Seq<String>) -> spec_fn(CallEdge) -> bool {
    |c: CallEdge| visible(patterns, c.from.file@) && visible(patterns, c.to.file@)
}

/// Removes from the graph the files whose paths match a filter pattern, and
/// the imports and calls that touch them, then keeps only the call context
/// of what remains.
pub fn filter_graph(graph: &mut Graph, patterns: &[String])
    requires
        patterns_in_limit(patterns@),
        paths_unique(old(graph).files@),
        functions_unique(old(graph).files@),
        callers_listed(old(graph).files@, old(graph).calls@),
    ensures
        ({
            let files = old(graph).files@.filter(shows_file(patterns@));
            let calls = old(graph).calls@.filter(shows_call(patterns@));
            &&& final(graph).edges@ == old(graph).edges@.filter(shows_edge(patterns@))
            &&& final(graph).skipped_files == old(graph).skipped_files
            &&& final(graph).unresolved == old(graph).unresolved
            &&& final(graph).files@.len() == files.len()
            &&& forall|i: int|
                0 <= i < final(graph).files@.len() ==> {
                    &&& (#[trigger] final(graph).files@[i]).path == files[i].path
                    &&& final(graph).files@[i].package == files[i].package
                    &&& final(graph).files@[i].change == files[i].change
                    &&& final(graph).files@[i].entry == files[i].entry
                    &&& final(graph).files@[i].functions@ == files[i].functions@.filter(
                        keeps_function(files, calls, files[i].path@),
                    )
                }
            &&& final(graph).calls@ == calls.filter(keeps_call(files, calls))
        }),
{
    let ghost files0 = graph.files@;
    let ghost calls0 = graph.calls@;
    let ghost edges0 = graph.edges@;
    let mut file_mask: Vec<bool> = Vec::new();
    let mut i: usize = 0;
    while i < graph.files.len()
        invariant
            i <= graph.files@.len(),
            patterns_in_limit(patterns@),
            graph.files@ == files0,
            file_mask@.len() == i,
            forall|t: int| 0 <= t < i ==> file_mask@[t] == shows_file(patterns@)(#[trigger] files0[t]),
        decreases graph.files@.len() - i,
    {
        let show = is_visible(patterns, &graph.files[i].path);
        file_mask.push(show);
        i = i + 1;
    }
    let mut edge_mask: Vec<bool> = Vec::new();
    let mut i: usize = 0;
    while i < graph.edges.len()
        invariant
            i <= graph.edges@.len(),
            patterns_in_limit(patterns@),
            graph.edges@ == edges0,
            edge_mask@.len() == i,
            forall|t: int| 0 <= t < i ==> edge_mask@[t] == shows_edge(patterns@)(#[trigger] edges0[t]),
        decreases graph.edges@.len() - i,
    {
        let show = is_visible(patterns, &graph.edges[i].from) && is_visible(patterns, &graph.edges[i].to);
        edge_mask.push(show);
        i = i + 1;
    }
    let mut call_mask: Vec<bool> = Vec::new();
    let mut i: usize = 0;
    while i < graph.calls.len()
        invariant
            i <= graph.calls@.len(),
            patterns_in_limit(patterns@),
            graph.calls@ == calls0,
            call_mask@.len() == i,
            forall|t: int| 0 <= t < i ==> call_mask@[t] == shows_call(patterns@)(#[trigger] calls0[t]),
        decreases graph.calls@.len() - i,
    {
        let show = is_visible(patterns, &graph.calls[i].from.file) && is_visible(patterns, &graph.calls[i].to.file);
        call_mask.push(show);
        i = i + 1;
    }
    let mut files: Vec<FileNode> = Vec::new();
    std::mem::swap(&mut files, &mut graph.files);
    graph.files = keep_marked(files, &file_mask);
    let mut edges: Vec<crate::radar::Edge> = Vec::new();
    std::mem::swap(&mut edges, &mut graph.edges);
    graph.edges = keep_marked(edges, &edge_mask);
    let mut calls: Vec<CallEdge> = Vec::new();
    std::mem::swap(&mut calls, &mut graph.calls);
    graph.calls = keep_marked(calls, &call_mask);
    proof {
        lemma_masked_filter(files0, file_mask@, shows_file(patterns@), files0.len() as int);
        lemma_masked_filter(edges0, edge_mask@, shows_edge(patterns@), edges0.len() as int);
        lemma_masked_filter(calls0, call_mask@, shows_call(patterns@), calls0.len() as int);
        assert(files0.take(files0.len() as int) =~= files0);
        assert(edges0.take(edges0.len() as int) =~= edges0);
        assert(calls0.take(calls0.len() as int) =~= calls0);
        lemma_masked_paths_unique(files0, file_mask@, files0.len() as int);
        lemma_masked_functions_unique(files0, file_mask@);
        lemma_masked_from(calls0, call_mask@, calls0.len() as int);
        let mf = graph.files@;
        let mc = graph.calls@;
        assert forall|k: int| 0 <= k < mc.len() implies function_listed(mf, fid_view(#[trigger] mc[k].from)) by {
            assert(from_marked(calls0, call_mask@, calls0.len() as int, mc[k]));
            let ic = choose|ic: int| 0 <= ic < calls0.len() && call_mask@[ic] && mc[k] == #[trigger] calls0[ic];
            let id = fid_view(calls0[ic].from);
            assert(function_listed(files0, fid_view(calls0[ic].from)));
            let (a, b) = choose|a: int, b: int|
                0 <= a < files0.len() && 0 <= b < files0[a].functions@.len() && #[trigger] files0[a].functions@[b].name@ == id.1
                    && files0[a].path@ == id.0;
            assert(file_mask@[a]);
            lemma_masked_has(files0, file_mask@, files0.len() as int, a);
            let t = choose|t: int| 0 <= t < mf.len() && mf[t] == files0[a];
            assert(mf[t].functions@[b].name@ == id.1);
        }
    }
    retain_context(graph);
}

} // verus!
