//! The file dependency graph of a review, and the dependency focus around a
//! file: what it imports and what imports it, in each snapshot on its own.
use vstd::prelude::*;
use crate::paths::{chars_are, extension, extension_of, file_name, file_name_of};
use crate::text::{chars_of, split_chars, split_on};

verus! {

/// How a file, function or import differs between the two snapshots.
#[derive(Clone, Copy, Debug, PartialEq, Eq, Structural)]
pub enum Change {
    Added,
    Removed,
    Modified,
    Unchanged,
}

pub open spec fn change_marker(c: Change) -> Seq<char> {
    match c {
        Change::Added => "A"@,
        Change::Removed => "D"@,
        Change::Modified => "M"@,
        Change::Unchanged => ""@,
    }
}

impl Change {
    /// The one-letter badge of a change; empty for an unchanged item.
    pub fn marker(self) -> (s: &'static str)
        ensures
            s@ == change_marker(self),
    {
        match self {
            Change::Added => "A",
            Change::Removed => "D",
            Change::Modified => "M",
            Change::Unchanged => "",
        }
    }
}

#[derive(Clone, Debug)]
pub struct FunctionNode {
    pub name: String,
    pub line: usize,
    pub change: Change,
}

#[derive(Clone, Debug)]
pub struct FileNode {
    pub path: String,
    pub package: String,
    pub change: Change,
    pub functions: Vec<FunctionNode>,
    pub entry: bool,
}

/// An import of `to` by `from`.
#[derive(Clone, Debug)]
pub struct Edge {
    pub from: String,
    pub to: String,
    pub change: Change,
}

/// A function named by its file and its qualified name.
#[derive(Clone, Debug)]
pub struct FunctionId {
    pub file: String,
    pub name: String,
}

/// A call between two functions.
#[derive(Clone, Debug)]
pub struct CallEdge {
    pub from: FunctionId,
    pub to: FunctionId,
    pub change: Change,
}

/// The dependency graph of a review: its files (one node per path), the
/// imports between them and the calls between their functions.
#[derive(Clone, Debug)]
pub struct Graph {
    pub files: Vec<FileNode>,
    pub edges: Vec<Edge>,
    pub calls: Vec<CallEdge>,
    pub skipped_files: usize,
    pub unresolved: usize,
}

impl Graph {
    /// No two file nodes share a path.
    pub open spec fn wf(&self) -> bool {
        forall|i: int, j: int|
            0 <= i < j < self.files@.len() ==> #[trigger] self.files@[i].path@ != #[trigger] self.files@[j].path@
    }
}

/// The files and imports in focus.
#[derive(Debug)]
pub struct DependencyFocus {
    pub files: Vec<String>,
    pub edges: Vec<(String, String)>,
}

pub open spec fn string_views(v: Seq<String>) -> Seq<Seq<char>> {
    v.map_values(|s: String| s@)
}

pub open spec fn pair_views(v: Seq<(String, String)>) -> Seq<(Seq<char>, Seq<char>)> {
    v.map_values(|p: (String, String)| (p.0@, p.1@))
}

/// Whether an import exists in a snapshot: added imports are not in the one
/// before, removed imports not in the one after.
pub open spec fn in_snapshot(change: Change, before: bool) -> bool {
    !((before && change == Change::Added) || (!before && change == Change::Removed))
}

/// One step from `a` to `b` along the imports of a snapshot: from importer
/// to imported file (`forward`) or back.
pub open spec fn step(edges: Seq<Edge>, before: bool, forward: bool, a: Seq<char>, b: Seq<char>) -> bool {
    exists|i: int|
        0 <= i < edges.len() && in_snapshot(#[trigger] edges[i].change, before) && (if forward {
            edges[i].from@ == a && edges[i].to@ == b
        } else {
            edges[i].to@ == a && edges[i].from@ == b
        })
}

/// The files reached from `start` in at most `k` steps.
pub open spec fn reach_within(edges: Seq<Edge>, before: bool, forward: bool, start: Seq<char>, k: nat) -> Set<Seq<char>>
    decreases k,
{
    if k == 0 {
        set![start]
    } else {
        let r = reach_within(edges, before, forward, start, (k - 1) as nat);
        r.union(Set::new(|b: Seq<char>| exists|a: Seq<char>| r.contains(a) && step(edges, before, forward, a, b)))
    }
}

/// Whether `x` is reached from `start` along the imports of a snapshot.
pub open spec fn reachable(edges: Seq<Edge>, before: bool, forward: bool, start: Seq<char>, x: Seq<char>) -> bool {
    exists|k: nat| #[trigger] reach_within(edges, before, forward, start, k).contains(x)
}

proof fn lemma_reachable_step(edges: Seq<Edge>, before: bool, forward: bool, start: Seq<char>, a: Seq<char>, b: Seq<char>)
    requires
        reachable(edges, before, forward, start, a),
        step(edges, before, forward, a, b),
    ensures
        reachable(edges, before, forward, start, b),
{
    let k = choose|k: nat| #[trigger] reach_within(edges, before, forward, start, k).contains(a);
    assert(reach_within(edges, before, forward, start, k + 1).contains(b));
}

proof fn lemma_closed_contains_reach(
    edges: Seq<Edge>,
    before: bool,
    forward: bool,
    start: Seq<char>,
    s: Set<Seq<char>>,
    k: nat,
)
    requires
        s.contains(start),
        forall|a: Seq<char>, b: Seq<char>| s.contains(a) && step(edges, before, forward, a, b) ==> s.contains(b),
    ensures
        reach_within(edges, before, forward, start, k).subset_of(s),
    decreases k,
{
    if k > 0 {
        lemma_closed_contains_reach(edges, before, forward, start, s, (k - 1) as nat);
    }
}

/// The endpoint an edge leads to when walking in a direction.
pub open spec fn far_end(e: Edge, forward: bool) -> Seq<char> {
    if forward {
        e.to@
    } else {
        e.from@
    }
}

/// Whether `x` is the far end of some import.
pub open spec fn is_far_end(edges: Seq<Edge>, forward: bool, x: Seq<char>) -> bool {
    exists|j: int| 0 <= j < edges.len() && far_end(#[trigger] edges[j], forward) == x
}

pub(crate) proof fn lemma_visited_bound(vs: Seq<Seq<char>>, edges: Seq<Edge>, forward: bool)
    requires
        vs.len() >= 1,
        vs.no_duplicates(),
        forall|k: int| 1 <= k < vs.len() ==> is_far_end(edges, forward, #[trigger] vs[k]),
    ensures
        vs.len() <= edges.len() + 1,
{
    let tail = vs.drop_first();
    let ends = edges.map_values(|e: Edge| far_end(e, forward));
    assert(tail.no_duplicates());
    tail.unique_seq_to_set();
    ends.lemma_cardinality_of_set();
    vstd::seq_lib::seq_to_set_is_finite(ends);
    assert forall|x: Seq<char>| tail.to_set().contains(x) implies ends.to_set().contains(x) by {
        let k = choose|k: int| 0 <= k < tail.len() && tail[k] == x;
        assert(vs[k + 1] == x);
        assert(is_far_end(edges, forward, vs[k + 1]));
        let j = choose|j: int| 0 <= j < edges.len() && far_end(#[trigger] edges[j], forward) == vs[k + 1];
        assert(ends[j] == x);
    }
    vstd::set_lib::lemma_len_subset(tail.to_set(), ends.to_set());
}

pub(crate) fn same_string(a: &String, b: &String) -> (r: bool)
    ensures
        r == (a@ == b@),
{
    *a == *b
}

pub(crate) fn contains_string(v: &Vec<String>, x: &String) -> (r: bool)
    ensures
        r == string_views(v@).contains(x@),
{
    let mut i: usize = 0;
    while i < v.len()
        invariant
            i <= v@.len(),
            forall|k: int| 0 <= k < i ==> v@[k]@ != x@,
        decreases v@.len() - i,
    {
        if same_string(&v[i], x) {
            assert(string_views(v@)[i as int] == x@);
            return true;
        }
        i = i + 1;
    }
    assert forall|k: int| 0 <= k < string_views(v@).len() implies string_views(v@)[k] != x@ by {
        assert(string_views(v@)[k] == v@[k]@);
    }
    false
}

/// Every file reached from `start` along the imports of one snapshot,
/// forward (what it imports, transitively) or backward (what imports it),
/// `start` included, each once.
pub fn reach(edges: &Vec<Edge>, start: &String, before: bool, forward: bool) -> (visited: Vec<String>)
    ensures
        string_views(visited@).no_duplicates(),
        forall|x: Seq<char>| string_views(visited@).contains(x) <==> reachable(edges@, before, forward, start@, x),
{
    let mut visited: Vec<String> = Vec::new();
    visited.push(start.clone());
    proof {
        assert(reach_within(edges@, before, forward, start@, 0).contains(start@));
        assert(string_views(visited@) =~= seq![start@]);
    }
    let mut i: usize = 0;
    while i < visited.len()
        invariant
            i <= visited@.len(),
            visited@.len() >= 1,
            string_views(visited@)[0] == start@,
            string_views(visited@).no_duplicates(),
            visited@.len() <= edges@.len() + 1,
            forall|k: int| 0 <= k < visited@.len() ==> reachable(edges@, before, forward, start@, #[trigger] string_views(visited@)[k]),
            forall|k: int| 1 <= k < visited@.len() ==> is_far_end(edges@, forward, #[trigger] string_views(visited@)[k]),
            forall|k: int, b: Seq<char>| 0 <= k < i && #[trigger] step(edges@, before, forward, string_views(visited@)[k], b) ==> string_views(visited@).contains(b),
        decreases edges@.len() + 1 - i,
    {
        let current = visited[i].clone();
        let ghost cur = string_views(visited@)[i as int];
        assert(current@ == cur);
        let mut j: usize = 0;
        while j < edges.len()
            invariant
                i < visited@.len(),
                j <= edges@.len(),
                current@ == cur,
                cur == string_views(visited@)[i as int],
                visited@.len() >= 1,
                string_views(visited@)[0] == start@,
                string_views(visited@).no_duplicates(),
                visited@.len() <= edges@.len() + 1,
                reachable(edges@, before, forward, start@, cur),
                forall|k: int| 0 <= k < visited@.len() ==> reachable(edges@, before, forward, start@, #[trigger] string_views(visited@)[k]),
                forall|k: int| 1 <= k < visited@.len() ==> is_far_end(edges@, forward, #[trigger] string_views(visited@)[k]),
                forall|k: int, b: Seq<char>| 0 <= k < i && #[trigger] step(edges@, before, forward, string_views(visited@)[k], b) ==> string_views(visited@).contains(b),
                forall|m: int| 0 <= m < j && in_snapshot(#[trigger] edges@[m].change, before) && (if forward {
                    edges@[m].from@ == cur
                } else {
                    edges@[m].to@ == cur
                }) ==> string_views(visited@).contains(far_end(edges@[m], forward)),
            decreases edges@.len() - j,
        {
            let edge = &edges[j];
            let (near, far) = if forward {
                (&edge.from, &edge.to)
            } else {
                (&edge.to, &edge.from)
            };
            if in_snapshot_of(edge.change, before) && same_string(near, &current) {
                assert(step(edges@, before, forward, cur, far_end(edges@[j as int], forward)));
                if !contains_string(&visited, far) {
                    let ghost old_views = string_views(visited@);
                    proof {
                        lemma_reachable_step(edges@, before, forward, start@, cur, far@);
                    }
                    visited.push(far.clone());
                    assert(string_views(visited@) =~= old_views.push(far@));
                    proof {
                        assert forall|k: int| 1 <= k < visited@.len() implies is_far_end(edges@, forward, #[trigger] string_views(visited@)[k]) by {
                            if k < visited@.len() - 1 {
                                assert(string_views(visited@)[k] == old_views[k]);
                            } else {
                                assert(far_end(edges@[j as int], forward) == string_views(visited@)[k]);
                            }
                        }
                        lemma_visited_bound(string_views(visited@), edges@, forward);
                        assert forall|k: int, b: Seq<char>| 0 <= k < i && #[trigger] step(edges@, before, forward, string_views(visited@)[k], b) implies string_views(visited@).contains(b) by {
                            assert(string_views(visited@)[k] == old_views[k]);
                            assert(old_views.contains(b));
                            let t = choose|t: int| 0 <= t < old_views.len() && old_views[t] == b;
                            assert(string_views(visited@)[t] == b);
                        }
                        assert forall|m: int| 0 <= m < j + 1 && in_snapshot(#[trigger] edges@[m].change, before) && (if forward {
                            edges@[m].from@ == cur
                        } else {
                            edges@[m].to@ == cur
                        }) implies string_views(visited@).contains(far_end(edges@[m], forward)) by {
                            if m < j {
                                let t = choose|t: int| 0 <= t < old_views.len() && old_views[t] == far_end(edges@[m], forward);
                                assert(string_views(visited@)[t] == far_end(edges@[m], forward));
                            } else {
                                assert(string_views(visited@)[visited@.len() - 1] == far@);
                            }
                        }
                    }
                }
            }
            j = j + 1;
        }
        proof {
            assert forall|k: int, b: Seq<char>| 0 <= k < i + 1 && #[trigger] step(edges@, before, forward, string_views(visited@)[k], b) implies string_views(visited@).contains(b) by {
                if k == i {
                    let m = choose|m: int| 0 <= m < edges@.len() && in_snapshot(#[trigger] edges@[m].change, before) && (if forward {
                        edges@[m].from@ == cur && edges@[m].to@ == b
                    } else {
                        edges@[m].to@ == cur && edges@[m].from@ == b
                    });
                    assert(far_end(edges@[m], forward) == b);
                }
            }
        }
        i = i + 1;
    }
    proof {
        let s = string_views(visited@).to_set();
        assert(s.contains(start@)) by {
            assert(string_views(visited@)[0] == start@);
        }
        assert forall|a: Seq<char>, b: Seq<char>| s.contains(a) && step(edges@, before, forward, a, b) implies s.contains(b) by {
            let k = choose|k: int| 0 <= k < string_views(visited@).len() && string_views(visited@)[k] == a;
            assert(string_views(visited@).contains(b));
        }
        assert forall|x: Seq<char>| string_views(visited@).contains(x) <==> reachable(edges@, before, forward, start@, x) by {
            if string_views(visited@).contains(x) {
                let k = choose|k: int| 0 <= k < string_views(visited@).len() && string_views(visited@)[k] == x;
            }
            if reachable(edges@, before, forward, start@, x) {
                let k = choose|k: nat| #[trigger] reach_within(edges@, before, forward, start@, k).contains(x);
                lemma_closed_contains_reach(edges@, before, forward, start@, s, k);
                assert(s.contains(x));
            }
        }
    }
    visited
}

pub(crate) fn in_snapshot_of(change: Change, before: bool) -> (b: bool)
    ensures
        b == in_snapshot(change, before),
{
    !((before && change == Change::Added) || (!before && change == Change::Removed))
}


/// The change of the file node at `path`, when the graph has one.
pub open spec fn file_change(files: Seq<FileNode>, path: Seq<char>) -> Option<Change> {
    if exists|i: int| 0 <= i < files.len() && #[trigger] files[i].path@ == path {
        let i = choose|i: int| 0 <= i < files.len() && #[trigger] files[i].path@ == path;
        Some(files[i].change)
    } else {
        None
    }
}

/// A file is in the focus of `path` when it is `path`, or when, in a
/// snapshot that has `path`, `path` imports it transitively or it imports
/// `path` transitively.
pub open spec fn focus_file(edges: Seq<Edge>, change: Change, path: Seq<char>, x: Seq<char>) -> bool {
    ||| x == path
    ||| exists|before: bool|
        in_snapshot(change, before) && (#[trigger] reachable(edges, before, true, path, x) || reachable(
            edges,
            before,
            false,
            path,
            x,
        ))
}

/// An import in a snapshot that has `path` is in its focus when it leaves
/// a file that `path` reaches, or enters a file that reaches `path`.
pub open spec fn focus_edge(edges: Seq<Edge>, change: Change, path: Seq<char>, a: Seq<char>, b: Seq<char>) -> bool {
    exists|before: bool, i: int|
        0 <= i < edges.len() && in_snapshot(change, before) && #[trigger] in_snapshot(edges[i].change, before)
            && edges[i].from@ == a && edges[i].to@ == b && (reachable(edges, before, true, path, a)
            || reachable(edges, before, false, path, b))
}

pub(crate) fn add_string(v: &mut Vec<String>, x: &String)
    requires
        string_views(old(v)@).no_duplicates(),
    ensures
        string_views(final(v)@).no_duplicates(),
        string_views(final(v)@).to_set() == string_views(old(v)@).to_set().insert(x@),
{
    if !contains_string(v, x) {
        let ghost before = string_views(v@);
        v.push(x.clone());
        assert(string_views(v@) =~= before.push(x@));
        proof {
            before.lemma_push_to_set_commute(x@);
        }
    } else {
        assert(string_views(v@).to_set() =~= string_views(v@).to_set().insert(x@));
    }
}

fn contains_pair(v: &Vec<(String, String)>, a: &String, b: &String) -> (r: bool)
    ensures
        r == pair_views(v@).contains((a@, b@)),
{
    let mut i: usize = 0;
    while i < v.len()
        invariant
            i <= v@.len(),
            forall|k: int| 0 <= k < i ==> (v@[k].0@, v@[k].1@) != (a@, b@),
        decreases v@.len() - i,
    {
        if same_string(&v[i].0, a) && same_string(&v[i].1, b) {
            assert(pair_views(v@)[i as int] == (a@, b@));
            return true;
        }
        i = i + 1;
    }
    assert forall|k: int| 0 <= k < pair_views(v@).len() implies pair_views(v@)[k] != (a@, b@) by {
        assert(pair_views(v@)[k] == (v@[k].0@, v@[k].1@));
    }
    false
}

pub(crate) fn add_pair(v: &mut Vec<(String, String)>, a: &String, b: &String)
    requires
        pair_views(old(v)@).no_duplicates(),
    ensures
        pair_views(final(v)@).no_duplicates(),
        pair_views(final(v)@).to_set() == pair_views(old(v)@).to_set().insert((a@, b@)),
{
    if !contains_pair(v, a, b) {
        let ghost before = pair_views(v@);
        v.push((a.clone(), b.clone()));
        assert(pair_views(v@) =~= before.push((a@, b@)));
        proof {
            before.lemma_push_to_set_commute((a@, b@));
        }
    } else {
        assert(pair_views(v@).to_set() =~= pair_views(v@).to_set().insert((a@, b@)));
    }
}

/// Adds the strings of `items` to `v`, each once.
fn add_all(v: &mut Vec<String>, items: &Vec<String>)
    requires
        string_views(old(v)@).no_duplicates(),
    ensures
        string_views(final(v)@).no_duplicates(),
        string_views(final(v)@).to_set() == string_views(old(v)@).to_set() + string_views(items@).to_set(),
{
    let mut k: usize = 0;
    assert(string_views(items@).take(0).to_set() =~= Set::<Seq<char>>::empty());
    while k < items.len()
        invariant
            k <= items@.len(),
            string_views(v@).no_duplicates(),
            string_views(v@).to_set() == string_views(old(v)@).to_set() + string_views(items@).take(k as int).to_set(),
        decreases items@.len() - k,
    {
        add_string(v, &items[k]);
        proof {
            assert(string_views(items@).take(k + 1) =~= string_views(items@).take(k as int).push(items@[k as int]@));
            string_views(items@).take(k as int).lemma_push_to_set_commute(items@[k as int]@);
            assert(string_views(v@).to_set() =~= string_views(old(v)@).to_set() + string_views(items@).take(k + 1).to_set());
        }
        k = k + 1;
    }
    assert(string_views(items@).take(items@.len() as int) =~= string_views(items@));
}

/// The files that `path` reaches in a snapshot, in one direction.
pub open spec fn reach_set(edges: Seq<Edge>, before: bool, forward: bool, path: Seq<char>) -> Set<Seq<char>> {
    Set::new(|x: Seq<char>| reachable(edges, before, forward, path, x))
}

/// Whether the import `e` is in the focus of `path` in a snapshot.
pub open spec fn focus_import(edges: Seq<Edge>, before: bool, path: Seq<char>, e: Edge) -> bool {
    in_snapshot(e.change, before) && (reachable(edges, before, true, path, e.from@) || reachable(
        edges,
        before,
        false,
        path,
        e.to@,
    ))
}

/// The imports among the first `n` that are in the focus of `path` in a
/// snapshot, as pairs.
pub open spec fn focus_imports(edges: Seq<Edge>, before: bool, path: Seq<char>, n: int) -> Set<(Seq<char>, Seq<char>)>
    decreases n,
{
    if n <= 0 {
        Set::empty()
    } else if focus_import(edges, before, path, edges[n - 1]) {
        focus_imports(edges, before, path, n - 1).insert((edges[n - 1].from@, edges[n - 1].to@))
    } else {
        focus_imports(edges, before, path, n - 1)
    }
}

proof fn lemma_focus_imports(edges: Seq<Edge>, before: bool, path: Seq<char>, n: int, a: Seq<char>, b: Seq<char>)
    requires
        0 <= n <= edges.len(),
    ensures
        focus_imports(edges, before, path, n).contains((a, b)) <==> exists|i: int|
            0 <= i < n && focus_import(edges, before, path, #[trigger] edges[i]) && edges[i].from@ == a && edges[i].to@ == b,
    decreases n,
{
    if n > 0 {
        lemma_focus_imports(edges, before, path, n - 1, a, b);
        if exists|i: int| 0 <= i < n && focus_import(edges, before, path, #[trigger] edges[i]) && edges[i].from@ == a && edges[i].to@ == b {
            let i = choose|i: int| 0 <= i < n && focus_import(edges, before, path, #[trigger] edges[i]) && edges[i].from@ == a && edges[i].to@ == b;
            if i < n - 1 {
                assert(focus_imports(edges, before, path, n - 1).contains((a, b)));
            }
        }
    }
}

/// Adds the focus of `path` in one snapshot.
fn focus_snapshot(
    edges: &Vec<Edge>,
    path: &String,
    before: bool,
    files: &mut Vec<String>,
    pairs: &mut Vec<(String, String)>,
)
    requires
        string_views(old(files)@).no_duplicates(),
        pair_views(old(pairs)@).no_duplicates(),
    ensures
        string_views(final(files)@).no_duplicates(),
        pair_views(final(pairs)@).no_duplicates(),
        string_views(final(files)@).to_set() == string_views(old(files)@).to_set() + reach_set(edges@, before, true, path@)
            + reach_set(edges@, before, false, path@),
        pair_views(final(pairs)@).to_set() == pair_views(old(pairs)@).to_set() + focus_imports(edges@, before, path@, edges@.len() as int),
{
    let forward = reach(edges, path, before, true);
    let backward = reach(edges, path, before, false);
    assert(string_views(forward@).to_set() =~= reach_set(edges@, before, true, path@));
    assert(string_views(backward@).to_set() =~= reach_set(edges@, before, false, path@));
    add_all(files, &forward);
    add_all(files, &backward);
    let mut i: usize = 0;
    assert(pair_views(pairs@).to_set() =~= pair_views(old(pairs)@).to_set() + focus_imports(edges@, before, path@, 0));
    while i < edges.len()
        invariant
            i <= edges@.len(),
            pair_views(pairs@).no_duplicates(),
            forall|x: Seq<char>| string_views(forward@).contains(x) <==> reachable(edges@, before, true, path@, x),
            forall|x: Seq<char>| string_views(backward@).contains(x) <==> reachable(edges@, before, false, path@, x),
            pair_views(pairs@).to_set() == pair_views(old(pairs)@).to_set() + focus_imports(edges@, before, path@, i as int),
        decreases edges@.len() - i,
    {
        let edge = &edges[i];
        if in_snapshot_of(edge.change, before) && (contains_string(&forward, &edge.from)
            || contains_string(&backward, &edge.to)) {
            add_pair(pairs, &edge.from, &edge.to);
            assert(pair_views(pairs@).to_set() =~= pair_views(old(pairs)@).to_set() + focus_imports(edges@, before, path@, i + 1));
        } else {
            assert(!focus_import(edges@, before, path@, edges@[i as int]));
        }
        i = i + 1;
    }
}

pub(crate) fn find_file(files: &Vec<FileNode>, path: &String) -> (r: Option<usize>)
    ensures
        match r {
            Some(i) => i < files@.len() && files@[i as int].path@ == path@,
            None => forall|i: int| 0 <= i < files@.len() ==> #[trigger] files@[i].path@ != path@,
        },
{
    let mut i: usize = 0;
    while i < files.len()
        invariant
            i <= files@.len(),
            forall|k: int| 0 <= k < i ==> #[trigger] files@[k].path@ != path@,
        decreases files@.len() - i,
    {
        if same_string(&files[i].path, path) {
            return Some(i);
        }
        i = i + 1;
    }
    None
}

/// The dependency focus of `path`: in each snapshot that has the file, what
/// it imports transitively and what imports it transitively, with the
/// imports that lead there. The snapshots are searched separately, so a
/// removed import is never joined to an added one. `None` when the graph
/// has no file at `path`.
pub fn dependency_focus(graph: &Graph, path: &str) -> (r: Option<DependencyFocus>)
    requires
        graph.wf(),
    ensures
        r is None <==> file_change(graph.files@, path@) is None,
        r matches Some(focus) ==> {
            &&& string_views(focus.files@).no_duplicates()
            &&& pair_views(focus.edges@).no_duplicates()
            &&& forall|x: Seq<char>|
                string_views(focus.files@).contains(x) <==> focus_file(
                    graph.edges@,
                    file_change(graph.files@, path@).unwrap(),
                    path@,
                    x,
                )
            &&& forall|a: Seq<char>, b: Seq<char>|
                pair_views(focus.edges@).contains((a, b)) <==> focus_edge(
                    graph.edges@,
                    file_change(graph.files@, path@).unwrap(),
                    path@,
                    a,
                    b,
                )
        },
{
    let start = path.to_owned();
    let index = match find_file(&graph.files, &start) {
        Some(i) => i,
        None => return None,
    };
    let change = graph.files[index].change;
    assert(file_change(graph.files@, path@) == Some(change));
    let mut files: Vec<String> = Vec::new();
    files.push(start.clone());
    let mut pairs: Vec<(String, String)> = Vec::new();
    assert(string_views(files@) =~= seq![path@]);
    assert(pair_views(pairs@) =~= Seq::<(Seq<char>, Seq<char>)>::empty());
    let ghost files0 = string_views(files@);
    if in_snapshot_of(change, true) {
        focus_snapshot(&graph.edges, &start, true, &mut files, &mut pairs);
    }
    let ghost files1 = string_views(files@);
    let ghost pairs1 = pair_views(pairs@);
    if in_snapshot_of(change, false) {
        focus_snapshot(&graph.edges, &start, false, &mut files, &mut pairs);
    }
    proof {
        let e = graph.edges@;
        assert forall|x: Seq<char>| string_views(files@).contains(x) <==> focus_file(e, change, path@, x) by {
            assert(string_views(files@).to_set().contains(x) == string_views(files@).contains(x));
            assert(files1.to_set().contains(x) == files1.contains(x));
            assert(files0.to_set().contains(x) == files0.contains(x));
            if x == path@ {
                assert(files0[0] == x);
            }
            if focus_file(e, change, path@, x) && x != path@ {
                let before = choose|before: bool|
                    in_snapshot(change, before) && (#[trigger] reachable(e, before, true, path@, x)
                        || reachable(e, before, false, path@, x));
                assert(reach_set(e, before, true, path@).contains(x) || reach_set(e, before, false, path@).contains(x));
            }
            if string_views(files@).contains(x) && x != path@ {
                if files1.contains(x) {
                    if !files0.contains(x) {
                        assert(reach_set(e, true, true, path@).contains(x) || reach_set(e, true, false, path@).contains(x));
                    } else {
                        assert(files0 =~= seq![path@]);
                    }
                } else {
                    assert(reach_set(e, false, true, path@).contains(x) || reach_set(e, false, false, path@).contains(x));
                }
            }
        }
        assert forall|a: Seq<char>, b: Seq<char>| pair_views(pairs@).contains((a, b)) <==> focus_edge(e, change, path@, a, b) by {
            assert(pair_views(pairs@).to_set().contains((a, b)) == pair_views(pairs@).contains((a, b)));
            assert(pairs1.to_set().contains((a, b)) == pairs1.contains((a, b)));
            lemma_focus_imports(e, true, path@, e.len() as int, a, b);
            lemma_focus_imports(e, false, path@, e.len() as int, a, b);
            if focus_edge(e, change, path@, a, b) {
                let (before, i) = choose|before: bool, i: int|
                    0 <= i < e.len() && in_snapshot(change, before) && #[trigger] in_snapshot(e[i].change, before)
                        && e[i].from@ == a && e[i].to@ == b && (reachable(e, before, true, path@, a)
                        || reachable(e, before, false, path@, b));
                assert(focus_import(e, before, path@, e[i]));
            }
            if pair_views(pairs@).contains((a, b)) {
                if pairs1.contains((a, b)) {
                    assert(focus_imports(e, true, path@, e.len() as int).contains((a, b)));
                    let i = choose|i: int| 0 <= i < e.len() && focus_import(e, true, path@, #[trigger] e[i]) && e[i].from@ == a && e[i].to@ == b;
                    assert(in_snapshot(e[i].change, true));
                } else {
                    assert(focus_imports(e, false, path@, e.len() as int).contains((a, b)));
                    let i = choose|i: int| 0 <= i < e.len() && focus_import(e, false, path@, #[trigger] e[i]) && e[i].from@ == a && e[i].to@ == b;
                    assert(in_snapshot(e[i].change, false));
                }
            }
        }
    }
    Some(DependencyFocus { files, edges: pairs })
}


/// Extensions of the sources the dependency graph reads.
pub open spec fn source_extension(e: Seq<char>) -> bool {
    e == "ts"@ || e == "tsx"@ || e == "mts"@ || e == "cts"@ || e == "js"@ || e == "jsx"@ || e == "mjs"@
        || e == "cjs"@
}

/// Package and project files that shape import resolution.
pub open spec fn config_name(name: Seq<char>) -> bool {
    ||| name == "package.json"@
    ||| name == "package-lock.json"@
    ||| name == "luminatti.review.json"@
    ||| name == "luminatti.review-validation.json"@
    ||| ("tsconfig"@.is_prefix_of(name) && ".json"@.is_suffix_of(name))
    ||| name == "jsconfig.json"@
}

/// A path under a dependency or Git directory.
pub open spec fn vendored(path: Seq<char>) -> bool {
    exists|i: int|
        0 <= i < split_on(path, '/').len() && (#[trigger] split_on(path, '/')[i] == "node_modules"@
            || split_on(path, '/')[i] == ".git"@)
}

/// Whether a repository file feeds the dependency graph: a source or
/// configuration file outside `node_modules` and `.git`.
pub open spec fn supported_path(path: Seq<char>) -> bool {
    let name = match file_name(path) {
        Some(n) => n,
        None => Seq::empty(),
    };
    (match extension(path) {
        Some(e) => source_extension(e),
        None => false,
    } || config_name(name)) && !vendored(path)
}

/// The radar reads every configuration file that shapes import
/// resolution: outside `node_modules` and `.git`, a file named
/// `package.json`, `package-lock.json`, `jsconfig.json`, one of the two
/// review settings files, or any `tsconfig*.json` is supported, as is every
/// TypeScript or JavaScript source.
pub proof fn configuration_files_are_supported(path: Seq<char>)
    ensures
        ({
            let name = match file_name(path) {
                Some(n) => n,
                None => Seq::empty(),
            };
            &&& (!vendored(path) && "tsconfig"@.is_prefix_of(name) && ".json"@.is_suffix_of(name)) ==> supported_path(path)
            &&& (!vendored(path) && (name == "package.json"@ || name == "package-lock.json"@ || name == "jsconfig.json"@
                || name == "luminatti.review.json"@ || name == "luminatti.review-validation.json"@)) ==> supported_path(path)
            &&& (!vendored(path) && (extension(path) == Some("ts"@) || extension(path) == Some("tsx"@) || extension(path)
                == Some("js"@) || extension(path) == Some("jsx"@) || extension(path) == Some("mts"@) || extension(path)
                == Some("cts"@) || extension(path) == Some("mjs"@) || extension(path) == Some("cjs"@))) ==> supported_path(path)
            &&& vendored(path) ==> !supported_path(path)
        }),
{
}

pub(crate) fn is_source_extension(e: &Vec<char>) -> (b: bool)
    ensures
        b == source_extension(e@),
{
    chars_are(e, "ts") || chars_are(e, "tsx") || chars_are(e, "mts") || chars_are(e, "cts") || chars_are(e, "js")
        || chars_are(e, "jsx") || chars_are(e, "mjs") || chars_are(e, "cjs")
}

pub(crate) fn starts_with_text(v: &Vec<char>, prefix: &str) -> (b: bool)
    ensures
        b == prefix@.is_prefix_of(v@),
{
    let p = chars_of(prefix);
    if p.len() > v.len() {
        return false;
    }
    let mut i: usize = 0;
    while i < p.len()
        invariant
            p@ == prefix@,
            p@.len() <= v@.len(),
            i <= p@.len(),
            forall|k: int| 0 <= k < i ==> p@[k] == v@[k],
        decreases p@.len() - i,
    {
        if p[i] != v[i] {
            return false;
        }
        i = i + 1;
    }
    true
}

pub(crate) fn ends_with_text(v: &Vec<char>, suffix: &str) -> (b: bool)
    ensures
        b == suffix@.is_suffix_of(v@),
{
    let p = chars_of(suffix);
    if p.len() > v.len() {
        return false;
    }
    let n = v.len();
    let off = n - p.len();
    let mut i: usize = 0;
    while i < p.len()
        invariant
            p@ == suffix@,
            p@.len() <= v@.len(),
            v@.len() <= usize::MAX,
            off == v@.len() - p@.len(),
            i <= p@.len(),
            forall|k: int| 0 <= k < i ==> p@[k] == v@[off + k],
        decreases p@.len() - i,
    {
        if p[i] != v[off + i] {
            return false;
        }
        i = i + 1;
    }
    true
}

fn is_config_name(name: &Vec<char>) -> (b: bool)
    ensures
        b == config_name(name@),
{
    chars_are(name, "package.json") || chars_are(name, "package-lock.json") || chars_are(name, "luminatti.review.json")
        || chars_are(name, "luminatti.review-validation.json") || (starts_with_text(name, "tsconfig")
        && ends_with_text(name, ".json")) || chars_are(name, "jsconfig.json")
}

fn is_vendored(path: &str) -> (b: bool)
    ensures
        b == vendored(path@),
{
    let parts = split_chars(path, '/');
    let mut i: usize = 0;
    while i < parts.len()
        invariant
            i <= parts@.len(),
            parts@.len() == split_on(path@, '/').len(),
            forall|k: int| 0 <= k < parts@.len() ==> #[trigger] parts@[k]@ == split_on(path@, '/')[k],
            forall|k: int| 0 <= k < i ==> !(#[trigger] split_on(path@, '/')[k] == "node_modules"@ || split_on(path@, '/')[k] == ".git"@),
        decreases parts@.len() - i,
    {
        if chars_are(&parts[i], "node_modules") || chars_are(&parts[i], ".git") {
            assert(split_on(path@, '/')[i as int] == parts@[i as int]@);
            return true;
        }
        assert(split_on(path@, '/')[i as int] == parts@[i as int]@);
        i = i + 1;
    }
    false
}

pub fn supported(path: &str) -> (b: bool)
    ensures
        b == supported_path(path@),
{
    let name = match file_name_of(path) {
        Some(n) => n,
        None => Vec::new(),
    };
    let source = match extension_of(path) {
        Some(e) => is_source_extension(&e),
        None => false,
    };
    (source || is_config_name(&name)) && !is_vendored(path)
}

fn contains_text(v: &Vec<String>, x: &str) -> (r: bool)
    ensures
        r == string_views(v@).contains(x@),
{
    let owned = x.to_owned();
    contains_string(v, &owned)
}

fn text_ends_with(s: &str, suffix: &str) -> (b: bool)
    ensures
        b == suffix@.is_suffix_of(s@),
{
    let cs = chars_of(s);
    ends_with_text(&cs, suffix)
}

/// Whether a path is captured from a snapshot: a supported file, or, for a
/// review that asks for `extra` paths, one of those or any JSON file.
pub fn capture_path(path: &str, extra: Option<&Vec<String>>) -> (b: bool)
    ensures
        b == (supported_path(path@) || match extra {
            Some(paths) => string_views(paths@).contains(path@) || ".json"@.is_suffix_of(path@)
                || ".jsonc"@.is_suffix_of(path@),
            None => false,
        }),
{
    supported(path) || match extra {
        Some(paths) => contains_text(paths, path) || text_ends_with(path, ".json") || text_ends_with(path, ".jsonc"),
        None => false,
    }
}


/// The colour of a bubble in the bubble view (`0xRRGGBB`).
pub fn bubble_color(change: Change) -> (c: u32)
    ensures
        c == match change {
            Change::Added => 0x81cb91u32,
            Change::Modified => 0x80aafau32,
            Change::Removed => 0xe88389u32,
            Change::Unchanged => 0x62666du32,
        },
{
    match change {
        Change::Added => 0x81cb91,
        Change::Modified => 0x80aafa,
        Change::Removed => 0xe88389,
        Change::Unchanged => 0x62666d,
    }
}

/// The colour of a change in the dependency diagram: the palette's green,
/// red, blue and muted grey.
pub fn color(change: Change) -> (c: u32)
    ensures
        c == match change {
            Change::Added => 0x79c99eu32,
            Change::Removed => 0xf18c96u32,
            Change::Modified => 0x7aa2f7u32,
            Change::Unchanged => 0x9da7b6u32,
        },
{
    match change {
        Change::Added => 0x79c99e,
        Change::Removed => 0xf18c96,
        Change::Modified => 0x7aa2f7,
        Change::Unchanged => 0x9da7b6,
    }
}

/// The focus of several files together: the union of the foci of those the
/// graph has. `None` when no file is focused.
pub fn combined_focus(graph: &Graph, paths: &Vec<String>) -> (r: Option<DependencyFocus>)
    requires
        graph.wf(),
    ensures
        r is None <==> paths@.len() == 0,
        r matches Some(focus) ==> {
            &&& string_views(focus.files@).no_duplicates()
            &&& pair_views(focus.edges@).no_duplicates()
            &&& forall|x: Seq<char>|
                string_views(focus.files@).contains(x) <==> exists|k: int|
                    0 <= k < paths@.len() && file_change(graph.files@, #[trigger] paths@[k]@) is Some && focus_file(
                        graph.edges@,
                        file_change(graph.files@, paths@[k]@).unwrap(),
                        paths@[k]@,
                        x,
                    )
            &&& forall|a: Seq<char>, b: Seq<char>|
                pair_views(focus.edges@).contains((a, b)) <==> exists|k: int|
                    0 <= k < paths@.len() && file_change(graph.files@, #[trigger] paths@[k]@) is Some && focus_edge(
                        graph.edges@,
                        file_change(graph.files@, paths@[k]@).unwrap(),
                        paths@[k]@,
                        a,
                        b,
                    )
        },
{
    if paths.len() == 0 {
        return None;
    }
    let mut files: Vec<String> = Vec::new();
    let mut edges: Vec<(String, String)> = Vec::new();
    let mut k: usize = 0;
    assert(string_views(files@) =~= Seq::<Seq<char>>::empty());
    assert(pair_views(edges@) =~= Seq::<(Seq<char>, Seq<char>)>::empty());
    while k < paths.len()
        invariant
            graph.wf(),
            k <= paths@.len(),
            string_views(files@).no_duplicates(),
            pair_views(edges@).no_duplicates(),
            forall|x: Seq<char>|
                string_views(files@).contains(x) <==> exists|t: int|
                    0 <= t < k && file_change(graph.files@, #[trigger] paths@[t]@) is Some && focus_file(
                        graph.edges@,
                        file_change(graph.files@, paths@[t]@).unwrap(),
                        paths@[t]@,
                        x,
                    ),
            forall|a: Seq<char>, b: Seq<char>|
                pair_views(edges@).contains((a, b)) <==> exists|t: int|
                    0 <= t < k && file_change(graph.files@, #[trigger] paths@[t]@) is Some && focus_edge(
                        graph.edges@,
                        file_change(graph.files@, paths@[t]@).unwrap(),
                        paths@[t]@,
                        a,
                        b,
                    ),
        decreases paths@.len() - k,
    {
        let ghost f0 = string_views(files@);
        let ghost e0 = pair_views(edges@);
        match dependency_focus(graph, paths[k].as_str()) {
            Some(focus) => {
                add_all(&mut files, &focus.files);
                let mut j: usize = 0;
                while j < focus.edges.len()
                    invariant
                        j <= focus.edges@.len(),
                        pair_views(edges@).no_duplicates(),
                        pair_views(edges@).to_set() == e0.to_set() + pair_views(focus.edges@).take(j as int).to_set(),
                    decreases focus.edges@.len() - j,
                {
                    let ghost before = pair_views(edges@);
                    add_pair(&mut edges, &focus.edges[j].0, &focus.edges[j].1);
                    proof {
                        assert(pair_views(focus.edges@).take(j + 1) =~= pair_views(focus.edges@).take(j as int).push(
                            (focus.edges@[j as int].0@, focus.edges@[j as int].1@),
                        ));
                        pair_views(focus.edges@).take(j as int).lemma_push_to_set_commute(
                            (focus.edges@[j as int].0@, focus.edges@[j as int].1@),
                        );
                        assert(pair_views(edges@).to_set() =~= e0.to_set() + pair_views(focus.edges@).take(j + 1).to_set());
                    }
                    j = j + 1;
                }
                assert(pair_views(focus.edges@).take(focus.edges@.len() as int) =~= pair_views(focus.edges@));
                proof {
                    assert forall|x: Seq<char>| string_views(files@).contains(x) <==> exists|t: int|
                        0 <= t < k + 1 && file_change(graph.files@, #[trigger] paths@[t]@) is Some && focus_file(
                            graph.edges@,
                            file_change(graph.files@, paths@[t]@).unwrap(),
                            paths@[t]@,
                            x,
                        ) by {
                        assert(string_views(files@).to_set().contains(x) == string_views(files@).contains(x));
                        assert(f0.to_set().contains(x) == f0.contains(x));
                        assert(string_views(focus.files@).to_set().contains(x) == string_views(focus.files@).contains(x));
                    }
                    assert forall|a: Seq<char>, b: Seq<char>| pair_views(edges@).contains((a, b)) <==> exists|t: int|
                        0 <= t < k + 1 && file_change(graph.files@, #[trigger] paths@[t]@) is Some && focus_edge(
                            graph.edges@,
                            file_change(graph.files@, paths@[t]@).unwrap(),
                            paths@[t]@,
                            a,
                            b,
                        ) by {
                        assert(pair_views(edges@).to_set().contains((a, b)) == pair_views(edges@).contains((a, b)));
                        assert(e0.to_set().contains((a, b)) == e0.contains((a, b)));
                        assert(pair_views(focus.edges@).to_set().contains((a, b)) == pair_views(focus.edges@).contains((a, b)));
                    }
                }
            },
            None => {
                proof {
                    assert forall|x: Seq<char>| string_views(files@).contains(x) <==> exists|t: int|
                        0 <= t < k + 1 && file_change(graph.files@, #[trigger] paths@[t]@) is Some && focus_file(
                            graph.edges@,
                            file_change(graph.files@, paths@[t]@).unwrap(),
                            paths@[t]@,
                            x,
                        ) by {
                        if exists|t: int|
                            0 <= t < k + 1 && file_change(graph.files@, #[trigger] paths@[t]@) is Some && focus_file(
                                graph.edges@,
                                file_change(graph.files@, paths@[t]@).unwrap(),
                                paths@[t]@,
                                x,
                            ) {
                            let t = choose|t: int|
                                0 <= t < k + 1 && file_change(graph.files@, #[trigger] paths@[t]@) is Some && focus_file(
                                    graph.edges@,
                                    file_change(graph.files@, paths@[t]@).unwrap(),
                                    paths@[t]@,
                                    x,
                                );
                            assert(t != k);
                        }
                    }
                    assert forall|a: Seq<char>, b: Seq<char>| pair_views(edges@).contains((a, b)) <==> exists|t: int|
                        0 <= t < k + 1 && file_change(graph.files@, #[trigger] paths@[t]@) is Some && focus_edge(
                            graph.edges@,
                            file_change(graph.files@, paths@[t]@).unwrap(),
                            paths@[t]@,
                            a,
                            b,
                        ) by {
                        if exists|t: int|
                            0 <= t < k + 1 && file_change(graph.files@, #[trigger] paths@[t]@) is Some && focus_edge(
                                graph.edges@,
                                file_change(graph.files@, paths@[t]@).unwrap(),
                                paths@[t]@,
                                a,
                                b,
                            ) {
                            let t = choose|t: int|
                                0 <= t < k + 1 && file_change(graph.files@, #[trigger] paths@[t]@) is Some && focus_edge(
                                    graph.edges@,
                                    file_change(graph.files@, paths@[t]@).unwrap(),
                                    paths@[t]@,
                                    a,
                                    b,
                                );
                            assert(t != k);
                        }
                    }
                }
            },
        }
        k = k + 1;
    }
    Some(DependencyFocus { files, edges })
}

} // verus!
