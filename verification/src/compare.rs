//! The dependency graph of a review from the two snapshots it compares: the
//! files and their changed functions, the imports between files and the
//! calls between functions, each marked by how it changed.
use vstd::prelude::*;
use crate::call_edges::{all_calls, call_edges, function_calls, module_at, module_calls, module_in, seen_pair};
use crate::calls::{callers_listed, fid_view, function_listed, functions_unique, keeps_call, keeps_function, paths_unique, retain_context};
use crate::keyed::get_entry;
use crate::radar_parse::ParsedFunction;
use crate::keyed::{add_call, add_call_entry, add_key, add_key_keeps_order, add_name, add_pair, add_pair_entry, keys, lookup};
use crate::file_tree::{lemma_lex_irreflexive, strictly_sorted};
use crate::radar::{CallEdge, Change, Edge, FileNode, FunctionId, FunctionNode, Graph};
use crate::radar_parse::{FunctionView, Module};
use crate::resolve::JsonValue;
use crate::resolver::{
    all_edges, config_entries, deepest_first, entry_in, module_paths, package_entries, package_of, unique_keys,
    ConfigView, PairView, Resolver, Snapshot,
};

verus! {

/// `a` with each key of `b` added, in order.
pub open spec fn union_keys(a: Seq<Seq<char>>, b: Seq<Seq<char>>) -> Seq<Seq<char>>
    decreases b.len(),
{
    if b.len() == 0 {
        a
    } else {
        add_key(union_keys(a, b.drop_last()), b.last())
    }
}

/// `a` with each pair of `b` added, in order.
pub open spec fn union_pairs(a: Seq<PairView>, b: Seq<PairView>) -> Seq<PairView>
    decreases b.len(),
{
    if b.len() == 0 {
        a
    } else {
        add_pair(union_pairs(a, b.drop_last()), b.last())
    }
}

/// `a` with each call of `b` added, in order.
pub open spec fn union_calls(a: Seq<(PairView, PairView)>, b: Seq<(PairView, PairView)>) -> Seq<(PairView, PairView)>
    decreases b.len(),
{
    if b.len() == 0 {
        a
    } else {
        add_call(union_calls(a, b.drop_last()), b.last())
    }
}

/// The entries of `s` whose keys are not in `skipped`, in order.
pub open spec fn without<V>(s: Seq<(String, V)>, skipped: Seq<Seq<char>>) -> Seq<(String, V)>
    decreases s.len(),
{
    if s.len() == 0 {
        Seq::empty()
    } else if skipped.contains(s.last().0@) {
        without(s.drop_last(), skipped)
    } else {
        without(s.drop_last(), skipped).push(s.last())
    }
}

/// How an item present in the old and new snapshot as told differs:
/// added, removed, changed when `differs`, or unchanged.
pub open spec fn change_between(old: bool, new: bool, differs: bool) -> Change {
    if !old && new {
        Change::Added
    } else if old && !new {
        Change::Removed
    } else if old && new && differs {
        Change::Modified
    } else {
        Change::Unchanged
    }
}

/// The names of the callables of a module, or none.
pub open spec fn function_names(m: Option<Module>) -> Seq<Seq<char>> {
    match m {
        Some(m) => keys(m.functions.deep_view()),
        None => Seq::empty(),
    }
}

/// The record of callable `name` in a module, if any.
pub open spec fn function_in(m: Option<Module>, name: Seq<char>) -> Option<FunctionView> {
    match m {
        Some(m) => lookup(m.functions.deep_view(), name),
        None => None,
    }
}

/// A function of a file as plain values: name, line, change.
pub type FunctionNodeView = (Seq<char>, usize, Change);

/// The node of function `name` between its old and new record: the new
/// line when it has one, else the old; changed when its signature or body
/// changed.
pub open spec fn function_node(old: Option<FunctionView>, new: Option<FunctionView>, name: Seq<char>) -> FunctionNodeView {
    let line = match new {
        Some(b) => b.0,
        None => match old {
            Some(a) => a.0,
            None => 0,
        },
    };
    let differs = match (old, new) {
        (Some(a), Some(b)) => a.1 != b.1 || a.2 != b.2,
        _ => false,
    };
    (name, line, change_between(old is Some, new is Some, differs))
}

/// The nodes of `names` between two versions of a module, in name order.
pub open spec fn function_nodes(om: Option<Module>, nm: Option<Module>, names: Seq<Seq<char>>) -> Seq<FunctionNodeView>
    decreases names.len(),
{
    if names.len() == 0 {
        Seq::empty()
    } else {
        function_nodes(om, nm, names.drop_last()).push(
            function_node(function_in(om, names.last()), function_in(nm, names.last()), names.last()),
        )
    }
}

/// `e` placed after every node whose line is not after its line.
pub open spec fn line_insert(s: Seq<FunctionNodeView>, e: FunctionNodeView) -> Seq<FunctionNodeView>
    decreases s.len(),
{
    if s.len() == 0 {
        seq![e]
    } else if s[0].1 <= e.1 {
        seq![s[0]] + line_insert(s.drop_first(), e)
    } else {
        seq![e] + s
    }
}

/// The nodes ordered by line, nodes on one line in their order.
pub open spec fn by_line(s: Seq<FunctionNodeView>) -> Seq<FunctionNodeView>
    decreases s.len(),
{
    if s.len() == 0 {
        Seq::empty()
    } else {
        line_insert(by_line(s.drop_last()), s.last())
    }
}

/// What one snapshot contributes to the graph: its module paths, its
/// packages and compiler configurations, its import edges, its unresolved
/// imports and its calls.
pub struct SideView {
    pub modules: Seq<(String, Module)>,
    pub paths: Seq<Seq<char>>,
    pub pkgs: Seq<(Seq<char>, JsonValue)>,
    pub configs: Seq<(Seq<char>, ConfigView)>,
    pub edges: Seq<PairView>,
    pub unknown: Seq<PairView>,
    pub calls: Seq<(PairView, PairView)>,
}

/// The contribution of a snapshot with `modules` and configuration files
/// `meta`.
pub open spec fn side(modules: Seq<(String, Module)>, meta: Seq<(String, JsonValue)>) -> SideView {
    let paths = module_paths(modules);
    let pkgs = deepest_first(package_entries(meta));
    let configs = deepest_first(config_entries(meta, meta));
    let e = all_edges(paths, pkgs, configs, modules);
    SideView {
        modules,
        paths,
        pkgs,
        configs,
        edges: e.0,
        unknown: e.1,
        calls: all_calls(modules, paths, pkgs, configs, modules),
    }
}

/// A file of the graph as plain values: path, package, change, functions,
/// entry point.
pub type FileView = (Seq<char>, Seq<char>, Change, Seq<FunctionNodeView>, bool);

/// The node of the file `path` between the two sides.
pub open spec fn file_view(old: SideView, new: SideView, path: Seq<char>) -> FileView {
    let om = module_at(old.modules, path);
    let nm = module_at(new.modules, path);
    let differs = match (om, nm) {
        (Some(a), Some(b)) => a.fingerprint@ != b.fingerprint@,
        _ => false,
    };
    let names = union_keys(union_keys(Seq::empty(), function_names(om)), function_names(nm));
    (
        path,
        if nm is Some {
            package_of(new.pkgs, path)
        } else {
            package_of(old.pkgs, path)
        },
        change_between(om is Some, nm is Some, differs),
        by_line(function_nodes(om, nm, names)),
        entry_in(old.paths, old.pkgs, path) || entry_in(new.paths, new.pkgs, path),
    )
}

/// How an edge or call in the union of the two sides changed.
pub open spec fn membership_change(in_old: bool, in_new: bool) -> Change {
    if !in_old {
        Change::Added
    } else if !in_new {
        Change::Removed
    } else {
        Change::Unchanged
    }
}

/// The graph as plain values: files, import edges, calls, the number of
/// files skipped and the number of unresolved imports.
pub struct GraphView {
    pub files: Seq<FileView>,
    pub edges: Seq<(Seq<char>, Seq<char>, Change)>,
    pub calls: Seq<(PairView, PairView, Change)>,
    pub skipped_files: nat,
    pub unresolved: nat,
}

/// The paths skipped in either snapshot, sorted.
pub open spec fn skipped_paths(before: Seq<Seq<char>>, after: Seq<Seq<char>>) -> Seq<Seq<char>> {
    union_keys(union_keys(Seq::empty(), before), after)
}

/// The graph between two snapshots, before the call context is narrowed:
/// files unreadable in either snapshot are left out of both; each file
/// present in either is listed once, in path order; each import edge and
/// each call of either side once, in order.
pub open spec fn built_graph(before: &Snapshot, after: &Snapshot) -> GraphView {
    let skipped = skipped_paths(before.skipped.deep_view(), after.skipped.deep_view());
    let old = old_side(before, after);
    let new = new_side(before, after);
    let paths = listed_paths(before, after);
    let edges = union_pairs(old.edges, new.edges);
    let calls = union_calls(old.calls, new.calls);
    GraphView {
        files: paths.map_values(|p: Seq<char>| file_view(old, new, p)),
        edges: edges.map_values(
            |e: PairView| (e.0, e.1, membership_change(old.edges.contains(e), new.edges.contains(e))),
        ),
        calls: calls.map_values(
            |c: (PairView, PairView)| (c.0, c.1, membership_change(old.calls.contains(c), new.calls.contains(c))),
        ),
        skipped_files: skipped.len(),
        unresolved: union_pairs(old.unknown, new.unknown).len(),
    }
}

/// The old snapshot's side, without the files skipped in either snapshot.
pub open spec fn old_side(before: &Snapshot, after: &Snapshot) -> SideView {
    let skipped = skipped_paths(before.skipped.deep_view(), after.skipped.deep_view());
    side(without(before.modules@, skipped), without(before.metadata@, skipped))
}

/// The new snapshot's side, without the files skipped in either snapshot.
pub open spec fn new_side(before: &Snapshot, after: &Snapshot) -> SideView {
    let skipped = skipped_paths(before.skipped.deep_view(), after.skipped.deep_view());
    side(without(after.modules@, skipped), without(after.metadata@, skipped))
}

/// The paths of the files of the graph: those with a module on either side,
/// sorted.
pub open spec fn listed_paths(before: &Snapshot, after: &Snapshot) -> Seq<Seq<char>> {
    union_keys(union_keys(Seq::empty(), old_side(before, after).paths), new_side(before, after).paths)
}

/// A call edge as plain values.
pub open spec fn call_edge_view(c: CallEdge) -> (PairView, PairView, Change) {
    ((c.from.file@, c.from.name@), (c.to.file@, c.to.name@), c.change)
}

/// A call of the union marked by the sides it is in.
pub open spec fn marked_call(old: SideView, new: SideView, c: (PairView, PairView)) -> (PairView, PairView, Change) {
    (c.0, c.1, membership_change(old.calls.contains(c), new.calls.contains(c)))
}

/// A function node as plain values.
pub open spec fn function_node_view(f: FunctionNode) -> FunctionNodeView {
    (f.name@, f.line, f.change)
}

/// A file node as plain values.
pub open spec fn file_node_view(f: FileNode) -> FileView {
    (f.path@, f.package@, f.change, f.functions@.map_values(|n: FunctionNode| function_node_view(n)), f.entry)
}

/// A graph as plain values.
pub open spec fn graph_view(g: Graph) -> GraphView {
    GraphView {
        files: g.files@.map_values(|f: FileNode| file_node_view(f)),
        edges: g.edges@.map_values(|e: Edge| (e.from@, e.to@, e.change)),
        calls: g.calls@.map_values(|c: CallEdge| ((c.from.file@, c.from.name@), (c.to.file@, c.to.name@), c.change)),
        skipped_files: g.skipped_files as nat,
        unresolved: g.unresolved as nat,
    }
}

fn add_names(a: &mut Vec<String>, b: &Vec<String>)
    ensures
        final(a).deep_view() == union_keys(old(a).deep_view(), b.deep_view()),
{
    let ghost start = a.deep_view();
    let ghost bv = b.deep_view();
    let mut k: usize = 0;
    assert(bv.take(0) =~= Seq::<Seq<char>>::empty());
    while k < b.len()
        invariant
            k <= b@.len(),
            bv == b.deep_view(),
            a.deep_view() == union_keys(start, bv.take(k as int)),
        decreases b@.len() - k,
    {
        assert(bv.take(k + 1).drop_last() =~= bv.take(k as int));
        assert(bv.take(k + 1).last() == b@[k as int]@);
        add_name(a, b[k].clone());
        k = k + 1;
    }
    assert(bv.take(k as int) =~= bv);
}

fn add_keys_of<V: DeepView>(a: &mut Vec<String>, table: &Vec<(String, V)>)
    ensures
        final(a).deep_view() == union_keys(old(a).deep_view(), keys(table.deep_view())),
{
    let ghost start = a.deep_view();
    let ghost kv = keys(table.deep_view());
    let mut k: usize = 0;
    assert(kv.take(0) =~= Seq::<Seq<char>>::empty());
    while k < table.len()
        invariant
            k <= table@.len(),
            kv == keys(table.deep_view()),
            kv.len() == table@.len(),
            a.deep_view() == union_keys(start, kv.take(k as int)),
        decreases table@.len() - k,
    {
        assert(kv.take(k + 1).drop_last() =~= kv.take(k as int));
        assert(kv.take(k + 1).last() == table@[k as int].0@);
        add_name(a, table[k].0.clone());
        k = k + 1;
    }
    assert(kv.take(k as int) =~= kv);
}

fn add_pairs(a: &mut Vec<(String, String)>, b: &Vec<(String, String)>)
    ensures
        final(a).deep_view() == union_pairs(old(a).deep_view(), b.deep_view()),
{
    let ghost start = a.deep_view();
    let ghost bv = b.deep_view();
    let mut k: usize = 0;
    assert(bv.take(0) =~= Seq::<PairView>::empty());
    while k < b.len()
        invariant
            k <= b@.len(),
            bv == b.deep_view(),
            a.deep_view() == union_pairs(start, bv.take(k as int)),
        decreases b@.len() - k,
    {
        assert(bv.take(k + 1).drop_last() =~= bv.take(k as int));
        assert(bv.take(k + 1).last() == b@[k as int].deep_view());
        add_pair_entry(a, b[k].0.clone(), b[k].1.clone());
        k = k + 1;
    }
    assert(bv.take(k as int) =~= bv);
}

fn add_calls(a: &mut Vec<((String, String), (String, String))>, b: &Vec<((String, String), (String, String))>)
    ensures
        final(a).deep_view() == union_calls(old(a).deep_view(), b.deep_view()),
{
    let ghost start = a.deep_view();
    let ghost bv = b.deep_view();
    let mut k: usize = 0;
    assert(bv.take(0) =~= Seq::<(PairView, PairView)>::empty());
    while k < b.len()
        invariant
            k <= b@.len(),
            bv == b.deep_view(),
            a.deep_view() == union_calls(start, bv.take(k as int)),
        decreases b@.len() - k,
    {
        assert(bv.take(k + 1).drop_last() =~= bv.take(k as int));
        assert(bv.take(k + 1).last() == b@[k as int].deep_view());
        let c = ((b[k].0.0.clone(), b[k].0.1.clone()), (b[k].1.0.clone(), b[k].1.1.clone()));
        add_call_entry(a, c);
        k = k + 1;
    }
    assert(bv.take(k as int) =~= bv);
}

fn keep_entries<V>(v: Vec<(String, V)>, skipped: &Vec<String>) -> (r: Vec<(String, V)>)
    ensures
        r@ == without(v@, skipped.deep_view()),
{
    let ghost v0 = v@;
    let ghost sk = skipped.deep_view();
    let mut rest = v;
    let n = rest.len();
    let mut r: Vec<(String, V)> = Vec::new();
    let mut k: usize = 0;
    assert(v0.take(0) =~= Seq::<(String, V)>::empty());
    assert(v0.skip(0) =~= v0);
    assert(crate::radar::string_views(skipped@) =~= sk);
    while rest.len() > 0
        invariant
            k <= v0.len(),
            n == v0.len(),
            rest@ == v0.skip(k as int),
            sk == skipped.deep_view(),
            crate::radar::string_views(skipped@) == sk,
            r@ == without(v0.take(k as int), sk),
        decreases rest@.len(),
    {
        let e = rest.remove(0);
        assert(e == v0[k as int]);
        assert(rest@ =~= v0.skip(k + 1));
        assert(v0.take(k + 1).drop_last() =~= v0.take(k as int));
        assert(v0.take(k + 1).last() == v0[k as int]);
        if !crate::radar::contains_string(skipped, &e.0) {
            r.push(e);
        }
        k = k + 1;
    }
    assert(k == v0.len());
    assert(v0.take(k as int) =~= v0);
    r
}

/// A borrowed module as a module value.
pub open spec fn held(m: Option<&Module>) -> Option<Module> {
    match m {
        Some(x) => Some(*x),
        None => None,
    }
}

fn record_of<'m>(m: Option<&'m Module>, name: &String) -> (r: Option<&'m ParsedFunction>)
    ensures
        match r {
            Some(f) => function_in(held(m), name@) == Some(f.deep_view()),
            None => function_in(held(m), name@) is None,
        },
{
    match m {
        Some(x) => get_entry(&x.functions, name),
        None => None,
    }
}

fn node_between(old: Option<&ParsedFunction>, new: Option<&ParsedFunction>, name: &String) -> (r: FunctionNode)
    ensures
        function_node_view(r) == function_node(
            match old {
                Some(a) => Some(a.deep_view()),
                None => None,
            },
            match new {
                Some(b) => Some(b.deep_view()),
                None => None,
            },
            name@,
        ),
{
    let line = match new {
        Some(b) => b.line,
        None => match old {
            Some(a) => a.line,
            None => 0,
        },
    };
    let change = match (old, new) {
        (None, Some(_)) => Change::Added,
        (Some(_), None) => Change::Removed,
        (Some(a), Some(b)) => if a.signature != b.signature || a.body != b.body {
            Change::Modified
        } else {
            Change::Unchanged
        },
        (None, None) => Change::Unchanged,
    };
    FunctionNode { name: name.clone(), line, change }
}

/// Function nodes as plain values.
pub open spec fn node_views(v: Seq<FunctionNode>) -> Seq<FunctionNodeView> {
    v.map_values(|n: FunctionNode| function_node_view(n))
}

proof fn lemma_line_skip(s: Seq<FunctionNodeView>, e: FunctionNodeView, i: int)
    requires
        0 <= i <= s.len(),
        forall|j: int| 0 <= j < i ==> #[trigger] s[j].1 <= e.1,
    ensures
        line_insert(s, e) == s.take(i) + line_insert(s.skip(i), e),
    decreases i,
{
    if i == 0 {
        assert(s.skip(0) =~= s);
        assert(s.take(0) + line_insert(s.skip(0), e) =~= line_insert(s, e));
    } else {
        assert(s[0].1 <= e.1);
        lemma_line_skip(s.drop_first(), e, i - 1);
        assert(s.drop_first().skip(i - 1) =~= s.skip(i));
        assert(seq![s[0]] + s.drop_first().take(i - 1) =~= s.take(i));
        assert(seq![s[0]] + (s.drop_first().take(i - 1) + line_insert(s.skip(i), e)) =~= s.take(i) + line_insert(s.skip(i), e));
    }
}

fn insert_by_line(v: &mut Vec<FunctionNode>, e: FunctionNode)
    ensures
        node_views(final(v)@) == line_insert(node_views(old(v)@), function_node_view(e)),
{
    let ghost s = node_views(v@);
    let ghost ev = function_node_view(e);
    let mut i: usize = 0;
    while i < v.len() && v[i].line <= e.line
        invariant
            i <= v@.len(),
            v@ == old(v)@,
            s == node_views(v@),
            ev == function_node_view(e),
            forall|j: int| 0 <= j < i ==> #[trigger] s[j].1 <= ev.1,
        decreases v@.len() - i,
    {
        assert(s[i as int].1 == v@[i as int].line);
        i = i + 1;
    }
    proof {
        lemma_line_skip(s, ev, i as int);
        if i < v@.len() {
            assert(s[i as int].1 == v@[i as int].line);
            assert(s.skip(i as int)[0] == s[i as int]);
        }
    }
    v.insert(i, e);
    assert(node_views(v@) =~= s.take(i as int) + (seq![ev] + s.skip(i as int)));
}

fn nodes_by_line(nodes: Vec<FunctionNode>) -> (r: Vec<FunctionNode>)
    ensures
        node_views(r@) == by_line(node_views(nodes@)),
{
    let ghost nv = node_views(nodes@);
    let mut rest = nodes;
    let n = rest.len();
    let mut r: Vec<FunctionNode> = Vec::new();
    let mut k: usize = 0;
    assert(nv.take(0) =~= Seq::<FunctionNodeView>::empty());
    assert(node_views(r@) =~= Seq::<FunctionNodeView>::empty());
    while rest.len() > 0
        invariant
            k <= nv.len(),
            n == nv.len(),
            node_views(rest@) == nv.skip(k as int),
            rest@.len() == nv.len() - k,
            node_views(r@) == by_line(nv.take(k as int)),
        decreases rest@.len(),
    {
        let ghost rv = rest@;
        let e = rest.remove(0);
        assert(function_node_view(e) == nv[k as int]) by {
            assert(node_views(rv)[0] == function_node_view(rv[0]));
            assert(nv.skip(k as int)[0] == nv[k as int]);
        }
        assert(rest@ =~= rv.skip(1));
        assert(node_views(rest@) =~= node_views(rv).skip(1));
        assert(nv.skip(k as int).skip(1) =~= nv.skip(k + 1));
        assert(node_views(rest@) =~= nv.skip(k + 1));
        assert(nv.take(k + 1).drop_last() =~= nv.take(k as int));
        assert(nv.take(k + 1).last() == nv[k as int]);
        insert_by_line(&mut r, e);
        k = k + 1;
    }
    assert(nv.take(k as int) =~= nv);
    r
}

fn function_list(om: Option<&Module>, nm: Option<&Module>) -> (r: Vec<FunctionNode>)
    ensures
        node_views(r@) == by_line(
            function_nodes(
                held(om),
                held(nm),
                union_keys(union_keys(Seq::empty(), function_names(held(om))), function_names(held(nm))),
            ),
        ),
{
    let mut names: Vec<String> = Vec::new();
    assert(names.deep_view() =~= Seq::<Seq<char>>::empty());
    match om {
        Some(m) => add_keys_of(&mut names, &m.functions),
        None => {
            assert(union_keys(Seq::empty(), function_names(held(om))) =~= Seq::<Seq<char>>::empty());
        },
    }
    match nm {
        Some(m) => add_keys_of(&mut names, &m.functions),
        None => {},
    }
    let ghost all = names.deep_view();
    let mut nodes: Vec<FunctionNode> = Vec::new();
    let mut k: usize = 0;
    assert(all.take(0) =~= Seq::<Seq<char>>::empty());
    assert(node_views(nodes@) =~= Seq::<FunctionNodeView>::empty());
    while k < names.len()
        invariant
            k <= names@.len(),
            all == names.deep_view(),
            node_views(nodes@) == function_nodes(held(om), held(nm), all.take(k as int)),
        decreases names@.len() - k,
    {
        assert(all.take(k + 1).drop_last() =~= all.take(k as int));
        assert(all.take(k + 1).last() == names@[k as int]@);
        let a = record_of(om, &names[k]);
        let b = record_of(nm, &names[k]);
        let node = node_between(a, b, &names[k]);
        let ghost before = node_views(nodes@);
        nodes.push(node);
        assert(node_views(nodes@) =~= before.push(function_node_view(node)));
        k = k + 1;
    }
    assert(all.take(k as int) =~= all);
    nodes_by_line(nodes)
}

/// What `file_view` reads of a resolver's snapshot.
pub open spec fn listing(r: &Resolver) -> SideView {
    SideView {
        modules: r.snapshot.modules@,
        paths: r.paths(),
        pkgs: r.package_view(),
        configs: r.config_view(),
        edges: Seq::empty(),
        unknown: Seq::empty(),
        calls: Seq::empty(),
    }
}

fn file_node(old_r: &Resolver, new_r: &Resolver, path: &String) -> (f: FileNode)
    ensures
        file_node_view(f) == file_view(listing(old_r), listing(new_r), path@),
{
    let om = module_in(&old_r.snapshot.modules, path);
    let nm = module_in(&new_r.snapshot.modules, path);
    let change = match (om, nm) {
        (None, Some(_)) => Change::Added,
        (Some(_), None) => Change::Removed,
        (Some(a), Some(b)) => if a.fingerprint != b.fingerprint {
            Change::Modified
        } else {
            Change::Unchanged
        },
        (None, None) => Change::Unchanged,
    };
    let functions = function_list(om, nm);
    let package = if nm.is_some() {
        new_r.package(path.as_str())
    } else {
        old_r.package(path.as_str())
    };
    let entry = old_r.is_entry(path.as_str()) || new_r.is_entry(path.as_str());
    let f = FileNode { path: path.clone(), package, change, functions, entry };
    assert(f.functions@.map_values(|n: FunctionNode| function_node_view(n)) == node_views(f.functions@));
    f
}

fn has_call(set: &Vec<((String, String), (String, String))>, c: &((String, String), (String, String))) -> (b: bool)
    ensures
        b == set.deep_view().contains(c.deep_view()),
{
    let ghost sv = set.deep_view();
    let mut i: usize = 0;
    while i < set.len()
        invariant
            i <= set@.len(),
            sv == set.deep_view(),
            forall|k: int| 0 <= k < i ==> sv[k] != c.deep_view(),
        decreases set@.len() - i,
    {
        assert(sv[i as int] == set@[i as int].deep_view());
        if set[i].0.0 == c.0.0 && set[i].0.1 == c.0.1 && set[i].1.0 == c.1.0 && set[i].1.1 == c.1.1 {
            return true;
        }
        i = i + 1;
    }
    false
}

fn copy_pairs(v: &Vec<(String, String)>) -> (r: Vec<(String, String)>)
    ensures
        r.deep_view() == v.deep_view(),
{
    let mut r: Vec<(String, String)> = Vec::new();
    let mut i: usize = 0;
    while i < v.len()
        invariant
            i <= v@.len(),
            r.deep_view() == v.deep_view().take(i as int),
        decreases v@.len() - i,
    {
        let ghost before = r.deep_view();
        r.push((v[i].0.clone(), v[i].1.clone()));
        assert(r.deep_view() =~= before.push(v@[i as int].deep_view()));
        assert(v.deep_view().take(i + 1) =~= v.deep_view().take(i as int).push(v@[i as int].deep_view()));
        i = i + 1;
    }
    assert(v.deep_view().take(i as int) =~= v.deep_view());
    r
}

fn copy_calls(v: &Vec<((String, String), (String, String))>) -> (r: Vec<((String, String), (String, String))>)
    ensures
        r.deep_view() == v.deep_view(),
{
    let mut r: Vec<((String, String), (String, String))> = Vec::new();
    let mut i: usize = 0;
    while i < v.len()
        invariant
            i <= v@.len(),
            r.deep_view() == v.deep_view().take(i as int),
        decreases v@.len() - i,
    {
        let ghost before = r.deep_view();
        r.push(((v[i].0.0.clone(), v[i].0.1.clone()), (v[i].1.0.clone(), v[i].1.1.clone())));
        assert(r.deep_view() =~= before.push(v@[i as int].deep_view()));
        assert(v.deep_view().take(i + 1) =~= v.deep_view().take(i as int).push(v@[i as int].deep_view()));
        i = i + 1;
    }
    assert(v.deep_view().take(i as int) =~= v.deep_view());
    r
}

/// The graph between two snapshots before the call context is narrowed
/// (see [`built_graph`]).
pub fn build_graph(before: Snapshot, after: Snapshot) -> (g: Graph)
    ensures
        graph_view(g) == built_graph(&before, &after),
{
    let ghost spec_before = before;
    let ghost spec_after = after;
    let mut skipped: Vec<String> = Vec::new();
    assert(skipped.deep_view() =~= Seq::<Seq<char>>::empty());
    add_names(&mut skipped, &before.skipped);
    add_names(&mut skipped, &after.skipped);
    let Snapshot { sources: s1, hashes: h1, modules: m1, metadata: d1, skipped: k1 } = before;
    let Snapshot { sources: s2, hashes: h2, modules: m2, metadata: d2, skipped: k2 } = after;
    let old_snap = Snapshot { sources: s1, hashes: h1, modules: keep_entries(m1, &skipped), metadata: keep_entries(d1, &skipped), skipped: k1 };
    let new_snap = Snapshot { sources: s2, hashes: h2, modules: keep_entries(m2, &skipped), metadata: keep_entries(d2, &skipped), skipped: k2 };
    let old_r = Resolver::new(&old_snap);
    let new_r = Resolver::new(&new_snap);
    let (old_edges, old_unknown) = old_r.edges();
    let (new_edges, new_unknown) = new_r.edges();
    let old_calls = call_edges(&old_r);
    let new_calls = call_edges(&new_r);
    let ghost old = old_side(&spec_before, &spec_after);
    let ghost new = new_side(&spec_before, &spec_after);
    assert(old.edges == old_edges.deep_view() && old.unknown == old_unknown.deep_view() && old.calls == old_calls.deep_view());
    assert(new.edges == new_edges.deep_view() && new.unknown == new_unknown.deep_view() && new.calls == new_calls.deep_view());
    let mut paths: Vec<String> = Vec::new();
    assert(paths.deep_view() =~= Seq::<Seq<char>>::empty());
    assert(keys(old_snap.modules.deep_view()) =~= old.paths);
    assert(keys(new_snap.modules.deep_view()) =~= new.paths);
    add_keys_of(&mut paths, &old_snap.modules);
    add_keys_of(&mut paths, &new_snap.modules);
    let ghost pv = paths.deep_view();
    let mut files: Vec<FileNode> = Vec::new();
    let mut k: usize = 0;
    while k < paths.len()
        invariant
            k <= paths@.len(),
            pv == paths.deep_view(),
            files@.len() == k,
            forall|j: int| 0 <= j < k ==> file_node_view(#[trigger] files@[j]) == file_view(old, new, pv[j]),
            listing(&old_r).modules == old.modules && listing(&old_r).paths == old.paths && listing(&old_r).pkgs == old.pkgs,
            listing(&new_r).modules == new.modules && listing(&new_r).paths == new.paths && listing(&new_r).pkgs == new.pkgs,
        decreases paths@.len() - k,
    {
        let f = file_node(&old_r, &new_r, &paths[k]);
        assert(pv[k as int] == paths@[k as int]@);
        files.push(f);
        k = k + 1;
    }
    assert(files@.map_values(|f: FileNode| file_node_view(f)) =~= pv.map_values(|p: Seq<char>| file_view(old, new, p)));
    let mut all_edges = copy_pairs(&old_edges);
    add_pairs(&mut all_edges, &new_edges);
    let ghost ev = all_edges.deep_view();
    let mut edges: Vec<Edge> = Vec::new();
    let mut i: usize = 0;
    while i < all_edges.len()
        invariant
            i <= all_edges@.len(),
            ev == all_edges.deep_view(),
            old.edges == old_edges.deep_view(),
            new.edges == new_edges.deep_view(),
            edges@.len() == i,
            forall|j: int|
                0 <= j < i ==> (#[trigger] edges@[j].from@, edges@[j].to@, edges@[j].change) == (
                    ev[j].0,
                    ev[j].1,
                    membership_change(old.edges.contains(ev[j]), new.edges.contains(ev[j])),
                ),
        decreases all_edges@.len() - i,
    {
        let e = &all_edges[i];
        assert(ev[i as int] == e.deep_view());
        let change = if !seen_pair(&old_edges, e) {
            Change::Added
        } else if !seen_pair(&new_edges, e) {
            Change::Removed
        } else {
            Change::Unchanged
        };
        edges.push(Edge { from: e.0.clone(), to: e.1.clone(), change });
        i = i + 1;
    }
    assert(edges@.map_values(|e: Edge| (e.from@, e.to@, e.change)) =~= ev.map_values(
        |e: PairView| (e.0, e.1, membership_change(old.edges.contains(e), new.edges.contains(e))),
    ));
    let mut all_calls_v = copy_calls(&old_calls);
    add_calls(&mut all_calls_v, &new_calls);
    let ghost cv = all_calls_v.deep_view();
    let mut calls: Vec<CallEdge> = Vec::new();
    let mut j: usize = 0;
    assert(calls@.map_values(|c: CallEdge| call_edge_view(c)) =~= cv.take(0).map_values(|c: (PairView, PairView)| marked_call(old, new, c)));
    while j < all_calls_v.len()
        invariant
            j <= all_calls_v@.len(),
            cv == all_calls_v.deep_view(),
            old.calls == old_calls.deep_view(),
            new.calls == new_calls.deep_view(),
            calls@.map_values(|c: CallEdge| call_edge_view(c)) == cv.take(j as int).map_values(|c: (PairView, PairView)| marked_call(old, new, c)),
        decreases all_calls_v@.len() - j,
    {
        let c = &all_calls_v[j];
        assert(cv[j as int] == c.deep_view());
        let change = if !has_call(&old_calls, c) {
            Change::Added
        } else if !has_call(&new_calls, c) {
            Change::Removed
        } else {
            Change::Unchanged
        };
        let edge = CallEdge {
            from: FunctionId { file: c.0.0.clone(), name: c.0.1.clone() },
            to: FunctionId { file: c.1.0.clone(), name: c.1.1.clone() },
            change,
        };
        assert(call_edge_view(edge) == marked_call(old, new, cv[j as int]));
        let ghost before = calls@;
        calls.push(edge);
        assert(calls@.map_values(|c: CallEdge| call_edge_view(c)) =~= before.map_values(|c: CallEdge| call_edge_view(c)).push(call_edge_view(edge)));
        assert(cv.take(j + 1).map_values(|c: (PairView, PairView)| marked_call(old, new, c)) =~= cv.take(j as int).map_values(
            |c: (PairView, PairView)| marked_call(old, new, c),
        ).push(marked_call(old, new, cv[j as int])));
        j = j + 1;
    }
    assert(cv.take(j as int) =~= cv);
    assert(calls@.map_values(|c: CallEdge| ((c.from.file@, c.from.name@), (c.to.file@, c.to.name@), c.change)) =~= cv.map_values(
        |c: (PairView, PairView)| (c.0, c.1, membership_change(old.calls.contains(c), new.calls.contains(c))),
    )) by {
        let l = calls@.map_values(|c: CallEdge| call_edge_view(c));
        let r = cv.map_values(|c: (PairView, PairView)| marked_call(old, new, c));
        assert forall|t: int| 0 <= t < cv.len() implies #[trigger] calls@[t] == calls@[t] && l[t] == r[t] by {}
    }
    let mut unknown = copy_pairs(&old_unknown);
    add_pairs(&mut unknown, &new_unknown);
    Graph { files, edges, calls, skipped_files: skipped.len(), unresolved: unknown.len() }
}

proof fn lemma_union_keys(a: Seq<Seq<char>>, b: Seq<Seq<char>>)
    requires
        strictly_sorted(a),
    ensures
        strictly_sorted(union_keys(a, b)),
        union_keys(a, b).to_set() == a.to_set().union(b.to_set()),
    decreases b.len(),
{
    if b.len() == 0 {
        assert(b.to_set() =~= Set::<Seq<char>>::empty());
        assert(a.to_set().union(b.to_set()) =~= a.to_set());
    } else {
        lemma_union_keys(a, b.drop_last());
        add_key_keeps_order(union_keys(a, b.drop_last()), b.last());
        assert(b.to_set() =~= b.drop_last().to_set().insert(b.last())) by {
            assert forall|x: Seq<char>| b.to_set().contains(x) <==> b.drop_last().to_set().insert(b.last()).contains(x) by {
                if b.to_set().contains(x) {
                    let i = choose|i: int| 0 <= i < b.len() && b[i] == x;
                    if i < b.len() - 1 {
                        assert(b.drop_last()[i] == x);
                    }
                }
                if b.drop_last().to_set().contains(x) {
                    let i = choose|i: int| 0 <= i < b.drop_last().len() && b.drop_last()[i] == x;
                    assert(b[i] == x);
                }
                if x == b.last() {
                    assert(b[b.len() - 1] == x);
                }
            }
        }
        assert(union_keys(a, b).to_set() =~= a.to_set().union(b.to_set()));
    }
}

proof fn lemma_sorted_distinct(s: Seq<Seq<char>>, i: int, j: int)
    requires
        strictly_sorted(s),
        0 <= i < s.len(),
        0 <= j < s.len(),
        i != j,
    ensures
        s[i] != s[j],
{
    if i < j {
        assert(crate::file_tree::lex_less(s[i], s[j]));
        lemma_lex_irreflexive(s[i]);
    } else {
        assert(crate::file_tree::lex_less(s[j], s[i]));
        lemma_lex_irreflexive(s[j]);
    }
}

proof fn lemma_function_nodes(om: Option<Module>, nm: Option<Module>, names: Seq<Seq<char>>)
    ensures
        function_nodes(om, nm, names).len() == names.len(),
        forall|k: int| 0 <= k < names.len() ==> (#[trigger] function_nodes(om, nm, names)[k]).0 == names[k],
    decreases names.len(),
{
    if names.len() > 0 {
        lemma_function_nodes(om, nm, names.drop_last());
        let r = function_nodes(om, nm, names);
        assert forall|k: int| 0 <= k < names.len() implies (#[trigger] r[k]).0 == names[k] by {
            if k < names.len() - 1 {
                assert(r[k] == function_nodes(om, nm, names.drop_last())[k]);
                assert(names.drop_last()[k] == names[k]);
            }
        }
    }
}

/// The names of function nodes are distinct.
pub open spec fn distinct_names(s: Seq<FunctionNodeView>) -> bool {
    forall|i: int, j: int| 0 <= i < j < s.len() ==> #[trigger] s[i].0 != #[trigger] s[j].0
}

proof fn lemma_line_insert(s: Seq<FunctionNodeView>, e: FunctionNodeView)
    ensures
        line_insert(s, e).len() == s.len() + 1,
        forall|x: FunctionNodeView| #[trigger] line_insert(s, e).contains(x) <==> (s.contains(x) || x == e),
        distinct_names(s) && (forall|i: int| 0 <= i < s.len() ==> #[trigger] s[i].0 != e.0) ==> distinct_names(line_insert(s, e)),
    decreases s.len(),
{
    let r = line_insert(s, e);
    if s.len() == 0 {
        assert(r =~= seq![e]);
        assert forall|x: FunctionNodeView| r.contains(x) <==> (s.contains(x) || x == e) by {
            if x == e {
                assert(r[0] == e);
            }
        }
    } else if s[0].1 <= e.1 {
        let t = s.drop_first();
        lemma_line_insert(t, e);
        let rt = line_insert(t, e);
        assert(r =~= seq![s[0]] + rt);
        assert forall|x: FunctionNodeView| r.contains(x) <==> (s.contains(x) || x == e) by {
            if r.contains(x) {
                let i = choose|i: int| 0 <= i < r.len() && r[i] == x;
                if i > 0 {
                    assert(rt[i - 1] == x);
                    assert(rt.contains(x));
                    if t.contains(x) {
                        let m = choose|m: int| 0 <= m < t.len() && t[m] == x;
                        assert(s[m + 1] == x);
                    }
                } else {
                    assert(s[0] == x);
                }
            }
            if s.contains(x) {
                let i = choose|i: int| 0 <= i < s.len() && s[i] == x;
                if i == 0 {
                    assert(r[0] == x);
                } else {
                    assert(t[i - 1] == x);
                    assert(t.contains(x));
                    assert(rt.contains(x));
                    let m = choose|m: int| 0 <= m < rt.len() && rt[m] == x;
                    assert(r[m + 1] == x);
                }
            }
            if x == e {
                assert(rt.contains(x));
                let m = choose|m: int| 0 <= m < rt.len() && rt[m] == x;
                assert(r[m + 1] == x);
            }
        }
        if distinct_names(s) && (forall|i: int| 0 <= i < s.len() ==> #[trigger] s[i].0 != e.0) {
            assert(distinct_names(t)) by {
                assert forall|i: int, j: int| 0 <= i < j < t.len() implies #[trigger] t[i].0 != #[trigger] t[j].0 by {
                    assert(t[i] == s[i + 1] && t[j] == s[j + 1]);
                }
            }
            assert forall|i: int| 0 <= i < t.len() implies #[trigger] t[i].0 != e.0 by {
                assert(t[i] == s[i + 1]);
            }
            assert forall|i: int, j: int| 0 <= i < j < r.len() implies #[trigger] r[i].0 != #[trigger] r[j].0 by {
                if i == 0 {
                    assert(r[j] == rt[j - 1]);
                    assert(rt.contains(rt[j - 1]));
                    if rt[j - 1] == e {
                    } else {
                        assert(t.contains(rt[j - 1]));
                        let m = choose|m: int| 0 <= m < t.len() && t[m] == rt[j - 1];
                        assert(s[m + 1] == t[m]);
                    }
                } else {
                    assert(r[i] == rt[i - 1] && r[j] == rt[j - 1]);
                }
            }
        }
    } else {
        assert(r =~= seq![e] + s);
        assert forall|x: FunctionNodeView| r.contains(x) <==> (s.contains(x) || x == e) by {
            if r.contains(x) {
                let i = choose|i: int| 0 <= i < r.len() && r[i] == x;
                if i > 0 {
                    assert(s[i - 1] == x);
                }
            }
            if s.contains(x) {
                let i = choose|i: int| 0 <= i < s.len() && s[i] == x;
                assert(r[i + 1] == x);
            }
            if x == e {
                assert(r[0] == x);
            }
        }
        if distinct_names(s) && (forall|i: int| 0 <= i < s.len() ==> #[trigger] s[i].0 != e.0) {
            assert forall|i: int, j: int| 0 <= i < j < r.len() implies #[trigger] r[i].0 != #[trigger] r[j].0 by {
                if i == 0 {
                    assert(r[j] == s[j - 1]);
                } else {
                    assert(r[i] == s[i - 1] && r[j] == s[j - 1]);
                }
            }
        }
    }
}

proof fn lemma_by_line(s: Seq<FunctionNodeView>)
    ensures
        by_line(s).len() == s.len(),
        forall|x: FunctionNodeView| #[trigger] by_line(s).contains(x) <==> s.contains(x),
        distinct_names(s) ==> distinct_names(by_line(s)),
    decreases s.len(),
{
    if s.len() > 0 {
        let t = s.drop_last();
        lemma_by_line(t);
        lemma_line_insert(by_line(t), s.last());
        assert forall|x: FunctionNodeView| by_line(s).contains(x) <==> s.contains(x) by {
            if s.contains(x) {
                let i = choose|i: int| 0 <= i < s.len() && s[i] == x;
                if i < s.len() - 1 {
                    assert(t[i] == x);
                }
            }
            if t.contains(x) {
                let i = choose|i: int| 0 <= i < t.len() && t[i] == x;
                assert(s[i] == x);
            }
        }
        if distinct_names(s) {
            assert(distinct_names(t)) by {
                assert forall|i: int, j: int| 0 <= i < j < t.len() implies #[trigger] t[i].0 != #[trigger] t[j].0 by {
                    assert(t[i] == s[i] && t[j] == s[j]);
                }
            }
            let b = by_line(t);
            assert forall|i: int| 0 <= i < b.len() implies #[trigger] b[i].0 != s.last().0 by {
                assert(b.contains(b[i]));
                assert(t.contains(b[i]));
                let m = choose|m: int| 0 <= m < t.len() && t[m] == b[i];
                assert(s[m] == t[m]);
            }
        }
    }
}

proof fn lemma_add_call_contains(s: Seq<(PairView, PairView)>, c: (PairView, PairView))
    ensures
        forall|x: (PairView, PairView)| #[trigger] add_call(s, c).contains(x) ==> s.contains(x) || x == c,
    decreases s.len(),
{
    if s.len() > 0 && s[0] != c && !crate::keyed::call_less(c, s[0]) {
        lemma_add_call_contains(s.drop_first(), c);
        let r = add_call(s, c);
        let rt = add_call(s.drop_first(), c);
        assert(r =~= seq![s[0]] + rt);
        assert forall|x: (PairView, PairView)| #[trigger] r.contains(x) implies s.contains(x) || x == c by {
            let i = choose|i: int| 0 <= i < r.len() && r[i] == x;
            if i == 0 {
                assert(s[0] == x);
            } else {
                assert(rt[i - 1] == x);
                assert(rt.contains(x));
                if s.drop_first().contains(x) {
                    let m = choose|m: int| 0 <= m < s.drop_first().len() && s.drop_first()[m] == x;
                    assert(s[m + 1] == x);
                }
            }
        }
    } else if s.len() > 0 && s[0] != c {
        let r = add_call(s, c);
        assert(r =~= seq![c] + s);
        assert forall|x: (PairView, PairView)| #[trigger] r.contains(x) implies s.contains(x) || x == c by {
            let i = choose|i: int| 0 <= i < r.len() && r[i] == x;
            if i > 0 {
                assert(s[i - 1] == x);
            }
        }
    } else if s.len() == 0 {
        assert forall|x: (PairView, PairView)| #[trigger] add_call(s, c).contains(x) implies s.contains(x) || x == c by {
            let r = add_call(s, c);
            let i = choose|i: int| 0 <= i < r.len() && r[i] == x;
        }
    }
}

proof fn lemma_union_calls_contains(a: Seq<(PairView, PairView)>, b: Seq<(PairView, PairView)>)
    ensures
        forall|x: (PairView, PairView)| #[trigger] union_calls(a, b).contains(x) ==> a.contains(x) || b.contains(x),
    decreases b.len(),
{
    if b.len() > 0 {
        lemma_union_calls_contains(a, b.drop_last());
        lemma_add_call_contains(union_calls(a, b.drop_last()), b.last());
        assert forall|x: (PairView, PairView)| #[trigger] union_calls(a, b).contains(x) implies a.contains(x) || b.contains(x) by {
            if x == b.last() {
                assert(b[b.len() - 1] == x);
            } else {
                assert(union_calls(a, b.drop_last()).contains(x));
                if b.drop_last().contains(x) {
                    let m = choose|m: int| 0 <= m < b.drop_last().len() && b.drop_last()[m] == x;
                    assert(b[m] == x);
                }
            }
        }
    }
}

/// A call made by a callable of one of the modules `ms`.
pub open spec fn made_in(ms: Seq<(String, Module)>, x: (PairView, PairView)) -> bool {
    exists|k: int| 0 <= k < ms.len() && #[trigger] ms[k].0@ == x.0.0 && keys(ms[k].1.functions.deep_view()).contains(x.0.1)
}

proof fn lemma_function_calls(
    modules: Seq<(String, Module)>,
    paths: Seq<Seq<char>>,
    pkgs: Seq<(Seq<char>, JsonValue)>,
    configs: Seq<(Seq<char>, ConfigView)>,
    path: Seq<char>,
    m: Module,
    caller: Seq<char>,
    f: FunctionView,
    targets: Seq<Seq<char>>,
    acc: Seq<(PairView, PairView)>,
)
    ensures
        forall|x: (PairView, PairView)| #[trigger] function_calls(modules, paths, pkgs, configs, path, m, caller, f, targets, acc).contains(x)
            ==> acc.contains(x) || x.0 == (path, caller),
    decreases targets.len(),
{
    if targets.len() > 0 {
        lemma_function_calls(modules, paths, pkgs, configs, path, m, caller, f, targets.drop_last(), acc);
        let a = function_calls(modules, paths, pkgs, configs, path, m, caller, f, targets.drop_last(), acc);
        match crate::call_edges::call_target(modules, paths, pkgs, configs, path, m, caller, f, targets.last()) {
            Some(to) => {
                lemma_add_call_contains(a, ((path, caller), to));
            },
            None => {},
        }
    }
}

proof fn lemma_module_calls(
    modules: Seq<(String, Module)>,
    paths: Seq<Seq<char>>,
    pkgs: Seq<(Seq<char>, JsonValue)>,
    configs: Seq<(Seq<char>, ConfigView)>,
    path: Seq<char>,
    m: Module,
    fs: Seq<(Seq<char>, FunctionView)>,
    acc: Seq<(PairView, PairView)>,
)
    ensures
        forall|x: (PairView, PairView)| #[trigger] module_calls(modules, paths, pkgs, configs, path, m, fs, acc).contains(x)
            ==> acc.contains(x) || (x.0.0 == path && keys(fs).contains(x.0.1)),
    decreases fs.len(),
{
    if fs.len() > 0 {
        lemma_module_calls(modules, paths, pkgs, configs, path, m, fs.drop_last(), acc);
        let a = module_calls(modules, paths, pkgs, configs, path, m, fs.drop_last(), acc);
        lemma_function_calls(modules, paths, pkgs, configs, path, m, fs.last().0, fs.last().1, fs.last().1.3, a);
        assert forall|x: (PairView, PairView)| #[trigger] module_calls(modules, paths, pkgs, configs, path, m, fs, acc).contains(x)
            implies acc.contains(x) || (x.0.0 == path && keys(fs).contains(x.0.1)) by {
            if a.contains(x) {
                if !acc.contains(x) {
                    let q = choose|q: int| 0 <= q < keys(fs.drop_last()).len() && keys(fs.drop_last())[q] == x.0.1;
                    assert(keys(fs)[q] == x.0.1);
                }
            } else {
                assert(keys(fs)[fs.len() - 1] == fs.last().0);
            }
        }
    }
}

proof fn lemma_all_calls(
    modules: Seq<(String, Module)>,
    paths: Seq<Seq<char>>,
    pkgs: Seq<(Seq<char>, JsonValue)>,
    configs: Seq<(Seq<char>, ConfigView)>,
    ms: Seq<(String, Module)>,
)
    ensures
        forall|x: (PairView, PairView)| #[trigger] all_calls(modules, paths, pkgs, configs, ms).contains(x) ==> made_in(ms, x),
    decreases ms.len(),
{
    if ms.len() > 0 {
        lemma_all_calls(modules, paths, pkgs, configs, ms.drop_last());
        let a = all_calls(modules, paths, pkgs, configs, ms.drop_last());
        lemma_module_calls(modules, paths, pkgs, configs, ms.last().0@, ms.last().1, ms.last().1.functions.deep_view(), a);
        assert forall|x: (PairView, PairView)| #[trigger] all_calls(modules, paths, pkgs, configs, ms).contains(x) implies made_in(ms, x) by {
            if a.contains(x) {
                assert(made_in(ms.drop_last(), x));
                let k = choose|k: int| 0 <= k < ms.drop_last().len() && #[trigger] ms.drop_last()[k].0@ == x.0.0
                    && keys(ms.drop_last()[k].1.functions.deep_view()).contains(x.0.1);
                assert(ms[k] == ms.drop_last()[k]);
            } else {
                assert(ms[ms.len() - 1] == ms.last());
            }
        }
    }
}

proof fn lemma_without<V>(s: Seq<(String, V)>, sk: Seq<Seq<char>>)
    requires
        unique_keys(s),
    ensures
        unique_keys(without(s, sk)),
        forall|x: (String, V)| #[trigger] without(s, sk).contains(x) ==> s.contains(x),
    decreases s.len(),
{
    if s.len() > 0 {
        let t = s.drop_last();
        assert(unique_keys(t)) by {
            assert forall|i: int, j: int| 0 <= i < j < t.len() implies #[trigger] t[i].0@ != #[trigger] t[j].0@ by {
                assert(t[i] == s[i] && t[j] == s[j]);
            }
        }
        lemma_without(t, sk);
        let w = without(t, sk);
        assert forall|x: (String, V)| #[trigger] w.contains(x) implies s.contains(x) by {
            assert(t.contains(x));
            let m = choose|m: int| 0 <= m < t.len() && t[m] == x;
            assert(s[m] == x);
        }
        if !sk.contains(s.last().0@) {
            let r = w.push(s.last());
            assert forall|i: int, j: int| 0 <= i < j < r.len() implies #[trigger] r[i].0@ != #[trigger] r[j].0@ by {
                if j == r.len() - 1 {
                    assert(r[i] == w[i]);
                    assert(w.contains(w[i]));
                    assert(t.contains(w[i]));
                    let m = choose|m: int| 0 <= m < t.len() && t[m] == w[i];
                    assert(s[m] == t[m]);
                    assert(s[s.len() - 1] == s.last());
                } else {
                    assert(r[i] == w[i] && r[j] == w[j]);
                }
            }
            assert forall|x: (String, V)| #[trigger] r.contains(x) implies s.contains(x) by {
                let i = choose|i: int| 0 <= i < r.len() && r[i] == x;
                if i == r.len() - 1 {
                    assert(s[s.len() - 1] == x);
                } else {
                    assert(w[i] == x);
                    assert(w.contains(x));
                }
            }
        }
    }
}

proof fn lemma_module_at(ms: Seq<(String, Module)>, k: int)
    requires
        unique_keys(ms),
        0 <= k < ms.len(),
    ensures
        module_at(ms, ms[k].0@) == Some(ms[k].1),
    decreases k,
{
    if k > 0 {
        let t = ms.drop_first();
        assert(unique_keys(t)) by {
            assert forall|i: int, j: int| 0 <= i < j < t.len() implies #[trigger] t[i].0@ != #[trigger] t[j].0@ by {
                assert(t[i] == ms[i + 1] && t[j] == ms[j + 1]);
            }
        }
        assert(ms[0].0@ != ms[k].0@);
        lemma_module_at(t, k - 1);
        assert(t[k - 1] == ms[k]);
    }
}

/// The files of `g` are the files of the sides `old` and `new`, in the
/// order of `pv`.
pub open spec fn files_listed(g: Graph, pv: Seq<Seq<char>>, old: SideView, new: SideView) -> bool {
    g.files@.len() == pv.len() && forall|i: int| 0 <= i < pv.len() ==> file_node_view(#[trigger] g.files@[i]) == file_view(old, new, pv[i])
}

proof fn lemma_names_sorted(om: Option<Module>, nm: Option<Module>)
    ensures
        strictly_sorted(union_keys(union_keys(Seq::empty(), function_names(om)), function_names(nm))),
        union_keys(union_keys(Seq::empty(), function_names(om)), function_names(nm)).to_set()
            == function_names(om).to_set().union(function_names(nm).to_set()),
{
    let e = Seq::<Seq<char>>::empty();
    lemma_union_keys(e, function_names(om));
    lemma_union_keys(union_keys(e, function_names(om)), function_names(nm));
    assert(e.to_set() =~= Set::<Seq<char>>::empty());
    assert(union_keys(union_keys(e, function_names(om)), function_names(nm)).to_set() =~= function_names(om).to_set().union(
        function_names(nm).to_set(),
    ));
}

proof fn lemma_file_functions(g: Graph, pv: Seq<Seq<char>>, old: SideView, new: SideView, i: int)
    requires
        files_listed(g, pv, old, new),
        0 <= i < pv.len(),
    ensures
        g.files@[i].path@ == pv[i],
        forall|j: int, k: int| 0 <= j < k < g.files@[i].functions@.len() ==> #[trigger] g.files@[i].functions@[j].name@ != #[trigger] g.files@[i].functions@[k].name@,
{
    let p = pv[i];
    let om = module_at(old.modules, p);
    let nm = module_at(new.modules, p);
    let names = union_keys(union_keys(Seq::empty(), function_names(om)), function_names(nm));
    let nodes = function_nodes(om, nm, names);
    let f = g.files@[i];
    assert(file_node_view(f) == file_view(old, new, p));
    assert(node_views(f.functions@) == by_line(nodes));
    lemma_names_sorted(om, nm);
    lemma_function_nodes(om, nm, names);
    assert(distinct_names(nodes)) by {
        assert forall|a: int, b: int| 0 <= a < b < nodes.len() implies #[trigger] nodes[a].0 != #[trigger] nodes[b].0 by {
            lemma_sorted_distinct(names, a, b);
        }
    }
    lemma_by_line(nodes);
    let fv = node_views(f.functions@);
    assert forall|j: int, k: int| 0 <= j < k < f.functions@.len() implies #[trigger] f.functions@[j].name@ != #[trigger] f.functions@[k].name@ by {
        assert(fv[j].0 == f.functions@[j].name@);
        assert(fv[k].0 == f.functions@[k].name@);
    }
}

proof fn lemma_file_has(g: Graph, pv: Seq<Seq<char>>, old: SideView, new: SideView, i: int, name: Seq<char>)
    requires
        files_listed(g, pv, old, new),
        0 <= i < pv.len(),
        function_names(module_at(old.modules, pv[i])).contains(name) || function_names(module_at(new.modules, pv[i])).contains(name),
    ensures
        function_listed(g.files@, (pv[i], name)),
{
    let p = pv[i];
    let om = module_at(old.modules, p);
    let nm = module_at(new.modules, p);
    let names = union_keys(union_keys(Seq::empty(), function_names(om)), function_names(nm));
    let nodes = function_nodes(om, nm, names);
    let f = g.files@[i];
    assert(file_node_view(f) == file_view(old, new, p));
    let fv = node_views(f.functions@);
    assert(fv == by_line(nodes));
    lemma_names_sorted(om, nm);
    lemma_function_nodes(om, nm, names);
    lemma_by_line(nodes);
    assert(function_names(om).to_set().contains(name) || function_names(nm).to_set().contains(name));
    assert(names.to_set().contains(name));
    let q = choose|q: int| 0 <= q < names.len() && names[q] == name;
    assert(nodes[q].0 == name);
    assert(nodes.contains(nodes[q]));
    assert(by_line(nodes).contains(nodes[q]));
    let j = choose|j: int| 0 <= j < fv.len() && fv[j] == nodes[q];
    assert(fv[j] == function_node_view(f.functions@[j]));
    assert(f.functions@[j].name@ == name);
    assert(f.path@ == p);
}

proof fn lemma_made_listed(g: Graph, pv: Seq<Seq<char>>, old: SideView, new: SideView, ms: Seq<(String, Module)>, x: (PairView, PairView))
    requires
        files_listed(g, pv, old, new),
        ms == old.modules || ms == new.modules,
        unique_keys(ms),
        made_in(ms, x),
        old.paths == module_paths(old.modules),
        new.paths == module_paths(new.modules),
        pv.to_set() == old.paths.to_set().union(new.paths.to_set()),
    ensures
        function_listed(g.files@, x.0),
{
    let k = choose|k: int| 0 <= k < ms.len() && #[trigger] ms[k].0@ == x.0.0 && keys(ms[k].1.functions.deep_view()).contains(x.0.1);
    let file = x.0.0;
    lemma_module_at(ms, k);
    assert(module_paths(ms)[k] == file);
    assert(module_paths(ms).to_set().contains(file));
    assert(pv.to_set().contains(file));
    let i = choose|i: int| 0 <= i < pv.len() && pv[i] == file;
    assert(function_names(module_at(ms, pv[i])).contains(x.0.1));
    lemma_file_has(g, pv, old, new, i, x.0.1);
}

proof fn lemma_graph_files(before: Snapshot, after: Snapshot, g: Graph)
    requires
        graph_view(g) == built_graph(&before, &after),
    ensures
        files_listed(g, listed_paths(&before, &after), old_side(&before, &after), new_side(&before, &after)),
        listed_paths(&before, &after).to_set() == old_side(&before, &after).paths.to_set().union(new_side(&before, &after).paths.to_set()),
        paths_unique(g.files@),
        functions_unique(g.files@),
{
    let old = old_side(&before, &after);
    let new = new_side(&before, &after);
    let e = Seq::<Seq<char>>::empty();
    let pv = listed_paths(&before, &after);
    lemma_union_keys(e, old.paths);
    lemma_union_keys(union_keys(e, old.paths), new.paths);
    assert(e.to_set() =~= Set::<Seq<char>>::empty());
    assert(pv.to_set() =~= old.paths.to_set().union(new.paths.to_set()));
    assert(graph_view(g).files == pv.map_values(|p: Seq<char>| file_view(old, new, p)));
    assert(files_listed(g, pv, old, new)) by {
        assert forall|i: int| 0 <= i < pv.len() implies file_node_view(#[trigger] g.files@[i]) == file_view(old, new, pv[i]) by {
            assert(graph_view(g).files[i] == file_node_view(g.files@[i]));
        }
    }
    assert forall|i: int, j: int| 0 <= i < j < g.files@.len() implies #[trigger] g.files@[i].path@ != #[trigger] g.files@[j].path@ by {
        lemma_file_functions(g, pv, old, new, i);
        lemma_file_functions(g, pv, old, new, j);
        lemma_sorted_distinct(pv, i, j);
    }
    assert forall|i: int, j: int, k: int|
        0 <= i < g.files@.len() && 0 <= j < k < g.files@[i].functions@.len() implies #[trigger] g.files@[i].functions@[j].name@
            != #[trigger] g.files@[i].functions@[k].name@ by {
        lemma_file_functions(g, pv, old, new, i);
    }
}

proof fn lemma_graph_calls(before: Snapshot, after: Snapshot, g: Graph)
    requires
        before.wf(),
        after.wf(),
        graph_view(g) == built_graph(&before, &after),
        files_listed(g, listed_paths(&before, &after), old_side(&before, &after), new_side(&before, &after)),
        listed_paths(&before, &after).to_set() == old_side(&before, &after).paths.to_set().union(new_side(&before, &after).paths.to_set()),
    ensures
        callers_listed(g.files@, g.calls@),
{
    let sk = skipped_paths(before.skipped.deep_view(), after.skipped.deep_view());
    let old = old_side(&before, &after);
    let new = new_side(&before, &after);
    let pv = listed_paths(&before, &after);
    crate::resolver::sorted_tables_are_unique(before.modules@);
    crate::resolver::sorted_tables_are_unique(after.modules@);
    lemma_without(before.modules@, sk);
    lemma_without(after.modules@, sk);
    let cv = union_calls(old.calls, new.calls);
    lemma_union_calls_contains(old.calls, new.calls);
    lemma_all_calls(old.modules, old.paths, old.pkgs, old.configs, old.modules);
    lemma_all_calls(new.modules, new.paths, new.pkgs, new.configs, new.modules);
    let calls_view = cv.map_values(
        |c: (PairView, PairView)| (c.0, c.1, membership_change(old.calls.contains(c), new.calls.contains(c))),
    );
    assert(graph_view(g).calls == calls_view);
    assert forall|t: int| 0 <= t < g.calls@.len() implies function_listed(g.files@, fid_view(#[trigger] g.calls@[t].from)) by {
        assert(graph_view(g).calls[t] == ((g.calls@[t].from.file@, g.calls@[t].from.name@), (g.calls@[t].to.file@, g.calls@[t].to.name@), g.calls@[t].change));
        assert(calls_view[t].0 == cv[t].0);
        let x = cv[t];
        assert(cv.contains(x));
        if old.calls.contains(x) {
            lemma_made_listed(g, pv, old, new, old.modules, x);
        } else {
            lemma_made_listed(g, pv, old, new, new.modules, x);
        }
    }
}

/// `g` is `g0` with only the functions and calls in context kept (see
/// `retain_context`): the same files, edges and counts, each file's
/// functions and the calls filtered.
pub open spec fn narrowed(g0: Graph, g: Graph) -> bool {
    &&& g.edges == g0.edges
    &&& g.skipped_files == g0.skipped_files
    &&& g.unresolved == g0.unresolved
    &&& g.files@.len() == g0.files@.len()
    &&& forall|i: int|
        0 <= i < g.files@.len() ==> {
            &&& (#[trigger] g.files@[i]).path == g0.files@[i].path
            &&& g.files@[i].package == g0.files@[i].package
            &&& g.files@[i].change == g0.files@[i].change
            &&& g.files@[i].entry == g0.files@[i].entry
            &&& g.files@[i].functions@ == g0.files@[i].functions@.filter(keeps_function(g0.files@, g0.calls@, g0.files@[i].path@))
        }
    &&& g.calls@ == g0.calls@.filter(keeps_call(g0.files@, g0.calls@))
}

/// The dependency graph of a review between the snapshots `before` and
/// `after`: [`built_graph`], then narrowed to the call context.
pub fn compare(before: Snapshot, after: Snapshot) -> (g: Graph)
    requires
        before.wf(),
        after.wf(),
    ensures
        exists|g0: Graph| graph_view(g0) == built_graph(&before, &after) && #[trigger] narrowed(g0, g),
{
    let ghost b = before;
    let ghost a = after;
    let mut g = build_graph(before, after);
    proof {
        lemma_graph_files(b, a, g);
        lemma_graph_calls(b, a, g);
    }
    let ghost g0 = g;
    retain_context(&mut g);
    assert(narrowed(g0, g));
    g
}


proof fn lemma_without_skips<V>(s: Seq<(String, V)>, sk: Seq<Seq<char>>)
    ensures
        forall|i: int| 0 <= i < without(s, sk).len() ==> !sk.contains(#[trigger] without(s, sk)[i].0@),
    decreases s.len(),
{
    if s.len() > 0 {
        lemma_without_skips(s.drop_last(), sk);
        let w = without(s.drop_last(), sk);
        if !sk.contains(s.last().0@) {
            assert forall|i: int| 0 <= i < w.push(s.last()).len() implies !sk.contains(#[trigger] w.push(s.last())[i].0@) by {
                if i < w.len() {
                    assert(w.push(s.last())[i] == w[i]);
                }
            }
        }
    }
}

/// Files that could not be read in either snapshot are left out of the
/// graph altogether: no file of the graph is one of them.
pub proof fn skipped_files_are_left_out(before: Snapshot, after: Snapshot)
    ensures
        forall|i: int|
            0 <= i < built_graph(&before, &after).files.len() ==> !skipped_paths(before.skipped.deep_view(), after.skipped.deep_view()).contains(
                (#[trigger] built_graph(&before, &after).files[i]).0,
            ),
{
    let sk = skipped_paths(before.skipped.deep_view(), after.skipped.deep_view());
    let old = old_side(&before, &after);
    let new = new_side(&before, &after);
    let e = Seq::<Seq<char>>::empty();
    let pv = listed_paths(&before, &after);
    lemma_union_keys(e, old.paths);
    lemma_union_keys(union_keys(e, old.paths), new.paths);
    assert(e.to_set() =~= Set::<Seq<char>>::empty());
    assert(pv.to_set() =~= old.paths.to_set().union(new.paths.to_set()));
    lemma_without_skips(before.modules@, sk);
    lemma_without_skips(after.modules@, sk);
    let g = built_graph(&before, &after);
    assert forall|i: int| 0 <= i < g.files.len() implies !sk.contains((#[trigger] g.files[i]).0) by {
        assert(g.files[i] == file_view(old, new, pv[i]));
        assert(pv.to_set().contains(pv[i]));
        if old.paths.to_set().contains(pv[i]) {
            let k = choose|k: int| 0 <= k < old.paths.len() && old.paths[k] == pv[i];
            assert(old.paths[k] == old.modules[k].0@);
        } else {
            let k = choose|k: int| 0 <= k < new.paths.len() && new.paths[k] == pv[i];
            assert(new.paths[k] == new.modules[k].0@);
        }
    }
}

} // verus!
